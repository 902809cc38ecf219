//! The per-connection session state machine.
//!
//! A session moves `Connecting -> Open -> Closed`. While open, every decoded
//! control frame dispatches against the shared [`Hub`]: a `Subscribe` frame
//! is honored only when the permission pipeline grants at least read access,
//! a `Msg` frame only with full access and the consent of the send mappers,
//! and an `Unsubscribe` frame unconditionally. The terminal transition tears
//! all of the connection's forwarding attachments down; no frame is honored
//! afterwards.
//!
//! The hooks themselves are application code. [`dispatch_frame`] takes their
//! contributions as data and is exact; [`handle_frame`] calls the hooks and
//! guarantees, whatever they return, that the result is one such dispatch.

use vstd::prelude::*;

use crate::hub::{
    spec_close_session, spec_connect, spec_publish, spec_subscribe, spec_unsubscribe, Hub, HubV,
};
use crate::identity::ClientId;
use crate::permission::{evaluate, spec_evaluate, PermissionLevel};
use crate::pipeline::{apply_outbound, spec_apply_outbound, MapperOutcome};

verus! {

/// One decoded control frame of the wire protocol.
#[derive(Debug, PartialEq, Eq)]
pub enum Frame {
    /// Publish `payload` to the topic for `key`.
    Msg { key: String, payload: String },
    /// Attach the connection to the topic for `key`.
    Subscribe { key: String },
    /// Detach the connection from the topic for `key`.
    Unsubscribe { key: String },
}

/// Ghost form of a [`Frame`].
pub enum FrameV {
    Msg { key: Seq<char>, payload: Seq<char> },
    Subscribe { key: Seq<char> },
    Unsubscribe { key: Seq<char> },
}

impl View for Frame {
    type V = FrameV;

    open spec fn view(&self) -> FrameV {
        match self {
            Frame::Msg { key, payload } => FrameV::Msg { key: key@, payload: payload@ },
            Frame::Subscribe { key } => FrameV::Subscribe { key: key@ },
            Frame::Unsubscribe { key } => FrameV::Unsubscribe { key: key@ },
        }
    }
}

/// The lifecycle phase of one connection.
#[derive(Clone, Copy, Debug, PartialEq, Eq, Structural)]
pub enum SessionPhase {
    /// The identity is minted, the stream is not yet established.
    Connecting,
    /// The bidirectional stream is live; frames are honored.
    Open,
    /// Terminal: the stream ended or a sink write failed.
    Closed,
}

/// Per-connection session state.
#[derive(Clone, Copy, Debug, PartialEq, Eq, Structural)]
pub struct Session {
    pub client: ClientId,
    pub phase: SessionPhase,
}

/// One thing that can happen to a session.
#[derive(Debug, PartialEq, Eq)]
pub enum SessionEvent {
    /// The bidirectional stream came up.
    Established,
    /// A control frame arrived and was decoded.
    Inbound(Frame),
    /// A close frame arrived, the stream ended, or a sink write failed.
    Ended,
}

/// Ghost form of a [`SessionEvent`].
pub enum SessionEventV {
    Established,
    Inbound(FrameV),
    Ended,
}

impl View for SessionEvent {
    type V = SessionEventV;

    open spec fn view(&self) -> SessionEventV {
        match self {
            SessionEvent::Established => SessionEventV::Established,
            SessionEvent::Inbound(f) => SessionEventV::Inbound(f@),
            SessionEvent::Ended => SessionEventV::Ended,
        }
    }
}

/// The registry change one inbound control frame causes, given the effective
/// permission for its key and the ordered outcomes of the send mappers.
/// Subscribing needs at least read access, publishing needs full access and
/// a payload that survives the mapper pipeline; a denied frame is a silent
/// no-op, by design, so that topic existence leaks nothing.
pub open spec fn spec_dispatch(
    h: HubV,
    conn: ClientId,
    f: FrameV,
    level: PermissionLevel,
    outcomes: Seq<MapperOutcome>,
) -> HubV {
    match f {
        FrameV::Subscribe { key } => if level.spec_can_subscribe() {
            spec_subscribe(h, conn, key)
        } else {
            h
        },
        FrameV::Unsubscribe { key } => spec_unsubscribe(h, conn, key),
        FrameV::Msg { key, payload } => if level.spec_can_send() {
            match spec_apply_outbound(outcomes, payload) {
                Option::Some(p) => spec_publish(h, key, p),
                Option::None => h,
            }
        } else {
            h
        },
    }
}

/// Dispatches one inbound frame of `conn`, taking the hook decisions as
/// data: `filter_levels` are the permission contributions for the frame's
/// key in registration order, `mapper_outcomes` the send-mapper outcomes for
/// the frame's (key, payload) pair in registration order.
pub fn dispatch_frame(
    hub: &mut Hub,
    conn: ClientId,
    frame: Frame,
    filter_levels: &Vec<PermissionLevel>,
    mapper_outcomes: &Vec<MapperOutcome>,
)
    requires
        old(hub)@.wf(),
    ensures
        final(hub)@ == spec_dispatch(
            old(hub)@,
            conn,
            frame@,
            spec_evaluate(filter_levels@),
            mapper_outcomes@,
        ),
        final(hub)@.wf(),
{
    match frame {
        Frame::Subscribe { key } => {
            let level = evaluate(filter_levels);
            if level.can_subscribe() {
                let _ = hub.subscribe(conn, &key);
            }
        },
        Frame::Unsubscribe { key } => {
            hub.unsubscribe(conn, &key);
        },
        Frame::Msg { key, payload } => {
            let level = evaluate(filter_levels);
            if level.can_send() {
                match apply_outbound(mapper_outcomes, payload) {
                    Option::Some(p) => {
                        hub.publish(&key, &p);
                    },
                    Option::None => {},
                }
            }
        },
    }
}

/// The hooks of one connection: permission filters and send mappers, each in
/// registration order, evaluated against the connection's context.
///
/// Applications implement this trait once, closing it over the statically
/// typed context value of the connection. A filter whose key type does not
/// match the incoming key abstains by returning `Allow`; a mapper whose
/// message type does not match reports `NoMatch`. Out-of-range indexes
/// abstain likewise.
pub trait SocketHooks {
    /// How many permission filters are registered.
    fn filter_count(&self) -> usize;

    /// The level that filter `i` contributes for `key`.
    fn filter_level(&self, i: usize, key: &String) -> PermissionLevel;

    /// How many send mappers are registered.
    fn mapper_count(&self) -> usize;

    /// What mapper `i` decides for the outbound (key, payload) pair.
    fn mapper_outcome(&self, i: usize, key: &String, payload: &String) -> MapperOutcome;
}

/// Handles one inbound frame of `conn`: asks every hook for its decision on
/// the frame's key, then dispatches. The hooks are application code and
/// promise nothing; whatever they return, the registry invariant is kept and
/// the state change is exactly [`spec_dispatch`] for the contribution
/// sequences the hooks produced.
pub fn handle_frame<H: SocketHooks>(hub: &mut Hub, hooks: &H, conn: ClientId, frame: Frame)
    requires
        old(hub)@.wf(),
    ensures
        final(hub)@.wf(),
        exists|levels: Seq<PermissionLevel>, outcomes: Seq<MapperOutcome>|
            final(hub)@ == spec_dispatch(
                old(hub)@,
                conn,
                frame@,
                spec_evaluate(levels),
                outcomes,
            ),
{
    let mut levels: Vec<PermissionLevel> = Vec::new();
    let mut outcomes: Vec<MapperOutcome> = Vec::new();
    match &frame {
        Frame::Subscribe { key } => {
            let n = hooks.filter_count();
            let mut i: usize = 0;
            while i < n
                decreases n - i,
            {
                levels.push(hooks.filter_level(i, key));
                i = i + 1;
            }
        },
        Frame::Unsubscribe { key: _ } => {},
        Frame::Msg { key, payload } => {
            let n = hooks.filter_count();
            let mut i: usize = 0;
            while i < n
                decreases n - i,
            {
                levels.push(hooks.filter_level(i, key));
                i = i + 1;
            }
            let m = hooks.mapper_count();
            let mut j: usize = 0;
            while j < m
                decreases m - j,
            {
                outcomes.push(hooks.mapper_outcome(j, key, payload));
                j = j + 1;
            }
        },
    }
    let ghost lv = levels@;
    let ghost oc = outcomes@;
    let ghost h0 = old(hub)@;
    let ghost fv = frame@;
    dispatch_frame(hub, conn, frame, &levels, &outcomes);
    proof {
        assert(final(hub)@ == spec_dispatch(h0, conn, fv, spec_evaluate(lv), oc));
    }
}

/// The session transition: what one event does to the session and to the
/// registry. `Connecting` waits for the stream; `Open` honors frames; the
/// end of the stream cancels all of the connection's forwarding attachments
/// and removes it from the direct-delivery map; a `Closed` session honors
/// nothing, ever again.
pub open spec fn spec_session_step(
    sess: Session,
    h: HubV,
    ev: SessionEventV,
    level: PermissionLevel,
    outcomes: Seq<MapperOutcome>,
) -> (Session, HubV) {
    match sess.phase {
        SessionPhase::Connecting => match ev {
            SessionEventV::Established => (
                Session { phase: SessionPhase::Open, ..sess },
                spec_connect(h, sess.client),
            ),
            SessionEventV::Inbound(_) => (sess, h),
            SessionEventV::Ended => (
                Session { phase: SessionPhase::Closed, ..sess },
                spec_close_session(h, sess.client),
            ),
        },
        SessionPhase::Open => match ev {
            SessionEventV::Established => (sess, h),
            SessionEventV::Inbound(f) => (sess, spec_dispatch(h, sess.client, f, level, outcomes)),
            SessionEventV::Ended => (
                Session { phase: SessionPhase::Closed, ..sess },
                spec_close_session(h, sess.client),
            ),
        },
        SessionPhase::Closed => (sess, h),
    }
}

impl Session {
    /// A session for a freshly minted identity, before its stream is up.
    pub fn begin(client: ClientId) -> (s: Session)
        ensures
            s == (Session { client, phase: SessionPhase::Connecting }),
    {
        Session { client, phase: SessionPhase::Connecting }
    }
}

/// Advances one session by one event, with the hook decisions given as data
/// (see [`dispatch_frame`] for their order).
pub fn session_step(
    sess: &mut Session,
    hub: &mut Hub,
    event: SessionEvent,
    filter_levels: &Vec<PermissionLevel>,
    mapper_outcomes: &Vec<MapperOutcome>,
)
    requires
        old(hub)@.wf(),
    ensures
        final(hub)@.wf(),
        (*final(sess), final(hub)@) == spec_session_step(
            *old(sess),
            old(hub)@,
            event@,
            spec_evaluate(filter_levels@),
            mapper_outcomes@,
        ),
{
    match sess.phase {
        SessionPhase::Connecting => match event {
            SessionEvent::Established => {
                sess.phase = SessionPhase::Open;
                hub.connect(sess.client);
            },
            SessionEvent::Inbound(_) => {},
            SessionEvent::Ended => {
                sess.phase = SessionPhase::Closed;
                hub.close_session(sess.client);
            },
        },
        SessionPhase::Open => match event {
            SessionEvent::Established => {},
            SessionEvent::Inbound(f) => {
                dispatch_frame(hub, sess.client, f, filter_levels, mapper_outcomes);
            },
            SessionEvent::Ended => {
                sess.phase = SessionPhase::Closed;
                hub.close_session(sess.client);
            },
        },
        SessionPhase::Closed => {},
    }
}

/// Advances one session by one event, asking the connection's hooks for
/// their decisions when the event carries a frame. Whatever the hooks
/// return, the step is exactly [`spec_session_step`] for the contribution
/// sequences they produced; events that carry no frame never consult them.
pub fn session_step_hooks<H: SocketHooks>(
    sess: &mut Session,
    hub: &mut Hub,
    hooks: &H,
    event: SessionEvent,
)
    requires
        old(hub)@.wf(),
    ensures
        final(hub)@.wf(),
        exists|levels: Seq<PermissionLevel>, outcomes: Seq<MapperOutcome>|
            (*final(sess), final(hub)@) == spec_session_step(
                *old(sess),
                old(hub)@,
                event@,
                spec_evaluate(levels),
                outcomes,
            ),
        !(event@ is Inbound) ==> (*final(sess), final(hub)@) == spec_session_step(
            *old(sess),
            old(hub)@,
            event@,
            PermissionLevel::Allow,
            Seq::<MapperOutcome>::empty(),
        ),
{
    match event {
        SessionEvent::Inbound(f) => {
            let is_open = match sess.phase {
                SessionPhase::Open => true,
                _ => false,
            };
            if is_open {
                handle_frame(hub, hooks, sess.client, f);
                proof {
                    let (lv, oc) = choose|lv: Seq<PermissionLevel>, oc: Seq<MapperOutcome>|
                        final(hub)@ == spec_dispatch(
                            old(hub)@,
                            sess.client,
                            f@,
                            spec_evaluate(lv),
                            oc,
                        );
                    assert((*final(sess), final(hub)@) == spec_session_step(
                        *old(sess),
                        old(hub)@,
                        event@,
                        spec_evaluate(lv),
                        oc,
                    ));
                }
            } else {
                proof {
                    assert((*final(sess), final(hub)@) == spec_session_step(
                        *old(sess),
                        old(hub)@,
                        event@,
                        PermissionLevel::Allow,
                        Seq::<MapperOutcome>::empty(),
                    ));
                }
            }
        },
        _ => {
            let empty_levels: Vec<PermissionLevel> = Vec::new();
            let empty_outcomes: Vec<MapperOutcome> = Vec::new();
            session_step(sess, hub, event, &empty_levels, &empty_outcomes);
            proof {
                assert(spec_evaluate(Seq::<PermissionLevel>::empty())
                    == PermissionLevel::Allow);
                assert(empty_levels@ =~= Seq::<PermissionLevel>::empty());
                assert(empty_outcomes@ =~= Seq::<MapperOutcome>::empty());
            }
        },
    }
}

} // verus!
