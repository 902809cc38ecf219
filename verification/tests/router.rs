use socket_router::hub::{DirectSendError, Hub, TOPIC_CAPACITY};
use socket_router::identity::ClientId;
use socket_router::message::Message;
use socket_router::permission::{evaluate, PermissionLevel};
use socket_router::pipeline::{apply_outbound, MapperOutcome};
use socket_router::session::{
    dispatch_frame, handle_frame, session_step, session_step_hooks, Frame, Session, SessionEvent,
    SessionPhase, SocketHooks,
};

fn key(s: &str) -> String {
    s.to_string()
}

fn msg(k: &str, p: &str) -> Message {
    Message::new(k.to_string(), p.to_string())
}

// session_step takes (sess, hub, event, levels, outcomes); helper applies an
// event with no hook contributions.
fn step(sess: &mut Session, hub: &mut Hub, event: SessionEvent) {
    session_step(sess, hub, event, &Vec::new(), &Vec::new());
}

#[test]
fn two_subscribers_receive_one_publish_each() {
    // Two connections subscribe to one room key; a third publishes with full
    // permission; both subscribers receive exactly one message; a fourth
    // connection that never subscribed receives nothing.
    let mut hub = Hub::new();
    let a = ClientId(1);
    let b = ClientId(2);
    let c = ClientId(3);
    let d = ClientId(4);
    for id in [a, b, c, d] {
        hub.connect(id);
    }
    let room = key("{\"room_id\":\"r1\"}");
    hub.subscribe(a, &room);
    hub.subscribe(b, &room);

    let mut sess_c = Session { client: c, phase: SessionPhase::Open };
    let mut hub2 = hub;
    session_step(
        &mut sess_c,
        &mut hub2,
        SessionEvent::Inbound(Frame::Msg {
            key: room.clone(),
            payload: "{\"text\":\"hi\"}".to_string(),
        }),
        &Vec::new(),
        &Vec::new(),
    );

    let got_a = hub2.pump_subscriptions(a);
    let got_b = hub2.pump_subscriptions(b);
    let got_d = hub2.pump_subscriptions(d);
    assert_eq!(got_a, vec![msg("{\"room_id\":\"r1\"}", "{\"text\":\"hi\"}")]);
    assert_eq!(got_b, vec![msg("{\"room_id\":\"r1\"}", "{\"text\":\"hi\"}")]);
    assert!(got_d.is_empty());
    assert_eq!(hub2.delivered_to(a).len(), 1);
    assert_eq!(hub2.delivered_to(b).len(), 1);
    assert!(hub2.delivered_to(d).is_empty());
}

#[test]
fn no_replay_for_new_subscriber() {
    let mut hub = Hub::new();
    let a = ClientId(1);
    hub.connect(a);
    let k = key("{\"room\":\"history\"}");
    hub.publish(&k, &"{\"n\":1}".to_string());
    hub.publish(&k, &"{\"n\":2}".to_string());
    hub.subscribe(a, &k);
    let got = hub.pump_subscriptions(a);
    assert!(got.is_empty());
    assert!(hub.delivered_to(a).is_empty());
}

#[test]
fn publish_order_is_preserved() {
    let mut hub = Hub::new();
    let a = ClientId(9);
    hub.connect(a);
    let k = key("{\"q\":1}");
    hub.subscribe(a, &k);
    hub.publish(&k, &"\"m1\"".to_string());
    hub.publish(&k, &"\"m2\"".to_string());
    let got = hub.pump_subscriptions(a);
    assert_eq!(got, vec![msg("{\"q\":1}", "\"m1\""), msg("{\"q\":1}", "\"m2\"")]);
}

#[test]
fn unsubscribe_then_publish_delivers_nothing() {
    let mut hub = Hub::new();
    let a = ClientId(5);
    hub.connect(a);
    let k = key("{\"t\":\"x\"}");
    hub.subscribe(a, &k);
    hub.unsubscribe(a, &k);
    hub.publish(&k, &"\"gone\"".to_string());
    let got = hub.pump_subscriptions(a);
    assert!(got.is_empty());
}

#[test]
fn unsubscribe_without_subscription_is_idempotent() {
    let mut hub = Hub::new();
    let a = ClientId(5);
    hub.connect(a);
    let k = key("{\"t\":\"x\"}");
    hub.unsubscribe(a, &k);
    hub.unsubscribe(a, &k);
    assert_eq!(hub.subscription_count(), 0);
}

#[test]
fn permission_levels_compose_via_minimum() {
    let allow = PermissionLevel::Allow;
    let read_only = PermissionLevel::ReadOnly;
    let deny = PermissionLevel::Deny;
    assert_eq!(evaluate(&vec![read_only, allow]), read_only);
    assert_eq!(evaluate(&vec![allow, read_only]), read_only);
    assert_eq!(evaluate(&vec![deny, allow, read_only]), deny);
    assert_eq!(evaluate(&vec![allow, read_only, deny]), deny);
    assert_eq!(evaluate(&vec![]), allow);
    assert_eq!(evaluate(&vec![allow, allow]), allow);
}

#[test]
fn gating_thresholds() {
    assert!(PermissionLevel::Allow.can_subscribe());
    assert!(PermissionLevel::ReadOnly.can_subscribe());
    assert!(!PermissionLevel::Deny.can_subscribe());
    assert!(PermissionLevel::Allow.can_send());
    assert!(!PermissionLevel::ReadOnly.can_send());
    assert!(!PermissionLevel::Deny.can_send());
}

#[test]
fn denied_subscribe_creates_no_forwarding_task() {
    let mut hub = Hub::new();
    let a = ClientId(7);
    hub.connect(a);
    let k = key("{\"secret\":true}");
    dispatch_frame(
        &mut hub,
        a,
        Frame::Subscribe { key: k.clone() },
        &vec![PermissionLevel::Deny],
        &Vec::new(),
    );
    assert_eq!(hub.subscription_count(), 0);
    hub.publish(&k, &"\"leak\"".to_string());
    assert!(hub.pump_subscriptions(a).is_empty());
}

#[test]
fn read_only_may_subscribe_but_not_publish() {
    let mut hub = Hub::new();
    let a = ClientId(7);
    hub.connect(a);
    let k = key("{\"room\":\"ro\"}");
    dispatch_frame(
        &mut hub,
        a,
        Frame::Subscribe { key: k.clone() },
        &vec![PermissionLevel::ReadOnly],
        &Vec::new(),
    );
    assert_eq!(hub.subscription_count(), 1);
    dispatch_frame(
        &mut hub,
        a,
        Frame::Msg { key: k.clone(), payload: "\"nope\"".to_string() },
        &vec![PermissionLevel::ReadOnly],
        &Vec::new(),
    );
    assert!(hub.pump_subscriptions(a).is_empty());
}

#[test]
fn vetoing_mapper_prevents_all_delivery() {
    let mut hub = Hub::new();
    let a = ClientId(11);
    hub.connect(a);
    let k = key("{\"c\":1}");
    hub.subscribe(a, &k);
    dispatch_frame(
        &mut hub,
        ClientId(12),
        Frame::Msg { key: k.clone(), payload: "\"blocked\"".to_string() },
        &Vec::new(),
        &vec![MapperOutcome::Veto],
    );
    assert!(hub.pump_subscriptions(a).is_empty());
}

#[test]
fn apply_outbound_first_match_wins() {
    let out = apply_outbound(
        &vec![
            MapperOutcome::NoMatch,
            MapperOutcome::Mapped("\"first\"".to_string()),
            MapperOutcome::Mapped("\"second\"".to_string()),
            MapperOutcome::Veto,
        ],
        "\"orig\"".to_string(),
    );
    assert_eq!(out, Some("\"first\"".to_string()));
}

#[test]
fn apply_outbound_passes_through_without_match() {
    let out = apply_outbound(
        &vec![MapperOutcome::NoMatch, MapperOutcome::NoMatch],
        "\"orig\"".to_string(),
    );
    assert_eq!(out, Some("\"orig\"".to_string()));
    let vetoed = apply_outbound(&vec![MapperOutcome::Veto], "\"orig\"".to_string());
    assert_eq!(vetoed, None);
}

struct SuffixHooks;

// Two mappers registered for the same message type: the first appends "-A",
// the second appends "-B". Only the first one ever fires.
impl SocketHooks for SuffixHooks {
    fn filter_count(&self) -> usize {
        0
    }

    fn filter_level(&self, _i: usize, _key: &String) -> PermissionLevel {
        PermissionLevel::Allow
    }

    fn mapper_count(&self) -> usize {
        2
    }

    fn mapper_outcome(&self, i: usize, _key: &String, payload: &String) -> MapperOutcome {
        let trimmed = payload.trim_matches('"');
        match i {
            0 => MapperOutcome::Mapped(format!("\"{}-A\"", trimmed)),
            _ => MapperOutcome::Mapped(format!("\"{}-B\"", trimmed)),
        }
    }
}

#[test]
fn first_registered_mapper_shadows_the_second() {
    let mut hub = Hub::new();
    let a = ClientId(21);
    let b = ClientId(22);
    hub.connect(a);
    hub.connect(b);
    let k = key("{\"m\":\"t\"}");
    hub.subscribe(a, &k);
    hub.subscribe(b, &k);
    handle_frame(
        &mut hub,
        &SuffixHooks,
        ClientId(23),
        Frame::Msg { key: k.clone(), payload: "\"x\"".to_string() },
    );
    assert_eq!(hub.pump_subscriptions(a), vec![msg("{\"m\":\"t\"}", "\"x-A\"")]);
    assert_eq!(hub.pump_subscriptions(b), vec![msg("{\"m\":\"t\"}", "\"x-A\"")]);
}

#[test]
fn send_direct_reaches_only_the_addressed_connection() {
    let mut hub = Hub::new();
    let a = ClientId(31);
    let b = ClientId(32);
    hub.connect(a);
    hub.connect(b);
    let k = key("{\"room\":\"shared\"}");
    hub.subscribe(a, &k);
    hub.subscribe(b, &k);
    let direct = msg("{\"room\":\"shared\"}", "\"only-a\"");
    assert!(hub.send_direct(a, direct).is_ok());
    let got_a = hub.pump_direct(a);
    let got_b = hub.pump_direct(b);
    assert_eq!(got_a, vec![msg("{\"room\":\"shared\"}", "\"only-a\"")]);
    assert!(got_b.is_empty());
    assert!(hub.pump_subscriptions(b).is_empty());
}

#[test]
fn send_direct_to_unknown_client_errors() {
    let mut hub = Hub::new();
    hub.connect(ClientId(41));
    let r = hub.send_direct(ClientId(42), msg("{}", "\"lost\""));
    assert_eq!(r, Err(DirectSendError::UnknownClient));
    assert_eq!(
        DirectSendError::UnknownClient.describe(),
        "unknown or disconnected client"
    );
    // Nothing was delivered anywhere.
    assert!(hub.pump_direct(ClientId(41)).is_empty());
    assert!(hub.pump_direct(ClientId(42)).is_empty());
}

#[test]
fn send_direct_to_closed_session_errors() {
    let mut hub = Hub::new();
    let a = ClientId(43);
    hub.connect(a);
    hub.close_session(a);
    let r = hub.send_direct(a, msg("{}", "\"late\""));
    assert_eq!(r, Err(DirectSendError::UnknownClient));
}

#[test]
fn slow_subscriber_loses_oldest_messages() {
    let mut hub = Hub::new();
    let a = ClientId(51);
    hub.connect(a);
    let k = key("{\"fast\":1}");
    hub.subscribe(a, &k);
    for n in 0..(TOPIC_CAPACITY + 2) {
        hub.publish(&k, &format!("\"m{}\"", n));
    }
    let got = hub.pump_subscriptions(a);
    assert_eq!(got.len(), TOPIC_CAPACITY);
    // The two oldest messages were dropped; delivery starts at m2.
    assert_eq!(got[0], msg("{\"fast\":1}", "\"m2\""));
    assert_eq!(got[TOPIC_CAPACITY - 1], msg("{\"fast\":1}", &format!("\"m{}\"", TOPIC_CAPACITY + 1)));
}

#[test]
fn publish_without_subscribers_is_discarded() {
    let mut hub = Hub::new();
    let k = key("{\"void\":0}");
    hub.publish(&k, &"\"nobody\"".to_string());
    assert!(hub.contains_topic(&k));
    assert_eq!(hub.subscription_count(), 0);
}

#[test]
fn ensure_topic_is_idempotent() {
    let mut hub = Hub::new();
    let k = key("{\"once\":true}");
    let h1 = hub.ensure_topic(&k);
    let h2 = hub.ensure_topic(&k);
    assert_eq!(h1, h2);
    assert_eq!(hub.topic_count(), 1);
    assert!(hub.contains_topic(&k));
    assert!(!hub.contains_topic(&key("{\"other\":true}")));
}

#[test]
fn session_lifecycle_gates_frames() {
    let mut hub = Hub::new();
    let a = ClientId(61);
    let mut sess = Session::begin(a);
    let k = key("{\"s\":1}");

    // Frames before the stream is established are not honored.
    step(
        &mut sess,
        &mut hub,
        SessionEvent::Inbound(Frame::Subscribe { key: k.clone() }),
    );
    assert_eq!(hub.subscription_count(), 0);
    assert_eq!(sess.phase, SessionPhase::Connecting);

    step(&mut sess, &mut hub, SessionEvent::Established);
    assert_eq!(sess.phase, SessionPhase::Open);
    assert!(hub.is_connected(a));

    step(
        &mut sess,
        &mut hub,
        SessionEvent::Inbound(Frame::Subscribe { key: k.clone() }),
    );
    assert_eq!(hub.subscription_count(), 1);

    // Teardown cancels the forwarding attachment and leaves the
    // direct-delivery map.
    step(&mut sess, &mut hub, SessionEvent::Ended);
    assert_eq!(sess.phase, SessionPhase::Closed);
    assert_eq!(hub.subscription_count(), 0);
    assert!(!hub.is_connected(a));

    // No frame is honored after close.
    step(
        &mut sess,
        &mut hub,
        SessionEvent::Inbound(Frame::Subscribe { key: k.clone() }),
    );
    assert_eq!(hub.subscription_count(), 0);
    assert_eq!(sess.phase, SessionPhase::Closed);
}

#[test]
fn session_step_hooks_ignores_hooks_without_frames() {
    let mut hub = Hub::new();
    let a = ClientId(62);
    let mut sess = Session::begin(a);
    session_step_hooks(&mut sess, &mut hub, &SuffixHooks, SessionEvent::Established);
    assert_eq!(sess.phase, SessionPhase::Open);
    session_step_hooks(&mut sess, &mut hub, &SuffixHooks, SessionEvent::Ended);
    assert_eq!(sess.phase, SessionPhase::Closed);
}
