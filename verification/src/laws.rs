//! Delivery guarantees of the router, stated and proved over the transition
//! functions of [`crate::hub`] and [`crate::session`].

use vstd::prelude::*;

use crate::hub::{
    lemma_backlog_push, lemma_publish_wf, lemma_remove_sub_wf, spec_conn_backlog,
    spec_ensure_topic, spec_publish, spec_send_direct, spec_subscribe, spec_unsubscribe, HubV,
    SubV, TOPIC_CAPACITY,
};
use crate::identity::ClientId;
use crate::message::MsgV;
use crate::permission::{spec_evaluate, PermissionLevel};
use crate::pipeline::{spec_apply_outbound, MapperOutcome};
use crate::session::{spec_dispatch, FrameV};

verus! {

/// A connection without attachments has an empty backlog.
pub proof fn lemma_backlog_none(subs: Seq<SubV>, c: ClientId)
    requires
        forall|i: int| 0 <= i < subs.len() ==> (#[trigger] subs[i]).conn != c,
    ensures
        spec_conn_backlog(subs, c) =~= Seq::<MsgV>::empty(),
    decreases subs.len(),
{
    if subs.len() > 0 {
        let dl = subs.drop_first();
        assert forall|i: int| 0 <= i < dl.len() implies (#[trigger] dl[i]).conn != c by {
            assert(dl[i] == subs[i + 1]);
        }
        lemma_backlog_none(dl, c);
    }
}

/// Every message in a connection's backlog has the key of one of the
/// connection's own attachments.
pub proof fn lemma_backlog_keys(subs: Seq<SubV>, c: ClientId, k: Seq<char>)
    requires
        forall|i: int|
            0 <= i < subs.len() && (#[trigger] subs[i]).conn == c ==> subs[i].key != k,
        forall|i: int, m: int|
            0 <= i < subs.len() && 0 <= m < subs[i].queue.len() ==> (
            #[trigger] subs[i].queue[m]).key == subs[i].key,
    ensures
        forall|t: int|
            0 <= t < spec_conn_backlog(subs, c).len() ==> (#[trigger] spec_conn_backlog(
                subs,
                c,
            )[t]).key != k,
    decreases subs.len(),
{
    if subs.len() > 0 {
        let dl = subs.drop_first();
        assert forall|i: int|
            0 <= i < dl.len() && (#[trigger] dl[i]).conn == c implies dl[i].key != k by {
            assert(dl[i] == subs[i + 1]);
        }
        assert forall|i: int, m: int|
            0 <= i < dl.len() && 0 <= m < dl[i].queue.len() implies (
        #[trigger] dl[i].queue[m]).key == dl[i].key by {
            assert(dl[i] == subs[i + 1]);
        }
        lemma_backlog_keys(dl, c, k);
        if subs.first().conn == c {
            assert(subs.first() == subs[0]);
            assert forall|t: int|
                0 <= t < spec_conn_backlog(subs, c).len() implies (#[trigger] spec_conn_backlog(
                subs,
                c,
            )[t]).key != k by {
                if t < subs.first().queue.len() {
                    assert(spec_conn_backlog(subs, c)[t] == subs[0].queue[t]);
                } else {
                    assert(spec_conn_backlog(subs, c)[t] == spec_conn_backlog(dl, c)[t
                        - subs.first().queue.len()]);
                }
            }
        } else {
            assert(spec_conn_backlog(subs, c) == spec_conn_backlog(dl, c));
            assert forall|t: int|
                0 <= t < spec_conn_backlog(subs, c).len() implies (#[trigger] spec_conn_backlog(
                subs,
                c,
            )[t]).key != k by {
                assert(spec_conn_backlog(subs, c)[t] == spec_conn_backlog(dl, c)[t]);
            }
        }
    }
}

/// No replay: a subscriber that attaches to a topic sees nothing that was
/// published before it attached. For a connection with no prior attachments,
/// subscribing after any publish leaves an empty backlog, so the forwarding
/// sweep that follows delivers nothing.
pub proof fn lemma_no_replay(h: HubV, c: ClientId, k: Seq<char>, p: Seq<char>)
    requires
        forall|i: int| 0 <= i < h.subs.len() ==> (#[trigger] h.subs[i]).conn != c,
    ensures
        spec_conn_backlog(spec_subscribe(spec_publish(h, k, p), c, k).subs, c)
            =~= Seq::<MsgV>::empty(),
{
    let h1 = spec_publish(h, k, p);
    let h2 = spec_subscribe(h1, c, k);
    assert forall|i: int| 0 <= i < h1.subs.len() implies (#[trigger] h1.subs[i]).conn != c by {
        assert(h1.subs[i].conn == h.subs[i].conn);
    }
    let released = spec_ensure_topic(h1, k).subs.map_values(
        |s: SubV|
            if s.handled && s.conn == c && s.key == k {
                SubV { handled: false, ..s }
            } else {
                s
            },
    );
    assert forall|i: int| 0 <= i < released.len() implies (#[trigger] released[i]).conn != c by {
        assert(released[i].conn == h1.subs[i].conn);
    }
    lemma_backlog_none(released, c);
    lemma_backlog_push(
        released,
        SubV { conn: c, key: k, queue: Seq::empty(), handled: true },
        c,
    );
    assert(spec_conn_backlog(h2.subs, c) =~= spec_conn_backlog(released, c)
        + Seq::<MsgV>::empty());
}

/// Order preservation: two successive publishes to one topic append their
/// messages in publish order to the queue of every attachment on the topic
/// that has room for both; the forwarding sweep then writes each queue to
/// the sink front to back, so a subscriber that loses nothing to overflow
/// observes the first message before the second.
pub proof fn lemma_publish_order(h: HubV, k: Seq<char>, p1: Seq<char>, p2: Seq<char>, i: int)
    requires
        h.wf(),
        0 <= i < h.subs.len(),
        h.subs[i].key == k,
        h.subs[i].queue.len() + 2 <= TOPIC_CAPACITY as int,
    ensures
        spec_publish(spec_publish(h, k, p1), k, p2).subs[i].queue =~= h.subs[i].queue.push(
            MsgV { key: k, payload: p1 },
        ).push(MsgV { key: k, payload: p2 }),
{
    let h1 = spec_publish(h, k, p1);
    assert(h1.subs[i].queue =~= h.subs[i].queue.push(MsgV { key: k, payload: p1 }));
}

/// Unsubscribing stops delivery: when the connection's only attachments to a
/// key are handled ones, unsubscribing and then publishing to the key leaves
/// no message with that key anywhere in the former subscriber's backlog.
pub proof fn lemma_unsubscribe_stops_delivery(h: HubV, c: ClientId, k: Seq<char>, p: Seq<char>)
    requires
        h.wf(),
        forall|i: int|
            0 <= i < h.subs.len() && (#[trigger] h.subs[i]).conn == c && h.subs[i].key == k
                ==> h.subs[i].handled,
    ensures
        forall|t: int|
            0 <= t < spec_conn_backlog(spec_publish(spec_unsubscribe(h, c, k), k, p).subs, c).len()
                ==> (#[trigger] spec_conn_backlog(
                spec_publish(spec_unsubscribe(h, c, k), k, p).subs,
                c,
            )[t]).key != k,
{
    let h1 = spec_unsubscribe(h, c, k);
    let h2 = spec_publish(h1, k, p);
    assert forall|i: int|
        0 <= i < h1.subs.len() && (#[trigger] h1.subs[i]).conn == c implies h1.subs[i].key
        != k by {
        if exists|w: int|
            0 <= w < h.subs.len() && h.subs[w].handled && h.subs[w].conn == c && h.subs[w].key
                == k {
            let w = choose|w: int|
                0 <= w < h.subs.len() && h.subs[w].handled && h.subs[w].conn == c && h.subs[w].key
                    == k;
            let i0 = if i < w {
                i
            } else {
                i + 1
            };
            assert(h1.subs[i] == h.subs[i0]);
            if h.subs[i0].conn == c && h.subs[i0].key == k {
                assert(h.subs[i0].handled);
                assert(i0 != w);
            }
        } else {
            assert(h1.subs[i] == h.subs[i]);
        }
    }
    assert forall|i: int|
        0 <= i < h2.subs.len() && (#[trigger] h2.subs[i]).conn == c implies h2.subs[i].key
        != k by {
        assert(h2.subs[i].conn == h1.subs[i].conn && h2.subs[i].key == h1.subs[i].key);
    }
    if exists|w: int|
        0 <= w < h.subs.len() && h.subs[w].handled && h.subs[w].conn == c && h.subs[w].key == k {
        let w = choose|w: int|
            0 <= w < h.subs.len() && h.subs[w].handled && h.subs[w].conn == c && h.subs[w].key
                == k;
        lemma_remove_sub_wf(h, w);
    }
    assert(h1.wf());
    lemma_publish_wf(h1, k, p);
    assert forall|i: int, m: int|
        0 <= i < h2.subs.len() && 0 <= m < h2.subs[i].queue.len() implies (
    #[trigger] h2.subs[i].queue[m]).key == h2.subs[i].key by {
        assert(h2.wf());
    }
    lemma_backlog_keys(h2.subs, c, k);
}

/// A denied subscribe creates no forwarding attachment: with effective
/// permission `Deny` the dispatch of a `Subscribe` frame changes nothing,
/// and a matching publish afterwards still delivers nothing to the denied
/// connection (it has no attachments to receive it).
pub proof fn lemma_deny_subscribe_no_task(
    h: HubV,
    c: ClientId,
    k: Seq<char>,
    p: Seq<char>,
    levels: Seq<PermissionLevel>,
    outcomes: Seq<MapperOutcome>,
)
    requires
        spec_evaluate(levels) == PermissionLevel::Deny,
        forall|i: int| 0 <= i < h.subs.len() ==> (#[trigger] h.subs[i]).conn != c,
    ensures
        spec_dispatch(h, c, FrameV::Subscribe { key: k }, spec_evaluate(levels), outcomes) == h,
        spec_conn_backlog(spec_publish(h, k, p).subs, c) =~= Seq::<MsgV>::empty(),
{
    let h1 = spec_publish(h, k, p);
    assert forall|i: int| 0 <= i < h1.subs.len() implies (#[trigger] h1.subs[i]).conn != c by {
        assert(h1.subs[i].conn == h.subs[i].conn);
    }
    lemma_backlog_none(h1.subs, c);
}

/// A vetoed publish reaches no one: when the mapper pipeline returns `None`
/// for the (key, payload) pair, dispatching the `Msg` frame leaves the
/// registry untouched, whatever the permission level.
pub proof fn lemma_veto_prevents_publish(
    h: HubV,
    c: ClientId,
    k: Seq<char>,
    p: Seq<char>,
    levels: Seq<PermissionLevel>,
    outcomes: Seq<MapperOutcome>,
)
    requires
        spec_apply_outbound(outcomes, p) is None,
    ensures
        spec_dispatch(h, c, FrameV::Msg { key: k, payload: p }, spec_evaluate(levels), outcomes)
            == h,
{
}

/// Direct delivery is point-to-point: a direct send touches no forwarding
/// attachment and no other connection's record, whatever topics appear in
/// the payload.
pub proof fn lemma_send_direct_isolated(h: HubV, c: ClientId, m: MsgV)
    ensures
        spec_send_direct(h, c, m).subs == h.subs,
        spec_send_direct(h, c, m).topics == h.topics,
        forall|j: int|
            0 <= j < h.clients.len() && (#[trigger] h.clients[j]).id != c ==> spec_send_direct(
                h,
                c,
                m,
            ).clients[j] == h.clients[j],
{
}

/// Creating a topic is idempotent: once a key has a channel, making sure of
/// it again changes nothing.
pub proof fn lemma_ensure_topic_idempotent(h: HubV, k: Seq<char>)
    ensures
        spec_ensure_topic(spec_ensure_topic(h, k), k) == spec_ensure_topic(h, k),
{
    let h1 = spec_ensure_topic(h, k);
    assert(h1.has_topic(k)) by {
        if !h.has_topic(k) {
            assert(h1.topics[h1.topics.len() - 1] == k);
        }
    }
}

} // verus!
