//! The topic registry and router state.
//!
//! A [`Hub`] owns every topic, every live forwarding attachment
//! ([`Subscription`]) and every per-connection delivery record ([`Client`]).
//! Topics are created lazily on first subscribe or first publish and are
//! never removed. Publishing fans a message out to the bounded queue of every
//! attachment on the topic (drop-oldest on overflow); a forwarding step later
//! drains those queues to the owning connection's outbound sink. Each
//! connection also owns a direct-delivery queue addressed by client identity,
//! which bypasses topics entirely.

use vstd::prelude::*;

use crate::identity::ClientId;
use crate::message::{msgs_view, Message, MsgV};

verus! {

/// How many pending messages one forwarding attachment buffers before the
/// oldest is dropped.
pub const TOPIC_CAPACITY: usize = 16;

/// One live forwarding attachment: messages published to `key` queue here
/// until the owning connection's forwarding step drains them to its sink.
#[derive(Debug)]
pub struct Subscription {
    pub conn: ClientId,
    pub key: String,
    /// Pending messages, oldest first; holds at most `TOPIC_CAPACITY`.
    pub queue: Vec<Message>,
    /// Whether the hub still holds the cancellation handle for this
    /// attachment. Re-subscribing without unsubscribing first leaks the
    /// previous attachment: it keeps forwarding but can no longer be
    /// cancelled on its own.
    pub handled: bool,
}

/// Ghost form of a [`Subscription`].
#[verifier::ext_equal]
pub struct SubV {
    pub conn: ClientId,
    pub key: Seq<char>,
    pub queue: Seq<MsgV>,
    pub handled: bool,
}

impl View for Subscription {
    type V = SubV;

    open spec fn view(&self) -> SubV {
        SubV { conn: self.conn, key: self.key@, queue: msgs_view(self.queue@), handled: self.handled }
    }
}

/// Per-connection delivery record.
#[derive(Debug)]
pub struct Client {
    pub id: ClientId,
    /// Messages addressed to this exact connection, not yet forwarded.
    pub direct: Vec<Message>,
    /// Everything written to this connection's outbound sink, in order.
    pub sink: Vec<Message>,
    /// False once the session has closed; a closed connection can no longer
    /// be addressed directly.
    pub open: bool,
}

/// Ghost form of a [`Client`].
#[verifier::ext_equal]
pub struct ClientV {
    pub id: ClientId,
    pub direct: Seq<MsgV>,
    pub sink: Seq<MsgV>,
    pub open: bool,
}

impl View for Client {
    type V = ClientV;

    open spec fn view(&self) -> ClientV {
        ClientV {
            id: self.id,
            direct: msgs_view(self.direct@),
            sink: msgs_view(self.sink@),
            open: self.open,
        }
    }
}

/// The router state: topic registry, forwarding attachments and
/// per-connection delivery records.
#[derive(Debug)]
pub struct Hub {
    pub topics: Vec<String>,
    pub subs: Vec<Subscription>,
    pub clients: Vec<Client>,
}

/// Ghost form of a [`Hub`].
#[verifier::ext_equal]
pub struct HubV {
    pub topics: Seq<Seq<char>>,
    pub subs: Seq<SubV>,
    pub clients: Seq<ClientV>,
}

impl View for Hub {
    type V = HubV;

    open spec fn view(&self) -> HubV {
        HubV {
            topics: self.topics@.map_values(|t: String| t@),
            subs: self.subs@.map_values(|s: Subscription| s@),
            clients: self.clients@.map_values(|c: Client| c@),
        }
    }
}

impl HubV {
    /// Whether a topic with this key has been created.
    pub open spec fn has_topic(self, k: Seq<char>) -> bool {
        exists|i: int| 0 <= i < self.topics.len() && self.topics[i] == k
    }

    /// Whether a record for this identity exists, open or closed.
    pub open spec fn has_client(self, c: ClientId) -> bool {
        exists|i: int| 0 <= i < self.clients.len() && self.clients[i].id == c
    }

    /// Whether a direct send can reach this client: its record exists and its
    /// session has not closed.
    pub open spec fn reachable(self, c: ClientId) -> bool {
        exists|i: int|
            0 <= i < self.clients.len() && self.clients[i].id == c && self.clients[i].open
    }

    /// Structural invariant of the router state.
    pub open spec fn wf(self) -> bool {
        &&& forall|i: int, j: int|
            0 <= i < j < self.topics.len() ==> self.topics[i] != self.topics[j]
        &&& forall|i: int, j: int|
            0 <= i < j < self.clients.len() ==> self.clients[i].id != self.clients[j].id
        &&& forall|i: int, j: int|
            0 <= i < j < self.subs.len() ==> !(self.subs[i].handled && self.subs[j].handled
                && self.subs[i].conn == self.subs[j].conn && self.subs[i].key == self.subs[j].key)
        &&& forall|i: int|
            0 <= i < self.subs.len() ==> (#[trigger] self.subs[i]).queue.len()
                <= TOPIC_CAPACITY as int
        &&& forall|i: int, m: int|
            0 <= i < self.subs.len() && 0 <= m < self.subs[i].queue.len()
                ==> (#[trigger] self.subs[i].queue[m]).key == self.subs[i].key
        &&& forall|i: int|
            0 <= i < self.subs.len() ==> self.has_topic((#[trigger] self.subs[i]).key)
    }
}

/// A sub's queue after one more message: append, dropping the oldest entry
/// when the queue is full.
pub open spec fn spec_enqueue(q: Seq<MsgV>, m: MsgV) -> Seq<MsgV> {
    if q.len() < TOPIC_CAPACITY as int {
        q.push(m)
    } else {
        q.drop_first().push(m)
    }
}

/// The state after making sure a topic for `k` exists: unchanged when the
/// topic is already there, otherwise the key is appended to the registry.
pub open spec fn spec_ensure_topic(h: HubV, k: Seq<char>) -> HubV {
    if h.has_topic(k) {
        h
    } else {
        HubV { topics: h.topics.push(k), ..h }
    }
}

/// The state after a new subscription of connection `c` to key `k`: the topic
/// is ensured, any previous handled attachment of (`c`, `k`) loses its handle
/// (it leaks), and a fresh attachment with an empty queue is appended. The
/// empty queue is what makes subscription replay-free: nothing published
/// before this point can ever reach the new attachment.
pub open spec fn spec_subscribe(h: HubV, c: ClientId, k: Seq<char>) -> HubV {
    let h1 = spec_ensure_topic(h, k);
    let released = h1.subs.map_values(
        |s: SubV|
            if s.handled && s.conn == c && s.key == k {
                SubV { handled: false, ..s }
            } else {
                s
            },
    );
    HubV {
        subs: released.push(SubV { conn: c, key: k, queue: Seq::empty(), handled: true }),
        ..h1
    }
}

/// The state after a publish of payload `p` to key `k`: the topic is ensured
/// and the message is enqueued on every attachment to `k`, with drop-oldest
/// overflow. With no attachment on `k` the message is discarded silently.
pub open spec fn spec_publish(h: HubV, k: Seq<char>, p: Seq<char>) -> HubV {
    let h1 = spec_ensure_topic(h, k);
    HubV {
        subs: Seq::new(
            h.subs.len(),
            |i: int|
                if h.subs[i].key == k {
                    SubV { queue: spec_enqueue(h.subs[i].queue, MsgV { key: k, payload: p }), ..h.subs[i] }
                } else {
                    h.subs[i]
                },
        ),
        ..h1
    }
}

/// The state after an unsubscribe of connection `c` from key `k`: the handled
/// attachment for (`c`, `k`) is removed, if one exists; otherwise nothing
/// changes. Attachments leaked by re-subscribing are not reachable here.
pub open spec fn spec_unsubscribe(h: HubV, c: ClientId, k: Seq<char>) -> HubV {
    if exists|i: int|
        0 <= i < h.subs.len() && h.subs[i].handled && h.subs[i].conn == c && h.subs[i].key == k {
        let i = choose|i: int|
            0 <= i < h.subs.len() && h.subs[i].handled && h.subs[i].conn == c && h.subs[i].key
                == k;
        HubV { subs: h.subs.remove(i), ..h }
    } else {
        h
    }
}

/// The state after a direct send of `m` to client `c`: the message is pushed
/// onto the direct queue of the matching open record. (When `c` is unknown or
/// closed this leaves the state unchanged; the executable send reports the
/// error.)
pub open spec fn spec_send_direct(h: HubV, c: ClientId, m: MsgV) -> HubV {
    HubV {
        clients: Seq::new(
            h.clients.len(),
            |i: int|
                if h.clients[i].id == c && h.clients[i].open {
                    ClientV { direct: h.clients[i].direct.push(m), ..h.clients[i] }
                } else {
                    h.clients[i]
                },
        ),
        ..h
    }
}

/// The state after connection `c` is accepted: any previous record for the
/// same identity is replaced in place by a fresh open record, otherwise a
/// fresh record is appended.
pub open spec fn spec_connect(h: HubV, c: ClientId) -> HubV {
    let fresh = ClientV { id: c, direct: Seq::empty(), sink: Seq::empty(), open: true };
    if h.has_client(c) {
        HubV {
            clients: h.clients.map_values(
                |cl: ClientV|
                    if cl.id == c {
                        fresh
                    } else {
                        cl
                    },
            ),
            ..h
        }
    } else {
        HubV { clients: h.clients.push(fresh), ..h }
    }
}

/// The state after session `c` closes: every forwarding attachment of the
/// connection is cancelled and removed, and its record leaves the
/// direct-delivery map (the record is kept, closed, so the sink history
/// stays observable).
pub open spec fn spec_close_session(h: HubV, c: ClientId) -> HubV {
    HubV {
        subs: h.subs.filter(|s: SubV| s.conn != c),
        clients: Seq::new(
            h.clients.len(),
            |i: int|
                if h.clients[i].id == c {
                    ClientV { open: false, ..h.clients[i] }
                } else {
                    h.clients[i]
                },
        ),
        ..h
    }
}


/// Value-level soundness of one attachment against a router state.
pub open spec fn sub_ok(h: HubV, s: SubV) -> bool {
    &&& s.queue.len() <= TOPIC_CAPACITY as int
    &&& forall|m: int| 0 <= m < s.queue.len() ==> (#[trigger] s.queue[m]).key == s.key
    &&& h.has_topic(s.key)
}

/// No two distinct attachments both hold a handle for the same
/// (connection, key) pair.
pub open spec fn subs_pairwise_ok(subs: Seq<SubV>) -> bool {
    forall|i: int, j: int|
        0 <= i < j < subs.len() ==> !(subs[i].handled && subs[j].handled && subs[i].conn
            == subs[j].conn && subs[i].key == subs[j].key)
}

/// The element at position `i` of the filtered attachment list is an element
/// of the original list.
proof fn lemma_filter_conn_elems(subs: Seq<SubV>, c: ClientId, i: int)
    requires
        0 <= i < subs.filter(|s: SubV| s.conn != c).len(),
    ensures
        exists|j: int|
            0 <= j < subs.len() && subs.filter(|s: SubV| s.conn != c)[i] == #[trigger] subs[j],
    decreases subs.len(),
{
    reveal(Seq::filter);
    let p = |s: SubV| s.conn != c;
    if subs.len() > 0 {
        let dl = subs.drop_last();
        assert(forall|j: int| 0 <= j < dl.len() ==> dl[j] == subs[j]);
        if p(subs.last()) {
            assert(subs.filter(p) == dl.filter(p).push(subs.last()));
            if i < dl.filter(p).len() {
                lemma_filter_conn_elems(dl, c, i);
                let j = choose|j: int| 0 <= j < dl.len() && dl.filter(p)[i] == #[trigger] dl[j];
                assert(subs.filter(p)[i] == subs[j]);
            } else {
                assert(subs.filter(p)[i] == subs[subs.len() - 1]);
            }
        } else {
            assert(subs.filter(p) == dl.filter(p));
            lemma_filter_conn_elems(dl, c, i);
            let j = choose|j: int| 0 <= j < dl.len() && dl.filter(p)[i] == #[trigger] dl[j];
            assert(subs.filter(p)[i] == subs[j]);
        }
    } else {
        assert(subs.filter(p).len() == 0);
    }
}

/// Filtering the attachment list keeps the handle-uniqueness property.
proof fn lemma_filter_conn_pairwise(subs: Seq<SubV>, c: ClientId)
    requires
        subs_pairwise_ok(subs),
    ensures
        subs_pairwise_ok(subs.filter(|s: SubV| s.conn != c)),
    decreases subs.len(),
{
    reveal(Seq::filter);
    let p = |s: SubV| s.conn != c;
    if subs.len() > 0 {
        let dl = subs.drop_last();
        assert(forall|j: int| 0 <= j < dl.len() ==> dl[j] == subs[j]);
        assert(subs_pairwise_ok(dl));
        lemma_filter_conn_pairwise(dl, c);
        if p(subs.last()) {
            assert(subs.filter(p) == dl.filter(p).push(subs.last()));
            let f = subs.filter(p);
            assert forall|a: int, b: int| 0 <= a < b < f.len() implies !(f[a].handled
                && f[b].handled && f[a].conn == f[b].conn && f[a].key == f[b].key) by {
                if b < f.len() - 1 {
                    assert(f[a] == dl.filter(p)[a]);
                    assert(f[b] == dl.filter(p)[b]);
                } else {
                    assert(f[b] == subs.last());
                    assert(f[a] == dl.filter(p)[a]);
                    lemma_filter_conn_elems(dl, c, a);
                    let j = choose|j: int|
                        0 <= j < dl.len() && dl.filter(p)[a] == #[trigger] dl[j];
                    assert(dl[j] == subs[j]);
                    assert(!(subs[j].handled && subs[subs.len() - 1].handled && subs[j].conn
                        == subs[subs.len() - 1].conn && subs[j].key == subs[subs.len() - 1].key));
                }
            }
        } else {
            assert(subs.filter(p) == dl.filter(p));
        }
    }
}

/// Closing a session preserves the router invariant.
pub proof fn lemma_close_session_wf(h: HubV, c: ClientId)
    requires
        h.wf(),
    ensures
        spec_close_session(h, c).wf(),
{
    let h2 = spec_close_session(h, c);
    let p = |s: SubV| s.conn != c;
    assert forall|j: int| 0 <= j < h2.clients.len() implies (#[trigger] h2.clients[j]).id
        == h.clients[j].id by {}
    assert(subs_pairwise_ok(h.subs));
    lemma_filter_conn_pairwise(h.subs, c);
    assert forall|i: int| 0 <= i < h2.subs.len() implies sub_ok(h2, #[trigger] h2.subs[i]) by {
        lemma_filter_conn_elems(h.subs, c, i);
        let j = choose|j: int| 0 <= j < h.subs.len() && h.subs.filter(p)[i] == #[trigger] h.subs[j];
        assert(h2.subs[i] == h.subs[j]);
        assert(h.subs[j].queue.len() <= TOPIC_CAPACITY as int);
        assert(h.has_topic(h.subs[j].key));
        let tw = choose|tw: int| 0 <= tw < h.topics.len() && h.topics[tw] == h.subs[j].key;
        assert(h2.topics[tw] == h2.subs[i].key);
    }
    assert(h2.wf()) by {
        assert(forall|i: int|
            0 <= i < h2.subs.len() ==> (#[trigger] h2.subs[i]).queue.len()
                <= TOPIC_CAPACITY as int) by {
            assert(forall|i: int| 0 <= i < h2.subs.len() ==> sub_ok(h2, #[trigger] h2.subs[i]));
        }
        assert(forall|i: int, m: int|
            0 <= i < h2.subs.len() && 0 <= m < h2.subs[i].queue.len()
                ==> (#[trigger] h2.subs[i].queue[m]).key == h2.subs[i].key) by {
            assert(forall|i: int| 0 <= i < h2.subs.len() ==> sub_ok(h2, #[trigger] h2.subs[i]));
        }
        assert(forall|i: int|
            0 <= i < h2.subs.len() ==> h2.has_topic((#[trigger] h2.subs[i]).key)) by {
            assert(forall|i: int| 0 <= i < h2.subs.len() ==> sub_ok(h2, #[trigger] h2.subs[i]));
        }
    }
}


impl Hub {
    /// Tears the session of `client` down: every forwarding attachment of
    /// the connection is cancelled and removed, and the connection leaves the
    /// direct-delivery map. The record itself stays, marked closed, so the
    /// delivered history remains observable.
    pub fn close_session(&mut self, client: ClientId)
        requires
            old(self)@.wf(),
        ensures
            final(self)@ == spec_close_session(old(self)@, client),
            final(self)@.wf(),
    {
        let ghost h0 = old(self)@;
        let mut i: usize = 0;
        let ghost mut g: int = 0;
        proof {
            assert(h0.subs.take(0).filter(|s: SubV| s.conn != client) =~= Seq::<SubV>::empty())
                by {
                reveal(Seq::filter);
            }
            assert(h0.subs.skip(0) =~= h0.subs);
        }
        while i < self.subs.len()
            invariant
                old(self)@ == h0,
                h0.wf(),
                self@.topics == h0.topics,
                self@.clients == h0.clients,
                0 <= g <= h0.subs.len(),
                i as int == h0.subs.take(g).filter(|s: SubV| s.conn != client).len(),
                self@.subs =~= h0.subs.take(g).filter(|s: SubV| s.conn != client) + h0.subs.skip(
                    g,
                ),
            decreases h0.subs.len() - g,
        {
            proof {
                assert(g < h0.subs.len()) by {
                    if g == h0.subs.len() {
                        assert(h0.subs.skip(g) =~= Seq::<SubV>::empty());
                    }
                }
                assert(self@.subs[i as int] == h0.subs[g]) by {
                    assert(h0.subs.skip(g)[0] == h0.subs[g]);
                }
                assert(h0.subs.take(g + 1) =~= h0.subs.take(g).push(h0.subs[g]));
                h0.subs.take(g).lemma_filter_push(h0.subs[g], |s: SubV| s.conn != client);
                assert(h0.subs.skip(g).drop_first() =~= h0.subs.skip(g + 1));
            }
            if self.subs[i].conn == client {
                let ghost prevsubs = self@.subs;
                let ghost before = self.subs@;
                self.subs.remove(i);
                proof {
                    assert(self.subs@ =~= before.remove(i as int));
                    assert forall|t: int| 0 <= t < self@.subs.len() implies self@.subs[t]
                        == prevsubs.remove(i as int)[t] by {
                        if t < i {
                            assert(self.subs@[t] == before[t]);
                            assert(prevsubs.remove(i as int)[t] == prevsubs[t]);
                        } else {
                            assert(self.subs@[t] == before[t + 1]);
                            assert(prevsubs.remove(i as int)[t] == prevsubs[t + 1]);
                        }
                    }
                    assert(self@.subs =~= prevsubs.remove(i as int));
                    assert(prevsubs.remove(i as int) =~= h0.subs.take(g).filter(
                        |s: SubV| s.conn != client,
                    ) + h0.subs.skip(g + 1));
                    assert(h0.subs.take(g + 1).filter(|s: SubV| s.conn != client) =~= h0.subs.take(
                        g,
                    ).filter(|s: SubV| s.conn != client));
                    assert(self@.subs =~= h0.subs.take(g + 1).filter(|s: SubV| s.conn != client)
                        + h0.subs.skip(g + 1));
                    g = g + 1;
                }
            } else {
                proof {
                    assert(self@.subs =~= h0.subs.take(g + 1).filter(|s: SubV| s.conn != client)
                        + h0.subs.skip(g + 1)) by {
                        assert(h0.subs.take(g).filter(|s: SubV| s.conn != client).push(h0.subs[g])
                            + h0.subs.skip(g + 1) =~= h0.subs.take(g).filter(
                            |s: SubV| s.conn != client,
                        ) + h0.subs.skip(g));
                    }
                    g = g + 1;
                }
                i = i + 1;
            }
        }
        proof {
            assert(g == h0.subs.len()) by {
                if g < h0.subs.len() {
                    assert(self@.subs.len() > i as int);
                }
            }
            assert(h0.subs.take(g) =~= h0.subs);
            assert(h0.subs.skip(g) =~= Seq::<SubV>::empty());
            assert(self@.subs =~= h0.subs.filter(|s: SubV| s.conn != client));
        }
        let ghost mid = self@;
        let mut j: usize = 0;
        while j < self.clients.len()
            invariant
                old(self)@ == h0,
                h0.wf(),
                self@.topics == mid.topics,
                self@.subs == mid.subs,
                j <= h0.clients.len(),
                self.clients@.len() == h0.clients.len(),
                mid.clients == h0.clients,
                forall|t: int|
                    0 <= t < j ==> self@.clients[t] == (if h0.clients[t].id == client {
                        ClientV { open: false, ..h0.clients[t] }
                    } else {
                        h0.clients[t]
                    }),
                forall|t: int| j <= t < h0.clients.len() ==> self@.clients[t] == h0.clients[t],
            decreases h0.clients.len() - j,
        {
            let ghost pre = self@;
            let hit = self.clients[j].id == client;
            if hit {
                let ghost before = self.clients@;
                let mut cl = self.clients.remove(j);
                cl.open = false;
                self.clients.insert(j, cl);
                proof {
                    assert(self.clients@ =~= before.update(j as int, cl));
                    assert(cl@ =~= ClientV { open: false, ..h0.clients[j as int] });
                    assert(self@.clients[j as int] == cl@);
                }
            }
            proof {
                assert(pre.clients[j as int] == h0.clients[j as int]);
                assert(hit == (h0.clients[j as int].id == client));
                assert forall|t: int| 0 <= t < j + 1 implies self@.clients[t] == (if h0.clients[t].id
                    == client {
                    ClientV { open: false, ..h0.clients[t] }
                } else {
                    h0.clients[t]
                }) by {
                    if t < j {
                        assert(self@.clients[t] == pre.clients[t]);
                    } else {
                        if !hit {
                            assert(self@.clients[t] == pre.clients[t]);
                        }
                    }
                }
            }
            j = j + 1;
        }
        proof {
            let target = spec_close_session(h0, client);
            assert(self@.subs =~~= target.subs);
            assert(self@.clients =~~= target.clients);
            assert(final(self)@ =~~= target) by {
                assert(self@.topics =~~= target.topics);
            }
            lemma_close_session_wf(h0, client);
        }
    }
}

/// Everything queued for connection `c` across its attachments, in
/// attachment order, each queue oldest first.
pub open spec fn spec_conn_backlog(subs: Seq<SubV>, c: ClientId) -> Seq<MsgV>
    decreases subs.len(),
{
    if subs.len() == 0 {
        Seq::empty()
    } else if subs.first().conn == c {
        subs.first().queue + spec_conn_backlog(subs.drop_first(), c)
    } else {
        spec_conn_backlog(subs.drop_first(), c)
    }
}

/// The state after one forwarding sweep for connection `c`: every attachment
/// queue of `c` is drained, in order, to the connection's sink.
pub open spec fn spec_pump_subscriptions(h: HubV, c: ClientId) -> HubV {
    HubV {
        subs: h.subs.map_values(
            |s: SubV|
                if s.conn == c {
                    SubV { queue: Seq::empty(), ..s }
                } else {
                    s
                },
        ),
        clients: Seq::new(
            h.clients.len(),
            |i: int|
                if h.clients[i].id == c {
                    ClientV { sink: h.clients[i].sink + spec_conn_backlog(h.subs, c), ..h.clients[i] }
                } else {
                    h.clients[i]
                },
        ),
        ..h
    }
}

impl Hub {
    /// A fresh router with no topics, no attachments and no connections.
    pub fn new() -> (h: Hub)
        ensures
            h@.topics == Seq::<Seq<char>>::empty(),
            h@.subs == Seq::<SubV>::empty(),
            h@.clients == Seq::<ClientV>::empty(),
            h@.wf(),
    {
        let h = Hub { topics: Vec::new(), subs: Vec::new(), clients: Vec::new() };
        proof {
            assert(h@.topics =~= Seq::<Seq<char>>::empty());
            assert(h@.subs =~= Seq::<SubV>::empty());
            assert(h@.clients =~= Seq::<ClientV>::empty());
        }
        h
    }

    /// The position of the topic for `key`, if one has been created.
    fn topic_index(&self, key: &String) -> (r: Option<usize>)
        ensures
            match r {
                Option::Some(i) => i < self@.topics.len() && self@.topics[i as int] == key@,
                Option::None => !self@.has_topic(key@),
            },
    {
        let mut i: usize = 0;
        while i < self.topics.len()
            invariant
                i <= self.topics@.len(),
                forall|j: int| 0 <= j < i ==> self@.topics[j] != key@,
            decreases self.topics@.len() - i,
        {
            if self.topics[i] == *key {
                return Option::Some(i);
            }
            i = i + 1;
        }
        Option::None
    }

    /// Returns the handle of the topic for `key`, creating the topic if this
    /// is the first subscribe or publish that names it. Idempotent; always
    /// succeeds.
    pub fn ensure_topic(&mut self, key: &String) -> (handle: usize)
        requires
            old(self)@.wf(),
        ensures
            final(self)@ == spec_ensure_topic(old(self)@, key@),
            final(self)@.wf(),
            handle < final(self)@.topics.len(),
            final(self)@.topics[handle as int] == key@,
    {
        match self.topic_index(key) {
            Option::Some(i) => i,
            Option::None => {
                self.topics.push(key.clone());
                proof {
                    assert(self@.topics =~= old(self)@.topics.push(key@));
                    lemma_ensure_topic_wf(old(self)@, key@);
                }
                self.topics.len() - 1
            },
        }
    }
}

impl Hub {
    /// Attaches a new receiver of connection `conn` to the topic for `key`
    /// and returns its handle. The new attachment starts with an empty queue:
    /// it sees only messages published after this call, never history. A
    /// previous attachment of the same connection and key loses its
    /// cancellation handle and leaks (see [`Subscription::handled`]).
    pub fn subscribe(&mut self, conn: ClientId, key: &String) -> (handle: usize)
        requires
            old(self)@.wf(),
        ensures
            final(self)@ == spec_subscribe(old(self)@, conn, key@),
            final(self)@.wf(),
            handle == final(self)@.subs.len() - 1,
    {
        self.ensure_topic(key);
        let ghost h1 = self@;
        let mut i: usize = 0;
        while i < self.subs.len()
            invariant
                i <= self.subs@.len(),
                self.subs@.len() == h1.subs.len(),
                self@.topics == h1.topics,
                self@.clients == h1.clients,
                forall|j: int|
                    0 <= j < i ==> self@.subs[j] == (if h1.subs[j].handled && h1.subs[j].conn
                        == conn && h1.subs[j].key == key@ {
                        SubV { handled: false, ..h1.subs[j] }
                    } else {
                        h1.subs[j]
                    }),
                forall|j: int| i <= j < h1.subs.len() ==> self@.subs[j] == h1.subs[j],
            decreases self.subs@.len() - i,
        {
            let ghost pre = self@;
            let hit = self.subs[i].handled && self.subs[i].conn == conn && self.subs[i].key
                == *key;
            if hit {
                let ghost before = self.subs@;
                let mut s = self.subs.remove(i);
                s.handled = false;
                self.subs.insert(i, s);
                proof {
                    assert(self.subs@ =~= before.update(i as int, s));
                    assert(s@ =~= SubV { handled: false, ..h1.subs[i as int] });
                    assert(self@.subs[i as int] == s@);
                }
            }
            proof {
                assert(pre.subs[i as int] == h1.subs[i as int]);
                assert(hit == (h1.subs[i as int].handled && h1.subs[i as int].conn == conn
                    && h1.subs[i as int].key == key@));
                assert forall|j: int| 0 <= j < i + 1 implies self@.subs[j] == (if h1.subs[j].handled
                    && h1.subs[j].conn == conn && h1.subs[j].key == key@ {
                    SubV { handled: false, ..h1.subs[j] }
                } else {
                    h1.subs[j]
                }) by {
                    if j < i {
                        assert(self@.subs[j] == pre.subs[j]);
                    } else {
                        if !hit {
                            assert(self@.subs[j] == pre.subs[j]);
                        }
                    }
                }
            }
            i = i + 1;
        }
        let fresh_queue: Vec<Message> = Vec::new();
        proof {
            assert(msgs_view(fresh_queue@) =~= Seq::<MsgV>::empty());
        }
        let ghost released_vec = self.subs@;
        let ghost released_view = self@.subs;
        self.subs.push(Subscription { conn, key: key.clone(), queue: fresh_queue, handled: true });
        proof {
            assert forall|j: int| 0 <= j < released_view.len() implies self@.subs[j]
                == released_view[j] by {
                assert(self.subs@[j] == released_vec[j]);
            }
            let released = h1.subs.map_values(
                |s: SubV|
                    if s.handled && s.conn == conn && s.key == key@ {
                        SubV { handled: false, ..s }
                    } else {
                        s
                    },
            );
            assert(self@.subs.len() == h1.subs.len() + 1);
            assert(released.len() == h1.subs.len());
            assert forall|j: int| 0 <= j < h1.subs.len() implies self@.subs[j] == released[j] by {
                assert(released_view[j] == (if h1.subs[j].handled && h1.subs[j].conn == conn
                    && h1.subs[j].key == key@ {
                    SubV { handled: false, ..h1.subs[j] }
                } else {
                    h1.subs[j]
                }));
                assert(released[j] == (if h1.subs[j].handled && h1.subs[j].conn == conn
                    && h1.subs[j].key == key@ {
                    SubV { handled: false, ..h1.subs[j] }
                } else {
                    h1.subs[j]
                }));
                assert(self@.subs[j] == released_view[j]);
            }
            assert(self@.subs[h1.subs.len() as int] =~~= SubV {
                conn,
                key: key@,
                queue: Seq::empty(),
                handled: true,
            });
            assert(self@.subs =~~= released.push(
                SubV { conn, key: key@, queue: Seq::empty(), handled: true },
            ));
            assert(spec_ensure_topic(spec_ensure_topic(old(self)@, key@), key@) == spec_ensure_topic(
                old(self)@,
                key@,
            ));
            assert(final(self)@ =~~= spec_subscribe(old(self)@, conn, key@)) by {
                assert(self@.topics =~~= spec_subscribe(old(self)@, conn, key@).topics);
                assert(self@.clients =~~= spec_subscribe(old(self)@, conn, key@).clients);
            }
            lemma_subscribe_wf(old(self)@, conn, key@);
        }
        self.subs.len() - 1
    }
}

impl Hub {
    /// Publishes `payload` to the topic for `key`: the message is enqueued on
    /// every attachment to the topic, oldest-first and with drop-oldest
    /// overflow relief. With no attachment the message is silently discarded;
    /// there is no error path.
    pub fn publish(&mut self, key: &String, payload: &String)
        requires
            old(self)@.wf(),
        ensures
            final(self)@ == spec_publish(old(self)@, key@, payload@),
            final(self)@.wf(),
    {
        self.ensure_topic(key);
        let ghost h1 = self@;
        let ghost m = MsgV { key: key@, payload: payload@ };
        let mut i: usize = 0;
        while i < self.subs.len()
            invariant
                i <= self.subs@.len(),
                self.subs@.len() == h1.subs.len(),
                self@.topics == h1.topics,
                self@.clients == h1.clients,
                m == (MsgV { key: key@, payload: payload@ }),
                forall|j: int|
                    0 <= j < i ==> self@.subs[j] == (if h1.subs[j].key == key@ {
                        SubV { queue: spec_enqueue(h1.subs[j].queue, m), ..h1.subs[j] }
                    } else {
                        h1.subs[j]
                    }),
                forall|j: int| i <= j < h1.subs.len() ==> self@.subs[j] == h1.subs[j],
            decreases self.subs@.len() - i,
        {
            let ghost pre = self@;
            let hit = self.subs[i].key == *key;
            if hit {
                let ghost before = self.subs@;
                let mut s = self.subs.remove(i);
                let ghost q0 = s@.queue;
                if s.queue.len() >= TOPIC_CAPACITY {
                    let ghost qvec = s.queue@;
                    s.queue.remove(0);
                    proof {
                        assert(msgs_view(s.queue@) =~= q0.drop_first()) by {
                            assert(s.queue@ =~= qvec.drop_first());
                        }
                    }
                }
                s.queue.push(Message { key: key.clone(), payload: payload.clone() });
                self.subs.insert(i, s);
                proof {
                    assert(self.subs@ =~= before.update(i as int, s));
                    assert(s@.queue =~= spec_enqueue(q0, m)) by {
                        assert(msgs_view(s.queue@) =~= msgs_view(s.queue@.drop_last()).push(m));
                    }
                    assert(s@ =~= SubV { queue: spec_enqueue(h1.subs[i as int].queue, m), ..h1.subs[i as int] });
                    assert(self@.subs[i as int] == s@);
                }
            }
            proof {
                assert(pre.subs[i as int] == h1.subs[i as int]);
                assert(hit == (h1.subs[i as int].key == key@));
                assert forall|j: int| 0 <= j < i + 1 implies self@.subs[j] == (if h1.subs[j].key
                    == key@ {
                    SubV { queue: spec_enqueue(h1.subs[j].queue, m), ..h1.subs[j] }
                } else {
                    h1.subs[j]
                }) by {
                    if j < i {
                        assert(self@.subs[j] == pre.subs[j]);
                    } else {
                        if !hit {
                            assert(self@.subs[j] == pre.subs[j]);
                        }
                    }
                }
            }
            i = i + 1;
        }
        proof {
            let target = spec_publish(old(self)@, key@, payload@);
            assert(self@.subs =~~= target.subs);
            assert(final(self)@ =~~= target) by {
                assert(self@.topics =~~= target.topics);
                assert(self@.clients =~~= target.clients);
            }
            lemma_publish_wf(old(self)@, key@, payload@);
        }
    }
}

/// Error of a direct send that cannot reach its target.
#[derive(Clone, Copy, Debug, PartialEq, Eq, Structural)]
pub enum DirectSendError {
    /// No open connection carries the addressed identity.
    UnknownClient,
}

impl DirectSendError {
    /// A short description for callers that report the failure.
    pub fn describe(&self) -> (r: String)
        ensures
            r@ == "unknown or disconnected client"@,
    {
        "unknown or disconnected client".to_owned()
    }
}

impl Hub {
    /// Cancels and discards the handled attachment of (`conn`, `key`), if
    /// any; idempotent when none exists. An attachment leaked by
    /// re-subscribing has no handle and cannot be cancelled here.
    pub fn unsubscribe(&mut self, conn: ClientId, key: &String)
        requires
            old(self)@.wf(),
        ensures
            final(self)@ == spec_unsubscribe(old(self)@, conn, key@),
            final(self)@.wf(),
    {
        let ghost h0 = old(self)@;
        let mut i: usize = 0;
        while i < self.subs.len()
            invariant
                old(self)@ == h0,
                h0.wf(),
                self@ == h0,
                i <= h0.subs.len(),
                self.subs@.len() == h0.subs.len(),
                forall|j: int|
                    0 <= j < i ==> !((#[trigger] h0.subs[j]).handled && h0.subs[j].conn == conn
                        && h0.subs[j].key == key@),
            decreases h0.subs.len() - i,
        {
            if self.subs[i].handled && self.subs[i].conn == conn && self.subs[i].key == *key {
                let ghost before = self.subs@;
                self.subs.remove(i);
                proof {
                    assert(h0.subs[i as int].handled && h0.subs[i as int].conn == conn
                        && h0.subs[i as int].key == key@);
                    let w = choose|w: int|
                        0 <= w < h0.subs.len() && h0.subs[w].handled && h0.subs[w].conn == conn
                            && h0.subs[w].key == key@;
                    assert(w == i) by {
                        if w != i {
                            assert(h0.wf());
                        }
                    }
                    assert(self@.subs =~~= h0.subs.remove(i as int));
                    assert(final(self)@ =~~= spec_unsubscribe(h0, conn, key@));
                    lemma_remove_sub_wf(h0, i as int);
                }
                return ;
            }
            i = i + 1;
        }
        proof {
            assert(!(exists|w: int|
                0 <= w < h0.subs.len() && h0.subs[w].handled && h0.subs[w].conn == conn
                    && h0.subs[w].key == key@));
        }
    }

    /// Enqueues `msg` for direct delivery to the exact connection identified
    /// by `client`, bypassing every topic. Unlike a topic publish this
    /// reports an error when the identity is unknown or its session has
    /// closed.
    pub fn send_direct(&mut self, client: ClientId, msg: Message) -> (r: Result<
        (),
        DirectSendError,
    >)
        requires
            old(self)@.wf(),
        ensures
            final(self)@.wf(),
            r is Ok <==> old(self)@.reachable(client),
            final(self)@ == (if old(self)@.reachable(client) {
                spec_send_direct(old(self)@, client, msg@)
            } else {
                old(self)@
            }),
            r is Err ==> r == Result::<(), DirectSendError>::Err(DirectSendError::UnknownClient),
    {
        let ghost h0 = old(self)@;
        let mut i: usize = 0;
        while i < self.clients.len()
            invariant
                old(self)@ == h0,
                h0.wf(),
                self@ == h0,
                i <= h0.clients.len(),
                self.clients@.len() == h0.clients.len(),
                forall|j: int|
                    0 <= j < i ==> !((#[trigger] h0.clients[j]).id == client
                        && h0.clients[j].open),
            decreases h0.clients.len() - i,
        {
            if self.clients[i].id == client && self.clients[i].open {
                let ghost before = self.clients@;
                let mut c = self.clients.remove(i);
                c.direct.push(msg);
                self.clients.insert(i, c);
                proof {
                    assert(self.clients@ =~= before.update(i as int, c));
                    assert(c@ =~= ClientV { direct: h0.clients[i as int].direct.push(msg@), ..h0.clients[i as int] })
                        by {
                        assert(msgs_view(c.direct@) =~= msgs_view(before[i as int].direct@).push(
                            msg@,
                        ));
                    }
                    assert(self@.clients[i as int] == c@);
                    assert forall|j: int| 0 <= j < h0.clients.len() && j != i implies !(h0.clients[j].id
                        == client && h0.clients[j].open) by {
                        if h0.clients[j].id == client {
                            assert(h0.wf());
                        }
                    }
                    assert(final(self)@ =~~= spec_send_direct(h0, client, msg@));
                    assert(h0.reachable(client));
                    lemma_send_direct_wf(h0, client, msg@);
                }
                return Result::Ok(());
            }
            i = i + 1;
        }
        Result::Err(DirectSendError::UnknownClient)
    }

    /// Records a newly accepted connection under its identity, replacing any
    /// stale record of the same identity with a fresh open one.
    pub fn connect(&mut self, client: ClientId)
        requires
            old(self)@.wf(),
        ensures
            final(self)@ == spec_connect(old(self)@, client),
            final(self)@.wf(),
    {
        let ghost h0 = old(self)@;
        let direct: Vec<Message> = Vec::new();
        let sink: Vec<Message> = Vec::new();
        proof {
            assert(msgs_view(direct@) =~= Seq::<MsgV>::empty());
            assert(msgs_view(sink@) =~= Seq::<MsgV>::empty());
        }
        let fresh = Client { id: client, direct, sink, open: true };
        let ghost freshv = ClientV {
            id: client,
            direct: Seq::empty(),
            sink: Seq::empty(),
            open: true,
        };
        let mut i: usize = 0;
        while i < self.clients.len()
            invariant
                old(self)@ == h0,
                h0.wf(),
                self@ == h0,
                i <= h0.clients.len(),
                self.clients@.len() == h0.clients.len(),
                fresh@ =~= freshv,
                fresh.id == client,
                freshv == (ClientV { id: client, direct: Seq::empty(), sink: Seq::empty(), open: true }),
                forall|j: int| 0 <= j < i ==> (#[trigger] h0.clients[j]).id != client,
            decreases h0.clients.len() - i,
        {
            if self.clients[i].id == client {
                let ghost before = self.clients@;
                let _stale = self.clients.remove(i);
                self.clients.insert(i, fresh);
                proof {
                    assert(self.clients@ =~= before.update(i as int, fresh));
                    assert(h0.clients[i as int].id == client);
                    assert(h0.has_client(client));
                    assert(self@.clients[i as int] == freshv);
                    assert forall|j: int|
                        0 <= j < h0.clients.len() && j != i implies self@.clients[j]
                        == h0.clients[j] by {
                        assert(self.clients@[j] == before[j]);
                    }
                    let target = spec_connect(h0, client);
                    assert forall|j: int| 0 <= j < target.clients.len() implies self@.clients[j]
                        == target.clients[j] by {
                        if j == i {
                            assert(h0.clients[j].id == client);
                            assert(target.clients[j] =~= freshv);
                        } else {
                            assert(h0.clients[j].id != h0.clients[i as int].id);
                            assert(target.clients[j] == h0.clients[j]);
                        }
                    }
                    assert(self@.clients =~~= target.clients);
                    assert(final(self)@ =~~= target);
                    lemma_connect_wf(h0, client);
                }
                return ;
            }
            i = i + 1;
        }
        let ghost before = self.clients@;
        self.clients.push(fresh);
        proof {
            assert(!h0.has_client(client));
            assert forall|j: int| 0 <= j < h0.clients.len() implies self@.clients[j]
                == h0.clients[j] by {
                assert(self.clients@[j] == before[j]);
            }
            assert(self@.clients[h0.clients.len() as int] == freshv);
            assert(final(self)@ =~~= spec_connect(h0, client));
            lemma_connect_wf(h0, client);
        }
    }
}

/// A direct send preserves the router invariant.
pub proof fn lemma_send_direct_wf(h: HubV, c: ClientId, m: MsgV)
    requires
        h.wf(),
    ensures
        spec_send_direct(h, c, m).wf(),
{
    let h2 = spec_send_direct(h, c, m);
    assert forall|j: int| 0 <= j < h2.clients.len() implies (#[trigger] h2.clients[j]).id
        == h.clients[j].id by {}
    assert(h2.subs == h.subs);
    assert forall|i: int| 0 <= i < h2.subs.len() implies h2.has_topic(
        (#[trigger] h2.subs[i]).key,
    ) by {
        assert(h.has_topic(h.subs[i].key));
        let tw = choose|tw: int| 0 <= tw < h.topics.len() && h.topics[tw] == h.subs[i].key;
        assert(h2.topics[tw] == h2.subs[i].key);
    }
}

/// Accepting a connection preserves the router invariant.
pub proof fn lemma_connect_wf(h: HubV, c: ClientId)
    requires
        h.wf(),
    ensures
        spec_connect(h, c).wf(),
{
    let h2 = spec_connect(h, c);
    if h.has_client(c) {
        assert forall|j: int, k: int| 0 <= j < k < h2.clients.len() implies h2.clients[j].id
            != h2.clients[k].id by {
            assert(h2.clients[j].id == h.clients[j].id);
            assert(h2.clients[k].id == h.clients[k].id);
        }
    } else {
        assert forall|j: int, k: int| 0 <= j < k < h2.clients.len() implies h2.clients[j].id
            != h2.clients[k].id by {
            if k == h.clients.len() {
                assert(h2.clients[j] == h.clients[j]);
                assert(h.clients[j].id != c);
            } else {
                assert(h2.clients[j] == h.clients[j]);
                assert(h2.clients[k] == h.clients[k]);
            }
        }
    }
    assert(h2.subs == h.subs);
    assert forall|i: int| 0 <= i < h2.subs.len() implies h2.has_topic(
        (#[trigger] h2.subs[i]).key,
    ) by {
        assert(h.has_topic(h.subs[i].key));
        let tw = choose|tw: int| 0 <= tw < h.topics.len() && h.topics[tw] == h.subs[i].key;
        assert(h2.topics[tw] == h2.subs[i].key);
    }
}

/// Removing one attachment preserves the router invariant.
pub proof fn lemma_remove_sub_wf(h: HubV, i: int)
    requires
        h.wf(),
        0 <= i < h.subs.len(),
    ensures
        (HubV { subs: h.subs.remove(i), ..h }).wf(),
{
    let h2 = HubV { subs: h.subs.remove(i), ..h };
    assert forall|a: int, b: int| 0 <= a < b < h2.subs.len() implies !(h2.subs[a].handled
        && h2.subs[b].handled && h2.subs[a].conn == h2.subs[b].conn && h2.subs[a].key
        == h2.subs[b].key) by {
        let a0 = if a < i {
            a
        } else {
            a + 1
        };
        let b0 = if b < i {
            b
        } else {
            b + 1
        };
        assert(h2.subs[a] == h.subs[a0]);
        assert(h2.subs[b] == h.subs[b0]);
    }
    assert forall|a: int| 0 <= a < h2.subs.len() implies (#[trigger] h2.subs[a]).queue.len()
        <= TOPIC_CAPACITY as int && h2.has_topic(h2.subs[a].key) by {
        let a0 = if a < i {
            a
        } else {
            a + 1
        };
        assert(h2.subs[a] == h.subs[a0]);
        assert(h.subs[a0].queue.len() <= TOPIC_CAPACITY as int);
        assert(h.has_topic(h.subs[a0].key));
        let tw = choose|tw: int| 0 <= tw < h.topics.len() && h.topics[tw] == h.subs[a0].key;
        assert(h2.topics[tw] == h2.subs[a].key);
    }
    assert forall|a: int, mm: int|
        0 <= a < h2.subs.len() && 0 <= mm < h2.subs[a].queue.len() implies (#[trigger] h2.subs[a].queue[mm]).key
        == h2.subs[a].key by {
        let a0 = if a < i {
            a
        } else {
            a + 1
        };
        assert(h2.subs[a] == h.subs[a0]);
    }
}

/// Publishing preserves the router invariant.
pub proof fn lemma_publish_wf(h: HubV, k: Seq<char>, p: Seq<char>)
    requires
        h.wf(),
    ensures
        spec_publish(h, k, p).wf(),
{
    lemma_ensure_topic_wf(h, k);
    let h1 = spec_ensure_topic(h, k);
    let h2 = spec_publish(h, k, p);
    let m = MsgV { key: k, payload: p };
    assert forall|i: int| 0 <= i < h2.subs.len() implies (#[trigger] h2.subs[i]).queue.len()
        <= TOPIC_CAPACITY as int by {
        assert(h.subs[i].queue.len() <= TOPIC_CAPACITY as int);
    }
    assert forall|i: int, mm: int|
        0 <= i < h2.subs.len() && 0 <= mm < h2.subs[i].queue.len() implies (#[trigger] h2.subs[i].queue[mm]).key
        == h2.subs[i].key by {
        assert(h.subs[i].queue.len() <= TOPIC_CAPACITY as int);
        if h.subs[i].key == k {
            let q = h.subs[i].queue;
            if q.len() < TOPIC_CAPACITY as int {
                if mm < q.len() {
                    assert(h2.subs[i].queue[mm] == q[mm]);
                } else {
                    assert(h2.subs[i].queue[mm] == m);
                }
            } else {
                if mm < q.len() - 1 {
                    assert(h2.subs[i].queue[mm] == q[mm + 1]);
                } else {
                    assert(h2.subs[i].queue[mm] == m);
                }
            }
        }
    }
    assert forall|i: int| 0 <= i < h2.subs.len() implies h2.has_topic(
        (#[trigger] h2.subs[i]).key,
    ) by {
        assert(h.has_topic(h.subs[i].key));
        let t = choose|t: int| 0 <= t < h.topics.len() && h.topics[t] == h.subs[i].key;
        assert(h2.topics[t] == h2.subs[i].key);
    }
}

/// Subscribing preserves the router invariant.
pub proof fn lemma_subscribe_wf(h: HubV, c: ClientId, k: Seq<char>)
    requires
        h.wf(),
    ensures
        spec_subscribe(h, c, k).wf(),
{
    lemma_ensure_topic_wf(h, k);
    let h1 = spec_ensure_topic(h, k);
    let h2 = spec_subscribe(h, c, k);
    assert(h1.has_topic(k)) by {
        if !h.has_topic(k) {
            assert(h1.topics[h1.topics.len() - 1] == k);
        }
    }
    assert forall|i: int, j: int| 0 <= i < j < h2.subs.len() implies !(h2.subs[i].handled
        && h2.subs[j].handled && h2.subs[i].conn == h2.subs[j].conn && h2.subs[i].key
        == h2.subs[j].key) by {
        if j < h2.subs.len() - 1 {
            assert(!(h1.subs[i].handled && h1.subs[j].handled && h1.subs[i].conn
                == h1.subs[j].conn && h1.subs[i].key == h1.subs[j].key));
        }
    }
    assert forall|i: int| 0 <= i < h2.subs.len() implies h2.has_topic(
        (#[trigger] h2.subs[i]).key,
    ) by {
        if i < h1.subs.len() {
            assert(h1.has_topic(h1.subs[i].key));
            let t = choose|t: int| 0 <= t < h1.topics.len() && h1.topics[t] == h1.subs[i].key;
            assert(h2.topics[t] == h2.subs[i].key);
        } else {
            let t = choose|t: int| 0 <= t < h1.topics.len() && h1.topics[t] == k;
            assert(h2.topics[t] == k);
        }
    }
}

/// Making sure a topic exists preserves the router invariant.
pub proof fn lemma_ensure_topic_wf(h: HubV, k: Seq<char>)
    requires
        h.wf(),
    ensures
        spec_ensure_topic(h, k).wf(),
{
    let h1 = spec_ensure_topic(h, k);
    assert forall|i: int| 0 <= i < h1.subs.len() implies h1.has_topic(
        (#[trigger] h1.subs[i]).key,
    ) by {
        assert(h.has_topic(h.subs[i].key));
        let j = choose|j: int| 0 <= j < h.topics.len() && h.topics[j] == h.subs[i].key;
        assert(h1.topics[j] == h.subs[i].key);
    }
}

/// The state after one direct-delivery relay step for connection `c`: the
/// direct queue is drained, in order, to the connection's sink.
pub open spec fn spec_pump_direct(h: HubV, c: ClientId) -> HubV {
    HubV {
        clients: Seq::new(
            h.clients.len(),
            |i: int|
                if h.clients[i].id == c {
                    ClientV {
                        sink: h.clients[i].sink + h.clients[i].direct,
                        direct: Seq::empty(),
                        ..h.clients[i]
                    }
                } else {
                    h.clients[i]
                },
        ),
        ..h
    }
}


/// The direct queue of the first record with identity `c`, or empty when no
/// record exists.
pub open spec fn spec_direct_queue(cs: Seq<ClientV>, c: ClientId) -> Seq<MsgV>
    decreases cs.len(),
{
    if cs.len() == 0 {
        Seq::empty()
    } else if cs.first().id == c {
        cs.first().direct
    } else {
        spec_direct_queue(cs.drop_first(), c)
    }
}

/// Resolves `spec_direct_queue` at the position of the matching record.
pub proof fn lemma_direct_queue_at(cs: Seq<ClientV>, c: ClientId, i: int)
    requires
        0 <= i < cs.len(),
        cs[i].id == c,
        forall|j: int| 0 <= j < i ==> (#[trigger] cs[j]).id != c,
    ensures
        spec_direct_queue(cs, c) == cs[i].direct,
    decreases i,
{
    if i > 0 {
        assert(cs.first().id != c);
        let dl = cs.drop_first();
        assert(forall|j: int| 0 <= j < i - 1 ==> (#[trigger] dl[j]).id != c ==> true);
        assert forall|j: int| 0 <= j < i - 1 implies (#[trigger] dl[j]).id != c by {
            assert(dl[j] == cs[j + 1]);
        }
        assert(dl[i - 1] == cs[i]);
        lemma_direct_queue_at(dl, c, i - 1);
    }
}

/// With no record for `c`, `spec_direct_queue` is empty.
pub proof fn lemma_direct_queue_none(cs: Seq<ClientV>, c: ClientId)
    requires
        forall|j: int| 0 <= j < cs.len() ==> (#[trigger] cs[j]).id != c,
    ensures
        spec_direct_queue(cs, c) == Seq::<MsgV>::empty(),
    decreases cs.len(),
{
    if cs.len() > 0 {
        let dl = cs.drop_first();
        assert forall|j: int| 0 <= j < dl.len() implies (#[trigger] dl[j]).id != c by {
            assert(dl[j] == cs[j + 1]);
        }
        lemma_direct_queue_none(dl, c);
    }
}

/// A forwarding step for one connection preserves the router invariant: it
/// only moves queued messages between that connection's buffers.
pub proof fn lemma_pump_direct_wf(h: HubV, c: ClientId)
    requires
        h.wf(),
    ensures
        spec_pump_direct(h, c).wf(),
{
    let h2 = spec_pump_direct(h, c);
    assert forall|j: int| 0 <= j < h2.clients.len() implies (#[trigger] h2.clients[j]).id
        == h.clients[j].id by {}
    assert(h2.subs == h.subs);
    assert forall|i: int| 0 <= i < h2.subs.len() implies h2.has_topic(
        (#[trigger] h2.subs[i]).key,
    ) by {
        assert(h.has_topic(h.subs[i].key));
        let tw = choose|tw: int| 0 <= tw < h.topics.len() && h.topics[tw] == h.subs[i].key;
        assert(h2.topics[tw] == h2.subs[i].key);
    }
}

impl Hub {
    /// One direct-delivery relay step for `client`: drains the connection's
    /// private direct queue to its outbound sink, in order, and returns the
    /// drained messages so that the caller can write them out.
    pub fn pump_direct(&mut self, client: ClientId) -> (out: Vec<Message>)
        requires
            old(self)@.wf(),
        ensures
            final(self)@ == spec_pump_direct(old(self)@, client),
            final(self)@.wf(),
            msgs_view(out@) == spec_direct_queue(old(self)@.clients, client),
    {
        let ghost h0 = old(self)@;
        let mut i: usize = 0;
        while i < self.clients.len()
            invariant
                old(self)@ == h0,
                h0.wf(),
                self@ == h0,
                i <= h0.clients.len(),
                self.clients@.len() == h0.clients.len(),
                forall|j: int| 0 <= j < i ==> (#[trigger] h0.clients[j]).id != client,
            decreases h0.clients.len() - i,
        {
            if self.clients[i].id == client {
                let ghost before = self.clients@;
                let mut cl = self.clients.remove(i);
                let ghost sink0 = cl.sink@;
                let mut q: Vec<Message> = Vec::new();
                core::mem::swap(&mut q, &mut cl.direct);
                let ghost q0 = q@;
                let mut t: usize = 0;
                while t < q.len()
                    invariant
                        q@ == q0,
                        t <= q0.len(),
                        cl.sink@ =~= sink0 + q0.take(t as int),
                        cl.direct@ =~= Seq::<Message>::empty(),
                        cl.id == before[i as int].id,
                        cl.open == before[i as int].open,
                        i < before.len(),
                    decreases q0.len() - t,
                {
                    cl.sink.push(q[t].clone());
                    proof {
                        assert(q0.take(t + 1) =~= q0.take(t as int).push(q0[t as int]));
                    }
                    t = t + 1;
                }
                proof {
                    assert(cl.sink@ =~= sink0 + q0);
                    assert(cl.direct@ =~= Seq::<Message>::empty());
                }
                self.clients.insert(i, cl);
                proof {
                    assert(self.clients@ =~= before.update(i as int, cl));
                    assert(cl@ =~= ClientV {
                        sink: h0.clients[i as int].sink + h0.clients[i as int].direct,
                        direct: Seq::empty(),
                        ..h0.clients[i as int]
                    }) by {
                        assert(msgs_view(sink0 + q0) =~= msgs_view(sink0) + msgs_view(q0));
                        assert(msgs_view(Seq::<Message>::empty()) =~= Seq::<MsgV>::empty());
                    }
                    assert(self@.clients[i as int] == cl@);
                    assert forall|j: int|
                        0 <= j < h0.clients.len() && j != i implies !((#[trigger] h0.clients[j]).id
                        == client) by {
                        if h0.clients[j].id == client {
                            if j < i {
                            } else {
                                assert(h0.clients[i as int].id != h0.clients[j].id);
                            }
                        }
                    }
                    assert(final(self)@ =~~= spec_pump_direct(h0, client));
                    lemma_direct_queue_at(h0.clients, client, i as int);
                    assert(msgs_view(q@) == spec_direct_queue(h0.clients, client)) by {
                        assert(msgs_view(q0) =~= h0.clients[i as int].direct);
                    }
                    lemma_pump_direct_wf(h0, client);
                }
                return q;
            }
            i = i + 1;
        }
        proof {
            lemma_direct_queue_none(h0.clients, client);
            assert(final(self)@ =~~= spec_pump_direct(h0, client)) by {
                assert forall|j: int| 0 <= j < h0.clients.len() implies spec_pump_direct(
                    h0,
                    client,
                ).clients[j] == h0.clients[j] by {}
            }
            lemma_pump_direct_wf(h0, client);
        }
        let out: Vec<Message> = Vec::new();
        proof {
            assert(msgs_view(out@) =~= Seq::<MsgV>::empty());
        }
        out
    }
}


/// Appending one attachment extends the backlog by that attachment's queue
/// exactly when it belongs to the connection.
pub proof fn lemma_backlog_push(subs: Seq<SubV>, x: SubV, c: ClientId)
    ensures
        spec_conn_backlog(subs.push(x), c) =~= spec_conn_backlog(subs, c) + (if x.conn == c {
            x.queue
        } else {
            Seq::<MsgV>::empty()
        }),
    decreases subs.len(),
{
    if subs.len() == 0 {
        let e = Seq::<SubV>::empty();
        assert(spec_conn_backlog(e, c) =~= Seq::<MsgV>::empty());
        assert(subs =~= e);
        assert(subs.push(x).first() == x);
        assert(subs.push(x).drop_first() =~= e);
        assert(spec_conn_backlog(subs.push(x).drop_first(), c) =~= Seq::<MsgV>::empty());
        if x.conn == c {
            assert(spec_conn_backlog(subs.push(x), c) =~= x.queue + Seq::<MsgV>::empty());
            assert(x.queue + Seq::<MsgV>::empty() =~= x.queue);
            assert(spec_conn_backlog(subs, c) + x.queue =~= x.queue);
        } else {
            assert(spec_conn_backlog(subs, c) + Seq::<MsgV>::empty() =~= Seq::<MsgV>::empty());
        }
    } else {
        assert(subs.push(x).first() == subs.first());
        assert(subs.push(x).drop_first() =~= subs.drop_first().push(x));
        lemma_backlog_push(subs.drop_first(), x, c);
        let tail = if x.conn == c {
            x.queue
        } else {
            Seq::<MsgV>::empty()
        };
        if subs.first().conn == c {
            assert(subs.first().queue + (spec_conn_backlog(subs.drop_first(), c) + tail)
                =~= (subs.first().queue + spec_conn_backlog(subs.drop_first(), c)) + tail);
        }
    }
}

/// A forwarding sweep preserves the router invariant.
pub proof fn lemma_pump_subscriptions_wf(h: HubV, c: ClientId)
    requires
        h.wf(),
    ensures
        spec_pump_subscriptions(h, c).wf(),
{
    let h2 = spec_pump_subscriptions(h, c);
    assert forall|j: int| 0 <= j < h2.clients.len() implies (#[trigger] h2.clients[j]).id
        == h.clients[j].id by {}
    assert forall|i: int, j: int| 0 <= i < j < h2.subs.len() implies !(h2.subs[i].handled
        && h2.subs[j].handled && h2.subs[i].conn == h2.subs[j].conn && h2.subs[i].key
        == h2.subs[j].key) by {
        assert(h2.subs[i].handled == h.subs[i].handled && h2.subs[i].conn == h.subs[i].conn
            && h2.subs[i].key == h.subs[i].key);
        assert(h2.subs[j].handled == h.subs[j].handled && h2.subs[j].conn == h.subs[j].conn
            && h2.subs[j].key == h.subs[j].key);
    }
    assert forall|i: int| 0 <= i < h2.subs.len() implies (#[trigger] h2.subs[i]).queue.len()
        <= TOPIC_CAPACITY as int by {
        assert(h.subs[i].queue.len() <= TOPIC_CAPACITY as int);
    }
    assert forall|i: int, m: int|
        0 <= i < h2.subs.len() && 0 <= m < h2.subs[i].queue.len() implies (
    #[trigger] h2.subs[i].queue[m]).key == h2.subs[i].key by {
        assert(h2.subs[i].queue == h.subs[i].queue || h2.subs[i].queue =~= Seq::<MsgV>::empty());
    }
    assert forall|i: int| 0 <= i < h2.subs.len() implies h2.has_topic(
        (#[trigger] h2.subs[i]).key,
    ) by {
        assert(h.has_topic(h.subs[i].key));
        let tw = choose|tw: int| 0 <= tw < h.topics.len() && h.topics[tw] == h.subs[i].key;
        assert(h2.topics[tw] == h2.subs[i].key);
    }
}

impl Hub {
    /// One forwarding sweep for `client`: drains every attachment queue of
    /// the connection, in attachment order, to its outbound sink, and returns
    /// the drained messages so that the caller can write them out.
    pub fn pump_subscriptions(&mut self, client: ClientId) -> (out: Vec<Message>)
        requires
            old(self)@.wf(),
        ensures
            final(self)@ == spec_pump_subscriptions(old(self)@, client),
            final(self)@.wf(),
            msgs_view(out@) == spec_conn_backlog(old(self)@.subs, client),
    {
        let ghost h0 = old(self)@;
        let mut out: Vec<Message> = Vec::new();
        proof {
            assert(h0.subs.take(0) =~= Seq::<SubV>::empty());
            assert(msgs_view(out@) =~= spec_conn_backlog(h0.subs.take(0), client));
        }
        let mut i: usize = 0;
        while i < self.subs.len()
            invariant
                old(self)@ == h0,
                h0.wf(),
                self@.topics == h0.topics,
                self@.clients == h0.clients,
                i <= h0.subs.len(),
                self.subs@.len() == h0.subs.len(),
                msgs_view(out@) =~= spec_conn_backlog(h0.subs.take(i as int), client),
                forall|j: int|
                    0 <= j < i ==> self@.subs[j] == (if h0.subs[j].conn == client {
                        SubV { queue: Seq::empty(), ..h0.subs[j] }
                    } else {
                        h0.subs[j]
                    }),
                forall|j: int| i <= j < h0.subs.len() ==> self@.subs[j] == h0.subs[j],
            decreases h0.subs.len() - i,
        {
            let ghost pre = self@;
            proof {
                assert(h0.subs.take(i + 1) =~= h0.subs.take(i as int).push(h0.subs[i as int]));
                lemma_backlog_push(h0.subs.take(i as int), h0.subs[i as int], client);
            }
            let hit = self.subs[i].conn == client;
            if hit {
                let ghost before = self.subs@;
                let ghost out0 = out@;
                let mut s = self.subs.remove(i);
                out.append(&mut s.queue);
                self.subs.insert(i, s);
                proof {
                    assert(self.subs@ =~= before.update(i as int, s));
                    assert(s@ =~= SubV { queue: Seq::empty(), ..h0.subs[i as int] }) by {
                        assert(msgs_view(s.queue@) =~= Seq::<MsgV>::empty());
                    }
                    assert(self@.subs[i as int] == s@);
                    assert(msgs_view(out@) =~= spec_conn_backlog(h0.subs.take(i + 1), client))
                        by {
                        assert(msgs_view(out0 + before[i as int].queue@) =~= msgs_view(out0)
                            + msgs_view(before[i as int].queue@));
                        assert(msgs_view(before[i as int].queue@) =~= h0.subs[i as int].queue);
                    }
                }
            }
            proof {
                assert(pre.subs[i as int] == h0.subs[i as int]);
                assert(hit == (h0.subs[i as int].conn == client));
                if !hit {
                    assert(msgs_view(out@) =~= spec_conn_backlog(h0.subs.take(i + 1), client))
                        by {
                        assert(spec_conn_backlog(h0.subs.take(i as int), client)
                            + Seq::<MsgV>::empty() =~= spec_conn_backlog(
                            h0.subs.take(i as int),
                            client,
                        ));
                    }
                }
                assert forall|j: int| 0 <= j < i + 1 implies self@.subs[j] == (if h0.subs[j].conn
                    == client {
                    SubV { queue: Seq::empty(), ..h0.subs[j] }
                } else {
                    h0.subs[j]
                }) by {
                    if j < i {
                        assert(self@.subs[j] == pre.subs[j]);
                    } else {
                        if !hit {
                            assert(self@.subs[j] == pre.subs[j]);
                        }
                    }
                }
            }
            i = i + 1;
        }
        proof {
            assert(h0.subs.take(h0.subs.len() as int) =~= h0.subs);
            assert(msgs_view(out@) =~= spec_conn_backlog(h0.subs, client));
        }
        let ghost backlog = spec_conn_backlog(h0.subs, client);
        let mut ci: usize = 0;
        while ci < self.clients.len()
            invariant
                old(self)@ == h0,
                h0.wf(),
                self@.topics == h0.topics,
                self@.subs == spec_pump_subscriptions(h0, client).subs,
                self@.clients == h0.clients,
                ci <= h0.clients.len(),
                self.clients@.len() == h0.clients.len(),
                msgs_view(out@) =~= backlog,
                backlog == spec_conn_backlog(h0.subs, client),
                forall|j: int| 0 <= j < ci ==> (#[trigger] h0.clients[j]).id != client,
            decreases h0.clients.len() - ci,
        {
            if self.clients[ci].id == client {
                let ghost before = self.clients@;
                let mut cl = self.clients.remove(ci);
                let ghost sink0 = cl.sink@;
                let ghost outv = out@;
                let mut t: usize = 0;
                while t < out.len()
                    invariant
                        out@ == outv,
                        t <= outv.len(),
                        cl.sink@ =~= sink0 + outv.take(t as int),
                        cl.direct@ == before[ci as int].direct@,
                        cl.id == before[ci as int].id,
                        cl.open == before[ci as int].open,
                        ci < before.len(),
                    decreases outv.len() - t,
                {
                    cl.sink.push(out[t].clone());
                    proof {
                        assert(outv.take(t + 1) =~= outv.take(t as int).push(outv[t as int]));
                    }
                    t = t + 1;
                }
                self.clients.insert(ci, cl);
                proof {
                    assert(self.clients@ =~= before.update(ci as int, cl));
                    assert(cl@ =~= ClientV {
                        sink: h0.clients[ci as int].sink + backlog,
                        ..h0.clients[ci as int]
                    }) by {
                        assert(cl.sink@ =~= sink0 + outv);
                        assert(msgs_view(sink0 + outv) =~= msgs_view(sink0) + msgs_view(outv));
                    }
                    assert(self@.clients[ci as int] == cl@);
                    assert forall|j: int|
                        0 <= j < h0.clients.len() && j != ci implies !((#[trigger] h0.clients[j]).id
                        == client) by {
                        if h0.clients[j].id == client {
                            if j < ci {
                            } else {
                                assert(h0.clients[ci as int].id != h0.clients[j].id);
                            }
                        }
                    }
                    assert(final(self)@ =~~= spec_pump_subscriptions(h0, client));
                    lemma_pump_subscriptions_wf(h0, client);
                }
                return out;
            }
            ci = ci + 1;
        }
        proof {
            assert(final(self)@ =~~= spec_pump_subscriptions(h0, client)) by {
                assert forall|j: int| 0 <= j < h0.clients.len() implies spec_pump_subscriptions(
                    h0,
                    client,
                ).clients[j] == h0.clients[j] by {}
            }
            lemma_pump_subscriptions_wf(h0, client);
        }
        out
    }
}


/// The sink of the first record with identity `c`, or empty when no record
/// exists.
pub open spec fn spec_sink_of(cs: Seq<ClientV>, c: ClientId) -> Seq<MsgV>
    decreases cs.len(),
{
    if cs.len() == 0 {
        Seq::empty()
    } else if cs.first().id == c {
        cs.first().sink
    } else {
        spec_sink_of(cs.drop_first(), c)
    }
}

/// Resolves `spec_sink_of` at the position of the matching record.
pub proof fn lemma_sink_of_at(cs: Seq<ClientV>, c: ClientId, i: int)
    requires
        0 <= i < cs.len(),
        cs[i].id == c,
        forall|j: int| 0 <= j < i ==> (#[trigger] cs[j]).id != c,
    ensures
        spec_sink_of(cs, c) == cs[i].sink,
    decreases i,
{
    if i > 0 {
        assert(cs.first().id != c);
        let dl = cs.drop_first();
        assert forall|j: int| 0 <= j < i - 1 implies (#[trigger] dl[j]).id != c by {
            assert(dl[j] == cs[j + 1]);
        }
        assert(dl[i - 1] == cs[i]);
        lemma_sink_of_at(dl, c, i - 1);
    }
}

/// With no record for `c`, `spec_sink_of` is empty.
pub proof fn lemma_sink_of_none(cs: Seq<ClientV>, c: ClientId)
    requires
        forall|j: int| 0 <= j < cs.len() ==> (#[trigger] cs[j]).id != c,
    ensures
        spec_sink_of(cs, c) == Seq::<MsgV>::empty(),
    decreases cs.len(),
{
    if cs.len() > 0 {
        let dl = cs.drop_first();
        assert forall|j: int| 0 <= j < dl.len() implies (#[trigger] dl[j]).id != c by {
            assert(dl[j] == cs[j + 1]);
        }
        lemma_sink_of_none(dl, c);
    }
}

impl Hub {
    /// Everything that has been written to the outbound sink of `client`, in
    /// delivery order; empty when the identity is unknown.
    pub fn delivered_to(&self, client: ClientId) -> (out: Vec<Message>)
        ensures
            msgs_view(out@) == spec_sink_of(self@.clients, client),
    {
        let mut i: usize = 0;
        while i < self.clients.len()
            invariant
                i <= self.clients@.len(),
                forall|j: int| 0 <= j < i ==> (#[trigger] self@.clients[j]).id != client,
            decreases self.clients@.len() - i,
        {
            if self.clients[i].id == client {
                let mut out: Vec<Message> = Vec::new();
                let mut t: usize = 0;
                while t < self.clients[i].sink.len()
                    invariant
                        i < self.clients@.len(),
                        self.clients@[i as int].id == client,
                        forall|j: int| 0 <= j < i ==> (#[trigger] self@.clients[j]).id != client,
                        t <= self.clients@[i as int].sink@.len(),
                        out@ =~= self.clients@[i as int].sink@.take(t as int),
                    decreases self.clients@[i as int].sink@.len() - t,
                {
                    out.push(self.clients[i].sink[t].clone());
                    proof {
                        assert(self.clients@[i as int].sink@.take(t + 1)
                            =~= self.clients@[i as int].sink@.take(t as int).push(
                            self.clients@[i as int].sink@[t as int],
                        ));
                    }
                    t = t + 1;
                }
                proof {
                    assert(out@ =~= self.clients@[i as int].sink@);
                    lemma_sink_of_at(self@.clients, client, i as int);
                    assert(msgs_view(out@) =~= self@.clients[i as int].sink);
                }
                return out;
            }
            i = i + 1;
        }
        proof {
            lemma_sink_of_none(self@.clients, client);
        }
        let out: Vec<Message> = Vec::new();
        proof {
            assert(msgs_view(out@) =~= Seq::<MsgV>::empty());
        }
        out
    }

    /// How many topics have been created so far; topics are never removed.
    pub fn topic_count(&self) -> (n: usize)
        ensures
            n == self@.topics.len(),
    {
        self.topics.len()
    }

    /// Whether a topic for `key` has been created.
    pub fn contains_topic(&self, key: &String) -> (r: bool)
        ensures
            r == self@.has_topic(key@),
    {
        match self.topic_index(key) {
            Option::Some(_) => true,
            Option::None => false,
        }
    }

    /// How many forwarding attachments are live, leaked ones included.
    pub fn subscription_count(&self) -> (n: usize)
        ensures
            n == self@.subs.len(),
    {
        self.subs.len()
    }

    /// Whether `client` currently has an open connection record.
    pub fn is_connected(&self, client: ClientId) -> (r: bool)
        ensures
            r == self@.reachable(client),
    {
        let mut i: usize = 0;
        while i < self.clients.len()
            invariant
                i <= self.clients@.len(),
                forall|j: int|
                    0 <= j < i ==> !((#[trigger] self@.clients[j]).id == client
                        && self@.clients[j].open),
            decreases self.clients@.len() - i,
        {
            if self.clients[i].id == client && self.clients[i].open {
                proof {
                    assert(self@.clients[i as int].id == client && self@.clients[i as int].open);
                }
                return true;
            }
            i = i + 1;
        }
        false
    }
}

} // verus!
