//! The session registry and fan-out engine.
//!
//! `WebSocketServer` is the relay's state: the registry of live sessions
//! (each with its identity, accept time and private outbound channel), the
//! next identity to assign, and the broadcast bus, modelled as the log of
//! everything published on it.
//!
//! The transport loops live outside: the reader hands each inbound frame's
//! decode result to `handle_frame`, the writer drains a session's channel
//! through `next_outbound`, the listener registers through
//! `accept_connection`, and teardown goes through `remove_connection`.
//! Every step is a plain function from state and event to next state, so
//! the lifecycle invariants are proved here.

use vstd::prelude::*;
use crate::envelope::{
    WebSocketMessage, MessageKind, FrameOutcome, spec_classify, classify_message, is_welcome_for,
    make_welcome,
};

verus! {

/// Capacity of each session's private outbound channel.
pub const OUTBOUND_CAPACITY: usize = 50;

/// One live session: its identity, when it connected, and its private
/// outbound channel — a bounded FIFO with exactly one consumer, that
/// session's writer.
pub struct ExtensionConnection {
    /// Opaque unique identity, assigned at accept time, never reused.
    pub id: u64,
    /// Milliseconds since epoch at accept time.
    pub connected_at: u64,
    /// Queued outbound envelopes, in enqueue order.
    pub outbound: Vec<WebSocketMessage>,
}

/// The relay's state. Constructed once at startup and held by the
/// process's long-lived owner; see the module doc for how the transport
/// loops drive it.
pub struct WebSocketServer {
    /// The registry: zero or more live sessions, keyed by identity.
    /// Membership means "currently able to receive targeted sends".
    pub connections: Vec<ExtensionConnection>,
    /// The next identity to assign; it only ever grows, which is what
    /// makes identities unique for the registry's lifetime.
    pub next_id: u64,
    /// The broadcast bus, as the log of every envelope published on it.
    pub bus: Vec<WebSocketMessage>,
}

/// Enqueue under the documented overflow policy: a full channel discards
/// the incoming message (drop-newest), so what is already queued — the
/// welcome first of all — keeps its place and its order.
pub open spec fn spec_enqueue(q: Seq<WebSocketMessage>, m: WebSocketMessage) -> Seq<
    WebSocketMessage,
> {
    if q.len() < OUTBOUND_CAPACITY {
        q.push(m)
    } else {
        q
    }
}

/// The queue after a whole sequence of enqueues, oldest first.
pub open spec fn spec_enqueue_all(q: Seq<WebSocketMessage>, ms: Seq<WebSocketMessage>) -> Seq<
    WebSocketMessage,
>
    decreases ms.len(),
{
    if ms.len() == 0 {
        q
    } else {
        spec_enqueue_all(spec_enqueue(q, ms[0]), ms.skip(1))
    }
}

/// Index of the first session with identity `id`, scanning from `k`;
/// the registry's length when there is none.
pub open spec fn spec_find_id(conns: Seq<ExtensionConnection>, id: u64, k: nat) -> nat
    decreases conns.len() - k,
{
    if k >= conns.len() {
        conns.len()
    } else if conns[k as int].id == id {
        k
    } else {
        spec_find_id(conns, id, k + 1)
    }
}

/// What `spec_find_id` finds: an index in range, bearing `id`, with no
/// earlier match.
pub proof fn lemma_find_id_props(conns: Seq<ExtensionConnection>, id: u64, k: nat)
    requires
        k <= conns.len(),
    ensures
        k <= spec_find_id(conns, id, k) <= conns.len(),
        spec_find_id(conns, id, k) < conns.len() ==> conns[spec_find_id(conns, id, k) as int].id
            == id,
        forall|j: int|
            k <= j < spec_find_id(conns, id, k) ==> #[trigger] conns[j].id != id,
    decreases conns.len() - k,
{
    if k < conns.len() && conns[k as int].id != id {
        lemma_find_id_props(conns, id, k + 1);
    }
}

/// Where no session bears `id`, the scan reaches the end.
pub proof fn lemma_find_id_none(conns: Seq<ExtensionConnection>, id: u64, k: nat)
    requires
        k <= conns.len(),
        forall|j: int| k <= j < conns.len() ==> #[trigger] conns[j].id != id,
    ensures
        spec_find_id(conns, id, k) == conns.len(),
    decreases conns.len() - k,
{
    if k < conns.len() {
        lemma_find_id_none(conns, id, k + 1);
    }
}

/// The registry after deregistering `id`: the first (and, in a
/// well-formed registry, only) session bearing it is removed; absence is
/// a no-op.
pub open spec fn spec_remove_by_id(conns: Seq<ExtensionConnection>, id: u64) -> Seq<
    ExtensionConnection,
> {
    let k = spec_find_id(conns, id, 0);
    if k == conns.len() {
        conns
    } else {
        conns.remove(k as int)
    }
}

fn find_conn(conns: &Vec<ExtensionConnection>, id: u64, k: usize) -> (r: usize)
    requires
        k <= conns@.len(),
    ensures
        r == spec_find_id(conns@, id, k as nat),
    decreases conns@.len() - k,
{
    if k >= conns.len() {
        conns.len()
    } else if conns[k].id == id {
        k
    } else {
        find_conn(conns, id, k + 1)
    }
}

fn enqueue_outbound(q: &mut Vec<WebSocketMessage>, m: WebSocketMessage)
    ensures
        final(q)@ == spec_enqueue(old(q)@, m),
{
    if q.len() < OUTBOUND_CAPACITY {
        q.push(m);
    }
}

impl WebSocketServer {
    /// The registry's invariant: identities are unique, every live
    /// identity is below the next one to assign, and no channel holds
    /// more than its capacity.
    pub open spec fn wf(&self) -> bool {
        &&& forall|i: int, j: int|
            #![trigger self.connections@[i], self.connections@[j]]
            0 <= i < j < self.connections@.len() ==> self.connections@[i].id
                != self.connections@[j].id
        &&& forall|i: int|
            0 <= i < self.connections@.len() ==> #[trigger] self.connections@[i].id < self.next_id
        &&& forall|i: int|
            0 <= i < self.connections@.len() ==> #[trigger] self.connections@[i].outbound@.len()
                <= OUTBOUND_CAPACITY
    }

    /// A fresh relay: no sessions, nothing published, identities start
    /// at zero.
    pub fn new() -> (s: WebSocketServer)
        ensures
            s.wf(),
            s.connections@.len() == 0,
            s.next_id == 0,
            s.bus@.len() == 0,
    {
        WebSocketServer { connections: Vec::new(), next_id: 0, bus: Vec::new() }
    }

    /// Registration, run by the listener for each accepted connection,
    /// before any message is exchanged: assigns the next identity, inserts
    /// the session, and queues the welcome — the one message the relay
    /// originates unprompted — as the very first thing its writer will
    /// deliver.
    pub fn accept_connection(&mut self, now: u64) -> (id: u64)
        requires
            old(self).wf(),
            old(self).next_id < u64::MAX,
        ensures
            final(self).wf(),
            id == old(self).next_id,
            final(self).next_id == old(self).next_id + 1,
            final(self).bus == old(self).bus,
            final(self).connections@.len() == old(self).connections@.len() + 1,
            forall|i: int|
                0 <= i < old(self).connections@.len() ==> #[trigger] final(self).connections@[i] == old(self).connections@[i],
            final(self).connections@.last().id == id,
            final(self).connections@.last().connected_at == now,
            final(self).connections@.last().outbound@.len() == 1,
            is_welcome_for(final(self).connections@.last().outbound@[0], id, now),
    {
        let id = self.next_id;
        self.next_id = self.next_id + 1;
        let welcome = make_welcome(id, now);
        let mut outbound: Vec<WebSocketMessage> = Vec::new();
        outbound.push(welcome);
        self.connections.push(ExtensionConnection { id, connected_at: now, outbound });
        id
    }

    /// One step of a reader loop: the decode result of one inbound frame.
    /// A malformed frame (`None`) is silently discarded — the connection
    /// stays open and nothing changes. A decoded envelope is dispatched by
    /// type (the returned kind names the collaborator hook; fire-and-forget)
    /// and then republished onto the broadcast bus exactly once, whatever
    /// its type: dispatch is an observation, not a filter.
    pub fn handle_frame(&mut self, decoded: Option<WebSocketMessage>) -> (outcome: FrameOutcome)
        requires
            old(self).wf(),
        ensures
            final(self).wf(),
            final(self).connections == old(self).connections,
            final(self).next_id == old(self).next_id,
            match decoded {
                None => final(self).bus == old(self).bus && outcome == FrameOutcome::Discarded,
                Some(m) => final(self).bus@ == old(self).bus@.push(m) && outcome
                    == FrameOutcome::Relayed(spec_classify(m.message_type@)),
            },
    {
        match decoded {
            None => FrameOutcome::Discarded,
            Some(m) => {
                let kind = classify_message(&m.message_type);
                self.bus.push(m);
                FrameOutcome::Relayed(kind)
            },
        }
    }

    /// Publishes an envelope onto the broadcast bus and fans it out to
    /// every currently registered session's channel — subscribed at publish
    /// time: a session that connects later receives nothing from this call.
    /// With zero sessions this completes without error and touches no
    /// session state. It never fails from the caller's perspective.
    pub fn broadcast_message(&mut self, message: WebSocketMessage)
        requires
            old(self).wf(),
        ensures
            final(self).wf(),
            final(self).next_id == old(self).next_id,
            final(self).bus@ == old(self).bus@.push(message),
            final(self).connections@.len() == old(self).connections@.len(),
            forall|i: int|
                0 <= i < final(self).connections@.len() ==> {
                    &&& (#[trigger] final(self).connections@[i]).id == old(self).connections@[i].id
                    &&& final(self).connections@[i].connected_at == old(self).connections@[i].connected_at
                    &&& final(self).connections@[i].outbound@ == spec_enqueue(
                        old(self).connections@[i].outbound@,
                        message,
                    )
                },
    {
        let mut i: usize = 0;
        while i < self.connections.len()
            invariant
                i <= self.connections@.len(),
                self.connections@.len() == old(self).connections@.len(),
                self.next_id == old(self).next_id,
                self.bus == old(self).bus,
                forall|k: int|
                    0 <= k < i ==> {
                        &&& (#[trigger] self.connections@[k]).id == old(self).connections@[k].id
                        &&& self.connections@[k].connected_at == old(
                            self,
                        ).connections@[k].connected_at
                        &&& self.connections@[k].outbound@ == spec_enqueue(
                            old(self).connections@[k].outbound@,
                            message,
                        )
                    },
                forall|k: int|
                    i <= k < self.connections@.len() ==> #[trigger] self.connections@[k] == old(
                        self,
                    ).connections@[k],
            decreases self.connections@.len() - i,
        {
            let ghost pre = self.connections@;
            let mut c = self.connections.remove(i);
            enqueue_outbound(&mut c.outbound, message.clone_message());
            self.connections.insert(i, c);
            proof {
                assert forall|k: int| 0 <= k < pre.len() && k != i implies self.connections@[k]
                    == pre[k] by {
                    assert(self.connections@[k] == pre.remove(i as int).insert(
                        i as int,
                        self.connections@[i as int],
                    )[k]);
                }
            }
            i = i + 1;
        }
        self.bus.push(message);
    }

    /// Targeted send: looks the identity up in the registry and, when
    /// present, enqueues onto that one session's channel (under the
    /// channel's overflow policy); when absent — already torn down, or
    /// never existed — it is a silent no-op, not an error: dropping
    /// stale targeted messages is intentional.
    pub fn send_to_extension(&mut self, extension_id: u64, message: WebSocketMessage)
        requires
            old(self).wf(),
        ensures
            final(self).wf(),
            final(self).next_id == old(self).next_id,
            final(self).bus == old(self).bus,
            ({
                let k = spec_find_id(old(self).connections@, extension_id, 0);
                if k == old(self).connections@.len() {
                    *final(self) == *old(self)
                } else {
                    &&& final(self).connections@.len() == old(self).connections@.len()
                    &&& forall|i: int|
                        0 <= i < final(self).connections@.len() && i != k
                            ==> #[trigger] final(self).connections@[i] == old(self).connections@[i]
                    &&& final(self).connections@[k as int].id == old(self).connections@[k as int].id
                    &&& final(self).connections@[k as int].connected_at == old(self).connections@[k as int].connected_at
                    &&& final(self).connections@[k as int].outbound@ == spec_enqueue(
                        old(self).connections@[k as int].outbound@,
                        message,
                    )
                }
            }),
    {
        proof {
            lemma_find_id_props(self.connections@, extension_id, 0);
        }
        let k = find_conn(&self.connections, extension_id, 0);
        if k < self.connections.len() {
            let ghost pre = self.connections@;
            let mut c = self.connections.remove(k);
            enqueue_outbound(&mut c.outbound, message);
            self.connections.insert(k, c);
            proof {
                assert forall|i: int| 0 <= i < pre.len() && i != k implies self.connections@[i]
                    == pre[i] by {
                    assert(self.connections@[i] == pre.remove(k as int).insert(
                        k as int,
                        self.connections@[k as int],
                    )[i]);
                }
            }
        }
    }

    /// One step of a session's writer loop: takes the next queued envelope,
    /// in enqueue order, from that session's channel. `None` — an unknown
    /// identity or an empty channel — leaves everything unchanged (the
    /// writer suspends; this function is its polling face).
    pub fn next_outbound(&mut self, extension_id: u64) -> (r: Option<WebSocketMessage>)
        requires
            old(self).wf(),
        ensures
            final(self).wf(),
            final(self).next_id == old(self).next_id,
            final(self).bus == old(self).bus,
            ({
                let k = spec_find_id(old(self).connections@, extension_id, 0);
                if k == old(self).connections@.len() || old(self).connections@[k as int].outbound@.len()
                    == 0 {
                    r is None && *final(self) == *old(self)
                } else {
                    &&& r == Some(old(self).connections@[k as int].outbound@[0])
                    &&& final(self).connections@.len() == old(self).connections@.len()
                    &&& forall|i: int|
                        0 <= i < final(self).connections@.len() && i != k
                            ==> #[trigger] final(self).connections@[i] == old(self).connections@[i]
                    &&& final(self).connections@[k as int].id == old(self).connections@[k as int].id
                    &&& final(self).connections@[k as int].connected_at == old(self).connections@[k as int].connected_at
                    &&& final(self).connections@[k as int].outbound@ == old(self).connections@[k as int].outbound@.skip(1)
                }
            }),
    {
        proof {
            lemma_find_id_props(self.connections@, extension_id, 0);
        }
        let k = find_conn(&self.connections, extension_id, 0);
        if k < self.connections.len() {
            if self.connections[k].outbound.len() > 0 {
                let ghost pre = self.connections@;
                let mut c = self.connections.remove(k);
                let m = c.outbound.remove(0);
                self.connections.insert(k, c);
                proof {
                    assert forall|i: int| 0 <= i < pre.len() && i != k implies self.connections@[i]
                        == pre[i] by {
                        assert(self.connections@[i] == pre.remove(k as int).insert(
                            k as int,
                            self.connections@[k as int],
                        )[i]);
                    }
                    assert(self.connections@[k as int].outbound@ =~= pre[k as int].outbound@.skip(
                        1,
                    ));
                }
                Some(m)
            } else {
                None
            }
        } else {
            None
        }
    }

    /// Deregistration, run by a connection's handler when the first of its
    /// two loops terminates — peer close, read error or write error alike.
    /// Removing an identity that is absent is a silent no-op, which is what
    /// makes teardown exactly-once even when reader and writer both signal:
    /// see `lemma_deregister_exactly_once`.
    pub fn remove_connection(&mut self, extension_id: u64) -> (removed: bool)
        requires
            old(self).wf(),
        ensures
            final(self).wf(),
            final(self).next_id == old(self).next_id,
            final(self).bus == old(self).bus,
            final(self).connections@ == spec_remove_by_id(old(self).connections@, extension_id),
            removed == (spec_find_id(old(self).connections@, extension_id, 0) < old(self).connections@.len()),
    {
        proof {
            lemma_find_id_props(self.connections@, extension_id, 0);
        }
        let k = find_conn(&self.connections, extension_id, 0);
        if k < self.connections.len() {
            self.connections.remove(k);
            true
        } else {
            false
        }
    }

    /// A point-in-time snapshot of the registered identities, in registry
    /// order; it may be stale by the time the caller acts on it.
    pub fn get_connected_extensions(&self) -> (ids: Vec<u64>)
        ensures
            ids@.len() == self.connections@.len(),
            forall|i: int|
                0 <= i < ids@.len() ==> #[trigger] ids@[i] == self.connections@[i].id,
    {
        let mut ids: Vec<u64> = Vec::new();
        let mut i: usize = 0;
        while i < self.connections.len()
            invariant
                i <= self.connections@.len(),
                ids@.len() == i,
                forall|j: int| 0 <= j < i ==> #[trigger] ids@[j] == self.connections@[j].id,
            decreases self.connections@.len() - i,
        {
            ids.push(self.connections[i].id);
            i = i + 1;
        }
        ids
    }
}

/// An identity, once assigned, is never reused by another session: every
/// live identity sits strictly below `next_id`, accept assigns exactly
/// `next_id` and then increments it, and no operation ever lowers it — so
/// each assigned identity differs from every one assigned before it, live
/// or long gone.
pub proof fn lemma_fresh_id_unused(s: &WebSocketServer)
    requires
        s.wf(),
    ensures
        forall|i: int|
            0 <= i < s.connections@.len() ==> #[trigger] s.connections@[i].id != s.next_id,
{
}

/// A nonempty channel's head survives any later enqueues: the drop-newest
/// overflow policy never displaces what is already queued.
pub proof fn lemma_enqueue_all_head(q: Seq<WebSocketMessage>, ms: Seq<WebSocketMessage>)
    requires
        q.len() >= 1,
    ensures
        spec_enqueue_all(q, ms).len() >= 1,
        spec_enqueue_all(q, ms)[0] == q[0],
    decreases ms.len(),
{
    if ms.len() > 0 {
        lemma_enqueue_all_head(spec_enqueue(q, ms[0]), ms.skip(1));
    }
}

/// Exactly one welcome, before anything else: accept queues the welcome as
/// the sole occupant of the fresh session's channel, no other operation
/// constructs a welcome, and — whatever is enqueued afterwards — the
/// channel's head stays that welcome, so the writer delivers it first.
pub proof fn lemma_welcome_delivered_first(w: WebSocketMessage, ms: Seq<WebSocketMessage>)
    ensures
        spec_enqueue_all(seq![w], ms).len() >= 1,
        spec_enqueue_all(seq![w], ms)[0] == w,
{
    lemma_enqueue_all_head(seq![w], ms);
}

/// FIFO delivery: a channel with room for a whole burst queues it in
/// enqueue order after what was already there, and the writer drains from
/// the head — so tagged messages come out in the order they went in.
pub proof fn lemma_outbound_fifo(q: Seq<WebSocketMessage>, ms: Seq<WebSocketMessage>)
    requires
        q.len() + ms.len() <= OUTBOUND_CAPACITY,
    ensures
        spec_enqueue_all(q, ms) == q + ms,
    decreases ms.len(),
{
    if ms.len() == 0 {
        assert(spec_enqueue_all(q, ms) =~= q + ms);
    } else {
        lemma_outbound_fifo(q.push(ms[0]), ms.skip(1));
        assert(q.push(ms[0]) + ms.skip(1) =~= q + ms);
    }
}

/// Deregistration is exactly-once per identity: in a registry with unique
/// identities, removing an identity and then removing it again leaves the
/// registry exactly as after the first removal — no double-remove, even if
/// a session's reader and writer both fail and both signal teardown.
pub proof fn lemma_deregister_exactly_once(conns: Seq<ExtensionConnection>, id: u64)
    requires
        forall|i: int, j: int|
            #![trigger conns[i], conns[j]]
            0 <= i < j < conns.len() ==> conns[i].id != conns[j].id,
    ensures
        spec_remove_by_id(spec_remove_by_id(conns, id), id) == spec_remove_by_id(conns, id),
{
    let k = spec_find_id(conns, id, 0);
    lemma_find_id_props(conns, id, 0);
    if k < conns.len() {
        let removed = conns.remove(k as int);
        assert forall|j: int| 0 <= j < removed.len() implies #[trigger] removed[j].id != id by {
            if j < k {
                assert(removed[j] == conns[j]);
            } else {
                assert(removed[j] == conns[j + 1]);
            }
        }
        lemma_find_id_none(removed, id, 0);
    }
}

} // verus!
