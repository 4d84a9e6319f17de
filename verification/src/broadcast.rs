//! The gossip broadcast protocol: every node stores the set of values it has
//! seen and makes sure every peer eventually stores them too. A freshly
//! learned value is gossiped to all other nodes; each of them is tracked in a
//! pending-acknowledgment set for that value and retransmitted to on a timer
//! until it acknowledges. Insertion is idempotent, acknowledgments are
//! idempotent, and once every peer has acknowledged a value its
//! retransmission stops for good.

use vstd::prelude::*;

use crate::messages::{Message, routed_as};
use crate::nodes::{
    MessageType, NodeState, Outbound, TimerState, lemma_push_prefix, lemma_push_to_set,
    reply_appended,
};

verus! {

/// How long after a (re)transmission round the next retransmission timer for
/// a value fires, in milliseconds.
pub const RETRY_MS: u64 = 100;

/// The broadcast protocol's message set.
pub enum BroadcastPayload {
    Broadcast { msg: u32 },
    BroadcastOk,
    Gossip { msg: u32 },
    GossipOk { msg: u32 },
    Read,
    ReadOk { messages: Vec<u32> },
    Topology { topology: Vec<(String, Vec<String>)> },
    TopologyOk,
}

/// A retransmission timer: fires for one value, and is a no-op if that value
/// has been fully acknowledged by the time it fires.
pub struct BroadcastTimer {
    pub value: u32,
}

/// One value not yet acknowledged by every peer, with the peers still owed
/// an acknowledgment.
pub struct PendingAck {
    pub value: u32,
    pub peers: Vec<String>,
}

/// A node running the gossip broadcast protocol.
pub struct BroadcastNode {
    pub state: NodeState<BroadcastTimer, BroadcastPayload>,
    pub messages: Vec<u32>,
    pub pending: Vec<PendingAck>,
}

/// Delivering a value to a node's set of seen values: plain set insertion,
/// which is what makes delivery idempotent and order-insensitive.
pub open spec fn deliver(s: Set<u32>, v: u32) -> Set<u32> {
    s.insert(v)
}

/// Delivering a whole sequence of values, one after the other.
pub open spec fn deliver_all(s: Set<u32>, vs: Seq<u32>) -> Set<u32>
    decreases vs.len(),
{
    if vs.len() == 0 {
        s
    } else {
        deliver_all(deliver(s, vs[0]), vs.subrange(1, vs.len() as int))
    }
}

/// Is some pending-acknowledgment entry recorded for this value?
pub open spec fn has_pending(p: Seq<PendingAck>, v: u32) -> bool {
    exists|i: int| 0 <= i < p.len() && p[i].value == v
}

/// The index of the entry for this value (entries hold distinct values).
pub open spec fn pending_index(p: Seq<PendingAck>, v: u32) -> int {
    choose|i: int| 0 <= i < p.len() && p[i].value == v
}

/// The set of peers that still owe an acknowledgment for this value.
pub open spec fn pending_peers(p: Seq<PendingAck>, v: u32) -> Set<Seq<char>>
    recommends
        has_pending(p, v),
{
    p[pending_index(p, v)].peers.deep_view().to_set()
}

/// The peers still owed an acknowledgment for this value, in recorded order.
pub open spec fn pending_peer_seq(p: Seq<PendingAck>, v: u32) -> Seq<Seq<char>>
    recommends
        has_pending(p, v),
{
    p[pending_index(p, v)].peers.deep_view()
}

/// Entries hold pairwise distinct values.
pub open spec fn pending_unique(p: Seq<PendingAck>) -> bool {
    forall|i: int, j: int| 0 <= i < j < p.len() ==> p[i].value != p[j].value
}

/// Entries for every value other than `v` answer the same questions in both
/// sequences: the same values are pending, each with the same peer set.
pub open spec fn other_entries_unchanged(p1: Seq<PendingAck>, p2: Seq<PendingAck>, v: u32) -> bool {
    forall|w: u32|
        w != v ==> #[trigger] has_pending(p2, w) == has_pending(p1, w) && (has_pending(p1, w)
            ==> pending_peers(p2, w) == pending_peers(p1, w))
}

/// Every node id other than this node's own, in peer-list order: the
/// recipients of a fresh value's gossip round.
pub open spec fn others(ids: Seq<Seq<char>>, me: Seq<char>) -> Seq<Seq<char>> {
    ids.filter(|p: Seq<char>| p != me)
}

/// The node id and peer list are never changed by protocol traffic.
pub open spec fn identity_unchanged(pre: BroadcastNode, post: BroadcastNode) -> bool {
    &&& post.state.node_id == pre.state.node_id
    &&& post.state.nodes_ids == pre.state.nodes_ids
}

impl BroadcastNode {
    /// The set of values this node has seen.
    pub open spec fn msg_set(self) -> Set<u32> {
        self.messages@.to_set()
    }

    /// Well-formedness: peer ids are distinct, seen values are stored
    /// without duplicates, pending entries hold distinct values, each entry
    /// still waits on at least one peer, holds each peer once, waits on no
    /// more peers than the cluster has, and tracks only a value this node
    /// has itself stored.
    pub open spec fn inv(self) -> bool {
        &&& self.state.nodes_ids.deep_view().no_duplicates()
        &&& self.messages@.no_duplicates()
        &&& pending_unique(self.pending@)
        &&& forall|i: int|
            0 <= i < self.pending@.len() ==> (#[trigger] self.pending@[i]).peers@.len() > 0
        &&& forall|i: int|
            0 <= i < self.pending@.len()
                ==> (#[trigger] self.pending@[i]).peers.deep_view().no_duplicates()
        &&& forall|i: int|
            0 <= i < self.pending@.len() ==> (#[trigger] self.pending@[i]).peers@.len()
                <= self.state.nodes_ids@.len()
        &&& forall|i: int|
            0 <= i < self.pending@.len() ==> self.messages@.contains(
                (#[trigger] self.pending@[i]).value,
            )
    }

    /// A fresh broadcast node: nothing seen, nothing pending.
    pub fn init() -> (n: BroadcastNode)
        ensures
            n.inv(),
            n.state.node_id@ == Seq::<char>::empty(),
            n.state.nodes_ids@.len() == 0,
            n.state.tx_id == 0,
            n.state.queue@.len() == 0,
            n.state.outbox@.len() == 0,
            n.messages@.len() == 0,
            n.pending@.len() == 0,
    {
        BroadcastNode { state: NodeState::init(), messages: Vec::new(), pending: Vec::new() }
    }

    /// The runtime state, read-only.
    pub fn get_state(&self) -> (s: &NodeState<BroadcastTimer, BroadcastPayload>)
        ensures
            *s == self.state,
    {
        &self.state
    }

    /// The runtime state, for mutation by the embedding program.
    pub fn get_state_mut(&mut self) -> (s: &mut NodeState<BroadcastTimer, BroadcastPayload>)
        ensures
            *s == old(self).state,
            final(self).state == *final(s),
            final(self).messages == old(self).messages,
            final(self).pending == old(self).pending,
    {
        &mut self.state
    }

    /// Deliver a value into the seen set; true iff it was newly stored.
    fn store_value(&mut self, v: u32) -> (fresh: bool)
        requires
            old(self).inv(),
        ensures
            final(self).inv(),
            fresh == !old(self).messages@.contains(v),
            gossip_stored(*old(self), *final(self), v),
            final(self).state == old(self).state,
            final(self).pending == old(self).pending,
    {
        let known = contains_u32(&self.messages, v);
        if !known {
            self.messages.push(v);
            proof {
                lemma_push_to_set(old(self).messages@, v);
                assert forall|i: int, j: int|
                    0 <= i < j < self.messages@.len() implies self.messages@[i]
                    != self.messages@[j] by {
                    if j < self.messages@.len() - 1 {
                        assert(old(self).messages@[i] != old(self).messages@[j]);
                    } else {
                        assert(self.messages@[i] == old(self).messages@[i]);
                    }
                }
                assert forall|i: int|
                    0 <= i < self.pending@.len() implies self.messages@.contains(
                    (#[trigger] self.pending@[i]).value,
                ) by {
                    let w = self.pending@[i].value;
                    assert(old(self).messages@.contains(w));
                    let j = choose|j: int|
                        0 <= j < old(self).messages@.len() && old(self).messages@[j] == w;
                    assert(self.messages@[j] == w);
                }
            }
        } else {
            proof {
                assert(old(self).msg_set().insert(v) =~= old(self).msg_set());
            }
        }
        !known
    }

    /// A value arrived for broadcast: deliver it, acknowledge the sender,
    /// and — only if it was newly seen — gossip it to every other node,
    /// record them as owing acknowledgments, and start its retransmission
    /// timer.
    pub fn handle_broadcast(&mut self, v: u32, src: String, req_id: Option<usize>, now: u64)
        requires
            old(self).inv(),
            old(self).state.tx_id + old(self).state.nodes_ids@.len() + 1 <= usize::MAX,
            now + RETRY_MS <= u64::MAX,
        ensures
            final(self).inv(),
            broadcast_applied(*old(self), *final(self), v, src@, req_id, now),
    {
        let ghost pre = *old(self);
        let ghost base = pre.state.outbox@.len() as int;
        let fresh_val = self.store_value(v);
        self.state.write_message(Outbound::Proto(BroadcastPayload::BroadcastOk), req_id, src);
        proof {
            lemma_push_prefix(pre.state.outbox@, self.state.outbox@, base);
            assert(pre.state.outbox@.subrange(0, base) =~= pre.state.outbox@);
            assert(self.state.outbox@[base] == self.state.outbox@.last());
        }
        if fresh_val {
            let peers = other_peers(&self.state.nodes_ids, &self.state.node_id);
            let ghost fresh = others(pre.state.nodes_ids.deep_view(), pre.state.node_id@);
            let ghost mid = self.state.outbox@;
            let ghost tx0 = self.state.tx_id;
            let ghost msgs = self.messages@;
            proof {
                assert(peers.deep_view() == fresh);
                assert(fresh.len() == peers@.len());
            }
            let mut i: usize = 0;
            while i < peers.len()
                invariant
                    0 <= i <= peers@.len(),
                    peers.deep_view() == fresh,
                    fresh.len() == peers@.len(),
                    tx0 + peers@.len() <= usize::MAX,
                    self.state.tx_id == tx0 + i,
                    self.state.outbox@.len() == mid.len() + i,
                    self.state.outbox@.subrange(0, mid.len() as int) == mid,
                    forall|k: int|
                        0 <= k < i ==> routed_as(
                            #[trigger] self.state.outbox@[mid.len() + k],
                            pre.state.node_id@,
                            fresh[k],
                            Some((tx0 + k) as usize),
                            None,
                        ) && self.state.outbox@[mid.len() + k].body.payload == Outbound::Proto(
                            (BroadcastPayload::Gossip { msg: v }),
                        ),
                    self.state.node_id == pre.state.node_id,
                    self.state.nodes_ids == pre.state.nodes_ids,
                    self.state.queue == pre.state.queue,
                    self.messages@ == msgs,
                    self.pending == pre.pending,
                    self.inv(),
                decreases peers@.len() - i,
            {
                let ghost prev = self.state.outbox@;
                let dst = peers[i].clone();
                proof {
                    assert(dst@ == peers.deep_view()[i as int]);
                }
                self.state.write_message(
                    Outbound::Proto(BroadcastPayload::Gossip { msg: v }),
                    None,
                    dst,
                );
                proof {
                    lemma_push_prefix(prev, self.state.outbox@, mid.len() as int);
                    assert forall|k: int|
                        0 <= k < i + 1 implies routed_as(
                        #[trigger] self.state.outbox@[mid.len() + k],
                        pre.state.node_id@,
                        fresh[k],
                        Some((tx0 + k) as usize),
                        None,
                    ) && self.state.outbox@[mid.len() + k].body.payload == Outbound::Proto(
                        (BroadcastPayload::Gossip { msg: v }),
                    ) by {
                        if k < i {
                            assert(self.state.outbox@[mid.len() + k] == self.state.outbox@
                                .drop_last()[mid.len() + k]);
                            assert(self.state.outbox@[mid.len() + k] == prev[mid.len() + k]);
                        } else {
                            assert(self.state.outbox@[mid.len() + k] == self.state.outbox@.last());
                        }
                    }
                }
                i = i + 1;
            }
            if peers.len() > 0 {
                proof {
                    assert forall|j: int|
                        0 <= j < self.pending@.len() implies (#[trigger] self.pending@[j]).value
                        != v by {
                        assert(pre.messages@.contains(pre.pending@[j].value));
                    }
                }
                let num_peers = peers.len();
                self.pending.push(PendingAck { value: v, peers });
                self.state.queue_timer(BroadcastTimer { value: v }, now + RETRY_MS);
                proof {
                    assert(self.pending@.drop_last() =~= pre.pending@);
                    assert(self.pending@.last().peers.deep_view() == fresh);
                    assert forall|j: int|
                        0 <= j < self.pending@.len() implies self.messages@.contains(
                        (#[trigger] self.pending@[j]).value,
                    ) by {
                        if j < self.pending@.len() - 1 {
                            assert(self.pending@[j] == pre.pending@[j]);
                            assert(msgs.contains(pre.pending@[j].value)) by {
                                assert(pre.messages@.contains(pre.pending@[j].value));
                                let q = choose|q: int|
                                    0 <= q < pre.messages@.len() && pre.messages@[q]
                                        == pre.pending@[j].value;
                                assert(msgs[q] == pre.pending@[j].value);
                            }
                        } else {
                            assert(msgs[msgs.len() - 1] == v);
                        }
                    }
                }
            }
            proof {
                assert(self.state.outbox@.subrange(0, base) =~= pre.state.outbox@) by {
                    assert forall|j: int| 0 <= j < base implies self.state.outbox@[j]
                        == pre.state.outbox@[j] by {
                        assert(self.state.outbox@[j] == self.state.outbox@.subrange(
                            0,
                            mid.len() as int,
                        )[j]);
                        assert(mid[j] == mid.subrange(0, base)[j]);
                    }
                }
            }
        }
    }

    /// A peer gossiped a value: deliver it (idempotently) and acknowledge.
    pub fn handle_gossip(&mut self, v: u32, src: String, req_id: Option<usize>)
        requires
            old(self).inv(),
            old(self).state.tx_id < usize::MAX,
        ensures
            final(self).inv(),
            gossip_applied(*old(self), *final(self), v, src@, req_id),
    {
        self.store_value(v);
        self.state.write_message(
            Outbound::Proto(BroadcastPayload::GossipOk { msg: v }),
            req_id,
            src,
        );
    }

    /// A peer acknowledged a gossiped value: it no longer owes an
    /// acknowledgment. Once the last peer has acknowledged, the value's
    /// entry is dropped and its dissemination is complete; a duplicate or
    /// unexpected acknowledgment changes nothing.
    pub fn handle_gossip_ok(&mut self, v: u32, src: String)
        requires
            old(self).inv(),
        ensures
            final(self).inv(),
            gossip_ok_applied(*old(self), *final(self), v, src@),
    {
        let ghost pre = *old(self);
        let found = find_pending(&self.pending, v);
        match found {
            None => {
                proof {
                    assert(!has_pending(pre.pending@, v));
                }
            },
            Some(i) => {
                proof {
                    assert(pre.pending@[i as int].value == v);
                    assert(has_pending(pre.pending@, v));
                    let pi = pending_index(pre.pending@, v);
                    assert(0 <= pi < pre.pending@.len() && pre.pending@[pi].value == v);
                    assert(pi == i as int);
                }
                let r = find_peer(&self.pending[i].peers, &src);
                let ghost q = pre.pending@;
                let ghost dv0 = q[i as int].peers.deep_view();
                let ghost s = pending_peers(q, v);
                proof {
                    assert(s == dv0.to_set());
                }
                match r {
                    None => {
                        proof {
                            assert(!s.contains(src@)) by {
                                if dv0.contains(src@) {
                                    let j = choose|j: int| 0 <= j < dv0.len() && dv0[j] == src@;
                                    assert(dv0[j] != src@);
                                }
                            }
                        }
                    },
                    Some(k) => {
                        proof {
                            assert(dv0[k as int] == src@);
                            assert(s.contains(src@));
                            lemma_swap_remove_entries(q, i as int);
                            lemma_remove_view_to_set(dv0, k as int);
                            dv0.unique_seq_to_set();
                        }
                        let mut entry = self.pending.swap_remove(i);
                        proof {
                            assert(entry == q[i as int]);
                            assert(self.pending@ == swap_removed(q, i as int));
                        }
                        entry.peers.remove(k);
                        proof {
                            assert(entry.peers.deep_view() =~= dv0.remove(k as int)) by {
                                dv0.remove_ensures(k as int);
                                q[i as int].peers@.remove_ensures(k as int);
                            }
                            assert(s.remove(src@) == dv0.remove(k as int).to_set());
                            dv0.remove(k as int).unique_seq_to_set();
                            assert(dv0.remove(k as int).len() == entry.peers@.len());
                        }
                        let ghost m = swap_removed(q, i as int);
                        if entry.peers.len() > 0 {
                            proof {
                                assert(entry.value == v);
                                assert(!has_pending(m, entry.value));
                                lemma_push_entries(m, entry);
                            }
                            self.pending.push(entry);
                            proof {
                                self.lemma_restore_pending_inv(pre, q, m, i as int);
                                assert(s.remove(src@).len() > 0);
                                assert(pending_peers(self.pending@, v) == s.remove(src@));
                                assert(other_entries_unchanged(q, self.pending@, v)) by {
                                    assert forall|w: u32| w != v implies #[trigger] has_pending(
                                        self.pending@,
                                        w,
                                    ) == has_pending(q, w) && (has_pending(q, w) ==> pending_peers(
                                        self.pending@,
                                        w,
                                    ) == pending_peers(q, w)) by {
                                        assert(has_pending(m.push(entry), w) == has_pending(m, w));
                                        assert(has_pending(m, w) == has_pending(q, w));
                                        if has_pending(q, w) {
                                            assert(pending_peers(m, w) == pending_peers(q, w));
                                            assert(pending_peers(m.push(entry), w)
                                                == pending_peers(m, w));
                                        }
                                    }
                                }
                            }
                        } else {
                            proof {
                                assert(s.remove(src@).len() == 0) by {
                                    assert(dv0.remove(k as int).len() == 0);
                                }
                                assert(!has_pending(self.pending@, v));
                                assert(other_entries_unchanged(q, self.pending@, v)) by {
                                    assert forall|w: u32| w != v implies #[trigger] has_pending(
                                        self.pending@,
                                        w,
                                    ) == has_pending(q, w) && (has_pending(q, w) ==> pending_peers(
                                        self.pending@,
                                        w,
                                    ) == pending_peers(q, w)) by {
                                        assert(has_pending(m, w) == has_pending(q, w));
                                        if has_pending(q, w) {
                                            assert(pending_peers(m, w) == pending_peers(q, w));
                                        }
                                    }
                                }
                                self.lemma_restore_pending_inv_dropped(pre, q, i as int);
                            }
                        }
                    },
                }
            },
        }
    }

    /// After swapping entry `i` out of a well-formed node's pending list and
    /// appending a shrunken replacement, every per-entry well-formedness
    /// condition still holds.
    proof fn lemma_restore_pending_inv(
        self,
        pre: BroadcastNode,
        q: Seq<PendingAck>,
        m: Seq<PendingAck>,
        i: int,
    )
        requires
            pre.inv(),
            q == pre.pending@,
            0 <= i < q.len(),
            m == swap_removed(q, i),
            self.pending@.len() == m.len() + 1,
            forall|j: int| 0 <= j < m.len() ==> #[trigger] self.pending@[j] == m[j],
            self.pending@.last().value == q[i].value,
            self.pending@.last().peers@.len() > 0,
            self.pending@.last().peers@.len() <= q[i].peers@.len(),
            self.pending@.last().peers.deep_view().no_duplicates(),
            pending_unique(self.pending@),
            self.messages == pre.messages,
            self.state.nodes_ids == pre.state.nodes_ids,
        ensures
            self.inv(),
    {
        lemma_swap_remove_entries(q, i);
        assert forall|j: int|
            0 <= j < self.pending@.len() implies ((#[trigger] self.pending@[j]).peers@.len() > 0
            && self.pending@[j].peers.deep_view().no_duplicates() && self.pending@[j].peers@.len()
            <= self.state.nodes_ids@.len() && self.messages@.contains(
            self.pending@[j].value,
        )) by {
            if j < m.len() {
                assert(m[j] == (if j == i {
                    q[q.len() - 1]
                } else {
                    q[j]
                }));
            } else {
                assert(self.pending@[j] == self.pending@.last());
                assert(q[i].peers@.len() <= pre.state.nodes_ids@.len());
                assert(pre.messages@.contains(q[i].value));
            }
        }
    }

    /// After swapping entry `i` out of a well-formed node's pending list and
    /// dropping it, every per-entry well-formedness condition still holds.
    proof fn lemma_restore_pending_inv_dropped(
        self,
        pre: BroadcastNode,
        q: Seq<PendingAck>,
        i: int,
    )
        requires
            pre.inv(),
            q == pre.pending@,
            0 <= i < q.len(),
            self.pending@ == swap_removed(q, i),
            self.messages == pre.messages,
            self.state.nodes_ids == pre.state.nodes_ids,
        ensures
            self.inv(),
    {
        lemma_swap_remove_entries(q, i);
        assert forall|j: int|
            0 <= j < self.pending@.len() implies ((#[trigger] self.pending@[j]).peers@.len() > 0
            && self.pending@[j].peers.deep_view().no_duplicates() && self.pending@[j].peers@.len()
            <= self.state.nodes_ids@.len() && self.messages@.contains(
            self.pending@[j].value,
        )) by {
            assert(self.pending@[j] == (if j == i {
                q[q.len() - 1]
            } else {
                q[j]
            }));
        }
    }

    /// A client asked for the seen set: reply with a copy of it.
    pub fn handle_read(&mut self, src: String, req_id: Option<usize>)
        requires
            old(self).inv(),
            old(self).state.tx_id < usize::MAX,
        ensures
            final(self).inv(),
            read_applied(*old(self), *final(self), src@, req_id),
    {
        let copy = copy_u32s(&self.messages);
        self.state.write_message(
            Outbound::Proto(BroadcastPayload::ReadOk { messages: copy }),
            req_id,
            src,
        );
    }

    /// Dispatch one classified inbound envelope to the matching operation.
    /// A store reply is ignored — this protocol never talks to the store —
    /// and so is a stray `broadcast_ok`; reply-only payloads this node never
    /// requests (`read_ok`, `topology_ok`) are contract violations and are
    /// excluded outright.
    pub fn process_message(&mut self, message: MessageType<BroadcastPayload>, now: u64)
        requires
            old(self).inv(),
            old(self).state.tx_id + old(self).state.nodes_ids@.len() + 1 <= usize::MAX,
            now + RETRY_MS <= u64::MAX,
            message matches MessageType::Defined(m) ==> !(m.body.payload is ReadOk) && !(
            m.body.payload is TopologyOk),
        ensures
            final(self).inv(),
            (match message {
                MessageType::Defined(m) => match m.body.payload {
                    BroadcastPayload::Broadcast { msg } => broadcast_applied(
                        *old(self),
                        *final(self),
                        msg,
                        m.src@,
                        m.body.id,
                        now,
                    ),
                    BroadcastPayload::Gossip { msg } => gossip_applied(
                        *old(self),
                        *final(self),
                        msg,
                        m.src@,
                        m.body.id,
                    ),
                    BroadcastPayload::GossipOk { msg } => gossip_ok_applied(
                        *old(self),
                        *final(self),
                        msg,
                        m.src@,
                    ),
                    BroadcastPayload::Read => read_applied(
                        *old(self),
                        *final(self),
                        m.src@,
                        m.body.id,
                    ),
                    BroadcastPayload::Topology { .. } => topology_applied(
                        *old(self),
                        *final(self),
                        m.src@,
                        m.body.id,
                    ),
                    BroadcastPayload::BroadcastOk => *final(self) == *old(self),
                    BroadcastPayload::ReadOk { .. } => true,
                    BroadcastPayload::TopologyOk => true,
                },
                MessageType::Store(_) => *final(self) == *old(self),
            }),
    {
        match message {
            MessageType::Defined(m) => {
                let Message { src, dst: _, body } = m;
                let req_id = body.id;
                match body.payload {
                    BroadcastPayload::Broadcast { msg } => {
                        self.handle_broadcast(msg, src, req_id, now);
                    },
                    BroadcastPayload::Gossip { msg } => {
                        self.handle_gossip(msg, src, req_id);
                    },
                    BroadcastPayload::GossipOk { msg } => {
                        self.handle_gossip_ok(msg, src);
                    },
                    BroadcastPayload::Read => {
                        self.handle_read(src, req_id);
                    },
                    BroadcastPayload::Topology { .. } => {
                        self.handle_topology(src, req_id);
                    },
                    BroadcastPayload::BroadcastOk => {},
                    BroadcastPayload::ReadOk { .. } => {},
                    BroadcastPayload::TopologyOk => {},
                }
            },
            MessageType::Store(_) => {},
        }
    }

    /// A retransmission timer fired: resend the value's gossip to every
    /// peer still owing an acknowledgment and reschedule, or do nothing at
    /// all if the value has been fully acknowledged.
    pub fn handle_timer(&mut self, timer: BroadcastTimer, now: u64)
        requires
            old(self).inv(),
            old(self).state.tx_id + old(self).state.nodes_ids@.len() <= usize::MAX,
            now + RETRY_MS <= u64::MAX,
        ensures
            final(self).inv(),
            timer_applied(*old(self), *final(self), timer.value, now),
    {
        let ghost pre = *old(self);
        let v = timer.value;
        match find_pending(&self.pending, v) {
            None => {
                proof {
                    assert(!has_pending(pre.pending@, v));
                }
            },
            Some(i) => {
                proof {
                    assert(pre.pending@[i as int].value == v);
                    assert(has_pending(pre.pending@, v));
                    let pi = pending_index(pre.pending@, v);
                    assert(0 <= pi < pre.pending@.len() && pre.pending@[pi].value == v);
                    assert(pi == i as int);
                }
                let peers = clone_strings(&self.pending[i].peers);
                let ghost ps = pending_peer_seq(pre.pending@, v);
                let ghost base = pre.state.outbox@.len() as int;
                let ghost tx0 = self.state.tx_id;
                proof {
                    assert(peers.deep_view() == ps);
                    assert(ps.len() == peers@.len());
                    assert(peers@.len() <= pre.state.nodes_ids@.len());
                }
                let mut k: usize = 0;
                while k < peers.len()
                    invariant
                        0 <= k <= peers@.len(),
                        base == pre.state.outbox@.len() as int,
                        peers.deep_view() == ps,
                        ps.len() == peers@.len(),
                        tx0 + peers@.len() <= usize::MAX,
                        self.state.tx_id == tx0 + k,
                        self.state.outbox@.len() == base + k,
                        self.state.outbox@.subrange(0, base) == pre.state.outbox@,
                        forall|j: int|
                            0 <= j < k ==> routed_as(
                                #[trigger] self.state.outbox@[base + j],
                                pre.state.node_id@,
                                ps[j],
                                Some((tx0 + j) as usize),
                                None,
                            ) && self.state.outbox@[base + j].body.payload == Outbound::Proto(
                                (BroadcastPayload::Gossip { msg: v }),
                            ),
                        self.state.node_id == pre.state.node_id,
                        self.state.nodes_ids == pre.state.nodes_ids,
                        self.state.queue == pre.state.queue,
                        self.messages == pre.messages,
                        self.pending == pre.pending,
                        self.inv(),
                    decreases peers@.len() - k,
                {
                    let ghost prev = self.state.outbox@;
                    let dst = peers[k].clone();
                    proof {
                        assert(dst@ == peers.deep_view()[k as int]);
                    }
                    self.state.write_message(
                        Outbound::Proto(BroadcastPayload::Gossip { msg: v }),
                        None,
                        dst,
                    );
                    proof {
                        lemma_push_prefix(prev, self.state.outbox@, base);
                        assert forall|j: int|
                            0 <= j < k + 1 implies routed_as(
                            #[trigger] self.state.outbox@[base + j],
                            pre.state.node_id@,
                            ps[j],
                            Some((tx0 + j) as usize),
                            None,
                        ) && self.state.outbox@[base + j].body.payload == Outbound::Proto(
                            (BroadcastPayload::Gossip { msg: v }),
                        ) by {
                            if j < k {
                                assert(self.state.outbox@[base + j] == self.state.outbox@
                                    .drop_last()[base + j]);
                                assert(self.state.outbox@[base + j] == prev[base + j]);
                            } else {
                                assert(self.state.outbox@[base + j]
                                    == self.state.outbox@.last());
                            }
                        }
                    }
                    k = k + 1;
                }
                self.state.queue_timer(BroadcastTimer { value: v }, now + RETRY_MS);
            },
        }
    }

    /// A topology was supplied: acknowledge it; the node keeps gossiping
    /// over the full peer list by design.
    pub fn handle_topology(&mut self, src: String, req_id: Option<usize>)
        requires
            old(self).inv(),
            old(self).state.tx_id < usize::MAX,
        ensures
            final(self).inv(),
            topology_applied(*old(self), *final(self), src@, req_id),
    {
        self.state.write_message(Outbound::Proto(BroadcastPayload::TopologyOk), req_id, src);
    }
}

/// The value was delivered into the seen set: stored if new, deduplicated
/// silently if already known.
pub open spec fn gossip_stored(pre: BroadcastNode, post: BroadcastNode, v: u32) -> bool {
    &&& post.msg_set() == deliver(pre.msg_set(), v)
    &&& (pre.messages@.contains(v) ==> post.messages == pre.messages)
    &&& (!pre.messages@.contains(v) ==> post.messages@ == pre.messages@.push(v))
}

/// Handling `gossip{v}` from a peer: deliver the value (idempotently — a
/// known value changes nothing and triggers no further propagation) and
/// acknowledge the sender with `gossip_ok{v}`; nothing else changes.
pub open spec fn gossip_applied(
    pre: BroadcastNode,
    post: BroadcastNode,
    v: u32,
    src: Seq<char>,
    req_id: Option<usize>,
) -> bool {
    &&& gossip_stored(pre, post, v)
    &&& identity_unchanged(pre, post)
    &&& post.pending == pre.pending
    &&& post.state.queue == pre.state.queue
    &&& reply_appended(pre.state, post.state, src, req_id)
    &&& post.state.outbox@.last().body.payload == Outbound::Proto(
        (BroadcastPayload::GossipOk { msg: v }),
    )
}

/// Handling `read`: reply with a copy of the full seen set; nothing else
/// changes.
pub open spec fn read_applied(
    pre: BroadcastNode,
    post: BroadcastNode,
    src: Seq<char>,
    req_id: Option<usize>,
) -> bool {
    &&& post.messages == pre.messages
    &&& identity_unchanged(pre, post)
    &&& post.pending == pre.pending
    &&& post.state.queue == pre.state.queue
    &&& reply_appended(pre.state, post.state, src, req_id)
    &&& (post.state.outbox@.last().body.payload matches Outbound::Proto(
        BroadcastPayload::ReadOk { messages: ms },
    ) && ms@ == pre.messages@)
}

/// Handling `topology`: the supplied graph is accepted and intentionally
/// unused — the node gossips over the full peer list — so the only effect is
/// the `topology_ok` reply.
pub open spec fn topology_applied(
    pre: BroadcastNode,
    post: BroadcastNode,
    src: Seq<char>,
    req_id: Option<usize>,
) -> bool {
    &&& post.messages == pre.messages
    &&& identity_unchanged(pre, post)
    &&& post.pending == pre.pending
    &&& post.state.queue == pre.state.queue
    &&& reply_appended(pre.state, post.state, src, req_id)
    &&& post.state.outbox@.last().body.payload matches Outbound::Proto(
        BroadcastPayload::TopologyOk,
    )
}

/// Handling `gossip_ok{v}` from a peer: that peer no longer owes an
/// acknowledgment for the value. The entry is dropped once its last peer has
/// acknowledged; a duplicate or unexpected acknowledgment changes nothing.
/// No reply, no timer, no send.
pub open spec fn gossip_ok_applied(
    pre: BroadcastNode,
    post: BroadcastNode,
    v: u32,
    src: Seq<char>,
) -> bool {
    &&& identity_unchanged(pre, post)
    &&& post.messages == pre.messages
    &&& post.state.queue == pre.state.queue
    &&& post.state.outbox == pre.state.outbox
    &&& post.state.tx_id == pre.state.tx_id
    &&& (!has_pending(pre.pending@, v) ==> post.pending == pre.pending)
    &&& (has_pending(pre.pending@, v) ==> {
        let s = pending_peers(pre.pending@, v);
        &&& (!s.contains(src) ==> post.pending == pre.pending)
        &&& (s.contains(src) && s.remove(src).len() > 0 ==> {
            &&& has_pending(post.pending@, v)
            &&& pending_peers(post.pending@, v) == s.remove(src)
            &&& other_entries_unchanged(pre.pending@, post.pending@, v)
            &&& post.pending@.len() == pre.pending@.len()
        })
        &&& (s.contains(src) && s.remove(src).len() == 0 ==> {
            &&& !has_pending(post.pending@, v)
            &&& other_entries_unchanged(pre.pending@, post.pending@, v)
            &&& post.pending@.len() == pre.pending@.len() - 1
        })
    })
}

/// Handling `broadcast{v}` from the harness or a peer: deliver the value and
/// acknowledge with `broadcast_ok`. Only if the value is newly seen, gossip
/// it to every other node, record them all as owing an acknowledgment, and
/// schedule the value's first retransmission timer; a known value triggers
/// no propagation at all.
pub open spec fn broadcast_applied(
    pre: BroadcastNode,
    post: BroadcastNode,
    v: u32,
    src: Seq<char>,
    req_id: Option<usize>,
    now: u64,
) -> bool {
    let known = pre.messages@.contains(v);
    let fresh = others(pre.state.nodes_ids.deep_view(), pre.state.node_id@);
    let base = pre.state.outbox@.len() as int;
    &&& gossip_stored(pre, post, v)
    &&& identity_unchanged(pre, post)
    &&& post.state.outbox@.len() > base
    &&& post.state.outbox@.subrange(0, base) == pre.state.outbox@
    &&& routed_as(post.state.outbox@[base], pre.state.node_id@, src, Some(pre.state.tx_id), req_id)
    &&& post.state.outbox@[base].body.payload matches Outbound::Proto(BroadcastPayload::BroadcastOk)
    &&& (known ==> {
        &&& post.pending == pre.pending
        &&& post.state.queue == pre.state.queue
        &&& post.state.outbox@.len() == base + 1
        &&& post.state.tx_id == pre.state.tx_id + 1
    })
    &&& (!known ==> {
        &&& post.state.outbox@.len() == base + 1 + fresh.len()
        &&& (forall|k: int|
            0 <= k < fresh.len() ==> routed_as(
                #[trigger] post.state.outbox@[base + 1 + k],
                pre.state.node_id@,
                fresh[k],
                Some((pre.state.tx_id + 1 + k) as usize),
                None,
            ) && post.state.outbox@[base + 1 + k].body.payload == Outbound::Proto(
                (BroadcastPayload::Gossip { msg: v }),
            ))
        &&& post.state.tx_id == pre.state.tx_id + 1 + fresh.len()
        &&& (fresh.len() > 0 ==> {
            &&& post.pending@.len() == pre.pending@.len() + 1
            &&& post.pending@.drop_last() == pre.pending@
            &&& post.pending@.last().value == v
            &&& post.pending@.last().peers.deep_view() == fresh
            &&& post.state.queue@ == pre.state.queue@.push(
                (TimerState {
                    state: (BroadcastTimer { value: v }),
                    expires_at: (now + RETRY_MS) as u64,
                }),
            )
        })
        &&& (fresh.len() == 0 ==> post.pending == pre.pending && post.state.queue
            == pre.state.queue)
    })
}

/// Law: delivering any sequence of values to a node leaves its seen set at
/// the union of what it had and what was delivered. Together with the
/// handlers' contracts — every `broadcast` and `gossip` delivery takes the
/// seen set through `deliver` — this is convergence at a node: once every
/// broadcast value has reached it, its seen set is exactly the union of all
/// broadcast values, however the deliveries were interleaved.
pub proof fn lemma_convergence(s: Set<u32>, vs: Seq<u32>)
    ensures
        deliver_all(s, vs) == s.union(vs.to_set()),
    decreases vs.len(),
{
    if vs.len() == 0 {
        assert(vs.to_set() =~= Set::<u32>::empty());
        assert(s.union(vs.to_set()) =~= s);
    } else {
        let rest = vs.subrange(1, vs.len() as int);
        lemma_convergence(s.insert(vs[0]), rest);
        assert forall|x: u32| vs.to_set().contains(x) implies (x == vs[0] || rest.to_set().contains(
            x,
        )) by {
            let j = choose|j: int| 0 <= j < vs.len() && vs[j] == x;
            if j > 0 {
                assert(rest[j - 1] == x);
            }
        }
        assert forall|x: u32| rest.to_set().contains(x) implies vs.to_set().contains(x) by {
            let j = choose|j: int| 0 <= j < rest.len() && rest[j] == x;
            assert(vs[j + 1] == x);
        }
        assert(vs.to_set().contains(vs[0]));
        assert(s.insert(vs[0]).union(rest.to_set()) =~= s.union(vs.to_set()));
    }
}

/// Law: delivery order is irrelevant — two delivery sequences carrying the
/// same set of values leave a node's seen set identical.
pub proof fn lemma_convergence_order_insensitive(s: Set<u32>, vs1: Seq<u32>, vs2: Seq<u32>)
    requires
        vs1.to_set() == vs2.to_set(),
    ensures
        deliver_all(s, vs1) == deliver_all(s, vs2),
{
    lemma_convergence(s, vs1);
    lemma_convergence(s, vs2);
}

/// A run of a node through a chain of deliveries — each step a `broadcast`
/// or `gossip` delivery, whose contracts both include `gossip_stored` —
/// takes the seen set through exactly the fold of those values.
pub proof fn lemma_deliveries_fold(states: Seq<BroadcastNode>, vals: Seq<u32>)
    requires
        states.len() == vals.len() + 1,
        forall|i: int|
            0 <= i < vals.len() ==> gossip_stored(#[trigger] states[i], states[i + 1], vals[i]),
    ensures
        states.last().msg_set() == deliver_all(states[0].msg_set(), vals),
    decreases vals.len(),
{
    if vals.len() == 0 {
        assert(states.last() == states[0]);
    } else {
        let rest_states = states.subrange(1, states.len() as int);
        let rest_vals = vals.subrange(1, vals.len() as int);
        assert forall|i: int|
            0 <= i < rest_vals.len() implies gossip_stored(
            #[trigger] rest_states[i],
            rest_states[i + 1],
            rest_vals[i],
        ) by {
            assert(rest_states[i] == states[i + 1]);
            assert(rest_states[i + 1] == states[i + 2]);
            assert(rest_vals[i] == vals[i + 1]);
            assert(gossip_stored(states[i + 1], states[i + 2], vals[i + 1]));
        }
        lemma_deliveries_fold(rest_states, rest_vals);
        assert(gossip_stored(states[0], states[1], vals[0]));
        assert(rest_states[0] == states[1]);
        assert(rest_states.last() == states.last());
    }
}

/// Law: convergence at a node, independent of delivery order. Two runs of
/// identically initialized nodes that handle the same set of delivered
/// values — in any orders, with any duplication — end with the same seen
/// set: the union of the starting set and every delivered value.
pub proof fn lemma_runs_converge(
    states1: Seq<BroadcastNode>,
    vals1: Seq<u32>,
    states2: Seq<BroadcastNode>,
    vals2: Seq<u32>,
)
    requires
        states1.len() == vals1.len() + 1,
        states2.len() == vals2.len() + 1,
        forall|i: int|
            0 <= i < vals1.len() ==> gossip_stored(#[trigger] states1[i], states1[i + 1], vals1[i]),
        forall|i: int|
            0 <= i < vals2.len() ==> gossip_stored(#[trigger] states2[i], states2[i + 1], vals2[i]),
        states1[0].msg_set() == states2[0].msg_set(),
        vals1.to_set() == vals2.to_set(),
    ensures
        states1.last().msg_set() == states2.last().msg_set(),
        states1.last().msg_set() == states1[0].msg_set().union(vals1.to_set()),
{
    lemma_deliveries_fold(states1, vals1);
    lemma_deliveries_fold(states2, vals2);
    lemma_convergence(states1[0].msg_set(), vals1);
    lemma_convergence(states2[0].msg_set(), vals2);
}

/// Law: idempotent insertion. Delivering a value the node has already seen
/// — whether by `broadcast` or by `gossip` — leaves the seen set, the
/// pending-acknowledgment entries and the timer queue exactly as they
/// were, and sends nothing but the single acknowledgment to the sender: no
/// gossip goes out, so a duplicate delivery never triggers re-propagation.
pub proof fn lemma_idempotent_insertion(
    pre: BroadcastNode,
    post: BroadcastNode,
    v: u32,
    src: Seq<char>,
    req_id: Option<usize>,
    now: u64,
)
    requires
        pre.messages@.contains(v),
        broadcast_applied(pre, post, v, src, req_id, now) || gossip_applied(
            pre,
            post,
            v,
            src,
            req_id,
        ),
    ensures
        post.messages == pre.messages,
        post.pending == pre.pending,
        post.state.queue == pre.state.queue,
        post.state.outbox@.len() == pre.state.outbox@.len() + 1,
        forall|k: int|
            pre.state.outbox@.len() <= k < post.state.outbox@.len() ==> !((
            #[trigger] post.state.outbox@[k]).body.payload matches Outbound::Proto(
                BroadcastPayload::Gossip { .. },
            )),
{
    let base = pre.state.outbox@.len() as int;
    if gossip_applied(pre, post, v, src, req_id) {
        assert(post.state.outbox@[base] == post.state.outbox@.last());
    }
    assert forall|k: int|
        pre.state.outbox@.len() <= k < post.state.outbox@.len() implies !((
    #[trigger] post.state.outbox@[k]).body.payload matches Outbound::Proto(
        BroadcastPayload::Gossip { .. },
    )) by {
        assert(k == base);
    }
}

/// Law: acknowledgment termination. Once the last peer still owed an
/// acknowledgment for a value replies `gossip_ok`, the value's pending
/// entry is gone, and from then on its retransmission timer sends nothing
/// and schedules nothing — no further retransmission for that value ever
/// occurs.
pub proof fn lemma_ack_termination(
    a: BroadcastNode,
    b: BroadcastNode,
    c: BroadcastNode,
    v: u32,
    src: Seq<char>,
    now: u64,
)
    requires
        has_pending(a.pending@, v),
        pending_peers(a.pending@, v) == set![src],
        gossip_ok_applied(a, b, v, src),
        timer_applied(b, c, v, now),
    ensures
        !has_pending(b.pending@, v),
        c.state.outbox == b.state.outbox,
        c.state.queue == b.state.queue,
        c.state.tx_id == b.state.tx_id,
{
    let s = pending_peers(a.pending@, v);
    assert(s.contains(src));
    assert(s.remove(src) =~= Set::<Seq<char>>::empty());
    assert(s.remove(src).len() == 0);
}

/// The entry sequence after entry `i` is swapped out: the last entry moves
/// into its place and the last slot is dropped.
pub open spec fn swap_removed(q: Seq<PendingAck>, i: int) -> Seq<PendingAck> {
    q.update(i, q.last()).drop_last()
}

/// Swapping entry `i` out (move the last entry into its place, then drop
/// the last slot) keeps every other entry: the remaining sequence answers
/// exactly the questions the original answered for every other value.
#[verifier::rlimit(50)]
proof fn lemma_swap_remove_entries(q: Seq<PendingAck>, i: int)
    requires
        pending_unique(q),
        0 <= i < q.len(),
    ensures
        swap_removed(q, i).len() == q.len() - 1,
        pending_unique(swap_removed(q, i)),
        !has_pending(swap_removed(q, i), q[i].value),
        forall|j: int|
            0 <= j < swap_removed(q, i).len() ==> #[trigger] swap_removed(q, i)[j] == (if j == i {
                q[q.len() - 1]
            } else {
                q[j]
            }),
        forall|w: u32|
            w != q[i].value ==> #[trigger] has_pending(swap_removed(q, i), w) == has_pending(q, w),
        forall|w: u32| #![trigger pending_peers(swap_removed(q, i), w)]
            w != q[i].value && has_pending(q, w) ==> pending_peers(swap_removed(q, i), w)
                == pending_peers(q, w),
        forall|w: u32| #![trigger pending_peer_seq(swap_removed(q, i), w)]
            w != q[i].value && has_pending(q, w) ==> pending_peer_seq(swap_removed(q, i), w)
                == pending_peer_seq(q, w),
{
    let m = swap_removed(q, i);
    let n = q.len() as int;
    assert forall|j: int| 0 <= j < m.len() implies m[j] == (if j == i {
        q[n - 1]
    } else {
        q[j]
    }) by {
        assert(m[j] == q.update(i, q.last())[j]);
    }
    assert forall|a: int, b: int| 0 <= a < b < m.len() implies m[a].value != m[b].value by {
        if a == i {
            assert(m[a] == q[n - 1] && m[b] == q[b] && b != n - 1);
        } else if b == i {
            assert(m[b] == q[n - 1] && m[a] == q[a] && a != n - 1);
        }
    }
    assert forall|j: int| 0 <= j < m.len() implies m[j].value != q[i].value by {
        if j == i {
            assert(m[j] == q[n - 1] && n - 1 != i);
        }
    }
    assert forall|w: u32| w != q[i].value implies #[trigger] has_pending(m, w) == has_pending(
        q,
        w,
    ) by {
        if has_pending(m, w) {
            let j = choose|j: int| 0 <= j < m.len() && m[j].value == w;
            if j == i {
                assert(q[n - 1].value == w);
            } else {
                assert(q[j].value == w);
            }
        }
        if has_pending(q, w) {
            let k = choose|k: int| 0 <= k < q.len() && q[k].value == w;
            assert(k != i);
            if k == n - 1 {
                assert(i < n - 1);
                assert(m[i].value == w);
            } else {
                assert(m[k].value == w);
            }
        }
    }
    assert forall|w: u32| w != q[i].value && has_pending(q, w) implies #[trigger] pending_peers(
        m,
        w,
    ) == pending_peers(q, w) && pending_peer_seq(m, w) == pending_peer_seq(q, w) by {
        assert(has_pending(m, w));
        let jm = pending_index(m, w);
        let kq = pending_index(q, w);
        assert(0 <= jm < m.len() && m[jm].value == w);
        assert(0 <= kq < q.len() && q[kq].value == w);
        if jm == i {
            assert(m[jm] == q[n - 1]);
            assert(q[n - 1].value == w && q[kq].value == w);
            assert(kq == n - 1);
        } else {
            assert(m[jm] == q[jm]);
            assert(kq == jm);
        }
        assert(m[jm] == q[kq]);
    }
    assert forall|w: u32| #![trigger pending_peers(swap_removed(q, i), w)]
        w != q[i].value && has_pending(q, w) implies pending_peers(swap_removed(q, i), w)
        == pending_peers(q, w) by {
        assert(pending_peers(m, w) == pending_peers(q, w));
    }
    assert forall|w: u32| #![trigger pending_peer_seq(swap_removed(q, i), w)]
        w != q[i].value && has_pending(q, w) implies pending_peer_seq(swap_removed(q, i), w)
        == pending_peer_seq(q, w) by {
        assert(pending_peers(m, w) == pending_peers(q, w));
        assert(pending_peer_seq(m, w) == pending_peer_seq(q, w));
    }
}

/// Appending an entry for a value no other entry holds: the new value is
/// pending with exactly the appended peers, and every other value's entry is
/// untouched.
proof fn lemma_push_entries(m: Seq<PendingAck>, e: PendingAck)
    requires
        pending_unique(m),
        !has_pending(m, e.value),
    ensures
        pending_unique(m.push(e)),
        has_pending(m.push(e), e.value),
        pending_peers(m.push(e), e.value) == e.peers.deep_view().to_set(),
        pending_peer_seq(m.push(e), e.value) == e.peers.deep_view(),
        forall|w: u32| w != e.value ==> #[trigger] has_pending(m.push(e), w) == has_pending(m, w),
        forall|w: u32|
            w != e.value && has_pending(m, w) ==> #[trigger] pending_peers(m.push(e), w)
                == pending_peers(m, w) && pending_peer_seq(m.push(e), w) == pending_peer_seq(m, w),
{
    let p = m.push(e);
    let n = m.len() as int;
    assert(p[n] == e);
    assert forall|a: int, b: int| 0 <= a < b < p.len() implies p[a].value != p[b].value by {
        if b < n {
            assert(p[a] == m[a] && p[b] == m[b]);
        } else {
            assert(p[b] == e && p[a] == m[a]);
            assert(m[a].value != e.value);
        }
    }
    assert(has_pending(p, e.value));
    let je = pending_index(p, e.value);
    assert(0 <= je < p.len() && p[je].value == e.value);
    if je < n {
        assert(m[je].value == e.value);
    }
    assert(p[je] == e);
    assert forall|w: u32| w != e.value implies #[trigger] has_pending(p, w) == has_pending(
        m,
        w,
    ) by {
        if has_pending(p, w) {
            let j = choose|j: int| 0 <= j < p.len() && p[j].value == w;
            assert(j < n);
            assert(m[j].value == w);
        }
        if has_pending(m, w) {
            let j = choose|j: int| 0 <= j < m.len() && m[j].value == w;
            assert(p[j].value == w);
        }
    }
    assert forall|w: u32| w != e.value && has_pending(m, w) implies #[trigger] pending_peers(p, w)
        == pending_peers(m, w) && pending_peer_seq(p, w) == pending_peer_seq(m, w) by {
        assert(has_pending(p, w));
        let jp = pending_index(p, w);
        let jm = pending_index(m, w);
        assert(0 <= jp < p.len() && p[jp].value == w);
        assert(0 <= jm < m.len() && m[jm].value == w);
        assert(jp < n);
        assert(p[jp] == m[jp]);
        assert(jm == jp);
    }
}

/// Removing one element of a duplicate-free sequence takes exactly that
/// element out of the set of its elements.
proof fn lemma_remove_view_to_set(s: Seq<Seq<char>>, k: int)
    requires
        s.no_duplicates(),
        0 <= k < s.len(),
    ensures
        s.remove(k).to_set() == s.to_set().remove(s[k]),
        s.remove(k).no_duplicates(),
{
    let r = s.remove(k);
    s.remove_ensures(k);
    assert forall|x: Seq<char>| r.contains(x) implies s.to_set().remove(s[k]).contains(x) by {
        let j = choose|j: int| 0 <= j < r.len() && r[j] == x;
        if j < k {
            assert(s[j] == x);
            assert(x != s[k]);
        } else {
            assert(s[j + 1] == x);
            assert(x != s[k]);
        }
    }
    assert forall|x: Seq<char>| s.to_set().remove(s[k]).contains(x) implies r.contains(x) by {
        let j = choose|j: int| 0 <= j < s.len() && s[j] == x;
        assert(j != k);
        if j < k {
            assert(r[j] == x);
        } else {
            assert(r[j - 1] == x);
        }
    }
    assert(r.to_set() =~= s.to_set().remove(s[k]));
    assert forall|a: int, b: int| 0 <= a < b < r.len() implies r[a] != r[b] by {
        if b < k {
            assert(r[a] == s[a] && r[b] == s[b]);
        } else if a < k {
            assert(r[a] == s[a] && r[b] == s[b + 1]);
        } else {
            assert(r[a] == s[a + 1] && r[b] == s[b + 1]);
        }
    }
}

/// A retransmission timer fired for a value. If the value still has peers
/// owing acknowledgments, the gossip is resent to exactly those peers and
/// the timer is rescheduled; once every peer has acknowledged — the value
/// has no pending entry — the timer is a no-op and is not rescheduled, so
/// no further retransmission for that value ever occurs.
pub open spec fn timer_applied(pre: BroadcastNode, post: BroadcastNode, v: u32, now: u64) -> bool {
    let ps = pending_peer_seq(pre.pending@, v);
    let base = pre.state.outbox@.len() as int;
    &&& identity_unchanged(pre, post)
    &&& post.messages == pre.messages
    &&& post.pending == pre.pending
    &&& (!has_pending(pre.pending@, v) ==> post.state.outbox == pre.state.outbox
        && post.state.queue == pre.state.queue && post.state.tx_id == pre.state.tx_id)
    &&& (has_pending(pre.pending@, v) ==> {
        &&& post.state.outbox@.len() == base + ps.len()
        &&& post.state.outbox@.subrange(0, base) == pre.state.outbox@
        &&& (forall|k: int|
            0 <= k < ps.len() ==> routed_as(
                #[trigger] post.state.outbox@[base + k],
                pre.state.node_id@,
                ps[k],
                Some((pre.state.tx_id + k) as usize),
                None,
            ) && post.state.outbox@[base + k].body.payload == Outbound::Proto(
                (BroadcastPayload::Gossip { msg: v }),
            ))
        &&& post.state.tx_id == pre.state.tx_id + ps.len()
        &&& post.state.queue@ == pre.state.queue@.push(
            (TimerState { state: (BroadcastTimer { value: v }), expires_at: (now + RETRY_MS) as u64
            }),
        )
    })
}

/// One step of building a filtered prefix: taking one element more either
/// appends it to the filtered sequence or leaves the filtered sequence alone.
proof fn lemma_filter_take_step<A>(s: Seq<A>, p: spec_fn(A) -> bool, i: int)
    requires
        0 <= i < s.len(),
    ensures
        s.take(i + 1).filter(p) == if p(s[i]) {
            s.take(i).filter(p).push(s[i])
        } else {
            s.take(i).filter(p)
        },
{
    reveal(Seq::filter);
    assert(s.take(i + 1).drop_last() =~= s.take(i));
    assert(s.take(i + 1).last() == s[i]);
}

/// Does this vector hold the value?
fn contains_u32(v: &Vec<u32>, x: u32) -> (b: bool)
    ensures
        b == v@.contains(x),
{
    let mut i: usize = 0;
    while i < v.len()
        invariant
            0 <= i <= v@.len(),
            forall|j: int| 0 <= j < i ==> v@[j] != x,
        decreases v@.len() - i,
    {
        if v[i] == x {
            proof {
                assert(v@[i as int] == x);
            }
            return true;
        }
        i = i + 1;
    }
    false
}

/// A fresh vector holding the same values in the same order.
fn copy_u32s(v: &Vec<u32>) -> (r: Vec<u32>)
    ensures
        r@ == v@,
{
    let mut r: Vec<u32> = Vec::new();
    let mut i: usize = 0;
    while i < v.len()
        invariant
            0 <= i <= v@.len(),
            r@ == v@.take(i as int),
        decreases v@.len() - i,
    {
        r.push(v[i]);
        proof {
            assert(r@ =~= v@.take(i + 1));
        }
        i = i + 1;
    }
    proof {
        assert(v@.take(v@.len() as int) =~= v@);
    }
    r
}

/// A fresh vector holding copies of the same strings in the same order.
fn clone_strings(v: &Vec<String>) -> (r: Vec<String>)
    ensures
        r.deep_view() == v.deep_view(),
        r@.len() == v@.len(),
{
    let mut r: Vec<String> = Vec::new();
    let mut i: usize = 0;
    while i < v.len()
        invariant
            0 <= i <= v@.len(),
            r@.len() == i,
            forall|j: int| 0 <= j < i ==> r.deep_view()[j] == v.deep_view()[j],
        decreases v@.len() - i,
    {
        r.push(v[i].clone());
        proof {
            assert(r@.last()@ == v@[i as int]@);
            assert forall|j: int| 0 <= j < i + 1 implies r.deep_view()[j] == v.deep_view()[j] by {
                if j < i {
                    assert(r@[j] == r@.drop_last()[j]);
                }
            }
        }
        i = i + 1;
    }
    proof {
        assert(r.deep_view() =~= v.deep_view());
    }
    r
}

/// Every node id other than `me`, in list order: the recipients of a gossip
/// round for a fresh value.
fn other_peers(ids: &Vec<String>, me: &String) -> (out: Vec<String>)
    requires
        ids.deep_view().no_duplicates(),
    ensures
        out.deep_view() == others(ids.deep_view(), me@),
        out.deep_view().no_duplicates(),
        out@.len() <= ids@.len(),
{
    let ghost pred = |p: Seq<char>| p != me@;
    let mut out: Vec<String> = Vec::new();
    let mut i: usize = 0;
    while i < ids.len()
        invariant
            0 <= i <= ids@.len(),
            ids.deep_view().no_duplicates(),
            pred == (|p: Seq<char>| p != me@),
            out.deep_view() == ids.deep_view().take(i as int).filter(pred),
            out.deep_view().no_duplicates(),
            out@.len() <= i,
            forall|k: int|
                0 <= k < out.deep_view().len() ==> ids.deep_view().take(i as int).contains(
                    #[trigger] out.deep_view()[k],
                ),
        decreases ids@.len() - i,
    {
        let ghost dv = ids.deep_view();
        proof {
            lemma_filter_take_step(dv, pred, i as int);
            assert(dv[i as int] == ids@[i as int]@);
        }
        if !me.eq(&ids[i]) {
            proof {
                // the id about to be kept is not among those already kept
                assert forall|k: int| 0 <= k < out.deep_view().len() implies out.deep_view()[k]
                    != dv[i as int] by {
                    let j = choose|j: int|
                        0 <= j < i && dv.take(i as int)[j] == out.deep_view()[k];
                    assert(dv[j] == out.deep_view()[k]);
                }
            }
            out.push(ids[i].clone());
            proof {
                assert(out.deep_view() =~= dv.take(i as int).filter(pred).push(dv[i as int]));
                assert forall|k: int| 0 <= k < out.deep_view().len() implies dv.take(
                    i + 1,
                ).contains(#[trigger] out.deep_view()[k]) by {
                    if k < out.deep_view().len() - 1 {
                        let j = choose|j: int|
                            0 <= j < i && dv.take(i as int)[j] == out.deep_view()[k];
                        assert(dv.take(i + 1)[j] == out.deep_view()[k]);
                    } else {
                        assert(dv.take(i + 1)[i as int] == out.deep_view()[k]);
                    }
                }
            }
        } else {
            proof {
                assert(out.deep_view() == dv.take(i + 1).filter(pred));
                assert forall|k: int| 0 <= k < out.deep_view().len() implies dv.take(
                    i + 1,
                ).contains(#[trigger] out.deep_view()[k]) by {
                    let j = choose|j: int| 0 <= j < i && dv.take(i as int)[j] == out.deep_view()[k];
                    assert(dv.take(i + 1)[j] == out.deep_view()[k]);
                }
            }
        }
        i = i + 1;
    }
    proof {
        assert(ids.deep_view().take(ids@.len() as int) =~= ids.deep_view());
    }
    out
}

/// The index of the pending entry for this value, if one is recorded.
fn find_pending(p: &Vec<PendingAck>, v: u32) -> (r: Option<usize>)
    ensures
        match r {
            Some(i) => 0 <= i < p@.len() && p@[i as int].value == v,
            None => forall|j: int| 0 <= j < p@.len() ==> p@[j].value != v,
        },
{
    let mut i: usize = 0;
    while i < p.len()
        invariant
            0 <= i <= p@.len(),
            forall|j: int| 0 <= j < i ==> p@[j].value != v,
        decreases p@.len() - i,
    {
        if p[i].value == v {
            return Some(i);
        }
        i = i + 1;
    }
    None
}

/// The index of this peer id in the list, if it is there.
fn find_peer(peers: &Vec<String>, src: &String) -> (r: Option<usize>)
    ensures
        match r {
            Some(k) => 0 <= k < peers@.len() && peers.deep_view()[k as int] == src@,
            None => forall|j: int| 0 <= j < peers@.len() ==> peers.deep_view()[j] != src@,
        },
{
    let mut i: usize = 0;
    while i < peers.len()
        invariant
            0 <= i <= peers@.len(),
            forall|j: int| 0 <= j < i ==> peers.deep_view()[j] != src@,
        decreases peers@.len() - i,
    {
        if src.eq(&peers[i]) {
            proof {
                assert(peers.deep_view()[i as int] == peers@[i as int]@);
            }
            return Some(i);
        }
        proof {
            assert(peers.deep_view()[i as int] == peers@[i as int]@);
        }
        i = i + 1;
    }
    None
}

} // verus!
