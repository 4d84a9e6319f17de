//! The generic node runtime: node identity, the outgoing transaction id
//! counter, the timer queue, and the outbox of envelopes waiting to be
//! written. Protocol handlers mutate a `NodeState` and leave everything they
//! want sent in its outbox; the embedding program drains the outbox to the
//! output channel and races the earliest timer against the next input line.

use vstd::prelude::*;

use crate::messages::{Body, InitPayload, Message, routed_as};
use crate::seqkv::SeqPayload;

verus! {

/// A pending scheduled callback: the protocol's timer payload together with
/// the absolute expiry time, in milliseconds of the node's monotonic clock.
pub struct TimerState<T> {
    pub state: T,
    pub expires_at: u64,
}

/// Everything a node sends is one of: its own protocol's payload, a request
/// to the sequential store, or a handshake reply.
pub enum Outbound<P> {
    Proto(P),
    Store(SeqPayload),
    Init(InitPayload),
}

/// Inbound envelopes after classification: either the node's own protocol
/// payload, or a reply from the sequential store collaborator.
pub enum MessageType<T> {
    Defined(Message<T>),
    Store(Message<SeqPayload>),
}

/// The runtime state every node owns: identity, peers, the strictly
/// increasing outgoing transaction id, pending timers, and the outbox.
pub struct NodeState<T, P> {
    pub node_id: String,
    pub nodes_ids: Vec<String>,
    pub tx_id: usize,
    pub queue: Vec<TimerState<T>>,
    pub outbox: Vec<Message<Outbound<P>>>,
}

/// The identity state the handshake leaves behind: the given node id and
/// peer list, with the transaction id counter reset to 1 and then consumed
/// once by the `init_ok` reply.
pub open spec fn init_identity<T, P>(
    s: NodeState<T, P>,
    node_id: Seq<char>,
    node_ids: Seq<Seq<char>>,
) -> bool {
    &&& s.node_id@ == node_id
    &&& s.nodes_ids.deep_view() == node_ids
    &&& s.tx_id == 2
}

impl<T, P> NodeState<T, P> {
    /// A fresh runtime: no identity, no peers, nothing queued or sent.
    pub fn init() -> (s: NodeState<T, P>)
        ensures
            s.node_id@ == Seq::<char>::empty(),
            s.nodes_ids@.len() == 0,
            s.tx_id == 0,
            s.queue@.len() == 0,
            s.outbox@.len() == 0,
    {
        NodeState {
            node_id: String::new(),
            nodes_ids: Vec::new(),
            tx_id: 0,
            queue: Vec::new(),
            outbox: Vec::new(),
        }
    }

    /// Insert a timer entry; entries are kept unordered and the minimum is
    /// found on extraction, so insertion never fails and never reorders
    /// anything else.
    pub fn queue_timer(&mut self, timer: T, expires_at: u64)
        ensures
            final(self).queue@ == old(self).queue@.push(
                (TimerState { state: timer, expires_at }),
            ),
            final(self).node_id == old(self).node_id,
            final(self).nodes_ids == old(self).nodes_ids,
            final(self).tx_id == old(self).tx_id,
            final(self).outbox == old(self).outbox,
    {
        self.queue.push(TimerState { state: timer, expires_at });
    }

    /// Remove and return a timer entry whose expiry is no later than any
    /// other pending entry; ties are broken arbitrarily. Returns `None` only
    /// when no timer is pending.
    pub fn pop_min_timer(&mut self) -> (r: Option<TimerState<T>>)
        ensures
            old(self).queue@.len() == 0 ==> r is None && final(self).queue == old(self).queue,
            old(self).queue@.len() > 0 ==> (match r {
                Some(e) => {
                    &&& exists|i: int|
                        0 <= i < old(self).queue@.len() && old(self).queue@[i] == e
                            && final(self).queue@ == old(self).queue@.remove(i)
                    &&& forall|j: int|
                        0 <= j < old(self).queue@.len() ==> e.expires_at
                            <= old(self).queue@[j].expires_at
                },
                None => false,
            }),
            final(self).node_id == old(self).node_id,
            final(self).nodes_ids == old(self).nodes_ids,
            final(self).tx_id == old(self).tx_id,
            final(self).outbox == old(self).outbox,
    {
        if self.queue.len() == 0 {
            return None;
        }
        let mut best: usize = 0;
        let mut i: usize = 1;
        while i < self.queue.len()
            invariant
                0 <= best < i <= self.queue@.len(),
                forall|j: int| 0 <= j < i ==> self.queue@[best as int].expires_at
                    <= self.queue@[j].expires_at,
            decreases self.queue@.len() - i,
        {
            if self.queue[i].expires_at < self.queue[best].expires_at {
                best = i;
            }
            i = i + 1;
        }
        let e = self.queue.remove(best);
        Some(e)
    }

    /// Assign the next outgoing transaction id, build one envelope from this
    /// node to `dst`, and append it to the outbox. The transaction id
    /// strictly increases with every outbound message and is never reused.
    pub fn write_message(&mut self, payload: Outbound<P>, req_id: Option<usize>, dst: String)
        requires
            old(self).tx_id < usize::MAX,
        ensures
            final(self).tx_id == old(self).tx_id + 1,
            final(self).outbox@.len() == old(self).outbox@.len() + 1,
            final(self).outbox@.drop_last() == old(self).outbox@,
            routed_as(
                final(self).outbox@.last(),
                old(self).node_id@,
                dst@,
                Some(old(self).tx_id),
                req_id,
            ),
            final(self).outbox@.last().body.payload == payload,
            final(self).node_id == old(self).node_id,
            final(self).nodes_ids == old(self).nodes_ids,
            final(self).queue == old(self).queue,
    {
        let msg = Message {
            src: self.node_id.clone(),
            dst,
            body: Body { id: Some(self.tx_id), req_id, payload },
        };
        self.tx_id = self.tx_id + 1;
        self.outbox.push(msg);
        proof {
            assert(self.outbox@.drop_last() =~= old(self).outbox@);
        }
    }

    /// The handshake: capture the node id and peer list, reset the
    /// transaction id counter to 1, and reply `init_ok` to the sender.
    /// Receiving the handshake again with the same arguments re-applies the
    /// same assignment, so the identity state it leaves does not depend on
    /// what was there before.
    pub fn handle_init(
        &mut self,
        node_id: String,
        node_ids: Vec<String>,
        msg_id: Option<usize>,
        src: String,
    )
        ensures
            final(self).node_id == node_id,
            final(self).nodes_ids == node_ids,
            final(self).tx_id == 2,
            init_identity(*final(self), node_id@, node_ids.deep_view()),
            final(self).queue == old(self).queue,
            final(self).outbox@.len() == old(self).outbox@.len() + 1,
            final(self).outbox@.drop_last() == old(self).outbox@,
            routed_as(final(self).outbox@.last(), node_id@, src@, Some(1), msg_id),
            final(self).outbox@.last().body.payload matches Outbound::Init(InitPayload::InitOk),
    {
        self.node_id = node_id;
        self.nodes_ids = node_ids;
        self.tx_id = 1;
        self.write_message(Outbound::Init(InitPayload::InitOk), msg_id, src);
    }

    /// Hand every queued outgoing envelope to the caller, leaving the outbox
    /// empty; nothing else changes.
    pub fn take_outbox(&mut self) -> (out: Vec<Message<Outbound<P>>>)
        ensures
            out == old(self).outbox,
            final(self).outbox@.len() == 0,
            final(self).node_id == old(self).node_id,
            final(self).nodes_ids == old(self).nodes_ids,
            final(self).tx_id == old(self).tx_id,
            final(self).queue == old(self).queue,
    {
        let mut out: Vec<Message<Outbound<P>>> = Vec::new();
        core::mem::swap(&mut out, &mut self.outbox);
        out
    }
}

/// Exactly one reply envelope was appended to the outbox, addressed to
/// `dst`, correlated to `req_id`, and stamped with the next transaction id.
pub open spec fn reply_appended<T, P>(
    pre: NodeState<T, P>,
    post: NodeState<T, P>,
    dst: Seq<char>,
    req_id: Option<usize>,
) -> bool {
    &&& post.outbox@.len() == pre.outbox@.len() + 1
    &&& post.outbox@.drop_last() == pre.outbox@
    &&& routed_as(post.outbox@.last(), pre.node_id@, dst, Some(pre.tx_id), req_id)
    &&& post.tx_id == pre.tx_id + 1
}

/// Appending one element leaves every shorter prefix as it was.
pub proof fn lemma_push_prefix<A>(pre: Seq<A>, post: Seq<A>, n: int)
    requires
        post.len() == pre.len() + 1,
        post.drop_last() == pre,
        0 <= n <= pre.len(),
    ensures
        post.subrange(0, n) == pre.subrange(0, n),
{
    assert forall|i: int| 0 <= i < n implies post[i] == pre[i] by {
        assert(pre[i] == post.drop_last()[i]);
    }
    assert(post.subrange(0, n) =~= pre.subrange(0, n));
}

/// Converting a sequence with one more element to a set inserts that element.
pub proof fn lemma_push_to_set<A>(s: Seq<A>, a: A)
    ensures
        s.push(a).to_set() == s.to_set().insert(a),
{
    assert forall|x: A| s.push(a).contains(x) implies s.to_set().insert(a).contains(x) by {
        let j = choose|j: int| 0 <= j < s.push(a).len() && s.push(a)[j] == x;
        if j < s.len() {
            assert(s[j] == x);
        }
    }
    assert forall|x: A| s.to_set().insert(a).contains(x) implies s.push(a).contains(x) by {
        if s.to_set().contains(x) {
            let j = choose|j: int| 0 <= j < s.len() && s[j] == x;
            assert(s.push(a)[j] == x);
        } else {
            assert(s.push(a)[s.len() as int] == a);
        }
    }
    assert(s.push(a).to_set() =~= s.to_set().insert(a));
}

/// Law: sending the handshake twice with the same arguments yields the same
/// node identity state as sending it once — the identity left behind is a
/// function of the handshake's arguments alone.
pub proof fn lemma_handshake_idempotent<T, P>(
    s1: NodeState<T, P>,
    s2: NodeState<T, P>,
    node_id: Seq<char>,
    node_ids: Seq<Seq<char>>,
)
    requires
        init_identity(s1, node_id, node_ids),
        init_identity(s2, node_id, node_ids),
    ensures
        s1.node_id@ == s2.node_id@,
        s1.nodes_ids.deep_view() == s2.nodes_ids.deep_view(),
        s1.tx_id == s2.tx_id,
{
}

} // verus!
