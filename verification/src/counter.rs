//! The counter coordination protocol: a single linearizable counter shared
//! by all nodes, built client-side on the external sequential store's
//! compare-and-swap. Increments are accumulated locally, proposed to the
//! store as one compare-and-swap at a time — never more than one in flight —
//! and acknowledged to their requesters only once the store has committed
//! them. A failed precondition is recovered by re-reading the store and
//! re-proposing; a missing key is initialized by the cluster's first node
//! alone.

use vstd::prelude::*;

use crate::messages::{Message, routed_as};
use crate::nodes::{MessageType, NodeState, Outbound, TimerState, lemma_push_prefix};
use crate::seqkv::{CODE_CAS_FAILED, CODE_KEY_NOT_FOUND, SeqPayload};

verus! {

/// How long after one background refresh the next is scheduled, in
/// milliseconds.
pub const REFRESH_MS: u64 = 500;

/// The counter protocol's client-facing message set.
pub enum CounterPayload {
    Add { delta: u32 },
    AddOk {},
    Read {},
    ReadOk { value: u32 },
}

/// The periodic background timer that keeps the committed value fresh while
/// no proposal is outstanding.
pub struct CounterTimer {}

/// The one unrecoverable condition: the store answered with an error code
/// it never defines.
#[derive(Debug)]
pub enum CounterError {
    UnknownStoreCode { code: u32 },
}

/// A node running the counter coordination protocol.
pub struct CounterNode {
    pub state: NodeState<CounterTimer, CounterPayload>,
    pub current_state: u32,
    pub proposed_state: u32,
    pub add_ops: u32,
    pub adders: Vec<(String, Option<usize>)>,
    pub in_flight: bool,
    pub proposed_adders: usize,
}

/// The reserved identity of the sequential store collaborator.
pub open spec fn store_id() -> Seq<char> {
    "seq-kv"@
}

/// The store key under which the shared counter lives.
pub open spec fn counter_key() -> Seq<char> {
    "reddit"@
}

/// Is this envelope a compare-and-swap request?
pub open spec fn is_cas_msg(m: Message<Outbound<CounterPayload>>) -> bool {
    m.body.payload matches Outbound::Store(SeqPayload::Cas { .. })
}

/// How many compare-and-swap requests an outbox holds.
pub open spec fn cas_count(s: Seq<Message<Outbound<CounterPayload>>>) -> int
    decreases s.len(),
{
    if s.len() == 0 {
        0
    } else {
        cas_count(s.drop_last()) + if is_cas_msg(s.last()) {
            1int
        } else {
            0int
        }
    }
}

/// Appending one envelope raises the compare-and-swap count by one exactly
/// when the envelope is a compare-and-swap.
pub proof fn lemma_cas_count_push(s: Seq<Message<Outbound<CounterPayload>>>, m: Message<
    Outbound<CounterPayload>,
>)
    ensures
        cas_count(s.push(m)) == cas_count(s) + if is_cas_msg(m) {
            1int
        } else {
            0int
        },
{
    assert(s.push(m).drop_last() =~= s);
    assert(s.push(m).last() == m);
}

/// The node id and peer list are never changed by protocol traffic.
pub open spec fn id_unchanged(pre: CounterNode, post: CounterNode) -> bool {
    &&& post.state.node_id == pre.state.node_id
    &&& post.state.nodes_ids == pre.state.nodes_ids
}

/// Is this node the first in the cluster's peer list — the one elected to
/// initialize the store key?
pub open spec fn is_first_node(s: NodeState<CounterTimer, CounterPayload>) -> bool {
    s.nodes_ids@.len() > 0 && s.nodes_ids.deep_view()[0] == s.node_id@
}

/// The outbox's last envelope is `cas{key, from, to}` for the counter key.
pub open spec fn last_is_cas(s: NodeState<CounterTimer, CounterPayload>, from: u32, to: u32) -> bool {
    s.outbox@.last().body.payload matches Outbound::Store(SeqPayload::Cas { key, from: f, to: t })
        && key@ == counter_key() && f == from && t == to
}

/// The outbox's last envelope is `read{key}` for the counter key.
pub open spec fn last_is_read(s: NodeState<CounterTimer, CounterPayload>) -> bool {
    s.outbox@.last().body.payload matches Outbound::Store(SeqPayload::Read { key }) && key@
        == counter_key()
}

/// The outbox's last envelope is `write{key, value}` for the counter key.
pub open spec fn last_is_write(s: NodeState<CounterTimer, CounterPayload>, value: u32) -> bool {
    s.outbox@.last().body.payload matches Outbound::Store(SeqPayload::Write { key, value: x })
        && key@ == counter_key() && x == value
}

/// Exactly one request to the store was appended to the outbox, stamped
/// with the next transaction id; timers and identity are untouched.
pub open spec fn one_store_request(pre: CounterNode, post: CounterNode) -> bool {
    &&& post.state.outbox@.len() == pre.state.outbox@.len() + 1
    &&& post.state.outbox@.drop_last() == pre.state.outbox@
    &&& routed_as(
        post.state.outbox@.last(),
        pre.state.node_id@,
        store_id(),
        Some(pre.state.tx_id),
        None,
    )
    &&& post.state.tx_id == pre.state.tx_id + 1
    &&& post.state.queue == pre.state.queue
    &&& id_unchanged(pre, post)
}

/// Handling `add{delta}`: the delta joins the accumulated sum and the
/// requester joins the waiters. Only when the waiter queue was empty — so
/// nothing was outstanding — is a compare-and-swap issued at once; while one
/// is outstanding or a recovery read is pending, the request only
/// accumulates.
pub open spec fn add_applied(
    pre: CounterNode,
    post: CounterNode,
    delta: u32,
    src: Seq<char>,
    req_id: Option<usize>,
) -> bool {
    let first = pre.adders@.len() == 0;
    &&& post.current_state == pre.current_state
    &&& post.add_ops == pre.add_ops + delta
    &&& post.adders@.len() == pre.adders@.len() + 1
    &&& post.adders@.drop_last() == pre.adders@
    &&& post.adders@.last().0@ == src
    &&& post.adders@.last().1 == req_id
    &&& post.state.queue == pre.state.queue
    &&& id_unchanged(pre, post)
    &&& (!first ==> post.in_flight == pre.in_flight && post.proposed_state == pre.proposed_state
        && post.proposed_adders == pre.proposed_adders && post.state.outbox == pre.state.outbox
        && post.state.tx_id == pre.state.tx_id)
    &&& (first ==> {
        &&& post.in_flight
        &&& post.proposed_state == pre.current_state + pre.add_ops + delta
        &&& post.proposed_adders == 1
        &&& post.state.outbox@.len() == pre.state.outbox@.len() + 1
        &&& post.state.outbox@.drop_last() == pre.state.outbox@
        &&& routed_as(
            post.state.outbox@.last(),
            pre.state.node_id@,
            store_id(),
            Some(pre.state.tx_id),
            None,
        )
        &&& last_is_cas(
            post.state,
            pre.current_state,
            (pre.current_state + pre.add_ops + delta) as u32,
        )
        &&& post.state.tx_id == pre.state.tx_id + 1
    })
}

/// Handling a client `read`: reply with the last committed value — a
/// stale-tolerant read that never triggers a proposal.
pub open spec fn client_read_applied(
    pre: CounterNode,
    post: CounterNode,
    src: Seq<char>,
    req_id: Option<usize>,
) -> bool {
    &&& post.current_state == pre.current_state
    &&& post.proposed_state == pre.proposed_state
    &&& post.add_ops == pre.add_ops
    &&& post.adders == pre.adders
    &&& post.in_flight == pre.in_flight
    &&& post.proposed_adders == pre.proposed_adders
    &&& post.state.queue == pre.state.queue
    &&& id_unchanged(pre, post)
    &&& post.state.outbox@.len() == pre.state.outbox@.len() + 1
    &&& post.state.outbox@.drop_last() == pre.state.outbox@
    &&& routed_as(post.state.outbox@.last(), pre.state.node_id@, src, Some(pre.state.tx_id), req_id)
    &&& post.state.outbox@.last().body.payload == Outbound::Proto(
        (CounterPayload::ReadOk { value: pre.current_state }),
    )
    &&& post.state.tx_id == pre.state.tx_id + 1
}

/// Handling the store's `read_ok{value}`: while a compare-and-swap is
/// outstanding the reply is ignored — its resolution will bring the fresher
/// value. Otherwise the committed value is refreshed, but only upward: the
/// counter key only ever grows, so on the unordered channel a reply below
/// the committed value can only be a reordered stale read, and taking it
/// would drag the committed value back down. If waiters are queued (a
/// recovery or cold-start read), a compare-and-swap from the refreshed
/// base is issued at once.
pub open spec fn store_read_ok_applied(pre: CounterNode, post: CounterNode, value: u32) -> bool {
    let refreshed: u32 = if value > pre.current_state {
        value
    } else {
        pre.current_state
    };
    &&& (pre.in_flight ==> post == pre)
    &&& (!pre.in_flight ==> {
        &&& post.current_state == refreshed
        &&& post.add_ops == pre.add_ops
        &&& post.adders == pre.adders
        &&& post.state.queue == pre.state.queue
        &&& id_unchanged(pre, post)
        &&& (pre.adders@.len() == 0 ==> !post.in_flight && post.proposed_state == refreshed
            && post.proposed_adders == 0 && post.state.outbox == pre.state.outbox
            && post.state.tx_id == pre.state.tx_id)
        &&& (pre.adders@.len() > 0 ==> {
            &&& post.in_flight
            &&& post.proposed_state == refreshed + pre.add_ops
            &&& post.proposed_adders == pre.adders@.len()
            &&& post.state.outbox@.len() == pre.state.outbox@.len() + 1
            &&& post.state.outbox@.drop_last() == pre.state.outbox@
            &&& routed_as(
                post.state.outbox@.last(),
                pre.state.node_id@,
                store_id(),
                Some(pre.state.tx_id),
                None,
            )
            &&& last_is_cas(post.state, refreshed, (refreshed + pre.add_ops) as u32)
            &&& post.state.tx_id == pre.state.tx_id + 1
        })
    })
}

/// Handling the store's `write_ok`: the key now exists, so if waiters are
/// queued and nothing is outstanding, propose their deltas at once;
/// otherwise there is nothing to do.
pub open spec fn store_write_ok_applied(pre: CounterNode, post: CounterNode) -> bool {
    &&& ((pre.in_flight || pre.adders@.len() == 0) ==> post == pre)
    &&& ((!pre.in_flight && pre.adders@.len() > 0) ==> {
        &&& post.current_state == pre.current_state
        &&& post.add_ops == pre.add_ops
        &&& post.adders == pre.adders
        &&& post.state.queue == pre.state.queue
        &&& id_unchanged(pre, post)
        &&& post.in_flight
        &&& post.proposed_state == pre.current_state + pre.add_ops
        &&& post.proposed_adders == pre.adders@.len()
        &&& post.state.outbox@.len() == pre.state.outbox@.len() + 1
        &&& post.state.outbox@.drop_last() == pre.state.outbox@
        &&& routed_as(
            post.state.outbox@.last(),
            pre.state.node_id@,
            store_id(),
            Some(pre.state.tx_id),
            None,
        )
        &&& last_is_cas(
            post.state,
            pre.current_state,
            (pre.current_state + pre.add_ops) as u32,
        )
        &&& post.state.tx_id == pre.state.tx_id + 1
    })
}

/// Handling the store's `cas_ok`: the outstanding proposal committed. The
/// committed value advances to the proposed one, the covered delta leaves
/// the accumulator, and every covered waiter — in arrival order — receives
/// `add_ok`. Deltas that accumulated while the swap was in flight are
/// proposed again immediately from the new base; with none, the node
/// returns to idle. A `cas_ok` with nothing outstanding changes nothing.
pub open spec fn cas_ok_applied(pre: CounterNode, post: CounterNode) -> bool {
    let w = pre.proposed_adders as int;
    let base = pre.state.outbox@.len() as int;
    let repropose = pre.adders@.len() > w;
    &&& (!pre.in_flight ==> post == pre)
    &&& (pre.in_flight ==> {
        &&& id_unchanged(pre, post)
        &&& post.state.queue == pre.state.queue
        &&& post.current_state == pre.proposed_state
        &&& post.add_ops == pre.add_ops - (pre.proposed_state - pre.current_state)
        &&& post.adders@ == pre.adders@.subrange(w, pre.adders@.len() as int)
        &&& post.state.outbox@.subrange(0, base) == pre.state.outbox@
        &&& (forall|k: int|
            0 <= k < w ==> routed_as(
                #[trigger] post.state.outbox@[base + k],
                pre.state.node_id@,
                pre.adders@[k].0@,
                Some((pre.state.tx_id + k) as usize),
                pre.adders@[k].1,
            ) && post.state.outbox@[base + k].body.payload == Outbound::Proto(
                (CounterPayload::AddOk {  }),
            ))
        &&& (repropose ==> {
            &&& post.in_flight
            &&& post.proposed_state == post.current_state + post.add_ops
            &&& post.proposed_adders == pre.adders@.len() - w
            &&& post.state.outbox@.len() == base + w + 1
            &&& routed_as(
                post.state.outbox@.last(),
                pre.state.node_id@,
                store_id(),
                Some((pre.state.tx_id + w) as usize),
                None,
            )
            &&& last_is_cas(post.state, pre.proposed_state, (pre.proposed_state + (pre.add_ops
                - (pre.proposed_state - pre.current_state))) as u32)
            &&& post.state.tx_id == pre.state.tx_id + w + 1
        })
        &&& (!repropose ==> {
            &&& !post.in_flight
            &&& post.proposed_state == post.current_state
            &&& post.proposed_adders == 0
            &&& post.state.outbox@.len() == base + w
            &&& post.state.tx_id == pre.state.tx_id + w
        })
    })
}

/// Handling a store `error{code}`: whatever was outstanding has failed, so
/// the proposal bookkeeping resets. Code 20 (key not found) makes the
/// cluster's first node — and only it — initialize the key to zero; code 22
/// (precondition failed) makes the node re-read the store, after which the
/// refreshed reply re-proposes. Any other code is unrecoverable.
pub open spec fn store_error_applied(pre: CounterNode, post: CounterNode, code: u32) -> bool {
    &&& post.current_state == pre.current_state
    &&& post.add_ops == pre.add_ops
    &&& post.adders == pre.adders
    &&& post.state.queue == pre.state.queue
    &&& id_unchanged(pre, post)
    &&& !post.in_flight
    &&& post.proposed_state == pre.current_state
    &&& post.proposed_adders == 0
    &&& ((code == CODE_KEY_NOT_FOUND && is_first_node(pre.state)) ==> {
        &&& post.state.outbox@.len() == pre.state.outbox@.len() + 1
        &&& post.state.outbox@.drop_last() == pre.state.outbox@
        &&& routed_as(
            post.state.outbox@.last(),
            pre.state.node_id@,
            store_id(),
            Some(pre.state.tx_id),
            None,
        )
        &&& last_is_write(post.state, 0)
        &&& post.state.tx_id == pre.state.tx_id + 1
    })
    &&& ((code == CODE_KEY_NOT_FOUND && !is_first_node(pre.state)) ==> post.state.outbox
        == pre.state.outbox && post.state.tx_id == pre.state.tx_id)
    &&& (code == CODE_CAS_FAILED ==> {
        &&& post.state.outbox@.len() == pre.state.outbox@.len() + 1
        &&& post.state.outbox@.drop_last() == pre.state.outbox@
        &&& routed_as(
            post.state.outbox@.last(),
            pre.state.node_id@,
            store_id(),
            Some(pre.state.tx_id),
            None,
        )
        &&& last_is_read(post.state)
        &&& post.state.tx_id == pre.state.tx_id + 1
    })
    &&& ((code != CODE_KEY_NOT_FOUND && code != CODE_CAS_FAILED) ==> post.state.outbox
        == pre.state.outbox && post.state.tx_id == pre.state.tx_id)
}

/// Law: monotonic commit. The committed value never decreases at a node,
/// whatever the store replies: a commit advances it to the proposed value,
/// which the invariant keeps at or above it; a store read refreshes it
/// only upward, so even a reply reordered from before the last commit
/// cannot drag it back; a store write acknowledgment leaves it alone, and
/// client requests leave it untouched by their own contracts.
pub proof fn lemma_monotonic_commit(pre: CounterNode, post: CounterNode, value: u32)
    requires
        pre.inv(),
        store_read_ok_applied(pre, post, value) || cas_ok_applied(pre, post)
            || store_write_ok_applied(pre, post),
    ensures
        post.current_state >= pre.current_state,
{
}

/// Law: single in-flight proposal. While a compare-and-swap is outstanding,
/// an arriving `add` only accumulates: nothing is sent at all, and the
/// proposal bookkeeping is untouched — so a second compare-and-swap is never
/// issued before the store has answered the first.
pub proof fn lemma_single_in_flight(
    pre: CounterNode,
    post: CounterNode,
    delta: u32,
    src: Seq<char>,
    req_id: Option<usize>,
)
    requires
        pre.inv(),
        pre.in_flight,
        add_applied(pre, post, delta, src, req_id),
    ensures
        post.state.outbox == pre.state.outbox,
        post.in_flight,
        post.proposed_state == pre.proposed_state,
        post.proposed_adders == pre.proposed_adders,
        cas_count(post.state.outbox@) == cas_count(pre.state.outbox@),
{
    assert(pre.adders@.len() > 0);
}

impl CounterNode {
    /// Well-formedness: the accumulated delta always fits beside the
    /// committed value, and while a compare-and-swap is outstanding the
    /// proposal covers a prefix of the waiters and proposes exactly the
    /// committed value plus the covered delta; while none is outstanding
    /// the proposal bookkeeping is reset.
    pub open spec fn inv(self) -> bool {
        &&& self.current_state + self.add_ops <= u32::MAX
        &&& (self.in_flight ==> self.current_state <= self.proposed_state <= self.current_state
            + self.add_ops)
        &&& (self.in_flight ==> 1 <= self.proposed_adders <= self.adders@.len())
        &&& (!self.in_flight ==> self.proposed_state == self.current_state && self.proposed_adders
            == 0)
    }

    /// A fresh counter node: nothing committed, nothing pending, and the
    /// first background refresh timer scheduled.
    pub fn init(now: u64) -> (n: CounterNode)
        requires
            now + REFRESH_MS <= u64::MAX,
        ensures
            n.inv(),
            n.state.node_id@ == Seq::<char>::empty(),
            n.state.nodes_ids@.len() == 0,
            n.state.tx_id == 0,
            n.state.outbox@.len() == 0,
            n.state.queue@.len() == 1,
            n.state.queue@[0] == (TimerState {
                state: (CounterTimer {  }),
                expires_at: (now + REFRESH_MS) as u64,
            }),
            n.current_state == 0,
            n.proposed_state == 0,
            n.add_ops == 0,
            n.adders@.len() == 0,
            !n.in_flight,
    {
        let mut state: NodeState<CounterTimer, CounterPayload> = NodeState::init();
        state.queue_timer(CounterTimer {  }, now + REFRESH_MS);
        CounterNode {
            state,
            current_state: 0,
            proposed_state: 0,
            add_ops: 0,
            adders: Vec::new(),
            in_flight: false,
            proposed_adders: 0,
        }
    }

    /// The runtime state, read-only.
    pub fn get_state(&self) -> (s: &NodeState<CounterTimer, CounterPayload>)
        ensures
            *s == self.state,
    {
        &self.state
    }

    /// The runtime state, for mutation by the embedding program.
    pub fn get_state_mut(&mut self) -> (s: &mut NodeState<CounterTimer, CounterPayload>)
        ensures
            *s == old(self).state,
            final(self).state == *final(s),
            final(self).current_state == old(self).current_state,
            final(self).proposed_state == old(self).proposed_state,
            final(self).add_ops == old(self).add_ops,
            final(self).adders == old(self).adders,
            final(self).in_flight == old(self).in_flight,
            final(self).proposed_adders == old(self).proposed_adders,
    {
        &mut self.state
    }

    /// Issue one compare-and-swap proposing the committed value plus every
    /// accumulated delta, covering every queued waiter.
    fn propose(&mut self)
        requires
            old(self).current_state + old(self).add_ops <= u32::MAX,
            old(self).adders@.len() > 0,
            !old(self).in_flight,
            old(self).state.tx_id < usize::MAX,
        ensures
            final(self).inv(),
            final(self).in_flight,
            final(self).proposed_state == old(self).current_state + old(self).add_ops,
            final(self).proposed_adders == old(self).adders@.len(),
            final(self).current_state == old(self).current_state,
            final(self).add_ops == old(self).add_ops,
            final(self).adders == old(self).adders,
            one_store_request(*old(self), *final(self)),
            last_is_cas(
                final(self).state,
                old(self).current_state,
                (old(self).current_state + old(self).add_ops) as u32,
            ),
            cas_count(final(self).state.outbox@) == cas_count(old(self).state.outbox@) + 1,
    {
        self.proposed_state = self.current_state + self.add_ops;
        self.proposed_adders = self.adders.len();
        self.in_flight = true;
        let ghost prev = self.state.outbox@;
        self.state.write_message(
            Outbound::Store(
                SeqPayload::Cas {
                    key: "reddit".to_owned(),
                    from: self.current_state,
                    to: self.proposed_state,
                },
            ),
            None,
            "seq-kv".to_owned(),
        );
        proof {
            assert(self.state.outbox@ =~= prev.push(self.state.outbox@.last()));
            lemma_cas_count_push(prev, self.state.outbox@.last());
        }
    }

    /// Dispatch one classified inbound envelope. Client `add` and `read`
    /// requests and the store's four replies are handled as the protocol
    /// prescribes; reply-only client payloads and request payloads from the
    /// store are contract violations and are excluded outright. The one
    /// error this returns is a store error code the store never defines —
    /// unrecoverable for this node.
    ///
    /// Two protocol laws are stated here over every case: the committed
    /// value never decreases, whatever arrives, and no call ever issues
    /// more than one compare-and-swap — never any while one is already
    /// outstanding, which only a store reply can resolve.
    pub fn process_message(&mut self, message: MessageType<CounterPayload>) -> (r: Result<
        (),
        CounterError,
    >)
        requires
            old(self).inv(),
            old(self).state.tx_id + old(self).adders@.len() + 2 <= usize::MAX,
            message matches MessageType::Defined(m) ==> !(m.body.payload is AddOk) && !(
            m.body.payload is ReadOk),
            message matches MessageType::Store(m) ==> !(m.body.payload is Read) && !(m.body.payload
                is Write) && !(m.body.payload is Cas),
            (match message {
                MessageType::Defined(m) => match m.body.payload {
                    CounterPayload::Add { delta } => old(self).current_state + old(self).add_ops
                        + delta <= u32::MAX,
                    _ => true,
                },
                MessageType::Store(_) => true,
            }),
            (match message {
                MessageType::Store(m) => match m.body.payload {
                    SeqPayload::ReadOk { value } => (!old(self).in_flight && value > old(
                        self,
                    ).current_state) ==> value + old(self).add_ops <= u32::MAX,
                    _ => true,
                },
                MessageType::Defined(_) => true,
            }),
        ensures
            final(self).inv(),
            (match message {
                MessageType::Defined(m) => match m.body.payload {
                    CounterPayload::Add { delta } => add_applied(
                        *old(self),
                        *final(self),
                        delta,
                        m.src@,
                        m.body.id,
                    ),
                    CounterPayload::Read {  } => client_read_applied(
                        *old(self),
                        *final(self),
                        m.src@,
                        m.body.id,
                    ),
                    CounterPayload::AddOk {  } => true,
                    CounterPayload::ReadOk { .. } => true,
                },
                MessageType::Store(m) => match m.body.payload {
                    SeqPayload::ReadOk { value } => store_read_ok_applied(
                        *old(self),
                        *final(self),
                        value,
                    ),
                    SeqPayload::WriteOk {  } => store_write_ok_applied(*old(self), *final(self)),
                    SeqPayload::CasOk {  } => cas_ok_applied(*old(self), *final(self)),
                    SeqPayload::Error { code, .. } => store_error_applied(
                        *old(self),
                        *final(self),
                        code,
                    ),
                    _ => true,
                },
            }),
            (match message {
                MessageType::Store(m) => match m.body.payload {
                    SeqPayload::Error { code, .. } => if code != CODE_KEY_NOT_FOUND && code
                        != CODE_CAS_FAILED {
                        r == Err::<(), CounterError>((CounterError::UnknownStoreCode { code }))
                    } else {
                        r is Ok
                    },
                    _ => r is Ok,
                },
                MessageType::Defined(_) => r is Ok,
            }),
            final(self).current_state >= old(self).current_state,
            cas_count(final(self).state.outbox@) <= cas_count(old(self).state.outbox@) + 1,
            cas_count(final(self).state.outbox@) > cas_count(old(self).state.outbox@)
                ==> final(self).in_flight,
            (old(self).in_flight && message matches MessageType::Defined(_)) ==> cas_count(
                final(self).state.outbox@,
            ) == cas_count(old(self).state.outbox@) && final(self).in_flight,
    {
        let ghost pre = *old(self);
        match message {
            MessageType::Defined(m) => {
                let Message { src, dst: _, body } = m;
                let req_id = body.id;
                match body.payload {
                    CounterPayload::Add { delta } => {
                        self.add_ops = self.add_ops + delta;
                        self.adders.push((src, req_id));
                        proof {
                            assert(self.adders@.drop_last() =~= pre.adders@);
                        }
                        if self.adders.len() == 1 {
                            self.propose();
                        } else {
                            proof {
                                let ghost prev = pre.state.outbox@;
                                assert(cas_count(self.state.outbox@) == cas_count(prev));
                            }
                        }
                        Ok(())
                    },
                    CounterPayload::Read {  } => {
                        let ghost prev = self.state.outbox@;
                        self.state.write_message(
                            Outbound::Proto(CounterPayload::ReadOk { value: self.current_state }),
                            req_id,
                            src,
                        );
                        proof {
                            assert(self.state.outbox@ =~= prev.push(self.state.outbox@.last()));
                            lemma_cas_count_push(prev, self.state.outbox@.last());
                        }
                        Ok(())
                    },
                    CounterPayload::AddOk {  } => Ok(()),
                    CounterPayload::ReadOk { .. } => Ok(()),
                }
            },
            MessageType::Store(m) => {
                let Message { src: _, dst: _, body } = m;
                match body.payload {
                    SeqPayload::ReadOk { value } => {
                        if !self.in_flight {
                            if value > self.current_state {
                                self.current_state = value;
                                self.proposed_state = value;
                            }
                            if self.adders.len() > 0 {
                                self.propose();
                            }
                        }
                        Ok(())
                    },
                    SeqPayload::WriteOk {  } => {
                        if !self.in_flight && self.adders.len() > 0 {
                            self.propose();
                        }
                        Ok(())
                    },
                    SeqPayload::CasOk {  } => {
                        if self.in_flight {
                            self.commit_proposal();
                        }
                        Ok(())
                    },
                    SeqPayload::Error { code, text: _ } => {
                        self.in_flight = false;
                        self.proposed_state = self.current_state;
                        self.proposed_adders = 0;
                        if code == CODE_KEY_NOT_FOUND {
                            let first = self.state.nodes_ids.len() > 0 && self.state.node_id.eq(
                                &self.state.nodes_ids[0],
                            );
                            proof {
                                if self.state.nodes_ids@.len() > 0 {
                                    assert(self.state.nodes_ids.deep_view()[0]
                                        == self.state.nodes_ids@[0]@);
                                }
                            }
                            if first {
                                let ghost prev = self.state.outbox@;
                                self.state.write_message(
                                    Outbound::Store(
                                        SeqPayload::Write { key: "reddit".to_owned(), value: 0 },
                                    ),
                                    None,
                                    "seq-kv".to_owned(),
                                );
                                proof {
                                    assert(self.state.outbox@ =~= prev.push(
                                        self.state.outbox@.last(),
                                    ));
                                    lemma_cas_count_push(prev, self.state.outbox@.last());
                                }
                            }
                            Ok(())
                        } else if code == CODE_CAS_FAILED {
                            let ghost prev = self.state.outbox@;
                            self.state.write_message(
                                Outbound::Store(SeqPayload::Read { key: "reddit".to_owned() }),
                                None,
                                "seq-kv".to_owned(),
                            );
                            proof {
                                assert(self.state.outbox@ =~= prev.push(
                                    self.state.outbox@.last(),
                                ));
                                lemma_cas_count_push(prev, self.state.outbox@.last());
                            }
                            Ok(())
                        } else {
                            Err(CounterError::UnknownStoreCode { code })
                        }
                    },
                    SeqPayload::Read { .. } => Ok(()),
                    SeqPayload::Write { .. } => Ok(()),
                    SeqPayload::Cas { .. } => Ok(()),
                }
            },
        }
    }

    /// The outstanding compare-and-swap committed: advance the committed
    /// value, acknowledge every covered waiter in arrival order, and
    /// propose any deltas that accumulated meanwhile from the new base.
    fn commit_proposal(&mut self)
        requires
            old(self).inv(),
            old(self).in_flight,
            old(self).state.tx_id + old(self).adders@.len() + 2 <= usize::MAX,
        ensures
            final(self).inv(),
            cas_ok_applied(*old(self), *final(self)),
            cas_count(final(self).state.outbox@) <= cas_count(old(self).state.outbox@) + 1,
            cas_count(final(self).state.outbox@) > cas_count(old(self).state.outbox@)
                ==> final(self).in_flight,
    {
        let ghost pre = *old(self);
        let ghost base = pre.state.outbox@.len() as int;
        let w = self.proposed_adders;
        let committed = self.proposed_state - self.current_state;
        self.current_state = self.proposed_state;
        self.add_ops = self.add_ops - committed;
        self.in_flight = false;
        self.proposed_adders = 0;
        let ghost tx0 = self.state.tx_id;
        let mut k: usize = 0;
        while k < w
            invariant
                0 <= k <= w,
                w == pre.proposed_adders,
                w <= self.adders@.len(),
                self.adders == pre.adders,
                base == pre.state.outbox@.len() as int,
                tx0 == pre.state.tx_id,
                tx0 + self.adders@.len() + 2 <= usize::MAX,
                self.state.tx_id == tx0 + k,
                self.state.outbox@.len() == base + k,
                self.state.outbox@.subrange(0, base) == pre.state.outbox@,
                forall|j: int|
                    0 <= j < k ==> routed_as(
                        #[trigger] self.state.outbox@[base + j],
                        pre.state.node_id@,
                        pre.adders@[j].0@,
                        Some((tx0 + j) as usize),
                        pre.adders@[j].1,
                    ) && self.state.outbox@[base + j].body.payload == Outbound::Proto(
                        (CounterPayload::AddOk {  }),
                    ),
                cas_count(self.state.outbox@) == cas_count(pre.state.outbox@),
                self.state.node_id == pre.state.node_id,
                self.state.nodes_ids == pre.state.nodes_ids,
                self.state.queue == pre.state.queue,
                self.current_state == pre.proposed_state,
                self.add_ops == pre.add_ops - (pre.proposed_state - pre.current_state),
                self.proposed_state == pre.proposed_state,
                !self.in_flight,
                self.proposed_adders == 0,
                pre.inv(),
                pre.in_flight,
            decreases w - k,
        {
            let dst = self.adders[k].0.clone();
            let rid = self.adders[k].1;
            proof {
                assert(dst@ == pre.adders@[k as int].0@);
            }
            let ghost prev = self.state.outbox@;
            self.state.write_message(Outbound::Proto(CounterPayload::AddOk {  }), rid, dst);
            proof {
                lemma_push_prefix(prev, self.state.outbox@, base);
                assert(self.state.outbox@ =~= prev.push(self.state.outbox@.last()));
                lemma_cas_count_push(prev, self.state.outbox@.last());
                assert forall|j: int|
                    0 <= j < k + 1 implies routed_as(
                    #[trigger] self.state.outbox@[base + j],
                    pre.state.node_id@,
                    pre.adders@[j].0@,
                    Some((tx0 + j) as usize),
                    pre.adders@[j].1,
                ) && self.state.outbox@[base + j].body.payload == Outbound::Proto(
                    (CounterPayload::AddOk {  }),
                ) by {
                    if j < k {
                        assert(self.state.outbox@[base + j] == self.state.outbox@.drop_last()[base
                            + j]);
                        assert(self.state.outbox@[base + j] == prev[base + j]);
                    } else {
                        assert(self.state.outbox@[base + j] == self.state.outbox@.last());
                    }
                }
            }
            k = k + 1;
        }
        let tail = self.adders.split_off(w);
        self.adders = tail;
        proof {
            assert(self.adders@ == pre.adders@.subrange(
                pre.proposed_adders as int,
                pre.adders@.len() as int,
            ));
        }
        if self.adders.len() > 0 {
            let ghost prev = self.state.outbox@;
            self.propose();
            proof {
                lemma_push_prefix(prev, self.state.outbox@, base);
                assert forall|j: int|
                    0 <= j < w implies routed_as(
                    #[trigger] self.state.outbox@[base + j],
                    pre.state.node_id@,
                    pre.adders@[j].0@,
                    Some((tx0 + j) as usize),
                    pre.adders@[j].1,
                ) && self.state.outbox@[base + j].body.payload == Outbound::Proto(
                    (CounterPayload::AddOk {  }),
                ) by {
                    assert(self.state.outbox@[base + j] == self.state.outbox@.drop_last()[base
                        + j]);
                    assert(self.state.outbox@[base + j] == prev[base + j]);
                }
            }
        }
    }

    /// The background timer fired: if no compare-and-swap is outstanding,
    /// read the store to keep the committed value fresh, and in any case
    /// reschedule the timer. Protocol state does not change.
    pub fn handle_timer(&mut self, timer: CounterTimer, now: u64)
        requires
            old(self).inv(),
            old(self).state.tx_id < usize::MAX,
            now + REFRESH_MS <= u64::MAX,
        ensures
            final(self).inv(),
            final(self).current_state == old(self).current_state,
            final(self).proposed_state == old(self).proposed_state,
            final(self).add_ops == old(self).add_ops,
            final(self).adders == old(self).adders,
            final(self).in_flight == old(self).in_flight,
            final(self).proposed_adders == old(self).proposed_adders,
            id_unchanged(*old(self), *final(self)),
            final(self).state.queue@ == old(self).state.queue@.push(
                (TimerState { state: (CounterTimer {  }), expires_at: (now + REFRESH_MS) as u64 }),
            ),
            old(self).in_flight ==> final(self).state.outbox == old(self).state.outbox
                && final(self).state.tx_id == old(self).state.tx_id,
            !old(self).in_flight ==> {
                &&& final(self).state.outbox@.len() == old(self).state.outbox@.len() + 1
                &&& final(self).state.outbox@.drop_last() == old(self).state.outbox@
                &&& routed_as(
                    final(self).state.outbox@.last(),
                    old(self).state.node_id@,
                    store_id(),
                    Some(old(self).state.tx_id),
                    None,
                )
                &&& last_is_read(final(self).state)
                &&& final(self).state.tx_id == old(self).state.tx_id + 1
            },
            cas_count(final(self).state.outbox@) == cas_count(old(self).state.outbox@),
    {
        let ghost prev = self.state.outbox@;
        if !self.in_flight {
            self.state.write_message(
                Outbound::Store(SeqPayload::Read { key: "reddit".to_owned() }),
                None,
                "seq-kv".to_owned(),
            );
            proof {
                assert(self.state.outbox@ =~= prev.push(self.state.outbox@.last()));
                lemma_cas_count_push(prev, self.state.outbox@.last());
            }
        }
        self.state.queue_timer(CounterTimer {  }, now + REFRESH_MS);
    }
}

} // verus!
