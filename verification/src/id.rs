//! The unique-id node: each `generate` request is answered with an id drawn
//! from a counter that starts at a random point and strictly increases, so
//! one node never hands out the same id twice.

use vstd::prelude::*;

use crate::messages::Message;
use crate::nodes::{MessageType, NodeState, Outbound, reply_appended};

verus! {

/// The unique-id protocol's message set.
pub enum IdPayload {
    Generate {},
    GenerateOk { id: u64 },
}

/// This protocol schedules no timers.
pub struct IdTimer {}

/// A node running the unique-id protocol.
pub struct IdNode {
    pub state: NodeState<IdTimer, IdPayload>,
    pub current_id: u64,
}

/// Relies on rand::random: an arbitrary machine-generated value; nothing is
/// promised of it, and the node's contracts hold whatever comes back.
#[verifier::external_body]
fn random_u64() -> u64 {
    rand::random()
}

impl IdNode {
    /// A fresh id node, its counter seeded at a random point.
    pub fn init() -> (n: IdNode)
        ensures
            n.state.node_id@ == Seq::<char>::empty(),
            n.state.nodes_ids@.len() == 0,
            n.state.tx_id == 0,
            n.state.queue@.len() == 0,
            n.state.outbox@.len() == 0,
    {
        IdNode { state: NodeState::init(), current_id: random_u64() }
    }

    /// A `generate` request is answered with the counter's current value,
    /// and the counter moves past it for good — the same id is never handed
    /// out twice. Anything else changes nothing.
    pub fn process_message(&mut self, message: MessageType<IdPayload>)
        requires
            old(self).state.tx_id < usize::MAX,
            old(self).current_id < u64::MAX,
            message matches MessageType::Defined(m) ==> !(m.body.payload is GenerateOk),
        ensures
            (match message {
                MessageType::Defined(m) => match m.body.payload {
                    IdPayload::Generate {  } => {
                        &&& final(self).current_id == old(self).current_id + 1
                        &&& reply_appended(old(self).state, final(self).state, m.src@, m.body.id)
                        &&& final(self).state.outbox@.last().body.payload == Outbound::Proto(
                            (IdPayload::GenerateOk { id: old(self).current_id }),
                        )
                        &&& final(self).state.queue == old(self).state.queue
                        &&& final(self).state.node_id == old(self).state.node_id
                        &&& final(self).state.nodes_ids == old(self).state.nodes_ids
                    },
                    IdPayload::GenerateOk { .. } => true,
                },
                MessageType::Store(_) => *final(self) == *old(self),
            }),
    {
        match message {
            MessageType::Defined(m) => {
                let Message { src, dst: _, body } = m;
                match body.payload {
                    IdPayload::Generate {  } => {
                        let id = self.current_id;
                        self.current_id = self.current_id + 1;
                        self.state.write_message(
                            Outbound::Proto(IdPayload::GenerateOk { id }),
                            body.id,
                            src,
                        );
                    },
                    IdPayload::GenerateOk { .. } => {},
                }
            },
            MessageType::Store(_) => {},
        }
    }

    /// This protocol has no timers, so a fired timer changes nothing.
    pub fn handle_timer(&mut self, timer: IdTimer)
        ensures
            *final(self) == *old(self),
    {
        let _ = timer;
    }

    /// The runtime state, read-only.
    pub fn get_state(&self) -> (s: &NodeState<IdTimer, IdPayload>)
        ensures
            *s == self.state,
    {
        &self.state
    }

    /// The runtime state, for mutation by the embedding program.
    pub fn get_state_mut(&mut self) -> (s: &mut NodeState<IdTimer, IdPayload>)
        ensures
            *s == old(self).state,
            final(self).state == *final(s),
            final(self).current_id == old(self).current_id,
    {
        &mut self.state
    }
}

} // verus!
