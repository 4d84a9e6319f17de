//! Message-passing cluster nodes: a generic node runtime (transaction ids,
//! timer queue, outgoing envelopes), a gossip broadcast protocol with
//! acknowledgment-tracked retransmission, and a linearizable counter built
//! from compare-and-swap against an external sequential store.
//!
//! The runtime here is the pure core: handlers turn an inbound envelope or a
//! fired timer into state changes, outgoing envelopes (collected in an
//! outbox), and newly scheduled timers. Reading lines, writing lines and
//! sleeping until the next timer expiry are left to the embedding program.

use vstd::prelude::*;

pub mod broadcast;
pub mod counter;
pub mod echo;
pub mod id;
pub mod messages;
pub mod nodes;
pub mod seqkv;

verus! {

} // verus!
