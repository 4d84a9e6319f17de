//! The trivial echo responder: every `echo` request is answered with the
//! same text. It keeps no state of its own.

use vstd::prelude::*;

use crate::messages::Message;

verus! {

/// The echo protocol's message set, handshake included.
pub enum EchoPayload {
    Init { node_id: String, node_ids: Vec<String> },
    InitOk,
    Echo { echo: String },
    EchoOk { echo: String },
}

/// The echo responder holds no state.
pub struct EchoState {}

impl EchoState {
    /// A fresh echo responder.
    pub fn init() -> (s: EchoState) {
        EchoState {  }
    }

    /// An `echo` request is answered with `echo_ok` carrying the same
    /// text; the handshake is answered with `init_ok`. Reply-only payloads
    /// are contract violations and are excluded outright.
    pub fn process_message(&mut self, message: Message<EchoPayload>) -> (r: EchoPayload)
        requires
            !(message.body.payload is EchoOk),
            !(message.body.payload is InitOk),
        ensures
            *final(self) == *old(self),
            (match message.body.payload {
                EchoPayload::Echo { echo } => r matches EchoPayload::EchoOk { echo: e } && e@
                    == echo@,
                EchoPayload::Init { .. } => r is InitOk,
                EchoPayload::EchoOk { .. } => true,
                EchoPayload::InitOk => true,
            }),
    {
        match message.body.payload {
            EchoPayload::Echo { echo } => EchoPayload::EchoOk { echo },
            EchoPayload::Init { .. } => EchoPayload::InitOk,
            EchoPayload::EchoOk { .. } => EchoPayload::InitOk,
            EchoPayload::InitOk => EchoPayload::InitOk,
        }
    }
}

} // verus!
