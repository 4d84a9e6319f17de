//! The wire unit exchanged between nodes and the harness: an envelope with a
//! source, a destination, and a body carrying correlation ids and a payload.

use vstd::prelude::*;

verus! {

/// One envelope on the wire.
pub struct Message<P> {
    pub src: String,
    pub dst: String,
    pub body: Body<P>,
}

/// The body of an envelope: an optional outgoing transaction id, an optional
/// "in reply to" id, and the protocol payload.
pub struct Body<P> {
    pub id: Option<usize>,
    pub req_id: Option<usize>,
    pub payload: P,
}

/// The handshake that establishes node identity before any protocol traffic.
pub enum InitPayload {
    Init { node_id: String, node_ids: Vec<String> },
    InitOk,
}

/// Does the envelope head carry exactly these routing fields?
pub open spec fn routed_as<P>(
    m: Message<P>,
    src: Seq<char>,
    dst: Seq<char>,
    id: Option<usize>,
    req_id: Option<usize>,
) -> bool {
    &&& m.src@ == src
    &&& m.dst@ == dst
    &&& m.body.id == id
    &&& m.body.req_id == req_id
}

} // verus!
