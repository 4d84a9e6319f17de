//! Request and reply payloads of the external sequential key-value store
//! collaborator. The store is not implemented here; nodes talk to it through
//! these messages and assume it is linearizable.

use vstd::prelude::*;

verus! {

/// Messages to and from the sequential store. Error code 20 means the key
/// was not found; code 22 means a compare-and-swap precondition failed.
pub enum SeqPayload {
    Read { key: String },
    ReadOk { value: u32 },
    Write { key: String, value: u32 },
    WriteOk {},
    Cas { key: String, from: u32, to: u32 },
    CasOk {},
    Error { code: u32, text: String },
}

/// The store's error code for a key that does not exist yet.
pub const CODE_KEY_NOT_FOUND: u32 = 20;

/// The store's error code for a failed compare-and-swap precondition.
pub const CODE_CAS_FAILED: u32 = 22;

} // verus!
