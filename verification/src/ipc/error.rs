//! IPC errors: framing and envelope validation versus transport and remote failures.

use vstd::prelude::*;
use crate::ipc::envelope::ErrorCode;

verus! {

/// Framing and envelope validation failures (local, before any handler runs).
#[derive(Debug, Clone, PartialEq, Eq)]
pub enum ProtocolError {
    InvalidFrame(String),
    PayloadTooLarge { length: u32, max: usize },
    UnsupportedVersion(u64),
    Incomplete { needed: usize, available: usize },
}

/// Errors from framing, envelopes, transport, and remote `type: error` replies.
///
/// Transport and JSON failures happen outside the library and arrive here
/// as the text of the underlying error.
#[derive(Debug, Clone, PartialEq, Eq)]
pub enum IpcError {
    Io(String),
    Json(String),
    Protocol(ProtocolError),
    UnexpectedType { expected: &'static str, actual: String },
    MissingField(&'static str),
    Remote { code: ErrorCode, message: String },
}

impl IpcError {
    /// A remote `type: error` reply.
    pub fn remote(code: ErrorCode, message: String) -> (e: IpcError)
        ensures
            e == (IpcError::Remote { code, message }),
    {
        IpcError::Remote { code, message }
    }
}

} // verus!
