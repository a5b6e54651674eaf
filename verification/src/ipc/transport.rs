//! Transports of the control socket.
//!
//! Connecting, binding and accepting are I/O and happen outside the
//! library; a transport is named here so that both sides agree on it.

use vstd::prelude::*;

verus! {

/// Unix domain socket transport (protocol v1).
#[derive(Debug, Clone, Copy, Default, PartialEq, Eq)]
pub struct UnixTransport;

} // verus!
