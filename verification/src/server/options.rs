//! Server startup options.

use vstd::prelude::*;

verus! {

/// Options for running the server.
#[derive(Debug, Clone, Copy, PartialEq, Eq)]
pub struct ServerOptions {
    /// Log to stderr instead of `./.openpfe/server/openpfe.log`.
    pub foreground: bool,
    /// Graceful drain bound before force-cancel, in milliseconds (default 5 s).
    pub shutdown_timeout_ms: u64,
}

impl Default for ServerOptions {
    fn default() -> (o: Self)
        ensures
            o == (ServerOptions { foreground: false, shutdown_timeout_ms: 5000 }),
    {
        ServerOptions { foreground: false, shutdown_timeout_ms: 5000 }
    }
}

} // verus!
