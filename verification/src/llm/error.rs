//! LLM errors.

use vstd::prelude::*;
use crate::text::concat;

verus! {

/// LLM configuration, registry, download and inference errors. An I/O
/// failure arrives as the text of the underlying error.
#[derive(Debug, Clone, PartialEq, Eq)]
pub enum LlmError {
    Config(String),
    Io(String),
    NotFound(String),
    Download(String),
    Verify(String),
    Busy,
    Engine(String),
    InvalidRequest(String),
}

impl LlmError {
    /// The error's display text.
    pub open spec fn display(self) -> Seq<char> {
        match self {
            LlmError::Config(m) => "config: "@ + m@,
            LlmError::Io(m) => "io: "@ + m@,
            LlmError::NotFound(m) => "not found: "@ + m@,
            LlmError::Download(m) => "download: "@ + m@,
            LlmError::Verify(m) => "verify: "@ + m@,
            LlmError::Busy => "inference busy"@,
            LlmError::Engine(m) => "engine: "@ + m@,
            LlmError::InvalidRequest(m) => "invalid request: "@ + m@,
        }
    }

    /// A configuration error.
    pub fn config(msg: String) -> (e: Self)
        ensures
            e == LlmError::Config(msg),
    {
        LlmError::Config(msg)
    }

    /// A missing catalog entry, job or file.
    pub fn not_found(msg: String) -> (e: Self)
        ensures
            e == LlmError::NotFound(msg),
    {
        LlmError::NotFound(msg)
    }

    /// A failed download.
    pub fn download(msg: String) -> (e: Self)
        ensures
            e == LlmError::Download(msg),
    {
        LlmError::Download(msg)
    }

    /// A failed digest check.
    pub fn verify(msg: String) -> (e: Self)
        ensures
            e == LlmError::Verify(msg),
    {
        LlmError::Verify(msg)
    }

    /// An inference engine failure.
    pub fn engine(msg: String) -> (e: Self)
        ensures
            e == LlmError::Engine(msg),
    {
        LlmError::Engine(msg)
    }

    /// A request the service refuses.
    pub fn invalid(msg: String) -> (e: Self)
        ensures
            e == LlmError::InvalidRequest(msg),
    {
        LlmError::InvalidRequest(msg)
    }

    /// The error's display text.
    pub fn message(&self) -> (s: String)
        ensures
            s@ == self.display(),
    {
        match self {
            LlmError::Config(m) => concat("config: ", m.as_str()),
            LlmError::Io(m) => concat("io: ", m.as_str()),
            LlmError::NotFound(m) => concat("not found: ", m.as_str()),
            LlmError::Download(m) => concat("download: ", m.as_str()),
            LlmError::Verify(m) => concat("verify: ", m.as_str()),
            LlmError::Busy => String::from_str("inference busy"),
            LlmError::Engine(m) => concat("engine: ", m.as_str()),
            LlmError::InvalidRequest(m) => concat("invalid request: ", m.as_str()),
        }
    }
}

} // verus!
