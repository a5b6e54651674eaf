//! API error replies: HTTP status, machine code and message.

use vstd::prelude::*;
use crate::llm::error::LlmError;

verus! {

/// An API error reply.
#[derive(Debug, Clone, PartialEq, Eq)]
pub struct ApiError {
    pub status: u16,
    pub code: &'static str,
    pub message: String,
}

impl ApiError {
    /// 400 `invalid_request`.
    pub fn invalid_request(message: String) -> (e: Self)
        ensures
            e.status == 400 && e.code@ == "invalid_request"@ && e.message == message,
    {
        ApiError { status: 400, code: "invalid_request", message }
    }

    /// 404 `not_found`.
    pub fn not_found(message: String) -> (e: Self)
        ensures
            e.status == 404 && e.code@ == "not_found"@ && e.message == message,
    {
        ApiError { status: 404, code: "not_found", message }
    }

    /// 503 `model_not_loaded`.
    pub fn model_not_loaded(message: String) -> (e: Self)
        ensures
            e.status == 503 && e.code@ == "model_not_loaded"@ && e.message == message,
    {
        ApiError { status: 503, code: "model_not_loaded", message }
    }

    /// 503 `inference_busy`.
    pub fn inference_busy() -> (e: Self)
        ensures
            e.status == 503 && e.code@ == "inference_busy"@ && e.message@ == "inference busy"@,
    {
        ApiError { status: 503, code: "inference_busy", message: String::from_str("inference busy") }
    }

    /// 500 `internal_error`.
    pub fn internal(message: String) -> (e: Self)
        ensures
            e.status == 500 && e.code@ == "internal_error"@ && e.message == message,
    {
        ApiError { status: 500, code: "internal_error", message }
    }

    /// The reply for a service error: busy → 503 `inference_busy`; not found
    /// → 404; invalid request, config, download and verify errors → 400;
    /// engine errors → 503 `model_not_loaded`; I/O errors → 500.
    pub fn from_llm(err: LlmError) -> (e: Self)
        ensures
            match err {
                LlmError::Busy => e.status == 503 && e.code@ == "inference_busy"@ && e.message@ == "inference busy"@,
                LlmError::NotFound(m) => e.status == 404 && e.code@ == "not_found"@ && e.message == m,
                LlmError::InvalidRequest(m) => e.status == 400 && e.code@ == "invalid_request"@ && e.message == m,
                LlmError::Config(m) => e.status == 400 && e.code@ == "invalid_request"@ && e.message == m,
                LlmError::Download(m) => e.status == 400 && e.code@ == "invalid_request"@ && e.message == m,
                LlmError::Verify(m) => e.status == 400 && e.code@ == "invalid_request"@ && e.message == m,
                LlmError::Engine(m) => e.status == 503 && e.code@ == "model_not_loaded"@ && e.message == m,
                LlmError::Io(m) => e.status == 500 && e.code@ == "internal_error"@ && e.message == m,
            },
    {
        match err {
            LlmError::Busy => ApiError::inference_busy(),
            LlmError::NotFound(m) => ApiError::not_found(m),
            LlmError::InvalidRequest(m) => ApiError::invalid_request(m),
            LlmError::Config(m) => ApiError::invalid_request(m),
            LlmError::Engine(m) => ApiError::model_not_loaded(m),
            LlmError::Download(m) => ApiError::invalid_request(m),
            LlmError::Verify(m) => ApiError::invalid_request(m),
            LlmError::Io(m) => ApiError::internal(m),
        }
    }
}

} // verus!
