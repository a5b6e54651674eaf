//! Request checks and follow-up decisions of the HTTP routes.

use vstd::prelude::*;
use crate::json::Json;
use crate::llm::error::LlmError;
use crate::llm::types::{DownloadStatus, ModelEntry};
use crate::ui::error::ApiError;
use crate::text::{concat, str_eq};

verus! {

/// `PUT /llm/active`: the model name must not be empty.
pub fn check_active_model(model: &str) -> (r: Result<(), ApiError>)
    ensures
        model@.len() == 0 ==> match r {
            Err(e) => e.status == 400 && e.code@ == "invalid_request"@ && e.message@ == "model must not be empty"@,
            Ok(_) => false,
        },
        model@.len() > 0 ==> r is Ok,
{
    if model.is_empty() {
        return Err(ApiError::invalid_request(String::from_str("model must not be empty")));
    }
    Ok(())
}

/// `POST /llm/complete`: the prompt is required.
pub fn check_prompt(prompt: &str) -> (r: Result<(), ApiError>)
    ensures
        prompt@.len() == 0 ==> match r {
            Err(e) => e.status == 400 && e.code@ == "invalid_request"@ && e.message@ == "prompt is required"@,
            Ok(_) => false,
        },
        prompt@.len() > 0 ==> r is Ok,
{
    if prompt.is_empty() {
        return Err(ApiError::invalid_request(String::from_str("prompt is required")));
    }
    Ok(())
}

/// `POST /debug/mcp`: the body must be a JSON-RPC object or batch array.
pub fn check_mcp_body(payload: &Json) -> (r: Result<(), ApiError>)
    ensures
        (payload is Object || payload is Array) ==> r is Ok,
        !(payload is Object || payload is Array) ==> match r {
            Err(e) => e.status == 400 && e.code@ == "invalid_request"@
                && e.message@ == "body must be a JSON-RPC object or array"@,
            Ok(_) => false,
        },
{
    if !payload.is_object() && !payload.is_array() {
        return Err(ApiError::invalid_request(String::from_str("body must be a JSON-RPC object or array")));
    }
    Ok(())
}

/// `GET /models/{id}`: the first listed model with id `id`.
pub fn find_model(models: &Vec<ModelEntry>, id: &str) -> (r: Result<usize, LlmError>)
    ensures
        match r {
            Ok(i) => i < models@.len() && models@[i as int].id@ == id@
                && forall|k: int| 0 <= k < i ==> (#[trigger] models@[k]).id@ != id@,
            Err(e) => (forall|k: int| 0 <= k < models@.len() ==> (#[trigger] models@[k]).id@ != id@)
                && (e matches LlmError::NotFound(m) && m@ == "model "@ + id@),
        },
{
    let mut i: usize = 0;
    while i < models.len()
        invariant
            i <= models@.len(),
            forall|k: int| 0 <= k < i ==> (#[trigger] models@[k]).id@ != id@,
        decreases models@.len() - i,
    {
        if str_eq(models[i].id.as_str(), id) {
            return Ok(i);
        }
        i += 1;
    }
    Err(LlmError::not_found(concat("model ", id)))
}

/// After polling a download: reload the engine when the job completed, no
/// model is loaded, and the active model is listed as installed.
pub fn reload_after_download(
    status: &DownloadStatus,
    loaded: bool,
    active: Option<&str>,
    models: &Vec<ModelEntry>,
) -> (r: bool)
    ensures
        r == (status is Complete && !loaded && match active {
            Some(a) => exists|k: int| 0 <= k < models@.len() && (#[trigger] models@[k]).id@ == a@
                && models@[k].installed,
            None => false,
        }),
{
    let complete = match status {
        DownloadStatus::Complete => true,
        _ => false,
    };
    if !complete || loaded {
        return false;
    }
    let a = match active {
        Some(a) => a,
        None => return false,
    };
    let mut i: usize = 0;
    while i < models.len()
        invariant
            i <= models@.len(),
            forall|k: int| 0 <= k < i ==> !((#[trigger] models@[k]).id@ == a@ && models@[k].installed),
            active == Some(a),
            *status is Complete,
            !loaded,
        decreases models@.len() - i,
    {
        if str_eq(models[i].id.as_str(), a) && models[i].installed {
            assert(models@[i as int].id@ == a@ && models@[i as int].installed);
            return true;
        }
        i += 1;
    }
    false
}

} // verus!
