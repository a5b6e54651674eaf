//! Service decisions: which model to load, the status after a load
//! attempt, activating a model, and per-request sampling settings.
//!
//! The service object itself (locks, engine, threads) lives outside the
//! library and follows these decisions.

use vstd::prelude::*;
use crate::llm::error::LlmError;
use crate::llm::registry::{catalog_entry, first_with_id};
use crate::llm::types::{CatalogEntry, CompleteOptions, LlmFile, LlmSettings, LlmStatus, opt_text};
use crate::text::concat;

verus! {

/// What to do about the configured active model.
#[derive(Debug, Clone, PartialEq, Eq)]
pub enum ActivePlan {
    /// No active model (absent or empty): nothing is loaded.
    NoModel,
    /// The active model is not in the catalog: nothing is loaded, and the
    /// status carries this message.
    NotInCatalog { model_id: String, message: String },
    /// Resolve and load this catalog entry.
    Load { model_id: String, entry: CatalogEntry },
}

/// The plan for `file`'s active model.
pub fn active_model_plan(file: &LlmFile) -> (p: ActivePlan)
    ensures
        match file.llm.model {
            None => p == ActivePlan::NoModel,
            Some(m) => if m@.len() == 0 {
                p == ActivePlan::NoModel
            } else {
                match p {
                    ActivePlan::NotInCatalog { model_id, message } => {
                        &&& forall|k: int| 0 <= k < file.catalog@.len() ==> (#[trigger] file.catalog@[k]).id@ != m@
                        &&& model_id@ == m@
                        &&& message@ == "active model "@ + m@ + " not in catalog"@
                    },
                    ActivePlan::Load { model_id, entry } => {
                        &&& model_id@ == m@
                        &&& exists|i: int| first_with_id(file.catalog@, m@, i) && file.catalog@[i] == entry
                    },
                    ActivePlan::NoModel => false,
                }
            },
        },
{
    let model_id = match &file.llm.model {
        Some(m) => m,
        None => return ActivePlan::NoModel,
    };
    if model_id.as_str().is_empty() {
        return ActivePlan::NoModel;
    }
    match catalog_entry(file, model_id.as_str()) {
        Ok(i) => ActivePlan::Load { model_id: model_id.clone(), entry: file.catalog[i].clone() },
        Err(_) => {
            let a = concat("active model ", model_id.as_str());
            ActivePlan::NotInCatalog { model_id: model_id.clone(), message: concat(a.as_str(), " not in catalog") }
        },
    }
}

/// The status after trying to load model `model_id`: loaded on success;
/// otherwise not loaded, with the failure's display text.
pub fn status_after_load(model_id: String, outcome: Result<(), LlmError>, busy: bool) -> (s: LlmStatus)
    ensures
        s.busy == busy,
        s.model_id == Some(model_id),
        match outcome {
            Ok(()) => s.loaded && s.error is None,
            Err(e) => !s.loaded && opt_text(s.error) == Some(e.display()),
        },
{
    match outcome {
        Ok(()) => LlmStatus { loaded: true, model_id: Some(model_id), busy, error: None },
        Err(e) => LlmStatus { loaded: false, model_id: Some(model_id), busy, error: Some(e.message()) },
    }
}

/// The document with model `id` made active; `id` must be in the catalog.
pub fn with_active_model(file: LlmFile, id: &str) -> (r: Result<LlmFile, LlmError>)
    ensures
        (exists|i: int| 0 <= i < file.catalog@.len() && (#[trigger] file.catalog@[i]).id@ == id@) ==> match r {
            Ok(f) => {
                &&& opt_text(f.llm.model) == Some(id@)
                &&& f.llm.n_ctx == file.llm.n_ctx
                &&& f.llm.n_threads == file.llm.n_threads
                &&& f.llm.temperature_bits == file.llm.temperature_bits
                &&& f.llm.max_tokens == file.llm.max_tokens
                &&& f.catalog == file.catalog
            },
            Err(_) => false,
        },
        !(exists|i: int| 0 <= i < file.catalog@.len() && (#[trigger] file.catalog@[i]).id@ == id@) ==> match r {
            Err(LlmError::NotFound(m)) => m@ == "catalog id "@ + id@,
            _ => false,
        },
{
    match catalog_entry(&file, id) {
        Ok(_) => {
            let LlmFile { llm, catalog } = file;
            let llm = LlmSettings { model: Some(id.to_owned()), ..llm };
            Ok(LlmFile { llm, catalog })
        },
        Err(e) => {
            proof {
                assert forall|i: int| 0 <= i < file.catalog@.len() implies (#[trigger] file.catalog@[i]).id@ != id@ by {}
            }
            Err(e)
        },
    }
}

/// Sampling settings for one completion: request overrides, else configured values.
pub fn sampling(settings: &LlmSettings, opts: &CompleteOptions) -> (r: (u32, u32))
    ensures
        r.0 == match opts.temperature_bits { Some(t) => t, None => settings.temperature_bits },
        r.1 == match opts.max_tokens { Some(n) => n, None => settings.max_tokens },
{
    let t = match opts.temperature_bits {
        Some(t) => t,
        None => settings.temperature_bits,
    };
    let n = match opts.max_tokens {
        Some(n) => n,
        None => settings.max_tokens,
    };
    (t, n)
}

/// Context size and thread count handed to the engine: at least 512
/// tokens of context; a thread count of 0 means the engine default, and a
/// count beyond `i32::MAX` is capped.
pub fn context_params(n_ctx: u32, n_threads: u32) -> (r: (u32, Option<i32>))
    ensures
        r.0 == if n_ctx < 512 { 512 } else { n_ctx },
        n_threads == 0 ==> r.1 is None,
        n_threads > 0 ==> r.1 == Some(if n_threads > i32::MAX { i32::MAX } else { n_threads as i32 }),
{
    let ctx = if n_ctx < 512 { 512 } else { n_ctx };
    if n_threads == 0 {
        (ctx, None)
    } else if n_threads > 2147483647u32 {
        (ctx, Some(2147483647i32))
    } else {
        (ctx, Some(n_threads as i32))
    }
}

/// Largest number of tokens generated for a completion: the budget, at
/// least one, converted with `as i32` (a budget beyond `i32::MAX` wraps).
pub fn generation_budget(max_tokens: u32) -> (r: i32)
    ensures
        r == (if max_tokens < 1 { 1u32 } else { max_tokens }) as i32,
{
    let m = if max_tokens < 1 { 1u32 } else { max_tokens };
    m as i32
}

} // verus!
