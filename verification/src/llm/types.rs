//! `llm.json` documents, registry rows, status snapshots and download jobs.
//!
//! Temperatures are carried as the bit pattern of the `f32` they stand for
//! (`f32::to_bits`); the library compares and selects them but does no
//! floating-point arithmetic.

use vstd::prelude::*;
use crate::llm::error::LlmError;
use crate::text::{concat, str_eq};

verus! {

/// Opaque download job identifier: the 128 bits of a version-4 UUID.
#[derive(Debug, Clone, Copy, PartialEq, Eq, Hash, Structural)]
pub struct JobId(pub u128);

impl JobId {
    /// A fresh random version-4 UUID (`uuid::Uuid::new_v4`). Nothing about
    /// which value comes back is stated beyond its version and variant bits.
    #[verifier::external_body]
    pub fn new_v4() -> (j: JobId)
        ensures
            (j.0 >> 76u128) & 0xf == 4,
            (j.0 >> 62u128) & 0x3 == 2,
    {
        JobId(uuid::Uuid::new_v4().as_u128())
    }
}

/// Default context size.
pub fn default_n_ctx() -> (n: u32)
    ensures
        n == 4096,
{
    4096
}

/// Default completion budget in tokens.
pub fn default_max_tokens() -> (n: u32)
    ensures
        n == 1024,
{
    1024
}

/// Bits of the default temperature, `0.7_f32`.
pub const DEFAULT_TEMPERATURE_BITS: u32 = 0x3F33_3333;

/// `llm.json` → `llm` object.
#[derive(Debug, PartialEq, Eq)]
pub struct LlmSettings {
    pub model: Option<String>,
    pub n_ctx: u32,
    pub n_threads: u32,
    /// `f32::to_bits` of the sampling temperature.
    pub temperature_bits: u32,
    pub max_tokens: u32,
}

impl Default for LlmSettings {
    fn default() -> (s: Self)
        ensures
            s.model is None,
            s.n_ctx == 4096,
            s.n_threads == 0,
            s.temperature_bits == DEFAULT_TEMPERATURE_BITS,
            s.max_tokens == 1024,
    {
        LlmSettings {
            model: None,
            n_ctx: default_n_ctx(),
            n_threads: 0,
            temperature_bits: DEFAULT_TEMPERATURE_BITS,
            max_tokens: default_max_tokens(),
        }
    }
}

/// A copy of an optional string with the same text.
pub fn copy_opt(s: &Option<String>) -> (r: Option<String>)
    ensures
        r == *s,
{
    match s {
        Some(x) => Some(x.clone()),
        None => None,
    }
}

impl Clone for LlmSettings {
    fn clone(&self) -> (r: Self)
        ensures
            r == *self,
    {
        LlmSettings {
            model: copy_opt(&self.model),
            n_ctx: self.n_ctx,
            n_threads: self.n_threads,
            temperature_bits: self.temperature_bits,
            max_tokens: self.max_tokens,
        }
    }
}

/// `llm.json` → `catalog[]` entry.
#[derive(Debug, PartialEq, Eq)]
pub struct CatalogEntry {
    pub id: String,
    pub filename: Option<String>,
    pub url: Option<String>,
    pub sha256: String,
    pub path: Option<String>,
}

impl Clone for CatalogEntry {
    fn clone(&self) -> (r: Self)
        ensures
            r == *self,
    {
        CatalogEntry {
            id: self.id.clone(),
            filename: copy_opt(&self.filename),
            url: copy_opt(&self.url),
            sha256: self.sha256.clone(),
            path: copy_opt(&self.path),
        }
    }
}

/// Full on-disk `llm.json` document.
#[derive(Debug, PartialEq, Eq)]
pub struct LlmFile {
    pub llm: LlmSettings,
    pub catalog: Vec<CatalogEntry>,
}

impl Default for LlmFile {
    fn default() -> (f: Self)
        ensures
            f.llm.model is None,
            f.llm.n_ctx == 4096,
            f.llm.n_threads == 0,
            f.llm.temperature_bits == DEFAULT_TEMPERATURE_BITS,
            f.llm.max_tokens == 1024,
            f.catalog@.len() == 0,
    {
        LlmFile { llm: LlmSettings::default(), catalog: Vec::new() }
    }
}

impl Clone for LlmFile {
    fn clone(&self) -> (r: Self)
        ensures
            r.llm == self.llm,
            r.catalog@ == self.catalog@,
    {
        let mut catalog: Vec<CatalogEntry> = Vec::with_capacity(self.catalog.len());
        let mut i: usize = 0;
        while i < self.catalog.len()
            invariant
                i <= self.catalog@.len(),
                catalog@ == self.catalog@.take(i as int),
            decreases self.catalog@.len() - i,
        {
            catalog.push(self.catalog[i].clone());
            i += 1;
            assert(catalog@ =~= self.catalog@.take(i as int));
        }
        assert(self.catalog@.take(self.catalog@.len() as int) =~= self.catalog@);
        LlmFile { llm: self.llm.clone(), catalog }
    }
}

/// On-disk install record written once the weights are in place.
#[derive(Debug, PartialEq, Eq)]
pub struct ModelManifest {
    pub id: String,
    pub filename: String,
    pub sha256: String,
    pub url: Option<String>,
    pub installed_at: String,
}

impl Clone for ModelManifest {
    fn clone(&self) -> (r: Self)
        ensures
            r == *self,
    {
        ModelManifest {
            id: self.id.clone(),
            filename: self.filename.clone(),
            sha256: self.sha256.clone(),
            url: copy_opt(&self.url),
            installed_at: self.installed_at.clone(),
        }
    }
}

/// Catalog row plus install state.
#[derive(Debug, PartialEq, Eq)]
pub struct ModelEntry {
    pub id: String,
    pub filename: Option<String>,
    pub url: Option<String>,
    pub sha256: String,
    pub path: Option<String>,
    pub installed: bool,
    pub manifest: Option<ModelManifest>,
}

impl Clone for ModelEntry {
    fn clone(&self) -> (r: Self)
        ensures
            r == *self,
    {
        ModelEntry {
            id: self.id.clone(),
            filename: copy_opt(&self.filename),
            url: copy_opt(&self.url),
            sha256: self.sha256.clone(),
            path: copy_opt(&self.path),
            installed: self.installed,
            manifest: match &self.manifest {
                Some(m) => Some(m.clone()),
                None => None,
            },
        }
    }
}

/// Engine snapshot.
#[derive(Debug, PartialEq, Eq)]
pub struct LlmStatus {
    pub loaded: bool,
    pub model_id: Option<String>,
    pub busy: bool,
    pub error: Option<String>,
}

impl Default for LlmStatus {
    fn default() -> (s: Self)
        ensures
            !s.loaded && s.model_id is None && !s.busy && s.error is None,
    {
        LlmStatus { loaded: false, model_id: None, busy: false, error: None }
    }
}

impl Clone for LlmStatus {
    fn clone(&self) -> (r: Self)
        ensures
            r == *self,
    {
        LlmStatus {
            loaded: self.loaded,
            model_id: copy_opt(&self.model_id),
            busy: self.busy,
            error: copy_opt(&self.error),
        }
    }
}

/// Per-request completion overrides (temperature as `f32` bits).
#[derive(Debug, Clone, Copy, Default, PartialEq, Eq)]
pub struct CompleteOptions {
    pub temperature_bits: Option<u32>,
    pub max_tokens: Option<u32>,
}

/// Download job state.
#[derive(Debug, PartialEq, Eq)]
pub enum DownloadStatus {
    Queued,
    Running { bytes_received: u64 },
    Complete,
    Failed { message: String },
}

impl Clone for DownloadStatus {
    fn clone(&self) -> (r: Self)
        ensures
            r == *self,
    {
        match self {
            DownloadStatus::Queued => DownloadStatus::Queued,
            DownloadStatus::Running { bytes_received } => DownloadStatus::Running { bytes_received: *bytes_received },
            DownloadStatus::Complete => DownloadStatus::Complete,
            DownloadStatus::Failed { message } => DownloadStatus::Failed { message: message.clone() },
        }
    }
}

/// The text of an optional string.
pub open spec fn opt_text(s: Option<String>) -> Option<Seq<char>> {
    match s {
        Some(x) => Some(x@),
        None => None,
    }
}

/// Whether two optional strings hold the same text.
pub fn opt_str_eq(a: &Option<String>, b: &Option<String>) -> (r: bool)
    ensures
        r == (opt_text(*a) == opt_text(*b)),
{
    match (a, b) {
        (Some(x), Some(y)) => str_eq(x.as_str(), y.as_str()),
        (None, None) => true,
        _ => false,
    }
}

/// Whether changing settings `before` → `after` requires reloading the engine:
/// the active model, the context size or the thread count changed.
pub fn settings_need_reload(before: &LlmSettings, after: &LlmSettings) -> (r: bool)
    ensures
        r == (opt_text(before.model) != opt_text(after.model) || before.n_ctx != after.n_ctx
            || before.n_threads != after.n_threads),
{
    !opt_str_eq(&before.model, &after.model) || before.n_ctx != after.n_ctx
        || before.n_threads != after.n_threads
}

/// Whether an optional string is absent or empty.
pub open spec fn none_or_empty(s: Option<String>) -> bool {
    match s {
        Some(x) => x@.len() == 0,
        None => true,
    }
}

/// Whether `r` is `Err(Config(m))` with `m@ == msg`.
pub open spec fn is_config_error<T>(r: Result<T, LlmError>, msg: Seq<char>) -> bool {
    match r {
        Err(LlmError::Config(m)) => m@ == msg,
        _ => false,
    }
}

/// The refusal of a catalog entry without enough fields for its mode, if
/// any: the message of its `Config` error.
pub open spec fn catalog_refusal(e: CatalogEntry) -> Option<Seq<char>> {
    if e.id@.len() == 0 {
        Some("catalog entry id must not be empty"@)
    } else if e.sha256@.len() == 0 {
        Some("catalog entry sha256 is required"@)
    } else {
        match e.path {
            Some(p) => if p@.len() == 0 { Some("catalog entry path must not be empty"@) } else { None },
            None => if none_or_empty(e.filename) {
                Some("catalog entry "@ + e.id@ + " requires filename or path"@)
            } else if none_or_empty(e.url) {
                Some("catalog entry "@ + e.id@ + " requires url or path"@)
            } else {
                None
            },
        }
    }
}

/// Checks a catalog entry has enough fields for its mode: an `id` and a
/// `sha256`, and either a non-empty `path` or both `filename` and `url`.
pub fn validate_catalog_entry(entry: &CatalogEntry) -> (r: Result<(), LlmError>)
    ensures
        match catalog_refusal(*entry) {
            None => r is Ok,
            Some(m) => is_config_error(r, m),
        },
        r is Ok <==> catalog_entry_ok(*entry),
        entry.id@.len() == 0 ==> is_config_error(r, "catalog entry id must not be empty"@),
        entry.id@.len() > 0 && entry.sha256@.len() == 0 ==>
            is_config_error(r, "catalog entry sha256 is required"@),
        entry.id@.len() > 0 && entry.sha256@.len() > 0 && entry.path is Some ==> {
            if entry.path->0@.len() == 0 {
                is_config_error(r, "catalog entry path must not be empty"@)
            } else {
                r is Ok
            }
        },
        entry.id@.len() > 0 && entry.sha256@.len() > 0 && entry.path is None ==> {
            if none_or_empty(entry.filename) {
                is_config_error(r, "catalog entry "@ + entry.id@ + " requires filename or path"@)
            } else if none_or_empty(entry.url) {
                is_config_error(r, "catalog entry "@ + entry.id@ + " requires url or path"@)
            } else {
                r is Ok
            }
        },
{
    if entry.id.as_str().is_empty() {
        return Err(LlmError::config(String::from_str("catalog entry id must not be empty")));
    }
    if entry.sha256.as_str().is_empty() {
        return Err(LlmError::config(String::from_str("catalog entry sha256 is required")));
    }
    match &entry.path {
        Some(path) => {
            if path.as_str().is_empty() {
                return Err(LlmError::config(String::from_str("catalog entry path must not be empty")));
            }
            return Ok(());
        },
        None => {},
    }
    let filename_missing = match &entry.filename {
        Some(f) => f.as_str().is_empty(),
        None => true,
    };
    if filename_missing {
        let head = concat("catalog entry ", entry.id.as_str());
        return Err(LlmError::config(concat(head.as_str(), " requires filename or path")));
    }
    let url_missing = match &entry.url {
        Some(u) => u.as_str().is_empty(),
        None => true,
    };
    if url_missing {
        let head = concat("catalog entry ", entry.id.as_str());
        return Err(LlmError::config(concat(head.as_str(), " requires url or path")));
    }
    Ok(())
}

/// Checks every catalog entry of a document, stopping at the first refusal.
pub fn validate_catalog(file: &LlmFile) -> (r: Result<(), LlmError>)
    ensures
        r is Ok <==> forall|i: int| 0 <= i < file.catalog@.len()
            ==> (#[trigger] catalog_entry_ok(file.catalog@[i])),
        r is Err ==> exists|i: int| {
            &&& 0 <= i < file.catalog@.len()
            &&& forall|k: int| 0 <= k < i ==> (#[trigger] catalog_entry_ok(file.catalog@[k]))
            &&& #[trigger] catalog_refusal(file.catalog@[i]) is Some
            &&& is_config_error(r, catalog_refusal(file.catalog@[i])->0)
        },
{
    let mut i: usize = 0;
    while i < file.catalog.len()
        invariant
            i <= file.catalog@.len(),
            forall|k: int| 0 <= k < i ==> (#[trigger] catalog_entry_ok(file.catalog@[k])),
        decreases file.catalog@.len() - i,
    {
        let r = validate_catalog_entry(&file.catalog[i]);
        if r.is_err() {
            proof {
                assert(catalog_refusal(file.catalog@[i as int]) is Some);
            }
            return r;
        }
        i += 1;
    }
    Ok(())
}

/// Whether `validate_catalog_entry` accepts `e`.
pub open spec fn catalog_entry_ok(e: CatalogEntry) -> bool {
    &&& e.id@.len() > 0
    &&& e.sha256@.len() > 0
    &&& match e.path {
        Some(p) => p@.len() > 0,
        None => !none_or_empty(e.filename) && !none_or_empty(e.url),
    }
}

} // verus!
