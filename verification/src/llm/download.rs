//! Download bookkeeping: URL policy, one active download per model, job
//! states and the received-bytes cap.
//!
//! Fetching bytes, writing files and running jobs on threads happen outside
//! the library; the registry here decides what may start and records states.

use vstd::prelude::*;
use crate::llm::error::LlmError;
use crate::llm::registry::hex_char;
use crate::llm::types::{CatalogEntry, DownloadStatus, JobId, opt_text};
use crate::text::{concat, str_eq};

verus! {

/// Largest download accepted, in bytes (32 GiB).
pub const MAX_DOWNLOAD_BYTES: u64 = 34_359_738_368;

/// What `reqwest::Url::parse` gives for `url`: the scheme and host text,
/// or the text of the parse error.
pub uninterp spec fn url_parse(url: Seq<char>) -> Result<(Seq<char>, Option<Seq<char>>), Seq<char>>;

/// `reqwest::Url::parse`, keeping the scheme and `host_str`.
#[verifier::external_body]
fn parse_url(url: &str) -> (r: Result<(String, Option<String>), String>)
    ensures
        match r {
            Ok((scheme, host)) => url_parse(url@) == Ok::<(Seq<char>, Option<Seq<char>>), Seq<char>>((scheme@, opt_text(host))),
            Err(m) => url_parse(url@) == Err::<(Seq<char>, Option<Seq<char>>), Seq<char>>(m@),
        },
{
    match reqwest::Url::parse(url) {
        Ok(u) => Ok((u.scheme().to_string(), u.host_str().map(|h| h.to_string()))),
        Err(e) => Err(e.to_string()),
    }
}

/// The parts of a download URL the policy reads.
#[derive(Debug, Clone, PartialEq, Eq)]
pub struct UrlParts {
    pub scheme: String,
    pub host: Option<String>,
}

/// Whether `host` is a loopback name: `127.0.0.1`, `localhost` or `[::1]`.
pub open spec fn is_loopback(host: Option<Seq<char>>) -> bool {
    host == Some("127.0.0.1"@) || host == Some("localhost"@) || host == Some("[::1]"@)
}

/// Whether a parsed URL may be downloaded: `https`, or loopback `http`
/// when that is allowed (debug builds, for local test servers).
pub open spec fn url_allowed(scheme: Seq<char>, host: Option<Seq<char>>, allow_loopback_http: bool) -> bool {
    scheme == "https"@ || (allow_loopback_http && scheme == "http"@ && is_loopback(host))
}

/// Checks a download URL against the policy.
pub fn validate_download_url(url: &str, allow_loopback_http: bool) -> (r: Result<UrlParts, LlmError>)
    ensures
        match url_parse(url@) {
            Err(m) => match r {
                Err(LlmError::Download(msg)) => msg@ == "invalid url: "@ + m,
                _ => false,
            },
            Ok((scheme, host)) => if url_allowed(scheme, host, allow_loopback_http) {
                match r {
                    Ok(p) => p.scheme@ == scheme && opt_text(p.host) == host,
                    Err(_) => false,
                }
            } else {
                match r {
                    Err(LlmError::Download(msg)) => msg@ == "only https downloads are allowed"@,
                    _ => false,
                }
            },
        },
{
    let (scheme, host) = match parse_url(url) {
        Ok(p) => p,
        Err(e) => return Err(LlmError::download(concat("invalid url: ", e.as_str()))),
    };
    if !str_eq(scheme.as_str(), "https") {
        let loopback = match &host {
            Some(h) => str_eq(h.as_str(), "127.0.0.1") || str_eq(h.as_str(), "localhost")
                || str_eq(h.as_str(), "[::1]"),
            None => false,
        };
        if allow_loopback_http && str_eq(scheme.as_str(), "http") && loopback {
            return Ok(UrlParts { scheme, host });
        }
        return Err(LlmError::download(String::from_str("only https downloads are allowed")));
    }
    Ok(UrlParts { scheme, host })
}

/// Adds a chunk of `n` bytes to the running total (saturating); a total
/// over `MAX_DOWNLOAD_BYTES` aborts the download.
pub fn add_received(total: u64, n: u64) -> (r: Result<u64, LlmError>)
    ensures
        ({
            let t = if total + n > u64::MAX { u64::MAX as int } else { total + n };
            if t > MAX_DOWNLOAD_BYTES {
                match r {
                    Err(LlmError::Download(m)) => m@ == "download exceeds max size (34359738368 bytes)"@,
                    _ => false,
                }
            } else {
                r == Ok::<u64, LlmError>(t as u64)
            }
        }),
{
    let t = total.saturating_add(n);
    if t > MAX_DOWNLOAD_BYTES {
        return Err(LlmError::download(String::from_str("download exceeds max size (34359738368 bytes)")));
    }
    Ok(t)
}

/// Character `i` of the hyphenated lower-case text of the UUID `v`.
pub open spec fn uuid_char(v: u128, i: int) -> char {
    if i == 8 || i == 13 || i == 18 || i == 23 {
        '-'
    } else {
        let k = if i < 8 { i } else if i < 13 { i - 1 } else if i < 18 { i - 2 } else if i < 23 { i - 3 } else { i - 4 };
        hex_char(((v >> ((4 * (31 - k)) as u128)) & 15u128) as nat)
    }
}

/// The hyphenated lower-case text of the UUID `v` (`8-4-4-4-12` digits).
pub open spec fn uuid_text(v: u128) -> Seq<char> {
    Seq::new(36, |i: int| uuid_char(v, i))
}

/// What `uuid::Uuid::parse_str` gives for `text`: the UUID's 128 bits, or
/// nothing when it refuses the text.
pub uninterp spec fn uuid_parse(text: Seq<char>) -> Option<u128>;

/// `uuid::Uuid::from_u128(v).to_string()`: the hyphenated lower-case form,
/// which `Uuid::parse_str` reads back as `v`.
#[verifier::external_body]
fn uuid_to_string(v: u128) -> (s: String)
    ensures
        s@ == uuid_text(v),
        uuid_parse(s@) == Some(v),
{
    uuid::Uuid::from_u128(v).to_string()
}

/// `uuid::Uuid::parse_str`: the UUID's bits, or the text of its error.
#[verifier::external_body]
fn parse_uuid(text: &str) -> (r: Result<u128, String>)
    ensures
        match r {
            Ok(v) => uuid_parse(text@) == Some(v),
            Err(_) => uuid_parse(text@) is None,
        },
{
    match uuid::Uuid::parse_str(text) {
        Ok(u) => Ok(u.as_u128()),
        Err(e) => Err(e.to_string()),
    }
}

impl JobId {
    /// The job id's display text (hyphenated UUID); parsing it gives the id back.
    pub fn to_text(&self) -> (s: String)
        ensures
            s@ == uuid_text(self.0),
            uuid_parse(s@) == Some(self.0),
    {
        uuid_to_string(self.0)
    }

    /// The job id written as `text` (any form `Uuid::parse_str` reads), or
    /// the parser's error text.
    pub fn parse(text: &str) -> (r: Result<JobId, String>)
        ensures
            match uuid_parse(text@) {
                Some(v) => r == Ok::<JobId, String>(JobId(v)),
                None => r is Err,
            },
    {
        match parse_uuid(text) {
            Ok(v) => Ok(JobId(v)),
            Err(e) => Err(e),
        }
    }
}

/// A download to run once it was registered.
#[derive(Debug, Clone, PartialEq, Eq)]
pub struct DownloadPlan {
    pub job_id: JobId,
    pub url: String,
    pub filename: String,
}

/// Whether a job state means the download is still going.
pub open spec fn is_active(s: DownloadStatus) -> bool {
    s is Queued || s is Running
}

/// The state of job `id` in `jobs` (the first record for it).
pub open spec fn job_in(jobs: Seq<(JobId, DownloadStatus)>, id: JobId) -> Option<DownloadStatus>
    decreases jobs.len(),
{
    if jobs.len() == 0 {
        None
    } else if jobs[0].0 == id {
        Some(jobs[0].1)
    } else {
        job_in(jobs.drop_first(), id)
    }
}

/// The job recorded as active for model `model` (the first record for it).
pub open spec fn active_in(active: Seq<(String, JobId)>, model: Seq<char>) -> Option<JobId>
    decreases active.len(),
{
    if active.len() == 0 {
        None
    } else if active[0].0@ == model {
        Some(active[0].1)
    } else {
        active_in(active.drop_first(), model)
    }
}

/// Job states and the active job per catalog model.
pub struct DownloadJobs {
    jobs: Vec<(JobId, DownloadStatus)>,
    active: Vec<(String, JobId)>,
}

impl DownloadJobs {
    #[verifier::type_invariant]
    spec fn unique(&self) -> bool {
        jobs_unique(self.jobs@) && active_unique(self.active@)
    }

    /// The state of job `id`.
    pub closed spec fn job(&self, id: JobId) -> Option<DownloadStatus> {
        job_in(self.jobs@, id)
    }

    /// The job recorded as active for model `model`.
    pub closed spec fn active_job(&self, model: Seq<char>) -> Option<JobId> {
        active_in(self.active@, model)
    }

    /// Whether a download of `model` is in progress: its recorded job is
    /// queued or running.
    pub open spec fn in_progress(&self, model: Seq<char>) -> bool {
        match self.active_job(model) {
            Some(j) => match self.job(j) {
                Some(s) => is_active(s),
                None => false,
            },
            None => false,
        }
    }

    /// No jobs.
    pub fn new() -> (d: Self)
        ensures
            forall|id: JobId| d.job(id) is None,
            forall|m: Seq<char>| d.active_job(m) is None,
    {
        DownloadJobs { jobs: Vec::new(), active: Vec::new() }
    }

    fn find_job(&self, id: JobId) -> (r: Option<usize>)
        ensures
            match r {
                Some(i) => i < self.jobs@.len() && self.jobs@[i as int].0 == id
                    && self.job(id) == Some(self.jobs@[i as int].1)
                    && forall|k: int| 0 <= k < i ==> (#[trigger] self.jobs@[k]).0 != id,
                None => self.job(id) is None,
            },
    {
        let mut i: usize = 0;
        assert(self.jobs@.skip(0) =~= self.jobs@);
        while i < self.jobs.len()
            invariant
                i <= self.jobs@.len(),
                job_in(self.jobs@, id) == job_in(self.jobs@.skip(i as int), id),
                forall|k: int| 0 <= k < i ==> (#[trigger] self.jobs@[k]).0 != id,
            decreases self.jobs@.len() - i,
        {
            let ghost rest = self.jobs@.skip(i as int);
            assert(rest.drop_first() =~= self.jobs@.skip(i + 1));
            assert(rest[0] == self.jobs@[i as int]);
            if self.jobs[i].0 == id {
                return Some(i);
            }
            i += 1;
        }
        assert(self.jobs@.skip(i as int).len() == 0);
        None
    }

    fn find_active(&self, model: &str) -> (r: Option<usize>)
        ensures
            match r {
                Some(i) => i < self.active@.len() && self.active@[i as int].0@ == model@
                    && self.active_job(model@) == Some(self.active@[i as int].1)
                    && forall|k: int| 0 <= k < i ==> (#[trigger] self.active@[k]).0@ != model@,
                None => self.active_job(model@) is None,
            },
    {
        let mut i: usize = 0;
        assert(self.active@.skip(0) =~= self.active@);
        while i < self.active.len()
            invariant
                i <= self.active@.len(),
                active_in(self.active@, model@) == active_in(self.active@.skip(i as int), model@),
                forall|k: int| 0 <= k < i ==> (#[trigger] self.active@[k]).0@ != model@,
            decreases self.active@.len() - i,
        {
            let ghost rest = self.active@.skip(i as int);
            assert(rest.drop_first() =~= self.active@.skip(i + 1));
            assert(rest[0] == self.active@[i as int]);
            if str_eq(self.active[i].0.as_str(), model) {
                return Some(i);
            }
            i += 1;
        }
        assert(self.active@.skip(i as int).len() == 0);
        None
    }

    /// The state of job `job_id`; an unknown job is "not found".
    pub fn status(&self, job_id: &JobId) -> (r: Result<DownloadStatus, LlmError>)
        ensures
            match self.job(*job_id) {
                Some(s) => r == Ok::<DownloadStatus, LlmError>(s),
                None => match r {
                    Err(LlmError::NotFound(m)) => m@ == "download job "@ + uuid_text(job_id.0),
                    _ => false,
                },
            },
    {
        match self.find_job(*job_id) {
            Some(i) => Ok(self.jobs[i].1.clone()),
            None => Err(LlmError::not_found(concat("download job ", job_id.to_text().as_str()))),
        }
    }

    /// Records a new state for job `job_id`; unknown jobs are ignored.
    pub fn update(&mut self, job_id: JobId, status: DownloadStatus)
        ensures
            old(self).job(job_id) is Some ==> final(self).job(job_id) == Some(status),
            old(self).job(job_id) is None ==> final(self).job(job_id) is None,
            forall|other: JobId| other != job_id ==> final(self).job(other) == old(self).job(other),
            forall|m: Seq<char>| final(self).active_job(m) == old(self).active_job(m),
    {
        proof {
            use_type_invariant(&*self);
        }
        match self.find_job(job_id) {
            Some(i) => {
                let mut jobs: Vec<(JobId, DownloadStatus)> = Vec::new();
                std::mem::swap(&mut jobs, &mut self.jobs);
                let ghost before = jobs@;
                jobs.set(i, (job_id, status));
                proof {
                    lemma_job_in_update(before, i as int, job_id, status);
                }
                self.jobs = jobs;
            },
            None => {},
        }
    }

    /// Forgets model `model`'s active job when it is `job_id` (a finished run).
    pub fn finish(&mut self, model: &str, job_id: JobId)
        ensures
            old(self).active_job(model@) == Some(job_id) ==> final(self).active_job(model@) is None,
            old(self).active_job(model@) != Some(job_id) ==> final(self).active_job(model@) == old(self).active_job(model@),
            forall|m: Seq<char>| m != model@ ==> final(self).active_job(m) == old(self).active_job(m),
            forall|id: JobId| final(self).job(id) == old(self).job(id),
    {
        proof {
            use_type_invariant(&*self);
        }
        match self.find_active(model) {
            Some(i) => {
                if self.active[i].1 == job_id {
                    let mut active: Vec<(String, JobId)> = Vec::new();
                    std::mem::swap(&mut active, &mut self.active);
                    let ghost before = active@;
                    active.remove(i);
                    proof {
                        lemma_active_in_remove(before, i as int, model@);
                    }
                    self.active = active;
                }
            },
            None => {},
        }
    }

    /// Registers a download of `entry` as job `job_id`. Entries with a
    /// catalog `path`, without `url` or `filename`, with a refused URL, or
    /// with a download already in progress are refused; otherwise the job
    /// is queued and becomes the model's active job, and every other job and
    /// every other model's active job stay as they were.
    pub fn start_with_id(&mut self, entry: &CatalogEntry, job_id: JobId, allow_loopback_http: bool)
        -> (r: Result<DownloadPlan, LlmError>)
        ensures
            entry.path is Some ==> match r {
                Err(LlmError::InvalidRequest(m)) => m@ == "model "@ + entry.id@ + " uses catalog path; download not required"@,
                _ => false,
            },
            entry.path is None && entry.url is None ==> match r {
                Err(LlmError::InvalidRequest(m)) => m@ == "model "@ + entry.id@ + " has no download url"@,
                _ => false,
            },
            entry.path is None && entry.url is Some && entry.filename is None ==> match r {
                Err(LlmError::InvalidRequest(m)) => m@ == "model "@ + entry.id@ + " has no filename"@,
                _ => false,
            },
            entry.path is None && entry.url is Some && entry.filename is Some ==> {
                let url = entry.url->0@;
                match url_parse(url) {
                    Err(m) => match r {
                        Err(LlmError::Download(msg)) => msg@ == "invalid url: "@ + m,
                        _ => false,
                    },
                    Ok((scheme, host)) => if !url_allowed(scheme, host, allow_loopback_http) {
                        match r {
                            Err(LlmError::Download(msg)) => msg@ == "only https downloads are allowed"@,
                            _ => false,
                        }
                    } else if old(self).in_progress(entry.id@) {
                        match r {
                            Err(LlmError::InvalidRequest(m)) => m@ == "download already in progress for "@ + entry.id@,
                            _ => false,
                        }
                    } else {
                        match r {
                            Ok(plan) => {
                                &&& plan.job_id == job_id
                                &&& plan.url@ == url
                                &&& plan.filename@ == entry.filename->0@
                                &&& final(self).job(job_id) == Some(DownloadStatus::Queued)
                                &&& final(self).active_job(entry.id@) == Some(job_id)
                                &&& final(self).in_progress(entry.id@)
                            },
                            Err(_) => false,
                        }
                    },
                }
            },
            r is Ok ==> forall|other: JobId| other != job_id ==> final(self).job(other) == old(self).job(other),
            r is Ok ==> forall|m: Seq<char>| m != entry.id@ ==> final(self).active_job(m) == old(self).active_job(m),
            r is Err ==> *final(self) == *old(self),
    {
        proof {
            use_type_invariant(&*self);
        }
        if entry.path.is_some() {
            let a = concat("model ", entry.id.as_str());
            return Err(LlmError::invalid(concat(a.as_str(), " uses catalog path; download not required")));
        }
        let url = match &entry.url {
            Some(u) => u,
            None => {
                let a = concat("model ", entry.id.as_str());
                return Err(LlmError::invalid(concat(a.as_str(), " has no download url")));
            },
        };
        let filename = match &entry.filename {
            Some(f) => f,
            None => {
                let a = concat("model ", entry.id.as_str());
                return Err(LlmError::invalid(concat(a.as_str(), " has no filename")));
            },
        };
        validate_download_url(url.as_str(), allow_loopback_http)?;
        let found = self.find_active(entry.id.as_str());
        match found {
            Some(i) => {
                let existing = self.active[i].1;
                match self.find_job(existing) {
                    Some(k) => {
                        let busy = match &self.jobs[k].1 {
                            DownloadStatus::Queued => true,
                            DownloadStatus::Running { .. } => true,
                            _ => false,
                        };
                        if busy {
                            return Err(LlmError::invalid(concat(
                                "download already in progress for ",
                                entry.id.as_str(),
                            )));
                        }
                    },
                    None => {},
                }
            },
            None => {},
        }
        let mut active: Vec<(String, JobId)> = Vec::new();
        std::mem::swap(&mut active, &mut self.active);
        let ghost before_active = active@;
        let key = entry.id.clone();
        let ghost kg = key;
        match found {
            Some(i) => {
                active.set(i, (key, job_id));
                proof {
                    lemma_active_in_set_one(before_active, i as int, entry.id@, job_id, kg);
                }
            },
            None => {
                proof {
                    assert forall|k: int| 0 <= k < before_active.len() implies (#[trigger] before_active[k]).0@ != entry.id@ by {
                        if before_active[k].0@ == entry.id@ {
                            lemma_active_in_at(before_active, k);
                        }
                    }
                }
                active.push((key, job_id));
                proof {
                    lemma_active_in_push_one(before_active, entry.id@, job_id, kg);
                }
            },
        }
        self.active = active;
        let found_job = self.find_job(job_id);
        let mut jobs: Vec<(JobId, DownloadStatus)> = Vec::new();
        std::mem::swap(&mut jobs, &mut self.jobs);
        let ghost before_jobs = jobs@;
        match found_job {
            Some(k) => {
                jobs.set(k, (job_id, DownloadStatus::Queued));
                proof {
                    lemma_job_in_update(before_jobs, k as int, job_id, DownloadStatus::Queued);
                }
            },
            None => {
                proof {
                    assert forall|k: int| 0 <= k < before_jobs.len() implies (#[trigger] before_jobs[k]).0 != job_id by {
                        if before_jobs[k].0 == job_id {
                            lemma_job_in_at(before_jobs, k);
                        }
                    }
                }
                jobs.push((job_id, DownloadStatus::Queued));
                proof {
                    lemma_job_in_push(before_jobs, job_id, DownloadStatus::Queued);
                }
            },
        }
        self.jobs = jobs;
        Ok(DownloadPlan { job_id, url: url.clone(), filename: filename.clone() })
    }

    /// Registers a download of `entry` under a fresh random job id. It is
    /// refused exactly as `start_with_id` refuses it; otherwise the new job is
    /// queued and becomes the model's active job.
    pub fn start(&mut self, entry: &CatalogEntry, allow_loopback_http: bool) -> (r: Result<DownloadPlan, LlmError>)
        ensures
            entry.path is Some ==> match r {
                Err(LlmError::InvalidRequest(m)) => m@ == "model "@ + entry.id@ + " uses catalog path; download not required"@,
                _ => false,
            },
            entry.path is None && entry.url is None ==> match r {
                Err(LlmError::InvalidRequest(m)) => m@ == "model "@ + entry.id@ + " has no download url"@,
                _ => false,
            },
            entry.path is None && entry.url is Some && entry.filename is None ==> match r {
                Err(LlmError::InvalidRequest(m)) => m@ == "model "@ + entry.id@ + " has no filename"@,
                _ => false,
            },
            entry.path is None && entry.url is Some && entry.filename is Some ==> {
                let url = entry.url->0@;
                match url_parse(url) {
                    Err(m) => match r {
                        Err(LlmError::Download(msg)) => msg@ == "invalid url: "@ + m,
                        _ => false,
                    },
                    Ok((scheme, host)) => if !url_allowed(scheme, host, allow_loopback_http) {
                        match r {
                            Err(LlmError::Download(msg)) => msg@ == "only https downloads are allowed"@,
                            _ => false,
                        }
                    } else if old(self).in_progress(entry.id@) {
                        match r {
                            Err(LlmError::InvalidRequest(m)) => m@ == "download already in progress for "@ + entry.id@,
                            _ => false,
                        }
                    } else {
                        match r {
                            Ok(plan) => {
                                &&& plan.url@ == url
                                &&& plan.filename@ == entry.filename->0@
                                &&& final(self).job(plan.job_id) == Some(DownloadStatus::Queued)
                                &&& final(self).active_job(entry.id@) == Some(plan.job_id)
                                &&& final(self).in_progress(entry.id@)
                            },
                            Err(_) => false,
                        }
                    },
                }
            },
            match r {
                Ok(plan) => {
                    &&& forall|other: JobId| other != plan.job_id ==> final(self).job(other) == old(self).job(other)
                    &&& forall|m: Seq<char>| m != entry.id@ ==> final(self).active_job(m) == old(self).active_job(m)
                    &&& old(self).job(plan.job_id) is None
                },
                Err(_) => true,
            },
            r is Err ==> *final(self) == *old(self),
    {
        let mut job_id = JobId::new_v4();
        if self.find_job(job_id).is_some() {
            job_id = self.fresh_job_id();
        }
        self.start_with_id(entry, job_id, allow_loopback_http)
    }

    /// A version-4 style job id that no recorded job has: the first of
    /// `jobs.len() + 1` consecutive candidates that is free (one always is).
    fn fresh_job_id(&self) -> (j: JobId)
        ensures
            self.job(j) is None,
    {
        let n = self.jobs.len();
        let base: u128 = 0x0000_0000_0000_4000_8000_0000_0000_0000;
        let mut k: u128 = 0;
        while k <= n as u128
            invariant
                n == self.jobs@.len(),
                base == 0x0000_0000_0000_4000_8000_0000_0000_0000u128,
                k <= n + 1,
                forall|t: int| 0 <= t < k ==> !#[trigger] id_free(self.jobs@, candidate(base as int, t)),
            decreases n + 1 - k,
        {
            let c = JobId(base + k);
            match self.find_job(c) {
                None => {
                    return c;
                },
                Some(i) => {
                    assert(self.jobs@[i as int].0 == candidate(base as int, k as int));
                    assert(!id_free(self.jobs@, candidate(base as int, k as int)));
                },
            }
            k += 1;
        }
        proof {
            lemma_free_id(self.jobs@, base as int, n as int);
            let t = choose|t: int| 0 <= t < n + 1 && #[trigger] id_free(self.jobs@, candidate(base as int, t));
            assert(!id_free(self.jobs@, candidate(base as int, t)));
        }
        JobId(base)
    }
}

/// Two downloads started one after the other get two job records: with
/// `first` recorded after the first start, the second start's job was not
/// recorded before it (as `start` ensures) and keeps every other job, so
/// the two ids differ and both jobs stay queued.
pub proof fn law_starts_get_distinct_jobs(mid: DownloadJobs, after: DownloadJobs, first: JobId, second: JobId)
    requires
        mid.job(first) == Some(DownloadStatus::Queued),
        mid.job(second) is None,
        after.job(second) == Some(DownloadStatus::Queued),
        forall|other: JobId| other != second ==> after.job(other) == mid.job(other),
    ensures
        first != second,
        after.job(first) == Some(DownloadStatus::Queued),
{
}

/// The `t`-th candidate id counted from `base`.
spec fn candidate(base: int, t: int) -> JobId {
    JobId((base + t) as u128)
}

/// Whether no record of `jobs` has id `j`.
spec fn id_free(jobs: Seq<(JobId, DownloadStatus)>, j: JobId) -> bool {
    forall|i: int| 0 <= i < jobs.len() ==> (#[trigger] jobs[i]).0 != j
}

/// Among `n + 1` consecutive ids one is missing from `n` job records.
proof fn lemma_free_id(jobs: Seq<(JobId, DownloadStatus)>, base: int, n: int)
    requires
        n == jobs.len(),
        0 <= base,
        base + n + 1 <= u128::MAX,
    ensures
        exists|t: int| 0 <= t < n + 1 && #[trigger] id_free(jobs, candidate(base, t)),
{
    if !exists|t: int| 0 <= t < n + 1 && #[trigger] id_free(jobs, candidate(base, t)) {
        let ids = jobs.map_values(|p: (JobId, DownloadStatus)| p.0.0 as int);
        let a = ids.to_set();
        let b = vstd::set_lib::set_int_range(base, base + n + 1);
        ids.lemma_cardinality_of_set();
        vstd::seq_lib::seq_to_set_is_finite(ids);
        vstd::set_lib::lemma_int_range(base, base + n + 1);
        assert forall|x: int| b.contains(x) implies a.contains(x) by {
            let t = x - base;
            assert(0 <= t < n + 1);
            assert(!id_free(jobs, candidate(base, t)));
            let i = choose|i: int| 0 <= i < jobs.len() && (#[trigger] jobs[i]).0 == candidate(base, t);
            assert(ids[i] == x);
        }
        vstd::set_lib::lemma_len_subset(b, a);
    }
}

/// Whether job ids in `jobs` are distinct.
pub open spec fn jobs_unique(jobs: Seq<(JobId, DownloadStatus)>) -> bool {
    forall|a: int, b: int| 0 <= a < b < jobs.len() ==> (#[trigger] jobs[a]).0 != (#[trigger] jobs[b]).0
}

/// Whether model names in `active` are distinct.
pub open spec fn active_unique(active: Seq<(String, JobId)>) -> bool {
    forall|a: int, b: int| 0 <= a < b < active.len() ==> (#[trigger] active[a]).0@ != (#[trigger] active[b]).0@
}

proof fn lemma_job_in_at(jobs: Seq<(JobId, DownloadStatus)>, i: int)
    requires
        jobs_unique(jobs),
        0 <= i < jobs.len(),
    ensures
        job_in(jobs, jobs[i].0) == Some(jobs[i].1),
    decreases i,
{
    if i > 0 {
        let t = jobs.drop_first();
        assert(jobs[0].0 != jobs[i].0);
        assert(t[i - 1] == jobs[i]);
        assert forall|a: int, b: int| 0 <= a < b < t.len() implies (#[trigger] t[a]).0 != (#[trigger] t[b]).0 by {
            assert(t[a] == jobs[a + 1] && t[b] == jobs[b + 1]);
        }
        lemma_job_in_at(t, i - 1);
    }
}

proof fn lemma_job_in_absent(jobs: Seq<(JobId, DownloadStatus)>, id: JobId)
    requires
        forall|k: int| 0 <= k < jobs.len() ==> (#[trigger] jobs[k]).0 != id,
    ensures
        job_in(jobs, id) is None,
    decreases jobs.len(),
{
    if jobs.len() > 0 {
        let t = jobs.drop_first();
        assert forall|k: int| 0 <= k < t.len() implies (#[trigger] t[k]).0 != id by {
            assert(t[k] == jobs[k + 1]);
        }
        lemma_job_in_absent(t, id);
    }
}

/// `job_in` over unique ids: the record's state, or nothing.
proof fn lemma_job_in_unique(jobs: Seq<(JobId, DownloadStatus)>, id: JobId)
    requires
        jobs_unique(jobs),
    ensures
        (exists|k: int| 0 <= k < jobs.len() && (#[trigger] jobs[k]).0 == id) ==> {
            let k = choose|k: int| 0 <= k < jobs.len() && (#[trigger] jobs[k]).0 == id;
            job_in(jobs, id) == Some(jobs[k].1)
        },
        !(exists|k: int| 0 <= k < jobs.len() && (#[trigger] jobs[k]).0 == id) ==> job_in(jobs, id) is None,
{
    if exists|k: int| 0 <= k < jobs.len() && (#[trigger] jobs[k]).0 == id {
        let k = choose|k: int| 0 <= k < jobs.len() && (#[trigger] jobs[k]).0 == id;
        lemma_job_in_at(jobs, k);
    } else {
        lemma_job_in_absent(jobs, id);
    }
}

proof fn lemma_job_in_update(jobs: Seq<(JobId, DownloadStatus)>, i: int, id: JobId, s: DownloadStatus)
    requires
        jobs_unique(jobs),
        0 <= i < jobs.len(),
        jobs[i].0 == id,
    ensures
        jobs_unique(jobs.update(i, (id, s))),
        job_in(jobs.update(i, (id, s)), id) == Some(s),
        forall|other: JobId| other != id ==> job_in(jobs.update(i, (id, s)), other) == job_in(jobs, other),
{
    let u = jobs.update(i, (id, s));
    assert forall|a: int, b: int| 0 <= a < b < u.len() implies (#[trigger] u[a]).0 != (#[trigger] u[b]).0 by {
        assert(u[a].0 == jobs[a].0 && u[b].0 == jobs[b].0);
    }
    lemma_job_in_at(u, i);
    assert forall|other: JobId| other != id implies job_in(u, other) == job_in(jobs, other) by {
        lemma_job_in_unique(jobs, other);
        lemma_job_in_unique(u, other);
        if exists|k: int| 0 <= k < jobs.len() && (#[trigger] jobs[k]).0 == other {
            let k = choose|k: int| 0 <= k < jobs.len() && (#[trigger] jobs[k]).0 == other;
            assert(u[k] == jobs[k]);
            lemma_job_in_at(u, k);
            lemma_job_in_at(jobs, k);
        } else {
            assert forall|k: int| 0 <= k < u.len() implies (#[trigger] u[k]).0 != other by {
                assert(u[k].0 == jobs[k].0);
            }
            lemma_job_in_absent(u, other);
        }
    }
}

proof fn lemma_job_in_push(jobs: Seq<(JobId, DownloadStatus)>, id: JobId, s: DownloadStatus)
    requires
        jobs_unique(jobs),
        forall|k: int| 0 <= k < jobs.len() ==> (#[trigger] jobs[k]).0 != id,
    ensures
        jobs_unique(jobs.push((id, s))),
        job_in(jobs.push((id, s)), id) == Some(s),
        forall|other: JobId| other != id ==> job_in(jobs.push((id, s)), other) == job_in(jobs, other),
{
    let p = jobs.push((id, s));
    assert forall|a: int, b: int| 0 <= a < b < p.len() implies (#[trigger] p[a]).0 != (#[trigger] p[b]).0 by {
        if b < jobs.len() {
            assert(p[a] == jobs[a] && p[b] == jobs[b]);
        } else {
            assert(p[a] == jobs[a]);
        }
    }
    lemma_job_in_at(p, jobs.len() as int);
    assert forall|other: JobId| other != id implies job_in(p, other) == job_in(jobs, other) by {
        if exists|k: int| 0 <= k < jobs.len() && (#[trigger] jobs[k]).0 == other {
            let k = choose|k: int| 0 <= k < jobs.len() && (#[trigger] jobs[k]).0 == other;
            assert(p[k] == jobs[k]);
            lemma_job_in_at(p, k);
            lemma_job_in_at(jobs, k);
        } else {
            assert forall|k: int| 0 <= k < p.len() implies (#[trigger] p[k]).0 != other by {
                if k < jobs.len() {
                    assert(p[k] == jobs[k]);
                }
            }
            lemma_job_in_absent(p, other);
            lemma_job_in_absent(jobs, other);
        }
    }
}

proof fn lemma_active_in_at(active: Seq<(String, JobId)>, i: int)
    requires
        active_unique(active),
        0 <= i < active.len(),
    ensures
        active_in(active, active[i].0@) == Some(active[i].1),
    decreases i,
{
    if i > 0 {
        let t = active.drop_first();
        assert(active[0].0@ != active[i].0@);
        assert(t[i - 1] == active[i]);
        assert forall|a: int, b: int| 0 <= a < b < t.len() implies (#[trigger] t[a]).0@ != (#[trigger] t[b]).0@ by {
            assert(t[a] == active[a + 1] && t[b] == active[b + 1]);
        }
        lemma_active_in_at(t, i - 1);
    }
}

proof fn lemma_active_in_absent(active: Seq<(String, JobId)>, m: Seq<char>)
    requires
        forall|k: int| 0 <= k < active.len() ==> (#[trigger] active[k]).0@ != m,
    ensures
        active_in(active, m) is None,
    decreases active.len(),
{
    if active.len() > 0 {
        let t = active.drop_first();
        assert forall|k: int| 0 <= k < t.len() implies (#[trigger] t[k]).0@ != m by {
            assert(t[k] == active[k + 1]);
        }
        lemma_active_in_absent(t, m);
    }
}

/// `active_in` agrees on two unique sequences that hold the same records
/// for every name other than `model`.
proof fn lemma_active_in_same(a1: Seq<(String, JobId)>, a2: Seq<(String, JobId)>, m: Seq<char>)
    requires
        active_unique(a1),
        active_unique(a2),
        forall|k: int| 0 <= k < a1.len() && (#[trigger] a1[k]).0@ == m ==>
            exists|l: int| 0 <= l < a2.len() && (#[trigger] a2[l]).0@ == m && a2[l].1 == a1[k].1,
        forall|l: int| 0 <= l < a2.len() && (#[trigger] a2[l]).0@ == m ==>
            exists|k: int| 0 <= k < a1.len() && (#[trigger] a1[k]).0@ == m,
    ensures
        active_in(a1, m) == active_in(a2, m),
{
    if exists|k: int| 0 <= k < a1.len() && (#[trigger] a1[k]).0@ == m {
        let k = choose|k: int| 0 <= k < a1.len() && (#[trigger] a1[k]).0@ == m;
        let l = choose|l: int| 0 <= l < a2.len() && (#[trigger] a2[l]).0@ == m && a2[l].1 == a1[k].1;
        lemma_active_in_at(a1, k);
        lemma_active_in_at(a2, l);
    } else {
        assert forall|l: int| 0 <= l < a2.len() implies (#[trigger] a2[l]).0@ != m by {
            if a2[l].0@ == m {
                let k = choose|k: int| 0 <= k < a1.len() && (#[trigger] a1[k]).0@ == m;
            }
        }
        lemma_active_in_absent(a1, m);
        lemma_active_in_absent(a2, m);
    }
}

proof fn lemma_active_in_set_one(active: Seq<(String, JobId)>, i: int, model: Seq<char>, j: JobId, name: String)
    requires
        active_unique(active),
        0 <= i < active.len(),
        active[i].0@ == model,
        name@ == model,
    ensures
        active_unique(active.update(i, (name, j))),
        active_in(active.update(i, (name, j)), model) == Some(j),
        forall|m: Seq<char>| m != model ==> active_in(active.update(i, (name, j)), m) == active_in(active, m),
{
    let u = active.update(i, (name, j));
    assert forall|a: int, b: int| 0 <= a < b < u.len() implies (#[trigger] u[a]).0@ != (#[trigger] u[b]).0@ by {
        assert(u[a].0@ == active[a].0@ && u[b].0@ == active[b].0@);
    }
    lemma_active_in_at(u, i);
    assert forall|m: Seq<char>| m != model implies active_in(u, m) == active_in(active, m) by {
        assert forall|k: int| 0 <= k < active.len() && (#[trigger] active[k]).0@ == m implies
            exists|l: int| 0 <= l < u.len() && (#[trigger] u[l]).0@ == m && u[l].1 == active[k].1 by {
            assert(u[k] == active[k]);
        }
        assert forall|l: int| 0 <= l < u.len() && (#[trigger] u[l]).0@ == m implies
            exists|k: int| 0 <= k < active.len() && (#[trigger] active[k]).0@ == m by {
            assert(u[l] == active[l]);
        }
        lemma_active_in_same(active, u, m);
    }
}

proof fn lemma_active_in_push_one(active: Seq<(String, JobId)>, model: Seq<char>, j: JobId, name: String)
    requires
        active_unique(active),
        forall|k: int| 0 <= k < active.len() ==> (#[trigger] active[k]).0@ != model,
        name@ == model,
    ensures
        active_unique(active.push((name, j))),
        active_in(active.push((name, j)), model) == Some(j),
        forall|m: Seq<char>| m != model ==> active_in(active.push((name, j)), m) == active_in(active, m),
{
    let p = active.push((name, j));
    assert forall|a: int, b: int| 0 <= a < b < p.len() implies (#[trigger] p[a]).0@ != (#[trigger] p[b]).0@ by {
        if b < active.len() {
            assert(p[a] == active[a] && p[b] == active[b]);
        } else {
            assert(p[a] == active[a]);
        }
    }
    lemma_active_in_at(p, active.len() as int);
    assert forall|m: Seq<char>| m != model implies active_in(p, m) == active_in(active, m) by {
        assert forall|k: int| 0 <= k < active.len() && (#[trigger] active[k]).0@ == m implies
            exists|l: int| 0 <= l < p.len() && (#[trigger] p[l]).0@ == m && p[l].1 == active[k].1 by {
            assert(p[k] == active[k]);
        }
        assert forall|l: int| 0 <= l < p.len() && (#[trigger] p[l]).0@ == m implies
            exists|k: int| 0 <= k < active.len() && (#[trigger] active[k]).0@ == m by {
            assert(p[l] == active[l]);
        }
        lemma_active_in_same(active, p, m);
    }
}

proof fn lemma_active_in_remove(active: Seq<(String, JobId)>, i: int, model: Seq<char>)
    requires
        active_unique(active),
        0 <= i < active.len(),
        active[i].0@ == model,
    ensures
        active_unique(active.remove(i)),
        active_in(active.remove(i), model) is None,
        forall|m: Seq<char>| m != model ==> active_in(active.remove(i), m) == active_in(active, m),
{
    let r = active.remove(i);
    assert forall|k: int| 0 <= k < r.len() implies (#[trigger] r[k]) == if k < i { active[k] } else { active[k + 1] } by {}
    assert forall|a: int, b: int| 0 <= a < b < r.len() implies (#[trigger] r[a]).0@ != (#[trigger] r[b]).0@ by {
        let a0 = if a < i { a } else { a + 1 };
        let b0 = if b < i { b } else { b + 1 };
        assert(r[a] == active[a0] && r[b] == active[b0]);
    }
    assert forall|k: int| 0 <= k < r.len() implies (#[trigger] r[k]).0@ != model by {
        let k0 = if k < i { k } else { k + 1 };
        assert(r[k] == active[k0]);
    }
    lemma_active_in_absent(r, model);
    assert forall|m: Seq<char>| m != model implies active_in(r, m) == active_in(active, m) by {
        assert forall|k: int| 0 <= k < active.len() && (#[trigger] active[k]).0@ == m implies
            exists|l: int| 0 <= l < r.len() && (#[trigger] r[l]).0@ == m && r[l].1 == active[k].1 by {
            let l = if k < i { k } else { k - 1 };
            assert(r[l] == active[k]);
        }
        assert forall|l: int| 0 <= l < r.len() && (#[trigger] r[l]).0@ == m implies
            exists|k: int| 0 <= k < active.len() && (#[trigger] active[k]).0@ == m by {
            let k0 = if l < i { l } else { l + 1 };
            assert(r[l] == active[k0]);
        }
        lemma_active_in_same(active, r, m);
    }
}

} // verus!
