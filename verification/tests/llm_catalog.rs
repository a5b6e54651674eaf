use openpfe::llm::digest::Sha256Stream;
use openpfe::llm::download::{add_received, validate_download_url, DownloadJobs, MAX_DOWNLOAD_BYTES};
use openpfe::llm::error::LlmError;
use openpfe::llm::paths::{is_model_id, join, llm_json_path, model_dir, models_root};
use openpfe::llm::registry::{check_sha256, gguf_location, encode, is_installed, model_entry, normalize_sha256_hex, resolve_gguf_path};
use openpfe::llm::types::{
    default_max_tokens, default_n_ctx, validate_catalog_entry, CatalogEntry, DownloadStatus, JobId,
};

fn entry(id: &str, filename: Option<&str>, url: Option<&str>, sha: &str, path: Option<&str>) -> CatalogEntry {
    CatalogEntry {
        id: id.to_string(),
        filename: filename.map(str::to_string),
        url: url.map(str::to_string),
        sha256: sha.to_string(),
        path: path.map(str::to_string),
    }
}

const ABC_SHA256: &str = "ba7816bf8f01cfea414140de5dae2223b00361a396177a9cb410ff61f20015ad";

#[test]
fn paths_follow_the_store_layout() {
    assert_eq!(llm_json_path("/proj"), "/proj/.openpfe/llm.json");
    assert_eq!(models_root("/home/u"), "/home/u/.openpfe/models");
    assert_eq!(model_dir("/home/u/", "demo"), "/home/u/.openpfe/models/demo");
    assert_eq!(join("/a", "/b"), "/b");
    assert_eq!(join("", "b"), "b");
}

#[test]
fn defaults_match_documented_values() {
    assert_eq!(default_n_ctx(), 4096);
    assert_eq!(default_max_tokens(), 1024);
}

#[test]
fn error_constructors_and_display() {
    assert_eq!(LlmError::config("x".to_string()), LlmError::Config("x".to_string()));
    assert_eq!(LlmError::not_found("m".to_string()).message(), "not found: m");
    assert_eq!(LlmError::download("d".to_string()).message(), "download: d");
    assert_eq!(LlmError::verify("v".to_string()).message(), "verify: v");
    assert_eq!(LlmError::engine("e".to_string()).message(), "engine: e");
    assert_eq!(LlmError::invalid("i".to_string()).message(), "invalid request: i");
    assert_eq!(LlmError::Busy.message(), "inference busy");
}

#[test]
fn catalog_entries_need_path_or_download_fields() {
    assert!(validate_catalog_entry(&entry("a", None, None, "00", Some("/m.gguf"))).is_ok());
    assert!(validate_catalog_entry(&entry("a", Some("a.gguf"), Some("https://x/a"), "00", None)).is_ok());
    assert_eq!(
        validate_catalog_entry(&entry("", None, None, "00", None)),
        Err(LlmError::Config("catalog entry id must not be empty".to_string()))
    );
    assert_eq!(
        validate_catalog_entry(&entry("a", None, None, "", None)),
        Err(LlmError::Config("catalog entry sha256 is required".to_string()))
    );
    assert_eq!(
        validate_catalog_entry(&entry("a", None, None, "00", Some(""))),
        Err(LlmError::Config("catalog entry path must not be empty".to_string()))
    );
    assert_eq!(
        validate_catalog_entry(&entry("a", None, Some("https://x"), "00", None)),
        Err(LlmError::Config("catalog entry a requires filename or path".to_string()))
    );
    assert_eq!(
        validate_catalog_entry(&entry("a", Some("a.gguf"), None, "00", None)),
        Err(LlmError::Config("catalog entry a requires url or path".to_string()))
    );
}

#[test]
fn sha256_of_known_data() {
    let mut h = Sha256Stream::new();
    h.update(b"a");
    h.update(b"bc");
    let digest = h.finish();
    assert_eq!(encode(&digest), ABC_SHA256);
    assert_eq!(encode(&[0u8, 15, 255]), "000fff");
}

#[test]
fn sha256_text_is_normalized_and_checked() {
    let upper = format!("  {}\n", ABC_SHA256.to_uppercase());
    assert_eq!(normalize_sha256_hex(&upper), Ok(ABC_SHA256.to_string()));
    let unicode_spaced = format!("\u{3000}{}\u{85}\t", ABC_SHA256);
    assert_eq!(normalize_sha256_hex(&unicode_spaced), Ok(ABC_SHA256.to_string()));
    assert!(normalize_sha256_hex(&format!("x{}", &ABC_SHA256[1..])).is_err());
    assert_eq!(
        normalize_sha256_hex("abc"),
        Err(LlmError::Verify("sha256 must be 64 hex digits".to_string()))
    );
    let mut h = Sha256Stream::new();
    h.update(b"abc");
    let digest = h.finish();
    assert!(check_sha256("/w.gguf", ABC_SHA256, &digest).is_ok());
    assert!(matches!(
        check_sha256("/w.gguf", &"0".repeat(64), &digest),
        Err(LlmError::Verify(_))
    ));
}

#[test]
fn path_catalog_entries_resolve_and_count_as_installed() {
    let mut h = Sha256Stream::new();
    h.update(b"abc");
    let digest = h.finish();
    let e = entry("local", None, None, ABC_SHA256, Some("/models/existing.gguf"));
    assert_eq!(
        resolve_gguf_path("/home/u", &e, true, Ok(digest.clone())),
        Ok("/models/existing.gguf".to_string())
    );
    assert_eq!(
        resolve_gguf_path("/home/u", &e, false, Ok(digest.clone())),
        Err(LlmError::NotFound("catalog path not found: /models/existing.gguf".to_string()))
    );
    assert_eq!(
        resolve_gguf_path("/home/u", &e, true, Err("denied".to_string())),
        Err(LlmError::Io("denied".to_string()))
    );
    assert!(is_installed("/home/u", &e, true, Ok(digest)));
    let listed = model_entry(&e, None, true);
    assert!(listed.installed);
    assert_eq!(listed.id, "local");
    let absent = model_entry(&e, None, false);
    assert!(!absent.installed);
}

#[test]
fn download_urls_must_be_https() {
    let parts = validate_download_url("https://example.com/demo.gguf", false).expect("https");
    assert_eq!(parts.scheme, "https");
    assert_eq!(parts.host, Some("example.com".to_string()));
    assert_eq!(
        validate_download_url("http://example.com/x", true),
        Err(LlmError::Download("only https downloads are allowed".to_string()))
    );
    assert!(validate_download_url("http://127.0.0.1:8080/x", true).is_ok());
    assert!(validate_download_url("http://127.0.0.1:8080/x", false).is_err());
    assert!(matches!(
        validate_download_url("not a url", false),
        Err(LlmError::Download(m)) if m.starts_with("invalid url: ")
    ));
}

#[test]
fn received_bytes_are_capped() {
    assert_eq!(add_received(10, 5), Ok(15));
    assert_eq!(add_received(MAX_DOWNLOAD_BYTES, 0), Ok(MAX_DOWNLOAD_BYTES));
    assert_eq!(
        add_received(MAX_DOWNLOAD_BYTES, 1),
        Err(LlmError::Download("download exceeds max size (34359738368 bytes)".to_string()))
    );
    assert!(add_received(u64::MAX, u64::MAX).is_err());
}

#[test]
fn job_ids_print_as_hyphenated_uuids() {
    let id = JobId(0x0123456789abcdef0123456789abcdef);
    assert_eq!(id.to_text(), "01234567-89ab-cdef-0123-456789abcdef");
    let fresh = JobId::new_v4();
    assert_eq!((fresh.0 >> 76) & 0xf, 4);
    assert_eq!((fresh.0 >> 62) & 0x3, 2);
    assert_eq!(JobId::parse(&fresh.to_text()), Ok(fresh));
    assert_eq!(JobId::parse("01234567-89AB-CDEF-0123-456789ABCDEF"), Ok(id));
    assert!(JobId::parse("not-a-uuid").is_err());
}

#[test]
fn one_active_download_per_model() {
    let mut jobs = DownloadJobs::new();
    let e = entry("tiny", Some("tiny.gguf"), Some("https://example.com/tiny.gguf"), "00", None);
    let first = jobs.start_with_id(&e, JobId(1), false).expect("first");
    assert_eq!(first.job_id, JobId(1));
    assert_eq!(first.filename, "tiny.gguf");
    assert_eq!(jobs.status(&JobId(1)), Ok(DownloadStatus::Queued));
    assert_eq!(
        jobs.start_with_id(&e, JobId(2), false),
        Err(LlmError::InvalidRequest("download already in progress for tiny".to_string()))
    );
    jobs.update(JobId(1), DownloadStatus::Running { bytes_received: 3 });
    assert_eq!(jobs.status(&JobId(1)), Ok(DownloadStatus::Running { bytes_received: 3 }));
    jobs.update(JobId(1), DownloadStatus::Complete);
    jobs.finish("tiny", JobId(1));
    assert!(jobs.start_with_id(&e, JobId(2), false).is_ok());
    assert!(matches!(jobs.status(&JobId(9)), Err(LlmError::NotFound(_))));
    let path_entry = entry("p", None, None, "00", Some("/x.gguf"));
    assert_eq!(
        jobs.start_with_id(&path_entry, JobId(3), false),
        Err(LlmError::InvalidRequest("model p uses catalog path; download not required".to_string()))
    );
}

#[test]
fn model_ids_stay_inside_the_models_root() {
    assert!(is_model_id("tiny"));
    assert!(is_model_id("a.b-c"));
    assert!(is_model_id("org/model"));
    assert!(is_model_id("a..b/..c"));
    assert!(!is_model_id(""));
    assert!(!is_model_id("/etc"));
    assert!(!is_model_id("."));
    assert!(!is_model_id(".."));
    assert!(!is_model_id("a/../b"));
    assert!(!is_model_id("a/.."));
    assert_eq!(model_dir("/home/u", "tiny"), "/home/u/.openpfe/models/tiny");
    assert_eq!(model_dir("/home/u", "org/model"), "/home/u/.openpfe/models/org/model");
    assert!(validate_catalog_entry(&entry("a/b", None, None, "00", Some("/m.gguf"))).is_ok());
    assert!(validate_catalog_entry(&entry("../x", Some("x.gguf"), Some("https://x/x"), "00", None)).is_ok());
    assert_eq!(
        gguf_location("/home/u", &entry("..", Some("x.gguf"), None, "00", None)),
        Err(LlmError::Config("catalog entry id leaves the models directory: ..".to_string()))
    );
    assert_eq!(
        gguf_location("/home/u", &entry("tiny", Some("t.gguf"), None, "00", None)),
        Ok("/home/u/.openpfe/models/tiny/t.gguf".to_string())
    );
    assert_eq!(
        resolve_gguf_path("/home/u", &entry("a/b", Some("t.gguf"), None, "00", None), false, Err(String::new())),
        Err(LlmError::NotFound("model weights not installed: a/b".to_string()))
    );
}

#[test]
fn starting_a_download_keeps_other_jobs() {
    let mut jobs = DownloadJobs::new();
    let a = entry("a", Some("a.gguf"), Some("https://x/a"), "00", None);
    let b = entry("b", Some("b.gguf"), Some("https://x/b"), "00", None);
    let pa = jobs.start(&a, false).expect("start a");
    let pb = jobs.start(&b, false).expect("start b");
    assert_eq!(jobs.status(&pa.job_id), Ok(DownloadStatus::Queued));
    assert_eq!(jobs.status(&pb.job_id), Ok(DownloadStatus::Queued));
}

#[test]
fn one_download_per_model_at_a_time() {
    let mut jobs = DownloadJobs::new();
    let a = entry("a", Some("a.gguf"), Some("https://x/a"), "00", None);
    let first = jobs.start(&a, false).expect("start");
    jobs.update(first.job_id, DownloadStatus::Running { bytes_received: 10 });
    assert_eq!(
        jobs.start(&a, false),
        Err(LlmError::InvalidRequest("download already in progress for a".to_string()))
    );
    assert_eq!(jobs.status(&first.job_id), Ok(DownloadStatus::Running { bytes_received: 10 }));
    jobs.update(first.job_id, DownloadStatus::Complete);
    let second = jobs.start(&a, false).expect("restart after completion");
    assert_ne!(second.job_id, first.job_id);
    assert_eq!(jobs.status(&first.job_id), Ok(DownloadStatus::Complete));
    assert_eq!(jobs.status(&second.job_id), Ok(DownloadStatus::Queued));
    assert_eq!(
        jobs.start(&entry("b", Some("b.gguf"), Some("ftp://x/b"), "00", None), false),
        Err(LlmError::Download("only https downloads are allowed".to_string()))
    );
}
