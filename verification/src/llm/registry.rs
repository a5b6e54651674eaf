//! Model registry: install state, weight locations and digest checks.
//!
//! Reading the install record, probing files and streaming weights through the
//! hasher happen outside the library, which decides what those facts mean.

use vstd::prelude::*;
use crate::llm::error::LlmError;
use crate::llm::paths::{is_model_id, join, joined, model_dir, model_id_ok, models_root_text};
use crate::llm::types::{CatalogEntry, LlmFile, ModelEntry, ModelManifest, copy_opt};
use crate::text::{concat, push_char, str_eq};

verus! {

/// Whether `c` has the Unicode `White_Space` property (what
/// `char::is_whitespace` tests): tab through carriage return, space, next
/// line, no-break space, ogham space mark, the spaces U+2000 to U+200A,
/// line and paragraph separators, narrow no-break space, medium
/// mathematical space and ideographic space.
pub open spec fn white_space(c: char) -> bool {
    let u = c as u32;
    (0x9 <= u <= 0xD) || u == 0x20 || u == 0x85 || u == 0xA0 || u == 0x1680
        || (0x2000 <= u <= 0x200A) || u == 0x2028 || u == 0x2029 || u == 0x202F
        || u == 0x205F || u == 0x3000
}

fn is_whitespace(c: char) -> (r: bool)
    ensures
        r == white_space(c),
{
    let u = c as u32;
    (0x9 <= u && u <= 0xD) || u == 0x20 || u == 0x85 || u == 0xA0 || u == 0x1680
        || (0x2000 <= u && u <= 0x200A) || u == 0x2028 || u == 0x2029 || u == 0x202F
        || u == 0x205F || u == 0x3000
}

/// `s` without leading whitespace.
pub open spec fn trim_start(s: Seq<char>) -> Seq<char>
    decreases s.len(),
{
    if s.len() > 0 && white_space(s[0]) {
        trim_start(s.drop_first())
    } else {
        s
    }
}

/// `s` without trailing whitespace.
pub open spec fn trim_end(s: Seq<char>) -> Seq<char>
    decreases s.len(),
{
    if s.len() > 0 && white_space(s.last()) {
        trim_end(s.drop_last())
    } else {
        s
    }
}

/// `c` with ASCII upper case mapped to lower case.
pub open spec fn ascii_lower(c: char) -> char {
    if 'A' <= c && c <= 'Z' {
        ((c as u32) + 32) as char
    } else {
        c
    }
}

/// Whether `c` is an ASCII hexadecimal digit.
pub open spec fn is_hex_digit(c: char) -> bool {
    ('0' <= c && c <= '9') || ('a' <= c && c <= 'f') || ('A' <= c && c <= 'F')
}

/// The expected-digest text a catalog value normalizes to: trimmed and
/// lower-cased.
pub open spec fn normalized(s: Seq<char>) -> Seq<char> {
    trim_end(trim_start(s)).map_values(|c: char| ascii_lower(c))
}

/// Whether `s` normalizes to 64 hexadecimal digits.
pub open spec fn sha256_text_ok(s: Seq<char>) -> bool {
    normalized(s).len() == 64 && forall|i: int| 0 <= i < 64 ==> is_hex_digit(#[trigger] normalized(s)[i])
}

fn lower(c: char) -> (r: char)
    ensures
        r == ascii_lower(c),
{
    if 'A' <= c && c <= 'Z' {
        ((c as u8) + 32) as char
    } else {
        c
    }
}

fn hex_digit(c: char) -> (r: bool)
    ensures
        r == is_hex_digit(c),
{
    ('0' <= c && c <= '9') || ('a' <= c && c <= 'f') || ('A' <= c && c <= 'F')
}

proof fn lemma_trim_start_skip(s: Seq<char>, i: int)
    requires
        0 <= i <= s.len(),
        forall|k: int| 0 <= k < i ==> white_space(#[trigger] s[k]),
    ensures
        trim_start(s) == trim_start(s.subrange(i, s.len() as int)),
    decreases i,
{
    if i > 0 {
        assert(s.drop_first() =~= s.subrange(1, s.len() as int));
        let t = s.drop_first();
        assert forall|k: int| 0 <= k < i - 1 implies white_space(#[trigger] t[k]) by {
            assert(t[k] == s[k + 1]);
        }
        lemma_trim_start_skip(t, i - 1);
        assert(t.subrange(i - 1, t.len() as int) =~= s.subrange(i, s.len() as int));
    } else {
        assert(s.subrange(0, s.len() as int) =~= s);
    }
}

proof fn lemma_trim_end_cut(s: Seq<char>, j: int)
    requires
        0 <= j <= s.len(),
        forall|k: int| j <= k < s.len() ==> white_space(#[trigger] s[k]),
    ensures
        trim_end(s) == trim_end(s.subrange(0, j)),
    decreases s.len() - j,
{
    if j < s.len() {
        let t = s.drop_last();
        assert forall|k: int| j <= k < t.len() implies white_space(#[trigger] t[k]) by {
            assert(t[k] == s[k]);
        }
        lemma_trim_end_cut(t, j);
        assert(t.subrange(0, j) =~= s.subrange(0, j));
    } else {
        assert(s.subrange(0, j) =~= s);
    }
}

/// Trims and lower-cases an expected digest; it must be 64 hexadecimal digits.
pub fn normalize_sha256_hex(hex_str: &str) -> (r: Result<String, LlmError>)
    ensures
        sha256_text_ok(hex_str@) ==> match r {
            Ok(s) => s@ == normalized(hex_str@),
            Err(_) => false,
        },
        !sha256_text_ok(hex_str@) ==> match r {
            Err(LlmError::Verify(m)) => m@ == "sha256 must be 64 hex digits"@,
            _ => false,
        },
{
    let ghost s = hex_str@;
    let n = hex_str.unicode_len();
    let mut i: usize = 0;
    while i < n && is_whitespace(hex_str.get_char(i))
        invariant
            s == hex_str@,
            n == s.len(),
            i <= n,
            forall|k: int| 0 <= k < i ==> white_space(#[trigger] s[k]),
        decreases n - i,
    {
        i += 1;
    }
    proof {
        lemma_trim_start_skip(s, i as int);
        let rest = s.subrange(i as int, n as int);
        if i < n {
            assert(!white_space(rest[0]));
        }
        assert(trim_start(rest) == rest);
    }
    let mut j: usize = n;
    while j > i && is_whitespace(hex_str.get_char(j - 1))
        invariant
            s == hex_str@,
            n == s.len(),
            i <= j <= n,
            forall|k: int| j <= k < n ==> white_space(#[trigger] s[k]),
        decreases j,
    {
        j -= 1;
    }
    let ghost core = s.subrange(i as int, j as int);
    proof {
        let rest = s.subrange(i as int, n as int);
        assert forall|k: int| (j - i) <= k < rest.len() implies white_space(#[trigger] rest[k]) by {
            assert(rest[k] == s[k + i]);
        }
        lemma_trim_end_cut(rest, j - i);
        assert(rest.subrange(0, j - i) =~= core);
        if j > i {
            assert(core.last() == s[j - 1]);
        }
        assert(trim_end(core) == core);
        assert(normalized(s) =~= core.map_values(|c: char| ascii_lower(c)));
    }
    let mut out = String::new();
    let mut all_hex = true;
    let mut k = i;
    while k < j
        invariant
            s == hex_str@,
            n == s.len(),
            i <= k <= j <= n,
            core == s.subrange(i as int, j as int),
            out@ == core.subrange(0, k - i).map_values(|c: char| ascii_lower(c)),
            all_hex == forall|m: int| 0 <= m < k - i ==> is_hex_digit(#[trigger] out@[m]),
        decreases j - k,
    {
        let c = lower(hex_str.get_char(k));
        let ghost before = out@;
        push_char(&mut out, c);
        all_hex = all_hex && hex_digit(c);
        k += 1;
        proof {
            assert(core.subrange(0, k - i) =~= core.subrange(0, k - i - 1).push(s[k - 1]));
            assert(out@ =~= core.subrange(0, k - i).map_values(|c: char| ascii_lower(c)));
            if all_hex {
                assert forall|m: int| 0 <= m < k - i implies is_hex_digit(#[trigger] out@[m]) by {
                    if m < k - i - 1 {
                        assert(out@[m] == before[m]);
                    }
                }
            } else {
                if !is_hex_digit(c) {
                    assert(!is_hex_digit(out@[k - i - 1]));
                } else {
                    let m = choose|m: int| 0 <= m < k - i - 1 && !is_hex_digit(#[trigger] before[m]);
                    assert(out@[m] == before[m]);
                }
            }
        }
    }
    assert(core.subrange(0, j - i) =~= core);
    if j - i != 64 || !all_hex {
        return Err(LlmError::verify(String::from_str("sha256 must be 64 hex digits")));
    }
    Ok(out)
}

/// The lower-case hexadecimal digit for `d` (`d < 16`).
pub open spec fn hex_char(d: nat) -> char {
    if d < 10 {
        ((48 + d) as u32) as char
    } else {
        ((87 + d) as u32) as char
    }
}

/// Lower-case hexadecimal text of `bytes`, two digits per byte.
pub open spec fn hex_text(bytes: Seq<u8>) -> Seq<char>
    decreases bytes.len(),
{
    if bytes.len() == 0 {
        Seq::empty()
    } else {
        hex_text(bytes.drop_last()).push(hex_char(bytes.last() as nat / 16)).push(
            hex_char(bytes.last() as nat % 16),
        )
    }
}

fn hex_digit_char(d: u8) -> (c: char)
    requires
        d < 16,
    ensures
        c == hex_char(d as nat),
{
    if d < 10 {
        (48 + d) as char
    } else {
        (87 + d) as char
    }
}

/// Lower-case hexadecimal text of `bytes`.
pub fn encode(bytes: &[u8]) -> (s: String)
    ensures
        s@ == hex_text(bytes@),
{
    let mut s = String::new();
    let mut i: usize = 0;
    while i < bytes.len()
        invariant
            i <= bytes.len(),
            s@ == hex_text(bytes@.subrange(0, i as int)),
        decreases bytes.len() - i,
    {
        let b = bytes[i];
        push_char(&mut s, hex_digit_char(b / 16));
        push_char(&mut s, hex_digit_char(b % 16));
        i += 1;
        assert(bytes@.subrange(0, i as int).drop_last() =~= bytes@.subrange(0, i - 1));
    }
    assert(bytes@.subrange(0, bytes@.len() as int) =~= bytes@);
    s
}

/// Compares a computed digest with the expected one from the catalog.
pub fn check_sha256(path: &str, expected_hex: &str, digest: &[u8]) -> (r: Result<(), LlmError>)
    ensures
        !sha256_text_ok(expected_hex@) ==> match r {
            Err(LlmError::Verify(m)) => m@ == "sha256 must be 64 hex digits"@,
            _ => false,
        },
        sha256_text_ok(expected_hex@) && hex_text(digest@) == normalized(expected_hex@) ==> r is Ok,
        sha256_text_ok(expected_hex@) && hex_text(digest@) != normalized(expected_hex@) ==> match r {
            Err(LlmError::Verify(m)) => m@ == "sha256 mismatch for "@ + path@ + ": expected "@
                + normalized(expected_hex@) + ", got "@ + hex_text(digest@),
            _ => false,
        },
{
    let expected = normalize_sha256_hex(expected_hex)?;
    let actual = encode(digest);
    if !str_eq(actual.as_str(), expected.as_str()) {
        let a = concat("sha256 mismatch for ", path);
        let b = concat(a.as_str(), ": expected ");
        let c = concat(b.as_str(), expected.as_str());
        let d = concat(c.as_str(), ", got ");
        let e = concat(d.as_str(), actual.as_str());
        return Err(LlmError::verify(e));
    }
    Ok(())
}

/// Where an entry's `.gguf` weights live: the catalog `path`, or
/// `<model_dir>/<filename>` for downloaded models (whose id's directory
/// must lie inside the models root).
pub open spec fn gguf_place(home: Seq<char>, e: CatalogEntry) -> Option<Seq<char>> {
    match e.path {
        Some(p) => Some(p@),
        None => match e.filename {
            Some(f) => if model_id_ok(e.id@) {
                Some(joined(models_root_text(home) + "/"@ + e.id@, f@))
            } else {
                None
            },
            None => None,
        },
    }
}

/// Why an entry has no `.gguf` location: no `filename`, or an id whose
/// directory would not lie inside the models root.
pub open spec fn gguf_missing_message(e: CatalogEntry) -> Seq<char> {
    if e.filename is None {
        "catalog entry "@ + e.id@ + " missing filename"@
    } else {
        bad_id_message(e.id@)
    }
}

/// The refusal of a catalog id whose directory would not lie inside the
/// models root.
pub open spec fn bad_id_message(id: Seq<char>) -> Seq<char> {
    "catalog entry id leaves the models directory: "@ + id
}

/// The `.gguf` location for an entry; an entry without `path` needs a
/// `filename` and an id whose directory lies inside the models root.
pub fn gguf_location(home: &str, entry: &CatalogEntry) -> (r: Result<String, LlmError>)
    ensures
        match gguf_place(home@, *entry) {
            Some(p) => match r {
                Ok(s) => s@ == p,
                Err(_) => false,
            },
            None => match r {
                Err(LlmError::Config(m)) => m@ == gguf_missing_message(*entry),
                _ => false,
            },
        },
{
    match &entry.path {
        Some(p) => Ok(p.clone()),
        None => match &entry.filename {
            Some(f) => {
                if !is_model_id(entry.id.as_str()) {
                    return Err(LlmError::config(concat("catalog entry id leaves the models directory: ", entry.id.as_str())));
                }
                let dir = model_dir(home, entry.id.as_str());
                Ok(join(dir.as_str(), f.as_str()))
            },
            None => {
                let a = concat("catalog entry ", entry.id.as_str());
                Err(LlmError::config(concat(a.as_str(), " missing filename")))
            },
        },
    }
}

/// The resolved `.gguf` path for loading, given whether the location is a
/// file and the digest of its contents (or the read failure's text).
/// A catalog `path` that is missing is "not found"; missing downloaded
/// weights are "not installed"; the digest must match the catalog.
pub fn resolve_gguf_path(
    home: &str,
    entry: &CatalogEntry,
    is_file: bool,
    digest: Result<Vec<u8>, String>,
) -> (r: Result<String, LlmError>)
    ensures
        gguf_place(home@, *entry) is None ==> match r {
            Err(LlmError::Config(m)) => m@ == gguf_missing_message(*entry),
            _ => false,
        },
        gguf_place(home@, *entry) is Some && !is_file ==> match r {
            Err(LlmError::NotFound(m)) => m@ == if entry.path is Some {
                "catalog path not found: "@ + gguf_place(home@, *entry)->0
            } else {
                "model weights not installed: "@ + entry.id@
            },
            _ => false,
        },
        gguf_place(home@, *entry) is Some && is_file && !sha256_text_ok(entry.sha256@) ==> match r {
            Err(LlmError::Verify(m)) => m@ == "sha256 must be 64 hex digits"@,
            _ => false,
        },
        gguf_place(home@, *entry) is Some && is_file && sha256_text_ok(entry.sha256@) ==> match digest {
            Err(io) => r == Err::<String, LlmError>(LlmError::Io(io)),
            Ok(d) => if hex_text(d@) == normalized(entry.sha256@) {
                r matches Ok(p) && p@ == gguf_place(home@, *entry)->0
            } else {
                r matches Err(LlmError::Verify(_))
            },
        },
{
    let place = gguf_location(home, entry)?;
    if !is_file {
        if entry.path.is_some() {
            return Err(LlmError::not_found(concat("catalog path not found: ", place.as_str())));
        }
        return Err(LlmError::not_found(concat("model weights not installed: ", entry.id.as_str())));
    }
    let _ = normalize_sha256_hex(entry.sha256.as_str())?;
    let d = match digest {
        Ok(d) => d,
        Err(io) => return Err(LlmError::Io(io)),
    };
    check_sha256(place.as_str(), entry.sha256.as_str(), d.as_slice())?;
    Ok(place)
}

/// Whether an entry's weights are present and match their digest.
pub fn is_installed(home: &str, entry: &CatalogEntry, is_file: bool, digest: Result<Vec<u8>, String>) -> (r: bool)
    ensures
        r == (gguf_place(home@, *entry) is Some && is_file && sha256_text_ok(entry.sha256@)
            && (digest matches Ok(d) && hex_text(d@) == normalized(entry.sha256@))),
{
    resolve_gguf_path(home, entry, is_file, digest).is_ok()
}

/// A catalog row with its install state: installed when a manifest was read
/// or when its catalog `path` is an existing file.
pub fn model_entry(entry: &CatalogEntry, manifest: Option<ModelManifest>, path_is_file: bool) -> (m: ModelEntry)
    ensures
        m.id == entry.id,
        m.filename == entry.filename,
        m.url == entry.url,
        m.sha256 == entry.sha256,
        m.path == entry.path,
        m.installed == (manifest is Some || (entry.path is Some && path_is_file)),
        m.manifest == manifest,
{
    let installed = manifest.is_some() || (entry.path.is_some() && path_is_file);
    ModelEntry {
        id: entry.id.clone(),
        filename: copy_opt(&entry.filename),
        url: copy_opt(&entry.url),
        sha256: entry.sha256.clone(),
        path: copy_opt(&entry.path),
        installed,
        manifest,
    }
}

/// Whether entry `i` is the first catalog entry with id `id`.
pub open spec fn first_with_id(catalog: Seq<CatalogEntry>, id: Seq<char>, i: int) -> bool {
    &&& 0 <= i < catalog.len()
    &&& catalog[i].id@ == id
    &&& forall|k: int| 0 <= k < i ==> (#[trigger] catalog[k]).id@ != id
}

/// The index of the first catalog entry with id `id`.
pub fn catalog_entry(file: &LlmFile, id: &str) -> (r: Result<usize, LlmError>)
    ensures
        match r {
            Ok(i) => first_with_id(file.catalog@, id@, i as int),
            Err(e) => (forall|k: int| 0 <= k < file.catalog@.len() ==> (#[trigger] file.catalog@[k]).id@ != id@)
                && (e matches LlmError::NotFound(m) && m@ == "catalog id "@ + id@),
        },
{
    let mut i: usize = 0;
    while i < file.catalog.len()
        invariant
            i <= file.catalog@.len(),
            forall|k: int| 0 <= k < i ==> (#[trigger] file.catalog@[k]).id@ != id@,
        decreases file.catalog@.len() - i,
    {
        if str_eq(file.catalog[i].id.as_str(), id) {
            return Ok(i);
        }
        i += 1;
    }
    Err(LlmError::not_found(concat("catalog id ", id)))
}

} // verus!
