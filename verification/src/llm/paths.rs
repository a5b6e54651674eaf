//! Filesystem locations of `llm.json` and the shared model store.
//!
//! Paths are handled as text with `/` separators, joined the way
//! `Path::join` joins them on Unix.

use vstd::prelude::*;
use crate::text::{concat, push_char, str_eq};

verus! {

/// `base` joined with `part`: an absolute `part` replaces `base`; otherwise
/// a `/` is inserted unless `base` is empty or already ends with one.
pub open spec fn joined(base: Seq<char>, part: Seq<char>) -> Seq<char> {
    if part.len() > 0 && part[0] == '/' {
        part
    } else if base.len() == 0 || base.last() == '/' {
        base + part
    } else {
        base.push('/') + part
    }
}

/// `base` joined with `part` (`Path::join`).
pub fn join(base: &str, part: &str) -> (r: String)
    ensures
        r@ == joined(base@, part@),
{
    let plen = part.unicode_len();
    if plen > 0 && part.get_char(0) == '/' {
        return part.to_owned();
    }
    let blen = base.unicode_len();
    if blen == 0 || base.get_char(blen - 1) == '/' {
        return concat(base, part);
    }
    let mut s = base.to_owned();
    push_char(&mut s, '/');
    s.append(part);
    s
}

/// Project config: `<project_root>/.openpfe/llm.json`.
pub fn llm_json_path(project_root: &str) -> (r: String)
    ensures
        r@ == joined(joined(project_root@, ".openpfe"@), "llm.json"@),
{
    let dir = join(project_root, ".openpfe");
    join(dir.as_str(), "llm.json")
}

/// Shared weights root: `<home>/.openpfe/models`.
pub fn models_root(home: &str) -> (r: String)
    ensures
        r@ == joined(joined(home@, ".openpfe"@), "models"@),
{
    let dir = join(home, ".openpfe");
    join(dir.as_str(), "models")
}

/// Whether a `..` segment of `id` starts at position `i`.
pub open spec fn parent_segment_at(id: Seq<char>, i: int) -> bool {
    &&& 0 <= i
    &&& i + 1 < id.len()
    &&& id[i] == '.'
    &&& id[i + 1] == '.'
    &&& (i == 0 || id[i - 1] == '/')
    &&& (i + 2 == id.len() || id[i + 2] == '/')
}

/// Whether `id`, joined to the models root, names a directory inside it:
/// it is not empty, not absolute, not `.`, and has no `..` segment.
/// Nested ids such as `org/model` are inside.
pub open spec fn model_id_ok(id: Seq<char>) -> bool {
    &&& id.len() > 0
    &&& id[0] != '/'
    &&& id != "."@
    &&& forall|i: int| 0 <= i < id.len() ==> !#[trigger] parent_segment_at(id, i)
}

/// Whether `id` names a directory inside the models root (`model_id_ok`).
pub fn is_model_id(id: &str) -> (r: bool)
    ensures
        r == model_id_ok(id@),
{
    let n = id.unicode_len();
    if n == 0 || id.get_char(0) == '/' || str_eq(id, ".") {
        return false;
    }
    let mut i: usize = 0;
    while i < n
        invariant
            n == id@.len(),
            i <= n,
            forall|k: int| 0 <= k < i ==> !#[trigger] parent_segment_at(id@, k),
        decreases n - i,
    {
        if i + 1 < n && id.get_char(i) == '.' && id.get_char(i + 1) == '.'
            && (i == 0 || id.get_char(i - 1) == '/') && (i + 2 == n || id.get_char(i + 2) == '/')
        {
            assert(parent_segment_at(id@, i as int));
            return false;
        }
        i += 1;
    }
    true
}

/// The models root text, `<home>/.openpfe/models`.
pub open spec fn models_root_text(home: Seq<char>) -> Seq<char> {
    joined(joined(home, ".openpfe"@), "models"@)
}

/// Per-model directory: `<home>/.openpfe/models/<id>`, one level inside the
/// models root.
pub fn model_dir(home: &str, id: &str) -> (r: String)
    requires
        model_id_ok(id@),
    ensures
        r@ == models_root_text(home@) + "/"@ + id@,
{
    let root = models_root(home);
    proof {
        reveal_strlit("models");
        reveal_strlit("/");
        let x = joined(home@, ".openpfe"@);
        if x.len() == 0 || x.last() == '/' {
            assert(root@ == x + "models"@);
        } else {
            assert(root@ == x.push('/') + "models"@);
        }
        assert(root@.last() == 's');
        assert(id@[0] != '/');
    }
    let r = join(root.as_str(), id);
    proof {
        assert(r@ =~= root@ + "/"@ + id@);
    }
    r
}

} // verus!
