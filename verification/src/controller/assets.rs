//! Static frontend (the dashboard SPA) served by the admin listener.
//!
//! The built bundle is installed into the configured `[frontend] root_dir`
//! and served straight off disk. A single lookup resolves a request path
//! (including the `index.html` fallback) to a file path inside `root_dir`; it
//! refuses any path that would escape the root.

use crate::text::str_eq;
use vstd::prelude::*;
use vstd::string::StrSliceExecFns;

verus! {

/// `s` without its leading slashes.
pub open spec fn strip_leading_slashes(s: Seq<char>) -> Seq<char>
    decreases s.len(),
{
    if s.len() > 0 && s[0] == '/' {
        strip_leading_slashes(s.drop_first())
    } else {
        s
    }
}

/// The request path relative to the root: leading slashes stripped, and the
/// root itself (`/`, empty or `.`) mapped to `index.html`.
pub open spec fn relative_of(rel: Seq<char>) -> Seq<char> {
    let r = strip_leading_slashes(rel);
    if r.len() == 0 || r == "."@ {
        "index.html"@
    } else {
        r
    }
}

/// `root` joined with the relative path `rel`: a separator is added unless
/// the root is empty or already ends with one.
pub open spec fn joined(root: Seq<char>, rel: Seq<char>) -> Seq<char> {
    if root.len() == 0 || root.last() == '/' {
        root + rel
    } else {
        root + "/"@ + rel
    }
}

/// Whether `p` has a `..` component (a `/`-separated segment equal to `..`).
pub open spec fn has_parent_component(p: Seq<char>) -> bool {
    exists|i: int|
        0 <= i && i + 2 <= p.len() && #[trigger] p[i] == '.' && p[i + 1] == '.' && (i == 0 || p[i - 1] == '/') && (i + 2
            == p.len() || p[i + 2] == '/')
}

/// The root-confined file path for a request, or `None` when it would escape
/// the root.
pub open spec fn resolve_spec(root: Seq<char>, rel: Seq<char>) -> Option<Seq<char>> {
    let c = joined(root, relative_of(rel));
    if has_parent_component(c) {
        None
    } else {
        Some(c)
    }
}

fn strip_slashes(s: &str) -> (r: String)
    ensures
        r@ == strip_leading_slashes(s@),
{
    let n = s.unicode_len();
    let mut i: usize = 0;
    proof {
        assert(s@.skip(0) =~= s@);
    }
    while i < n && s.get_char(i) == '/'
        invariant
            n == s@.len(),
            i <= n,
            strip_leading_slashes(s@) == strip_leading_slashes(s@.skip(i as int)),
        decreases n - i,
    {
        proof {
            assert(s@.skip(i as int).drop_first() =~= s@.skip(i + 1));
        }
        i = i + 1;
    }
    let rest = s.substring_char(i, n);
    proof {
        assert(rest@ =~= s@.skip(i as int));
    }
    rest.to_string()
}

/// Resolve a request path to a root-confined file path inside `root_dir`.
/// `/` maps to `index.html` (SPA fallback). Returns `None` for any path that
/// would escape the root (e.g. `..`) so the caller can 404 safely.
pub fn resolve(root_dir: &str, rel: &str) -> (r: Option<String>)
    ensures
        match r {
            Some(p) => resolve_spec(root_dir@, rel@) == Some(p@),
            None => resolve_spec(root_dir@, rel@) is None,
        },
{
    let stripped = strip_slashes(rel);
    let rel2 = if stripped.as_str().is_empty() || str_eq(stripped.as_str(), ".") {
        String::from_str("index.html")
    } else {
        stripped
    };
    let mut candidate = String::from_str(root_dir);
    let rn = root_dir.unicode_len();
    if rn > 0 && root_dir.get_char(rn - 1) != '/' {
        candidate.append("/");
    }
    candidate.append(rel2.as_str());
    proof {
        if rn > 0 {
            assert(root_dir@.last() == root_dir@[rn - 1]);
        }
        assert(candidate@ =~= joined(root_dir@, relative_of(rel@)));
    }
    if has_parent(candidate.as_str()) {
        None
    } else {
        Some(candidate)
    }
}

fn has_parent(p: &str) -> (r: bool)
    ensures
        r == has_parent_component(p@),
{
    let n = p.unicode_len();
    let mut i: usize = 0;
    while n >= 2 && i <= n - 2
        invariant
            n == p@.len(),
            i <= n,
            forall|j: int|
                0 <= j < i && j + 2 <= p@.len() ==> !(#[trigger] p@[j] == '.' && p@[j + 1] == '.' && (j == 0 || p@[j - 1]
                    == '/') && (j + 2 == p@.len() || p@[j + 2] == '/')),
        decreases n - i,
    {
        if p.get_char(i) == '.' && p.get_char(i + 1) == '.' && (i == 0 || p.get_char(i - 1) == '/') && (i + 2 == n
            || p.get_char(i + 2) == '/') {
            return true;
        }
        i = i + 1;
    }
    false
}

/// Whether `s` ends with `suffix`.
pub open spec fn ends_with(s: Seq<char>, suffix: Seq<char>) -> bool {
    s.len() >= suffix.len() && s.subrange(s.len() - suffix.len(), s.len() as int) == suffix
}

fn str_ends_with(s: &str, suffix: &str) -> (r: bool)
    ensures
        r == ends_with(s@, suffix@),
{
    let n = s.unicode_len();
    let m = suffix.unicode_len();
    if n < m {
        return false;
    }
    let tail = s.substring_char(n - m, n);
    str_eq(tail, suffix)
}

/// Content type of a served file, by its name's extension.
pub open spec fn mime_spec(name: Seq<char>) -> Seq<char> {
    if ends_with(name, ".js"@) {
        "application/javascript; charset=utf-8"@
    } else if ends_with(name, ".css"@) {
        "text/css; charset=utf-8"@
    } else if ends_with(name, ".svg"@) {
        "image/svg+xml"@
    } else if ends_with(name, ".json"@) {
        "application/json"@
    } else {
        "text/html; charset=utf-8"@
    }
}

/// Content type of a served file, by its name's extension.
pub fn mime(name: &str) -> (r: &'static str)
    ensures
        r@ == mime_spec(name@),
{
    if str_ends_with(name, ".js") {
        "application/javascript; charset=utf-8"
    } else if str_ends_with(name, ".css") {
        "text/css; charset=utf-8"
    } else if str_ends_with(name, ".svg") {
        "image/svg+xml"
    } else if str_ends_with(name, ".json") {
        "application/json"
    } else {
        "text/html; charset=utf-8"
    }
}

/// A resolved path never escapes the root: it starts with the root and has
/// no `..` component.
pub proof fn law_resolved_stays_under_root(root: Seq<char>, rel: Seq<char>)
    ensures
        resolve_spec(root, rel) matches Some(p) ==> !has_parent_component(p) && p.subrange(0, root.len() as int) == root,
{
    let c = joined(root, relative_of(rel));
    assert(c.subrange(0, root.len() as int) =~= root);
}

} // verus!
