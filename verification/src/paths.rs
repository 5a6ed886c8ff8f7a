//! Path scoping: whether a path lies under a directory, and the path relative
//! to it. Both go by whole path components, as `camino` does.

use vstd::prelude::*;
use crate::text::string_views;

verus! {

broadcast use vstd::string::group_string_axioms;

/// Whether the components of `base` are a prefix of those of `path`
/// (`camino::Utf8Path::starts_with`).
pub uninterp spec fn path_starts_with(path: Seq<char>, base: Seq<char>) -> bool;

/// What remains of `path` after the components of `base`
/// (`camino::Utf8Path::strip_prefix`), when `base` is a prefix of it.
pub uninterp spec fn path_after_prefix(path: Seq<char>, base: Seq<char>) -> Seq<char>;

/// Whether `base` is a prefix of `path`, component by component.
///
/// Trusted: calls `camino::Utf8Path::starts_with`, a function of the two
/// paths alone.
#[verifier::external_body]
pub(crate) fn starts_with(path: &str, base: &str) -> (r: bool)
    ensures
        r == path_starts_with(path@, base@),
{
    camino::Utf8Path::new(path).starts_with(base)
}

/// The rest of `path` after the prefix `base`, or `None` when `base` is not a
/// prefix of it.
///
/// Trusted: calls `camino::Utf8Path::strip_prefix`, which (as its
/// documentation says) fails exactly when `starts_with` is false.
#[verifier::external_body]
pub(crate) fn strip_prefix(path: &str, base: &str) -> (r: Option<String>)
    ensures
        r is Some <==> path_starts_with(path@, base@),
        r matches Some(s) ==> s@ == path_after_prefix(path@, base@),
{
    match camino::Utf8Path::new(path).strip_prefix(base) {
        Ok(rel) => Some(rel.as_str().to_string()),
        Err(_) => None,
    }
}

/// `path` relative to `base` when it lies under it, else `path` unchanged.
pub open spec fn relative_to(path: Seq<char>, base: Seq<char>) -> Seq<char> {
    if path_starts_with(path, base) {
        path_after_prefix(path, base)
    } else {
        path
    }
}

/// Strip a directory prefix from a path, returning the relative form; a path
/// outside the directory is returned unchanged.
pub fn relativize_str(path: &str, base: &str) -> (r: String)
    ensures
        r@ == relative_to(path@, base@),
{
    match strip_prefix(path, base) {
        Some(rel) => rel,
        None => path.to_string(),
    }
}

/// Whether `path` lies under `cwd` or under one of `dirs`.
pub open spec fn included(path: Seq<char>, cwd: Seq<char>, dirs: Seq<Seq<char>>) -> bool {
    path_starts_with(path, cwd) || exists|k: int|
        0 <= k < dirs.len() && #[trigger] path_starts_with(path, dirs[k])
}

/// Whether `path` lies under `cwd` or under one of the extra directories.
pub fn path_included(path: &str, cwd: &str, include_dirs: &Vec<String>) -> (r: bool)
    ensures
        r == included(path@, cwd@, string_views(include_dirs@)),
{
    if starts_with(path, cwd) {
        return true;
    }
    let ghost dv = string_views(include_dirs@);
    let mut k: usize = 0;
    while k < include_dirs.len()
        invariant
            k <= include_dirs.len(),
            dv == string_views(include_dirs@),
            !path_starts_with(path@, cwd@),
            forall|m: int| 0 <= m < k ==> !#[trigger] path_starts_with(path@, dv[m]),
        decreases include_dirs.len() - k,
    {
        if starts_with(path, include_dirs[k].as_str()) {
            assert(path_starts_with(path@, dv[k as int]));
            return true;
        }
        k += 1;
    }
    false
}

/// `path` relative to `cwd`: `.` for `cwd` itself, the rest of the path for
/// one under it, and the path unchanged otherwise or without a `cwd`.
pub open spec fn relativized(path: Seq<char>, cwd: Option<Seq<char>>) -> Seq<char> {
    match cwd {
        None => path,
        Some(c) => if path_starts_with(path, c) {
            if path_after_prefix(path, c).len() == 0 {
                seq!['.']
            } else {
                path_after_prefix(path, c)
            }
        } else {
            path
        },
    }
}

/// The characters of an optional string.
pub open spec fn opt_view(o: Option<&str>) -> Option<Seq<char>> {
    match o {
        Some(s) => Some(s@),
        None => None,
    }
}

/// Make `path` relative to `cwd`, or return it unchanged if outside cwd.
pub fn relativize(path: &str, cwd: Option<&str>) -> (r: String)
    ensures
        r@ == relativized(path@, opt_view(cwd)),
{
    match cwd {
        None => path.to_string(),
        Some(c) => match strip_prefix(path, c) {
            Some(rel) => {
                if rel.as_str().is_empty() {
                    let s = ".".to_string();
                    proof {
                        reveal_strlit(".");
                        assert("."@ =~= seq!['.']);
                    }
                    s
                } else {
                    rel
                }
            },
            None => path.to_string(),
        },
    }
}

} // verus!
