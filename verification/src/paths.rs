use vstd::prelude::*;
use crate::github::{opt_view, path_join};
use crate::text::{chars_of, push_char};

verus! {

/// What `std::path::Path::parent` gives for a path, as text.
pub uninterp spec fn path_parent(p: Seq<char>) -> Option<Seq<char>>;

/// What `std::path::Path::file_name` gives for a path, as text.
pub uninterp spec fn path_file_name(p: Seq<char>) -> Option<Seq<char>>;

/// What `std::path::Path::file_stem` gives for a path, as text.
pub uninterp spec fn path_file_stem(p: Seq<char>) -> Option<Seq<char>>;

/// Calls `std::path::Path::parent` on the path; the parent of a path given
/// as UTF-8 text is UTF-8 text too, handed out unchanged. What it returns
/// is the name `path_parent`.
#[verifier::external_body]
pub(crate) fn parent_of(p: &str) -> (r: Option<String>)
    ensures
        opt_view(r) == path_parent(p@),
{
    match std::path::Path::new(p).parent() {
        Some(q) => Some(q.to_string_lossy().into_owned()),
        None => None,
    }
}

/// Calls `std::path::Path::file_name` on the path; what it returns is the
/// name `path_file_name`.
#[verifier::external_body]
pub(crate) fn file_name_of(p: &str) -> (r: Option<String>)
    ensures
        opt_view(r) == path_file_name(p@),
{
    match std::path::Path::new(p).file_name() {
        Some(q) => Some(q.to_string_lossy().into_owned()),
        None => None,
    }
}

/// Calls `std::path::Path::file_stem` on the path; what it returns is the
/// name `path_file_stem`.
#[verifier::external_body]
pub(crate) fn file_stem_of(p: &str) -> (r: Option<String>)
    ensures
        opt_view(r) == path_file_stem(p@),
{
    match std::path::Path::new(p).file_stem() {
        Some(q) => Some(q.to_string_lossy().into_owned()),
        None => None,
    }
}

/// `rel` joined onto `base` as `Path::join` does on Unix: an absolute
/// `rel` replaces `base`; else `rel` is appended after a `/` (none when
/// `base` is empty or already ends in one).
pub open spec fn joined(base: Seq<char>, rel: Seq<char>) -> Seq<char> {
    if rel.len() > 0 && rel[0] == '/' {
        rel
    } else {
        path_join(base, rel)
    }
}

/// Joins `rel` onto the path `base`.
pub fn join_path(base: &str, rel: &str) -> (r: String)
    ensures
        r@ == joined(base@, rel@),
{
    let rc = chars_of(rel);
    if rc.len() > 0 && rc[0] == '/' {
        return rel.to_owned();
    }
    let bc = chars_of(base);
    let mut out = base.to_owned();
    if bc.len() > 0 && bc[bc.len() - 1] != '/' {
        push_char(&mut out, '/');
    }
    out.append(rel);
    out
}

/// A path with the extension of its last component dropped: its parent
/// joined with the file stem, or the path itself when either is missing.
pub open spec fn without_extension(p: Seq<char>) -> Seq<char> {
    match (path_file_stem(p), path_parent(p)) {
        (Some(stem), Some(parent)) => joined(parent, stem),
        _ => p,
    }
}

/// Drops the extension of a path's last component (where a crate file
/// unpacks to).
pub fn remove_extension(path: &str) -> (r: String)
    ensures
        r@ == without_extension(path@),
{
    match file_stem_of(path) {
        Some(stem) => match parent_of(path) {
            Some(parent) => join_path(parent.as_str(), stem.as_str()),
            None => path.to_owned(),
        },
        None => path.to_owned(),
    }
}

} // verus!
