//! Paths of files, which need not be text.
use std::path::PathBuf;
use vstd::prelude::*;

verus! {

/// The path of a file. Nothing is known of what is inside.
#[verifier::external_type_specification]
#[verifier::external_body]
pub struct ExPathBuf(std::path::PathBuf);

/// Copies a path, by the `clone` of std's `PathBuf`: the copy is the same path.
pub assume_specification[ <PathBuf as Clone>::clone ](path: &PathBuf) -> (r: PathBuf)
    ensures
        r == *path,
;

/// The text of a path, where parts that are no text have been replaced.
pub uninterp spec fn path_text(path: PathBuf) -> Seq<char>;

/// The text of a path, by `to_string_lossy` of std's `Path`.
///
/// Not proved: that the text depends on the path alone. What stands for the parts of a path that
/// are not Unicode is not said.
#[verifier::external_body]
pub(crate) fn lossy_path(path: &PathBuf) -> (r: String)
    ensures
        r@ == path_text(*path),
{
    path.to_string_lossy().into_owned()
}

/// The text that the `Debug` format gives for a path.
pub uninterp spec fn path_debug(path: PathBuf) -> Seq<char>;

/// Formats a path, by the `Debug` of std's `PathBuf`.
///
/// Not proved: that the text depends on the path alone. What is escaped, and how, is not said.
#[verifier::external_body]
pub(crate) fn debug_path(path: &PathBuf) -> (r: String)
    ensures
        r@ == path_debug(*path),
{
    format!("{:?}", path)
}

/// A copy of a path, where there is one.
pub(crate) fn copy_path(path: &Option<PathBuf>) -> (r: Option<PathBuf>)
    ensures
        r == *path,
{
    match path {
        Some(p) => Some(p.clone()),
        None => None,
    }
}

} // verus!
