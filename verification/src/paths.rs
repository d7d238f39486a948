//! The parts of a file path that the naming rules read.
//!
//! Paths are handed to the library as UTF-8 strings. Splitting a path into its
//! file stem and extension is left to `std::path::Path`, whose component
//! parsing the library does not re-implement.
use vstd::prelude::*;

verus! {

/// What `std::path::Path::file_stem` returns for `path`, as characters.
pub uninterp spec fn path_file_stem(path: Seq<char>) -> Option<Seq<char>>;

/// What `std::path::Path::extension` returns for `path`, as characters.
pub uninterp spec fn path_extension(path: Seq<char>) -> Option<Seq<char>>;

/// The stem (file name without its final extension) of `path`.
///
/// Trusted: calls `std::path::Path::file_stem` on the path and converts the
/// result to a `String`; the contract claims only that the result is the
/// named value `path_file_stem(path)`.
#[verifier::external_body]
pub(crate) fn file_stem(path: &str) -> (r: Option<String>)
    ensures
        match r {
            Some(s) => path_file_stem(path@) == Some(s@),
            None => path_file_stem(path@) is None,
        },
{
    match std::path::Path::new(path).file_stem() {
        Some(stem) => stem.to_str().map(String::from),
        None => None,
    }
}

/// The extension (text after the final `.` of the file name) of `path`.
///
/// Trusted: calls `std::path::Path::extension` on the path and converts the
/// result to a `String`; the contract claims only that the result is the
/// named value `path_extension(path)`.
#[verifier::external_body]
pub(crate) fn extension(path: &str) -> (r: Option<String>)
    ensures
        match r {
            Some(s) => path_extension(path@) == Some(s@),
            None => path_extension(path@) is None,
        },
{
    match std::path::Path::new(path).extension() {
        Some(ext) => ext.to_str().map(String::from),
        None => None,
    }
}

} // verus!
