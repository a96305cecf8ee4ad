//! The parts of a file path that the reader looks at, as `std::path`
//! takes them apart.
use vstd::prelude::*;

verus! {

/// What `Path::file_name` gives for the path `path`: its last component
/// when that is a normal one.
pub uninterp spec fn file_name_outcome(path: Seq<char>) -> Option<Seq<char>>;

/// What `Path::extension` gives for the path `path`: the part of its file
/// name after the last dot, when there is one and the name is not just a
/// leading dot and the rest.
pub uninterp spec fn extension_outcome(path: Seq<char>) -> Option<Seq<char>>;

/// Calls `std::path::Path::file_name` on `path` (a path given as text, so
/// the name is text too). The result is named `file_name_outcome`.
#[verifier::external_body]
pub(crate) fn file_name_of(path: &str) -> (r: Option<String>)
    ensures
        r is Some <==> file_name_outcome(path@) is Some,
        r matches Some(n) ==> file_name_outcome(path@) == Some(n@),
{
    std::path::Path::new(path).file_name().map(|n| n.to_string_lossy().into_owned())
}

/// Calls `std::path::Path::extension` on `path`. The result is named
/// `extension_outcome`.
#[verifier::external_body]
pub(crate) fn extension_of(path: &str) -> (r: Option<String>)
    ensures
        r is Some <==> extension_outcome(path@) is Some,
        r matches Some(e) ==> extension_outcome(path@) == Some(e@),
{
    std::path::Path::new(path).extension().map(|e| e.to_string_lossy().into_owned())
}

} // verus!
