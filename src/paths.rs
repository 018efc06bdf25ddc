//! Path strings: the parts of a path that `std::path` computes, and the
//! slash form in which the library reports paths.
use std::path::Path;
use vstd::prelude::*;

verus! {

/// What `Path::parent` gives for a path, as a string.
pub uninterp spec fn parent_of(p: Seq<char>) -> Option<Seq<char>>;

/// What `Path::file_name` gives for a path, as a string.
pub uninterp spec fn file_name_of(p: Seq<char>) -> Option<Seq<char>>;

/// What `Path::extension` gives for a path, as a string.
pub uninterp spec fn extension_of(p: Seq<char>) -> Option<Seq<char>>;

/// What `Path::file_stem` gives for a path, as a string.
pub uninterp spec fn file_stem_of(p: Seq<char>) -> Option<Seq<char>>;

/// What `str::to_lowercase` gives for a string.
pub uninterp spec fn lower_of(s: Seq<char>) -> Seq<char>;

/// Relies on `std::path::Path::parent`: the path without its last component,
/// or nothing for a root or an empty path. A part of a UTF-8 path cut at a
/// separator is UTF-8, so the lossy conversion keeps it as it is.
#[verifier::external_body]
pub(crate) fn path_parent(p: &str) -> (r: Option<String>)
    ensures
        r matches Some(q) ==> parent_of(p@) == Some(q@),
        r is None ==> parent_of(p@) is None,
{
    match Path::new(p).parent() {
        Some(q) => Some(q.to_string_lossy().into_owned()),
        None => None,
    }
}

/// Relies on `std::path::Path::file_name`: the last normal component.
#[verifier::external_body]
pub(crate) fn path_file_name(p: &str) -> (r: Option<String>)
    ensures
        r matches Some(q) ==> file_name_of(p@) == Some(q@),
        r is None ==> file_name_of(p@) is None,
{
    match Path::new(p).file_name() {
        Some(q) => Some(q.to_string_lossy().into_owned()),
        None => None,
    }
}

/// Relies on `std::path::Path::extension`: what follows the last dot of the
/// file name, if the name has one that is not its first character.
#[verifier::external_body]
pub(crate) fn path_extension(p: &str) -> (r: Option<String>)
    ensures
        r matches Some(q) ==> extension_of(p@) == Some(q@),
        r is None ==> extension_of(p@) is None,
{
    match Path::new(p).extension() {
        Some(q) => Some(q.to_string_lossy().into_owned()),
        None => None,
    }
}

/// Relies on `std::path::Path::file_stem`: the file name without its
/// extension.
#[verifier::external_body]
pub(crate) fn path_file_stem(p: &str) -> (r: Option<String>)
    ensures
        r matches Some(q) ==> file_stem_of(p@) == Some(q@),
        r is None ==> file_stem_of(p@) is None,
{
    match Path::new(p).file_stem() {
        Some(q) => Some(q.to_string_lossy().into_owned()),
        None => None,
    }
}

/// Relies on `str::to_lowercase`: the result depends on the characters alone,
/// and the empty string stays empty.
#[verifier::external_body]
pub(crate) fn lowercase(s: &str) -> (r: String)
    ensures
        r@ == lower_of(s@),
        s@.len() == 0 ==> r@.len() == 0,
{
    s.to_lowercase()
}

/// Conversion of a path into its slash form, the UTF-8 string in which the
/// library reports paths.
pub trait PathExt {
    spec fn spec_normalize_slash(&self) -> Option<Seq<char>>;

    fn normalize_slash(&self) -> (r: Option<String>)
        ensures
            r matches Some(s) ==> self.spec_normalize_slash() == Some(s@),
            r is None ==> self.spec_normalize_slash() is None,
    ;
}

/// A path held as a string is already UTF-8, and on this platform its
/// separator is already `/`: its slash form is the string itself.
impl PathExt for String {
    open spec fn spec_normalize_slash(&self) -> Option<Seq<char>> {
        Some(self@)
    }

    fn normalize_slash(&self) -> (r: Option<String>) {
        Some(self.clone())
    }
}

} // verus!
