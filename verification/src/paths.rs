//! File-system paths, carried through the library as `std::path` values.

use vstd::prelude::*;
use std::path::{Path, PathBuf};

verus! {

#[verifier::external_type_specification]
#[verifier::external_body]
pub struct ExPathBuf(std::path::PathBuf);

#[verifier::external_type_specification]
#[verifier::external_body]
pub struct ExPath(std::path::Path);

/// `PathBuf::clone` gives a path equal to the one cloned.
pub assume_specification[<std::path::PathBuf as std::clone::Clone>::clone](p: &std::path::PathBuf) -> (r: std::path::PathBuf)
    ensures
        r == *p,
;

/// `PathBuf` dereferences to the `Path` it holds; nothing more is stated.
pub assume_specification[<std::path::PathBuf as std::ops::Deref>::deref](p: &std::path::PathBuf) -> &std::path::Path;

/// What `Path::display` shows of a path (its text, with any part that is
/// not valid Unicode replaced), on the platform the crate is built for.
pub uninterp spec fn shown_path(p: PathBuf) -> Seq<char>;

/// `Path::display`, written out as text.
#[verifier::external_body]
pub(crate) fn path_display_text(p: &PathBuf) -> (r: String)
    ensures
        r@ == shown_path(*p),
{
    p.display().to_string()
}

/// The extension that `Path::extension` finds in a path, where it is
/// valid Unicode, by the path syntax of the platform the crate is built
/// for.
pub uninterp spec fn path_extension(p: PathBuf) -> Option<Seq<char>>;

/// `Path::extension`, as text where it is valid Unicode.
#[verifier::external_body]
pub(crate) fn path_extension_text(p: &PathBuf) -> (r: Option<String>)
    ensures
        match r {
            Some(e) => path_extension(*p) == Some(e@),
            None => path_extension(*p) is None,
        },
{
    p.extension().and_then(|e| e.to_str()).map(|e| e.to_owned())
}

/// The path `PathBuf::from` makes of a text.
pub uninterp spec fn path_of(text: Seq<char>) -> PathBuf;

/// `PathBuf::from` on a text.
#[verifier::external_body]
pub(crate) fn path_from_text(text: &str) -> (r: PathBuf)
    ensures
        r == path_of(text@),
{
    PathBuf::from(text)
}

/// The path without its last component (`Path::parent`), by the path
/// syntax of the platform the crate is built for.
pub uninterp spec fn parent_path(p: &Path) -> Option<&Path>;

/// `Path::parent`.
#[verifier::external_body]
pub(crate) fn path_parent(p: &Path) -> (r: Option<&Path>)
    ensures
        r == parent_path(p),
{
    p.parent()
}

/// The path `Path::new` makes of a text.
pub uninterp spec fn new_path(text: Seq<char>) -> &'static Path;

/// `Path::new` on a text that lives as long as the program.
#[verifier::external_body]
pub(crate) fn static_path(text: &'static str) -> (r: &'static Path)
    ensures
        r == new_path(text@),
{
    Path::new(text)
}

/// The file name without its extension (`Path::file_stem`), where it is
/// valid Unicode, by the path syntax of the platform the crate is built
/// for.
pub uninterp spec fn path_stem(p: &Path) -> Option<Seq<char>>;

/// `Path::file_stem`, as text where it is valid Unicode.
#[verifier::external_body]
pub(crate) fn path_stem_text(p: &Path) -> (r: Option<String>)
    ensures
        match r {
            Some(s) => path_stem(p) == Some(s@),
            None => path_stem(p) is None,
        },
{
    p.file_stem().and_then(|s| s.to_str()).map(|s| s.to_owned())
}

/// The path `Path::join` makes of a path and a name.
pub uninterp spec fn joined_path(p: &Path, name: Seq<char>) -> PathBuf;

/// `Path::join`.
#[verifier::external_body]
pub(crate) fn path_join(p: &Path, name: &str) -> (r: PathBuf)
    ensures
        r == joined_path(p, name@),
{
    p.join(name)
}

/// The path that `PathBuf::set_extension` makes of a path and an
/// extension.
pub uninterp spec fn path_with_extension(p: PathBuf, extension: Seq<char>) -> PathBuf;

/// An extension holds neither `/` nor `\`, the characters that separate
/// path components on the platforms the crate is built for.
pub open spec fn no_separator(extension: Seq<char>) -> bool {
    forall|i: int| 0 <= i < extension.len() ==> extension[i] != '/' && extension[i] != '\\'
}

/// `PathBuf::set_extension`, which panics on an extension with a path
/// separator.
#[verifier::external_body]
pub(crate) fn path_set_extension(p: &mut PathBuf, extension: &str)
    requires
        no_separator(extension@),
    ensures
        *final(p) == path_with_extension(*old(p), extension@),
{
    p.set_extension(extension);
}

} // verus!
