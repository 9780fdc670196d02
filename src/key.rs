//! How an entry of the target directory is classified, and the name of the
//! destination directory (its key) for a file that is to be moved.

use vstd::prelude::*;
use vstd::utf8::{decode_utf8, valid_utf8};
use crate::extension::{extension_of, extension_start};

verus! {

/// What `str::to_lowercase` makes of a text.
pub uninterp spec fn lower_of(s: Seq<char>) -> Seq<char>;

/// Relies on `std::str::from_utf8`: it accepts exactly the byte sequences
/// that are valid UTF-8, and the text it returns is what they encode.
#[verifier::external_body]
fn decode_text(b: &[u8]) -> (r: Option<&str>)
    ensures
        r is Some <==> valid_utf8(b@),
        r matches Some(s) ==> s@ == decode_utf8(b@),
{
    std::str::from_utf8(b).ok()
}

/// Relies on `str::to_lowercase`: the result depends on the characters
/// alone, and an empty text stays empty.
#[verifier::external_body]
fn lowercase(s: &str) -> (r: String)
    ensures
        r@ == lower_of(s@),
        s@.len() == 0 ==> r@.len() == 0,
{
    s.to_lowercase()
}

/// What the organizer does with one entry, by its name and kind.
pub enum Class {
    /// A directory: skipped, with a report.
    Directory,
    /// A file whose name has no extension: left in place, with a report.
    NoExtension,
    /// A file whose extension is not text: left in place, silently.
    Undecodable,
    /// A file to be moved into the subdirectory of this name.
    Key(String),
}

pub ghost enum ClassView {
    Directory,
    NoExtension,
    Undecodable,
    Key(Seq<char>),
}

impl View for Class {
    type V = ClassView;

    open spec fn view(&self) -> ClassView {
        match self {
            Class::Directory => ClassView::Directory,
            Class::NoExtension => ClassView::NoExtension,
            Class::Undecodable => ClassView::Undecodable,
            Class::Key(k) => ClassView::Key(k@),
        }
    }
}

/// The key of an extension: the lowercased text it encodes.
pub open spec fn key_of_extension(ext: Seq<u8>) -> Seq<char> {
    lower_of(decode_utf8(ext))
}

/// The class of an entry with the name `name`, a directory or not.
pub open spec fn class_of(name: Seq<u8>, is_dir: bool) -> ClassView {
    if is_dir {
        ClassView::Directory
    } else {
        match extension_of(name) {
            None => ClassView::NoExtension,
            Some(ext) => if valid_utf8(ext) {
                ClassView::Key(key_of_extension(ext))
            } else {
                ClassView::Undecodable
            },
        }
    }
}

/// Classifies the entry named `name`.
pub fn classify(name: &[u8], is_dir: bool) -> (r: Class)
    ensures
        r@ == class_of(name@, is_dir),
{
    if is_dir {
        return Class::Directory;
    }
    match extension_start(name) {
        None => Class::NoExtension,
        Some(i) => {
            let ext = vstd::slice::slice_subrange(name, i, name.len());
            match decode_text(ext) {
                None => Class::Undecodable,
                Some(text) => Class::Key(lowercase(text)),
            }
        },
    }
}

} // verus!
