//! The kinds of document that can be stitched.

use std::path::Path;
use vstd::prelude::*;
use crate::text::text_of;

verus! {

/// Supported file formats.
#[derive(Debug, Clone, Copy, PartialEq, Eq, Structural)]
pub enum Format {
    /// A Markdown document.
    Markdown,
}

/// The extension that `Path::extension` finds in `path`, without its dot;
/// `None` where it finds none. Paths are read as the platform that the
/// library is built for writes them.
pub uninterp spec fn path_extension(path: Seq<char>) -> Option<Seq<char>>;

/// Asks `Path::extension` for the extension of `path`.
///
/// Nothing is claimed of the answer but that it is what the standard
/// library finds in this text. A path given as a string has an extension
/// that is a string, so the conversion loses nothing.
#[verifier::external_body]
fn extension_of(path: &str) -> (extension: Option<String>)
    ensures
        text_of(extension) == path_extension(path@),
{
    Path::new(path).extension().and_then(|extension| extension.to_str()).map(
        |extension| extension.to_owned(),
    )
}

/// The format that files with this extension hold.
pub open spec fn format_named(extension: Seq<char>) -> Option<Format> {
    if extension == "md"@ {
        Some(Format::Markdown)
    } else {
        None
    }
}

impl Format {
    /// The format that files with this extension hold: Markdown for `md`,
    /// none for any other.
    pub fn from_extension(extension: &str) -> (format: Option<Format>)
        ensures
            format == format_named(extension@),
    {
        let known = "md".to_owned();
        let given = extension.to_owned();
        if given.eq(&known) {
            Some(Format::Markdown)
        } else {
            None
        }
    }

    /// Auto-detect file format based on its extension.
    pub fn detect(path: &str) -> (format: Option<Format>)
        ensures
            format == match path_extension(path@) {
                Some(extension) => format_named(extension),
                None => None,
            },
    {
        match extension_of(path) {
            Some(extension) => Self::from_extension(extension.as_str()),
            None => None,
        }
    }
}

} // verus!
