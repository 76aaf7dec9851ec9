//! Strings as sequences of characters.

use vstd::prelude::*;

verus! {

/// The text of an optional string.
pub open spec fn text_of(text: Option<String>) -> Option<Seq<char>> {
    match text {
        Some(text) => Some(text@),
        None => None,
    }
}

/// The texts of a list of strings.
pub open spec fn texts_of(strings: Seq<String>) -> Seq<Seq<char>> {
    strings.map_values(|text: String| text@)
}

/// The texts of a list of optional strings.
pub open spec fn optional_texts_of(strings: Seq<Option<String>>) -> Seq<Option<Seq<char>>> {
    strings.map_values(|text: Option<String>| text_of(text))
}

} // verus!
