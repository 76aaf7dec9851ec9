//! What the library asks of the regular-expression engine.
//!
//! The engine's answers are named, not described: a contract that speaks of
//! them says which question was put to the engine, and nothing of how the
//! engine answers it.

use regex::Regex;
use vstd::prelude::*;
use crate::text::optional_texts_of;
use crate::text::texts_of;

verus! {

/// Whether `Regex::new` takes `pattern` for a regular expression.
pub uninterp spec fn regex_accepts(pattern: Seq<char>) -> bool;

/// The parts of `text` that `Regex::split` hands out for `pattern`: what
/// lies before, between and after the matches, in order.
pub uninterp spec fn regex_split(pattern: Seq<char>, text: Seq<char>) -> Seq<Seq<char>>;

/// For each match that `Regex::captures_iter` finds for `pattern` in
/// `text`, in order: what the first group of the pattern holds in that
/// match, or `None` where the group took no part in it.
pub uninterp spec fn regex_groups(pattern: Seq<char>, text: Seq<char>) -> Seq<Option<Seq<char>>>;

/// Compiles `pattern` with `Regex::new` and searches `text` with it: once
/// with `Regex::split`, once with `Regex::captures_iter`, asking each match
/// for its first group with `Captures::get`.
///
/// Nothing is claimed of the answers but that they are the engine's: `None`
/// is returned exactly where the engine refuses the pattern, and the two
/// lists are what the two searches handed out, copied item by item.
#[verifier::external_body]
pub(crate) fn dissect(pattern: &str, text: &str) -> (found: Option<
    (Vec<String>, Vec<Option<String>>),
>)
    ensures
        found is Some <==> regex_accepts(pattern@),
        found matches Some((between, _)) ==> texts_of(between@) == regex_split(pattern@, text@),
        found matches Some((_, groups)) ==> optional_texts_of(groups@) == regex_groups(
            pattern@,
            text@,
        ),
{
    match Regex::new(pattern) {
        Ok(regex) => Some(
            (
                regex.split(text).map(|part| part.to_owned()).collect(),
                regex.captures_iter(text).map(
                    |found| found.get(1).map(|group| group.as_str().to_owned()),
                ).collect(),
            ),
        ),
        Err(_) => None,
    }
}

} // verus!
