//! The pattern engine a selection is refined through.
//!
//! A compiled pattern is opaque; what matters to the selection algebra is
//! named here: whether a pattern matches somewhere in a string, and the run
//! of successive, non-overlapping match spans it finds, as byte offsets into
//! the string's UTF-8 encoding. Match spans always land on character
//! boundaries, which is what makes translating them back into character
//! offsets safe.
use regex::Regex;
use vstd::prelude::*;

use crate::text::byte_len_of_prefix;
use crate::text::is_byte_boundary;

verus! {

#[verifier::external_type_specification]
#[verifier::external_body]
pub struct ExRegex(Regex);

/// The pattern string the compiled pattern was built from.
pub uninterp spec fn pattern_of(re: Regex) -> Seq<char>;

/// Whether the pattern matches anywhere in the string.
pub uninterp spec fn found_in(pattern: Seq<char>, hay: Seq<char>) -> bool;

/// The successive non-overlapping match spans of the pattern over the
/// string, leftmost first, as byte-offset pairs into its UTF-8 encoding.
pub uninterp spec fn match_spans(pattern: Seq<char>, hay: Seq<char>) -> Seq<(usize, usize)>;

/// Relies on regex's `Regex::is_match`: true if and only if there is a match
/// anywhere in the haystack.
#[verifier::external_body]
pub fn regex_is_match(re: &Regex, hay: &str) -> (r: bool)
    ensures
        r == found_in(pattern_of(*re), hay@),
{
    re.is_match(hay)
}

/// Relies on regex's `Regex::find_iter` and `Match::start`/`Match::end`: the
/// successive non-overlapping matches, leftmost first; each span is a
/// byte-offset pair on character boundaries of the haystack, spans do not
/// overlap, and a later match starts strictly after an earlier one.
#[verifier::external_body]
pub fn regex_find_spans(re: &Regex, hay: &str) -> (r: Vec<(usize, usize)>)
    ensures
        r@ == match_spans(pattern_of(*re), hay@),
        forall|i: int|
            0 <= i < r@.len() ==> (#[trigger] r@[i]).0 <= r@[i].1 && is_byte_boundary(
                hay@,
                r@[i].0 as int,
            ) && is_byte_boundary(hay@, r@[i].1 as int) && r@[i].1 <= byte_len_of_prefix(
                hay@,
                hay@.len() as int,
            ),
        forall|i: int|
            0 <= i < r@.len() - 1 ==> (#[trigger] r@[i]).1 <= r@[i + 1].0 && r@[i].0 < r@[i
                + 1].0,
{
    re.find_iter(hay).map(|m| (m.start(), m.end())).collect()
}

} // verus!
