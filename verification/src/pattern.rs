//! Regular expressions, by the `regex` crate.
use vstd::prelude::*;

verus! {

/// Whether a text is a regular expression that `regex` compiles.
pub uninterp spec fn pattern_valid(pattern: Seq<char>) -> bool;

/// Whether the regular expression finds a match somewhere in a text.
pub uninterp spec fn pattern_finds(pattern: Seq<char>, haystack: Seq<char>) -> bool;

/// Whether a text compiles: `regex::Regex::new`. Whether it does depends on the
/// text alone.
#[verifier::external_body]
pub(crate) fn is_pattern(pattern: &str) -> (r: bool)
    ensures
        r == pattern_valid(pattern@),
{
    regex::Regex::new(pattern).is_ok()
}

/// Whether a text matches: `regex::Regex::is_match` of the compiled pattern,
/// which depends on the pattern and the text alone. A text that does not
/// compile matches nothing.
#[verifier::external_body]
pub(crate) fn finds(pattern: &str, haystack: &str) -> (r: bool)
    ensures
        r == (pattern_valid(pattern@) && pattern_finds(pattern@, haystack@)),
{
    regex::Regex::new(pattern).is_ok_and(|compiled| compiled.is_match(haystack))
}

} // verus!
