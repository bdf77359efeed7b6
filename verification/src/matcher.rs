//! The pattern engine, and what verified code assumes of it.
//!
//! Patterns are compiled and matched by the `regex` crate. What it returns is
//! a function of the pattern and the haystack alone, but far too long to state
//! here, so both results are named by spec functions without a body. Of the
//! matches the engine's documentation promises just what cutting a line needs:
//! they lie on character boundaries, in order, and do not overlap.

use crate::spans::spans_fit;
use regex::Regex;
use vstd::prelude::*;

verus! {

/// `regex::Regex`: a compiled pattern.
#[verifier::external_type_specification]
#[verifier::external_body]
pub struct ExRegex(Regex);

/// What `Regex::new` makes of a pattern: the compiled expression, or `None`
/// where it returns an error.
pub uninterp spec fn compiled(pattern: Seq<char>) -> Option<Regex>;

/// The matches that `Regex::find_iter` yields for an expression on a
/// haystack, in the order it yields them, each as the byte offsets of its
/// start and its end.
pub uninterp spec fn found(regex: Regex, haystack: Seq<char>) -> Seq<(usize, usize)>;

/// Whether a pattern can be compiled.
pub open spec fn pattern_compiles(pattern: Seq<char>) -> bool {
    compiled(pattern) is Some
}

/// The matches of a pattern that compiles on a haystack.
pub open spec fn match_spans(pattern: Seq<char>, haystack: Seq<char>) -> Seq<(usize, usize)> {
    found(compiled(pattern)->0, haystack)
}

/// `Regex::new`, its error dropped. Trusted: the outcome is the one named
/// `compiled` for this pattern.
#[verifier::external_body]
pub(crate) fn compile(pattern: &str) -> (regex: Option<Regex>)
    ensures
        regex == compiled(pattern@),
{
    Regex::new(pattern).ok()
}

/// `Regex::find_iter`, each match taken by `Match::start` and `Match::end`.
/// Trusted: the matches are the ones named `found`; each starts and ends on a
/// character boundary of the haystack, its start not behind its end; and each
/// ends before the next one starts.
#[verifier::external_body]
pub(crate) fn find_all(regex: &Regex, haystack: &str) -> (spans: Vec<(usize, usize)>)
    ensures
        spans@ == found(*regex, haystack@),
        spans_fit(haystack@, spans@),
{
    regex.find_iter(haystack).map(|m| (m.start(), m.end())).collect()
}

/// Whether `pattern` can be compiled.
pub fn is_valid_pattern(pattern: &str) -> (valid: bool)
    ensures
        valid == pattern_compiles(pattern@),
{
    compile(pattern).is_some()
}

/// The matches of `pattern` on `haystack`, left to right.
pub fn find_spans(pattern: &str, haystack: &str) -> (spans: Vec<(usize, usize)>)
    requires
        pattern_compiles(pattern@),
    ensures
        spans@ == match_spans(pattern@, haystack@),
        spans_fit(haystack@, spans@),
{
    let regex = compile(pattern).unwrap();
    find_all(&regex, haystack)
}

} // verus!
