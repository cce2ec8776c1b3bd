//! Regular expressions, compiled and matched by the `regex` crate.
//!
//! What an expression matches in a text is not restated here. Whether a
//! source is accepted, the compiled expression and each result of matching
//! have a name, and the three functions at the end of this file are believed
//! to return the values of those names. Besides them the crate believes one
//! function only, `push_char` in `text`.

use regex::Regex;
use vstd::prelude::*;

verus! {

/// A compiled expression, carried through as an opaque value.
#[verifier::external_type_specification]
#[verifier::external_body]
pub struct ExRegex(regex::Regex);

/// The expression compiler's error, carried through as an opaque value.
#[verifier::external_type_specification]
#[verifier::external_body]
pub struct ExRegexError(regex::Error);

/// What one group of a match covers: the byte offsets where it starts and
/// ends in the text that was searched, and the text between them.
#[derive(Debug, PartialEq, Eq)]
pub struct Capture {
    pub start: usize,
    pub end: usize,
    pub text: String,
}

/// The mathematical value of a `Capture`.
pub struct CaptureModel {
    pub start: int,
    pub end: int,
    pub text: Seq<char>,
}

impl DeepView for Capture {
    type V = CaptureModel;

    open spec fn deep_view(&self) -> CaptureModel {
        CaptureModel { start: self.start as int, end: self.end as int, text: self.text@ }
    }
}

impl View for Capture {
    type V = CaptureModel;

    open spec fn view(&self) -> CaptureModel {
        self.deep_view()
    }
}

/// The groups of one match, in the order of their opening parentheses, the
/// whole match first. A group that took no part in the match is `None`.
pub type Groups = Seq<Option<CaptureModel>>;

/// Whether `Regex::new` accepts the source `pattern`: it is well formed, and
/// what it compiles to stays within the size that `Regex::new` allows.
pub uninterp spec fn accepted(pattern: Seq<char>) -> bool;

/// The expression that `Regex::new` builds from the source `pattern`, where it
/// accepts it.
pub uninterp spec fn compiled(pattern: Seq<char>) -> Regex;

/// The leftmost match of an expression in `text`, or `None` where the text
/// holds no match: what `Regex::captures` finds.
pub uninterp spec fn first_match(expression: Regex, text: Seq<char>) -> Option<Groups>;

/// The successive matches of an expression in `text`, none of them
/// overlapping another, from left to right: what `Regex::captures_iter`
/// yields.
pub uninterp spec fn all_matches(expression: Regex, text: Seq<char>) -> Seq<Groups>;

/// Group `i` of a match, `None` where the match has no such group or the group
/// took no part.
pub open spec fn group(groups: Groups, i: int) -> Option<CaptureModel> {
    if 0 <= i < groups.len() {
        groups[i]
    } else {
        None
    }
}

/// `Regex::new`. The error is the compiler's, for a source that it refuses.
/// Whether it accepts a source depends on the source alone, and `accepted`
/// names the answer. What it builds from a source that it accepts is the
/// value that `compiled` names: the same source always gives the same
/// expression.
#[verifier::external_body]
pub(crate) fn compile(pattern: &str) -> (built: Result<Regex, regex::Error>)
    ensures
        built is Ok <==> accepted(pattern@),
        built matches Ok(expression) ==> expression == compiled(pattern@),
{
    Regex::new(pattern)
}

/// `Regex::captures`. Each group of the match is copied out: `Match::start`,
/// `Match::end` and `Match::as_str`. The result is the value that
/// `first_match` names: it depends on the expression and the text alone.
#[verifier::external_body]
pub(crate) fn captures(expression: &Regex, text: &str) -> (found: Option<Vec<Option<Capture>>>)
    ensures
        found.deep_view() == first_match(*expression, text@),
{
    let copy = |m: regex::Match|
        Capture { start: m.start(), end: m.end(), text: m.as_str().to_string() };
    expression.captures(text).map(|c| c.iter().map(|g| g.map(copy)).collect())
}

/// `Regex::captures_iter`. Each group of each match is copied out:
/// `Match::start`, `Match::end` and `Match::as_str`. The result is the value
/// that `all_matches` names: it depends on the expression and the text alone.
#[verifier::external_body]
pub(crate) fn captures_iter(expression: &Regex, text: &str) -> (found: Vec<Vec<Option<Capture>>>)
    ensures
        found.deep_view() == all_matches(*expression, text@),
{
    let copy = |m: regex::Match|
        Capture { start: m.start(), end: m.end(), text: m.as_str().to_string() };
    expression.captures_iter(text).map(|c| c.iter().map(|g| g.map(copy)).collect()).collect()
}

} // verus!
