//! The display form of a response that reports an error.

use crate::text::{chars_of, push_char, skip_white, starts_with, string_of, trim_start};
use vstd::prelude::*;
use vstd::string::StringExecFns;

verus! {

/// How the report of an unknown or unfinished command begins.
pub const UNKNOWN_COMMAND: &'static str = "Unknown or incomplete command, see below for error";

/// How the report of a wrong argument begins.
pub const INCORRECT_ARGUMENT: &'static str = "Incorrect argument for command";

/// A report that begins with `heading`, set on two lines: the heading, a line
/// break, and what follows the heading without its leading whitespace.
pub open spec fn two_lines(heading: Seq<char>, body: Seq<char>) -> Seq<char> {
    heading + seq!['\n'] + trim_start(body.skip(heading.len() as int))
}

/// The display form of a response. A response that begins with one of the two
/// error headings is set on two lines; any other is shown as it is.
pub open spec fn generic_response(body: Seq<char>) -> Seq<char> {
    if UNKNOWN_COMMAND@.is_prefix_of(body) {
        two_lines(UNKNOWN_COMMAND@, body)
    } else if INCORRECT_ARGUMENT@.is_prefix_of(body) {
        two_lines(INCORRECT_ARGUMENT@, body)
    } else {
        body
    }
}

/// `body` set on two lines where it begins with `heading`.
fn set_on_two_lines(body: &Vec<char>, heading: &'static str) -> (shown: Option<String>)
    ensures
        shown.deep_view() == if heading@.is_prefix_of(body@) {
            Some(two_lines(heading@, body@))
        } else {
            None
        },
{
    let start = chars_of(heading);
    if !starts_with(body, 0, body.len(), &start) {
        return None;
    }
    let from = skip_white(body, start.len(), body.len());
    let mut shown = heading.to_owned();
    push_char(&mut shown, '\n');
    shown.append(string_of(body, from, body.len()).as_str());
    assert(body@.subrange(start@.len() as int, body@.len() as int) == body@.skip(
        heading@.len() as int,
    ));
    Some(shown)
}

/// The display form of a response: an error report is set on two lines, the
/// heading and what follows it; any other response is shown as it is.
pub fn format_generic_response(body: &str) -> (shown: String)
    ensures
        shown@ == generic_response(body@),
{
    let chars = chars_of(body);
    if let Some(shown) = set_on_two_lines(&chars, UNKNOWN_COMMAND) {
        return shown;
    }
    if let Some(shown) = set_on_two_lines(&chars, INCORRECT_ARGUMENT) {
        return shown;
    }
    body.to_owned()
}

} // verus!
