//! Highlighting: the first word of a line is marked where it is a command
//! that the registry knows.

use crate::command::CommandModel;
use crate::registry::{lookup, CommandRegistry};
use crate::text::{
    chars_of, is_not_white, is_white, lemma_prefix_run, prefix_run, skip_non_white, skip_white,
    string_of,
};
use vstd::prelude::*;
use vstd::string::StringExecFns;

verus! {

/// The mark put before a command in a candidate that is being offered: yellow.
pub const SUGGESTION_STYLE: &'static str = "\x1b[33m";

/// The mark put before a command that stands on the input line: green.
pub const PRESENT_STYLE: &'static str = "\x1b[32m";

/// The mark put after a command: back to the terminal's own style.
pub const RESET_STYLE: &'static str = "\x1b[0m";

/// The mark that goes before a known command.
pub open spec fn style(is_suggestion: bool) -> Seq<char> {
    if is_suggestion {
        SUGGESTION_STYLE@
    } else {
        PRESENT_STYLE@
    }
}

/// Where the first word of a text begins: after the leading whitespace.
pub open spec fn word_start(text: Seq<char>) -> int {
    prefix_run(text, is_white()) as int
}

/// Where the first word of a text ends: at the first whitespace after its
/// beginning, or at the end of the text.
pub open spec fn word_end(text: Seq<char>) -> int {
    word_start(text) + prefix_run(text.skip(word_start(text)), is_not_white())
}

/// The first word of a text. It is empty only where the text holds nothing
/// but whitespace.
pub open spec fn first_word(text: Seq<char>) -> Seq<char> {
    text.subrange(word_start(text), word_end(text))
}

/// The display form of a text. Where the first word is the name of a command
/// in the registry, the mark for the style stands before the word and the
/// reset mark after it; everything else is as it was. Where it is not, or
/// where there is no word, the text is unchanged.
pub open spec fn highlighted(
    entries: Seq<CommandModel>,
    text: Seq<char>,
    is_suggestion: bool,
) -> Seq<char> {
    if word_start(text) < text.len() && lookup(entries, first_word(text)).is_some() {
        text.take(word_start(text)) + style(is_suggestion) + first_word(text) + RESET_STYLE@
            + text.skip(word_end(text))
    } else {
        text
    }
}

/// The bounds of the first word stay within the text, the word holds no
/// whitespace, and whitespace or the end of the text follows it.
pub proof fn lemma_first_word(text: Seq<char>)
    ensures
        0 <= word_start(text) <= word_end(text) <= text.len(),
        word_start(text) < text.len() ==> word_start(text) < word_end(text),
        text.take(word_start(text)) + first_word(text) + text.skip(word_end(text)) == text,
{
    lemma_prefix_run(text, is_white());
    lemma_prefix_run(text.skip(word_start(text)), is_not_white());
}

/// The display form of `s`.
///
/// The first word of `s` is marked where the registry has a command of that
/// name: with the style for a candidate that is offered where
/// `is_suggestion` holds, with the style for text on the input line where it
/// does not. Nothing else of `s` changes.
pub fn highlight_command(registry: &CommandRegistry, s: &str, is_suggestion: bool) -> (shown:
    String)
    ensures
        shown@ == highlighted(registry@, s@, is_suggestion),
{
    let chars = chars_of(s);
    let from = skip_white(&chars, 0, chars.len());
    assert(chars@.subrange(0, chars@.len() as int) == s@);
    if from == chars.len() {
        return string_of(&chars, 0, chars.len());
    }
    let to = skip_non_white(&chars, from, chars.len());
    let word = string_of(&chars, from, to);
    if !registry.contains(word.as_str()) {
        return string_of(&chars, 0, chars.len());
    }
    let mut shown = string_of(&chars, 0, from);
    if is_suggestion {
        shown.append(SUGGESTION_STYLE);
    } else {
        shown.append(PRESENT_STYLE);
    }
    shown.append(word.as_str());
    shown.append(RESET_STYLE);
    shown.append(string_of(&chars, to, chars.len()).as_str());
    shown
}

/// Highlighting adds marks and takes nothing away: the result is the text
/// itself, or the text with one mark before its first word and one after.
pub proof fn lemma_highlight_keeps_text(
    entries: Seq<CommandModel>,
    text: Seq<char>,
    is_suggestion: bool,
)
    ensures
        lookup(entries, first_word(text)).is_none() ==> highlighted(entries, text, is_suggestion)
            == text,
        word_start(text) == text.len() ==> highlighted(entries, text, is_suggestion) == text,
        highlighted(entries, text, is_suggestion) != text ==> {
            let shown = highlighted(entries, text, is_suggestion);
            let a = word_start(text);
            let b = word_end(text);
            let m = style(is_suggestion).len() as int;
            &&& lookup(entries, first_word(text)).is_some()
            &&& shown.len() == text.len() + m + RESET_STYLE@.len()
            &&& shown.take(a) == text.take(a)
            &&& shown.subrange(a, a + m) == style(is_suggestion)
            &&& shown.subrange(a + m, b + m) == first_word(text)
            &&& shown.subrange(b + m, b + m + RESET_STYLE@.len()) == RESET_STYLE@
            &&& shown.skip(b + m + RESET_STYLE@.len()) == text.skip(b)
        },
{
    lemma_first_word(text);
}

} // verus!
