//! Completion and hinting: what to offer for the text before the cursor.
//!
//! The text is cut at single spaces. While the first word is being typed the
//! command names that begin with it are offered. After that the word under
//! the cursor is an argument, and only an argument that is a choice has words
//! to offer.

use crate::command::{ArgumentModel, ArgumentSpec, CommandModel};
use crate::registry::{lemma_position, lookup, names, CommandRegistry};
use crate::text::{
    chars_of, copy_of, find_char, lemma_prefix_run, lemma_prefix_run_is, prefix_run, push_char,
    split, split_ranges, starts_with, string_of,
};
use vstd::prelude::*;
use vstd::string::{StrSliceExecFns, StringSliceAdditionalSpecFns};
use vstd::utf8::{decode_utf8, encode_utf8, is_char_boundary};

verus! {

/// One completion: the word as it is shown in the list, and the text that
/// replaces what was typed.
#[derive(Debug, PartialEq, Eq)]
pub struct Candidate {
    pub display: String,
    pub replacement: String,
}

/// The mathematical value of a `Candidate`.
pub struct CandidateModel {
    pub display: Seq<char>,
    pub replacement: Seq<char>,
}

impl DeepView for Candidate {
    type V = CandidateModel;

    open spec fn deep_view(&self) -> CandidateModel {
        CandidateModel { display: self.display@, replacement: self.replacement@ }
    }
}

impl View for Candidate {
    type V = CandidateModel;

    open spec fn view(&self) -> CandidateModel {
        self.deep_view()
    }
}

/// The candidate that offers `word`: it is shown as it stands and put in with
/// one space after it.
pub open spec fn candidate(word: Seq<char>) -> CandidateModel {
    CandidateModel { display: word, replacement: word.push(' ') }
}

/// The candidates that `words` give for the partial word `typed`: one for
/// each word that begins with `typed`, in the order of the words.
pub open spec fn candidates(words: Seq<Seq<char>>, typed: Seq<char>) -> Seq<CandidateModel>
    decreases words.len(),
{
    if words.len() == 0 {
        seq![]
    } else {
        let before = candidates(words.drop_last(), typed);
        if typed.is_prefix_of(words.last()) {
            before.push(candidate(words.last()))
        } else {
            before
        }
    }
}

/// The words that an argument can be completed to: the words of a choice, and
/// none for a placeholder.
pub open spec fn choices(arg: ArgumentModel) -> Seq<Seq<char>> {
    match arg {
        ArgumentModel::RequiredChoice(words) => words,
        ArgumentModel::OptionalChoice(words) => words,
        _ => seq![],
    }
}

/// The number of bytes that a text takes in UTF-8.
pub open spec fn utf8_len(s: Seq<char>) -> nat {
    encode_utf8(s).len()
}

/// Whether byte offset `cursor` of `line` stands between two characters, or
/// at one of the ends of the line.
pub open spec fn on_boundary(line: Seq<char>, cursor: int) -> bool {
    is_char_boundary(encode_utf8(line), cursor)
}

/// The text that stands before byte offset `cursor` of `line`, for a cursor
/// on a boundary.
pub open spec fn text_before(line: Seq<char>, cursor: int) -> Seq<char> {
    decode_utf8(encode_utf8(line).subrange(0, cursor))
}

/// What completion offers for a line and a cursor, given as a byte offset:
/// what it offers for the text before the cursor, and nothing for a cursor
/// that stands inside a character or beyond the line.
pub open spec fn completion_at(entries: Seq<CommandModel>, line: Seq<char>, cursor: int) -> (
    nat,
    Seq<CandidateModel>,
) {
    if on_boundary(line, cursor) {
        completion(entries, text_before(line, cursor))
    } else {
        (0, seq![])
    }
}

/// What completion offers for the text `typed` before the cursor: the byte
/// offset from which the candidates replace the text, and the candidates.
///
/// `typed` is cut at each single space, which always leaves at least one
/// word. With one word, the candidates are the command names that begin with
/// it, and they replace the text from its start. With more, the first word
/// must be a command name and the others are its arguments, the last of them
/// under the cursor. Where the command has fewer arguments than words were
/// typed, or is unknown, there is nothing to offer. Otherwise the candidates
/// are the words of the argument under the cursor that begin with what was
/// typed of it, and they replace only that last word.
pub open spec fn completion(entries: Seq<CommandModel>, typed: Seq<char>) -> (
    nat,
    Seq<CandidateModel>,
) {
    let words = split(typed, ' ');
    if words.len() == 1 {
        (0, candidates(names(entries), words[0]))
    } else {
        match lookup(entries, words[0]) {
            Some(args) => {
                let given = words.len() - 1;
                if args.len() < given {
                    (0, seq![])
                } else {
                    (
                        (utf8_len(typed) - utf8_len(words.last())) as nat,
                        candidates(choices(args[given - 1]), words.last()),
                    )
                }
            },
            None => (0, seq![]),
        }
    }
}

/// The predicate "does not begin with `typed`".
pub open spec fn lacks_prefix(typed: Seq<char>) -> spec_fn(Seq<char>) -> bool {
    |word: Seq<char>| !typed.is_prefix_of(word)
}

/// The hint for a line: what is missing of the first command name that begins
/// with the line. There is a hint only while a command name is being typed:
/// the line begins with `/`, is longer than that, and holds no space.
pub open spec fn hint_of(entries: Seq<CommandModel>, line: Seq<char>) -> Option<Seq<char>> {
    if line.len() == 0 || (line.len() == 1 && line[0] == '/') || line[0] != '/' || line.contains(
        ' ',
    ) {
        None
    } else {
        let i = prefix_run(names(entries), lacks_prefix(line));
        if i < entries.len() {
            Some(entries[i as int].name.skip(line.len() as int))
        } else {
            None
        }
    }
}

/// The UTF-8 form of two texts joined is the two forms joined.
pub proof fn lemma_encode_concat(a: Seq<char>, b: Seq<char>)
    ensures
        encode_utf8(a + b) == encode_utf8(a) + encode_utf8(b),
        utf8_len(a + b) == utf8_len(a) + utf8_len(b),
    decreases a.len(),
{
    if a.len() > 0 {
        assert((a + b).drop_first() == a.drop_first() + b);
        lemma_encode_concat(a.drop_first(), b);
    }
}

/// A cursor that stands right after the text `before` has that text before
/// it, whatever follows: its byte offset is the number of bytes of `before`,
/// and it stands between two characters.
pub proof fn lemma_text_before(before: Seq<char>, after: Seq<char>)
    ensures
        on_boundary(before + after, utf8_len(before) as int),
        text_before(before + after, utf8_len(before) as int) == before,
{
    broadcast use {
        vstd::utf8::encode_utf8_valid_utf8,
        vstd::utf8::encode_utf8_decode_utf8,
        vstd::utf8::is_char_boundary_start_end_of_seq,
        vstd::utf8::valid_utf8_concat,
    };

    lemma_encode_concat(before, after);
    let whole = encode_utf8(before) + encode_utf8(after);
    assert(whole.subrange(0, utf8_len(before) as int) == encode_utf8(before));
    lemma_boundary_after(encode_utf8(before), encode_utf8(after));
}

/// Where two UTF-8 texts are joined, a character begins.
proof fn lemma_boundary_after(a: Seq<u8>, b: Seq<u8>)
    requires
        vstd::utf8::valid_utf8(a),
        vstd::utf8::valid_utf8(b),
    ensures
        is_char_boundary(a + b, a.len() as int),
    decreases a.len(),
{
    broadcast use vstd::utf8::valid_utf8_concat;

    if a.len() > 0 {
        let first = vstd::utf8::length_of_first_scalar(a);
        let rest = vstd::utf8::pop_first_scalar(a);
        assert(vstd::utf8::valid_utf8(rest) && 0 < first <= a.len() && rest == a.subrange(
            first,
            a.len() as int,
        )) by {
            reveal_with_fuel(vstd::utf8::valid_utf8, 2);
        }
        assert(vstd::utf8::pop_first_scalar(a + b) == rest + b);
        lemma_boundary_after(rest, b);
    }
}

/// The candidate that offers a word.
pub fn candidate_for(word: &String) -> (c: Candidate)
    ensures
        c@ == candidate(word@),
{
    let mut replacement = word.clone();
    push_char(&mut replacement, ' ');
    Candidate { display: word.clone(), replacement }
}

/// The candidates that `words` give for the partial word `typed`.
pub fn candidates_among(words: &Vec<String>, typed: &Vec<char>) -> (found: Vec<Candidate>)
    ensures
        found.deep_view() == candidates(words.deep_view(), typed@),
{
    let mut found: Vec<Candidate> = Vec::new();
    let mut i: usize = 0;
    while i < words.len()
        invariant
            i <= words.len(),
            found.deep_view() == candidates(words.deep_view().take(i as int), typed@),
        decreases words.len() - i,
    {
        let word = chars_of(words[i].as_str());
        assert(words.deep_view().take(i + 1).drop_last() == words.deep_view().take(i as int));
        if starts_with(&word, 0, word.len(), typed) {
            found.push(candidate_for(&words[i]));
        }
        i += 1;
    }
    assert(words.deep_view().take(words@.len() as int) == words.deep_view());
    found
}

/// The text of `line` before the byte offset `cursor`, where the cursor
/// stands on a boundary.
pub fn text_up_to(line: &str, cursor: usize) -> (typed: Option<&str>)
    ensures
        typed is Some <==> on_boundary(line@, cursor as int),
        typed matches Some(text) ==> text@ == text_before(line@, cursor as int) && utf8_len(text@)
            == cursor,
{
    broadcast use {
        vstd::utf8::encode_utf8_valid_utf8,
        vstd::utf8::encode_utf8_decode_utf8,
    };

    if !line.is_char_boundary(cursor) {
        return None;
    }
    assert(cursor <= line.spec_bytes().len()) by {
        reveal_with_fuel(is_char_boundary, 1);
    }
    let (typed, _) = line.split_at(cursor);
    Some(typed)
}

/// The number of bytes that the first `count` characters of a text take.
fn byte_offset(text: &str, count: usize) -> (offset: usize)
    requires
        count <= text@.len(),
        utf8_len(text@) <= usize::MAX,
    ensures
        offset == utf8_len(text@.take(count as int)),
{
    proof {
        assert(text@.take(count as int) + text@.skip(count as int) == text@);
        lemma_encode_concat(text@.take(count as int), text@.skip(count as int));
    }
    text.substring_char(0, count).len()
}

impl CommandRegistry {
    /// What to offer for the text of `line` before the byte offset `cursor`:
    /// the byte offset from which a candidate replaces the text, and the
    /// candidates.
    pub fn complete(&self, line: &str, cursor: usize) -> (offer: (usize, Vec<Candidate>))
        ensures
            offer.0 == completion_at(self@, line@, cursor as int).0,
            offer.1.deep_view() == completion_at(self@, line@, cursor as int).1,
    {
        let input = match text_up_to(line, cursor) {
            Some(text) => text,
            None => {
                return (0, Vec::new());
            },
        };
        let ghost typed = input@;
        let chars = chars_of(input);
        assert(chars@.subrange(0, chars@.len() as int) == typed);
        let words = split_ranges(&chars, 0, chars.len(), ' ');
        let (first_from, first_to) = words[0];
        if words.len() == 1 {
            return (0, candidates_among(&self.names(), &chars));
        }
        let first = string_of(&chars, first_from, first_to);
        let args = match self.get(first.as_str()) {
            Some(args) => args,
            None => {
                return (0, Vec::new());
            },
        };
        let given = words.len() - 1;
        if args.len() < given {
            return (0, Vec::new());
        }
        let (last_from, last_to) = words[given];
        proof {
            assert(typed.take(last_from as int) + typed.skip(last_from as int) == typed);
            lemma_encode_concat(typed.take(last_from as int), typed.skip(last_from as int));
        }
        let start = byte_offset(input, last_from);
        let last = copy_of(&chars, last_from, last_to);
        let found = match &args[given - 1] {
            ArgumentSpec::RequiredChoice(options) => candidates_among(options, &last),
            ArgumentSpec::OptionalChoice(options) => candidates_among(options, &last),
            _ => Vec::new(),
        };
        (start, found)
    }

    /// The rest of the first command name that begins with `line`, while a
    /// command name is being typed.
    pub fn hint(&self, line: &str) -> (rest: Option<String>)
        ensures
            rest.deep_view() == hint_of(self@, line@),
    {
        let typed = chars_of(line);
        if typed.len() == 0 || typed[0] != '/' || typed.len() == 1 {
            return None;
        }
        if find_char(&typed, 0, typed.len(), ' ') < typed.len() {
            return None;
        }
        let entries = self.entries();
        let ghost listed = names(self@);
        let mut i: usize = 0;
        while i < entries.len()
            invariant
                i <= entries.len(),
                entries.deep_view() == self@,
                listed == names(self@),
                typed@ == line@,
                line@.len() > 1,
                line@[0] == '/',
                !line@.contains(' '),
                forall|j: int| 0 <= j < i ==> lacks_prefix(line@)(#[trigger] listed[j]),
            decreases entries.len() - i,
        {
            let name = chars_of(entries[i].name.as_str());
            if starts_with(&name, 0, name.len(), &typed) {
                proof {
                    lemma_prefix_run_is(listed, lacks_prefix(line@), i as nat);
                }
                return Some(string_of(&name, typed.len(), name.len()));
            }
            i += 1;
        }
        proof {
            lemma_prefix_run_is(listed, lacks_prefix(line@), listed.len());
        }
        None
    }
}

/// Where more words were typed after a command than it has arguments, and
/// where the command is unknown, completion offers nothing.
pub proof fn lemma_nothing_beyond_arguments(entries: Seq<CommandModel>, typed: Seq<char>)
    requires
        split(typed, ' ').len() >= 2,
        match lookup(entries, split(typed, ' ')[0]) {
            Some(args) => args.len() < split(typed, ' ').len() - 1,
            None => true,
        },
    ensures
        completion(entries, typed).1 == Seq::<CandidateModel>::empty(),
{
}

/// A placeholder argument is never completed.
pub proof fn lemma_placeholders_offer_nothing(arg: ArgumentModel, typed: Seq<char>)
    requires
        arg is Required || arg is Optional,
    ensures
        candidates(choices(arg), typed) == Seq::<CandidateModel>::empty(),
{
}

/// Every candidate's replacement is its display text with one space after it,
/// and the display text begins with what was typed.
pub proof fn lemma_candidates_shape(words: Seq<Seq<char>>, typed: Seq<char>, i: int)
    requires
        0 <= i < candidates(words, typed).len(),
    ensures
        candidates(words, typed)[i].replacement == candidates(words, typed)[i].display.push(' '),
        typed.is_prefix_of(candidates(words, typed)[i].display),
        words.contains(candidates(words, typed)[i].display),
    decreases words.len(),
{
    if words.len() > 0 {
        let before = candidates(words.drop_last(), typed);
        if i < before.len() {
            lemma_candidates_shape(words.drop_last(), typed, i);
        }
    }
}

/// Every word that begins with what was typed is offered.
pub proof fn lemma_candidates_cover(words: Seq<Seq<char>>, typed: Seq<char>, k: int)
    requires
        0 <= k < words.len(),
        typed.is_prefix_of(words[k]),
    ensures
        candidates(words, typed).contains(candidate(words[k])),
    decreases words.len(),
{
    let before = candidates(words.drop_last(), typed);
    if k < words.len() - 1 {
        lemma_candidates_cover(words.drop_last(), typed, k);
        let i = choose|i: int| 0 <= i < before.len() && before[i] == candidate(words[k]);
        assert(candidates(words, typed)[i] == candidate(words[k]));
    } else {
        assert(candidates(words, typed)[before.len() as int] == candidate(words[k]));
    }
}

/// A hint completes the line to the name of a command, and there is a hint
/// wherever the line is the beginning of a name, longer than `/` and without
/// a space.
pub proof fn lemma_hint_completes(entries: Seq<CommandModel>, line: Seq<char>)
    ensures
        hint_of(entries, line) matches Some(rest) ==> lookup(entries, line + rest).is_some(),
        line.len() > 1 && line[0] == '/' && !line.contains(' ') ==> (hint_of(entries, line).is_some()
            <==> exists|i: int| 0 <= i < entries.len() && line.is_prefix_of(
            (#[trigger] entries[i]).name,
        )),
{
    let listed = names(entries);
    let i = prefix_run(listed, lacks_prefix(line));
    lemma_prefix_run(listed, lacks_prefix(line));
    if let Some(rest) = hint_of(entries, line) {
        let name = entries[i as int].name;
        assert(line + rest =~= name);
        lemma_position(entries, name);
    }
    if line.len() > 1 && line[0] == '/' && !line.contains(' ') && i >= entries.len() {
        assert forall|k: int| 0 <= k < entries.len() implies !line.is_prefix_of(
            (#[trigger] entries[k]).name,
        ) by {
            assert(lacks_prefix(line)(listed[k]));
        }
    }
}

/// A line that holds a space, and the line `/`, get no hint.
pub proof fn lemma_no_hint(entries: Seq<CommandModel>, line: Seq<char>)
    requires
        line.contains(' ') || line == seq!['/'],
    ensures
        hint_of(entries, line) is None,
{
}

} // verus!
