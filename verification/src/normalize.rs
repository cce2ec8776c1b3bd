//! Repair of a command listing whose entries run together on one line.
//!
//! Every command begins with `/`. A `/` that stands in the middle of a line
//! therefore begins a new entry, and a line break is put before it.

use crate::text::{
    chars_of, lemma_trim_bounds, lemma_trim_idempotent, string_of, trim, trim_range,
};
use vstd::prelude::*;

verus! {

/// Whether a line break is put before position `i` of `s`: the character
/// there is `/`, it is not the first of the text, and it does not follow a
/// line break already.
pub open spec fn breaks_before(s: Seq<char>, i: int) -> bool {
    0 < i < s.len() && s[i] == '/' && s[i - 1] != '\n'
}

/// `s` with the line breaks put in.
pub open spec fn insert_breaks(s: Seq<char>) -> Seq<char>
    decreases s.len(),
{
    if s.len() == 0 {
        s
    } else if breaks_before(s, s.len() - 1) {
        insert_breaks(s.drop_last()) + seq!['\n', '/']
    } else {
        insert_breaks(s.drop_last()).push(s.last())
    }
}

/// The normal form of a listing: the line breaks are put in, and then the
/// whitespace at both ends is taken off.
pub open spec fn normalized(s: Seq<char>) -> Seq<char> {
    trim(insert_breaks(s))
}

/// The number of line breaks that are put before the positions `1..=i`.
pub open spec fn breaks_upto(s: Seq<char>, i: int) -> nat
    decreases i,
{
    if i <= 0 {
        0
    } else {
        breaks_upto(s, i - 1) + if breaks_before(s, i) {
            1nat
        } else {
            0nat
        }
    }
}

/// Every `/` of the text is its first character or follows a line break.
pub open spec fn line_initial(s: Seq<char>) -> bool {
    forall|k: int| 0 < k < s.len() && #[trigger] s[k] == '/' ==> s[k - 1] == '\n'
}

/// The normal form of a listing.
///
/// A line break is put before every `/` that is neither the first character
/// of `body` nor preceded by a line break; every character of `body` is kept,
/// in order. Then the result is trimmed.
pub fn format_help_response(body: &str) -> (fixed: String)
    ensures
        fixed@ == normalized(body@),
{
    let chars = chars_of(body);
    let mut out: Vec<char> = Vec::new();
    let mut i: usize = 0;
    while i < chars.len()
        invariant
            i <= chars.len(),
            chars@ == body@,
            out@ == insert_breaks(body@.take(i as int)),
        decreases chars.len() - i,
    {
        let c = chars[i];
        assert(body@.take(i + 1).drop_last() == body@.take(i as int));
        if c == '/' && i > 0 && chars[i - 1] != '\n' {
            out.push('\n');
        }
        out.push(c);
        i += 1;
    }
    assert(body@.take(body@.len() as int) == body@);
    let (a, b) = trim_range(&out, 0, out.len());
    assert(out@.subrange(0, out@.len() as int) == out@);
    string_of(&out, a, b)
}

/// The breaks before the positions up to `i` depend only on the characters up
/// to `i`.
proof fn lemma_breaks_upto_prefix(s: Seq<char>, n: int, i: int)
    requires
        0 <= i < n <= s.len(),
    ensures
        breaks_upto(s.take(n), i) == breaks_upto(s, i),
    decreases i,
{
    if i > 0 {
        lemma_breaks_upto_prefix(s, n, i - 1);
    }
}

/// Putting the breaks in lengthens the text by the number of breaks, and the
/// text still ends with its last character.
proof fn lemma_insert_breaks_len(s: Seq<char>)
    ensures
        insert_breaks(s).len() == s.len() + breaks_upto(s, s.len() - 1),
        s.len() > 0 ==> insert_breaks(s).len() > 0 && insert_breaks(s).last() == s.last(),
    decreases s.len(),
{
    if s.len() > 0 {
        lemma_insert_breaks_len(s.drop_last());
        if s.len() > 1 {
            lemma_breaks_upto_prefix(s, s.len() - 1, s.len() - 2);
        }
    }
}

/// Where the characters of a text stand once the breaks are put in.
///
/// Character `i` of `s` stands at position `i` plus the number of breaks put
/// before the positions up to `i`. So the first character stays first, and
/// between two neighbours there is one more character, a line break, exactly
/// where a break is due, and none elsewhere. Nothing follows the last
/// character.
pub proof fn lemma_breaks_placement(s: Seq<char>, i: int)
    requires
        0 <= i < s.len(),
    ensures
        insert_breaks(s).len() == s.len() + breaks_upto(s, s.len() - 1),
        i + breaks_upto(s, i) < insert_breaks(s).len(),
        insert_breaks(s)[i + breaks_upto(s, i)] == s[i],
        breaks_before(s, i) ==> insert_breaks(s)[i + breaks_upto(s, i) - 1] == '\n',
        breaks_upto(s, 0) == 0,
        i > 0 ==> breaks_upto(s, i) == breaks_upto(s, i - 1) + if breaks_before(s, i) {
            1nat
        } else {
            0nat
        },
    decreases s.len(),
{
    let t = s.drop_last();
    lemma_insert_breaks_len(s);
    lemma_insert_breaks_len(t);
    if i < s.len() - 1 {
        lemma_breaks_placement(t, i);
        lemma_breaks_upto_prefix(s, s.len() - 1, i);
    } else if s.len() > 1 {
        lemma_breaks_upto_prefix(s, s.len() - 1, s.len() - 2);
    }
}

/// Once the breaks are put in, every `/` begins a line.
pub proof fn lemma_insert_breaks_line_initial(s: Seq<char>)
    ensures
        line_initial(insert_breaks(s)),
    decreases s.len(),
{
    if s.len() > 0 {
        lemma_insert_breaks_line_initial(s.drop_last());
        lemma_insert_breaks_len(s.drop_last());
    }
}

/// A text in which every `/` begins a line gets no breaks.
pub proof fn lemma_line_initial_fixed(s: Seq<char>)
    requires
        line_initial(s),
    ensures
        insert_breaks(s) == s,
    decreases s.len(),
{
    if s.len() > 0 {
        lemma_line_initial_fixed(s.drop_last());
    }
}

/// Normalizing twice is normalizing once.
pub proof fn lemma_normalize_idempotent(x: Seq<char>)
    ensures
        normalized(normalized(x)) == normalized(x),
{
    lemma_insert_breaks_line_initial(x);
    lemma_trim_bounds(insert_breaks(x));
    lemma_line_initial_fixed(normalized(x));
    lemma_trim_idempotent(insert_breaks(x));
}

} // verus!
