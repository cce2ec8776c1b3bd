//! Character sequences: runs, trimming, splitting, and the conversions between
//! strings and character vectors that the rest of the crate builds on.
//!
//! Every contract in the crate speaks of text as a `Seq<char>`, the view of a
//! `str` or `String`. The executable functions scan a `Vec<char>` by index.

use vstd::prelude::*;

verus! {

/// Whether a character is whitespace: one of the characters with the Unicode
/// property `White_Space`. They are the controls from tab to carriage return,
/// the space, the next-line control, the no-break space, the Ogham space
/// mark, the spaces from en quad to hair space, the line and paragraph
/// separators, the narrow no-break space, the medium mathematical space and
/// the ideographic space.
pub open spec fn white_space(c: char) -> bool {
    ||| '\u{9}' <= c <= '\u{d}'
    ||| c == ' '
    ||| c == '\u{85}'
    ||| c == '\u{a0}'
    ||| c == '\u{1680}'
    ||| '\u{2000}' <= c <= '\u{200a}'
    ||| c == '\u{2028}'
    ||| c == '\u{2029}'
    ||| c == '\u{202f}'
    ||| c == '\u{205f}'
    ||| c == '\u{3000}'
}

/// The predicate "is whitespace".
pub open spec fn is_white() -> spec_fn(char) -> bool {
    |c: char| white_space(c)
}

/// The predicate "is not whitespace".
pub open spec fn is_not_white() -> spec_fn(char) -> bool {
    |c: char| !white_space(c)
}

/// The predicate "differs from `sep`".
pub open spec fn is_not(sep: char) -> spec_fn(char) -> bool {
    |c: char| c != sep
}

/// Length of the longest prefix of `s` whose items all satisfy `p`.
pub open spec fn prefix_run<T>(s: Seq<T>, p: spec_fn(T) -> bool) -> nat
    decreases s.len(),
{
    if s.len() > 0 && p(s[0]) {
        1 + prefix_run(s.drop_first(), p)
    } else {
        0
    }
}

/// Length of the longest suffix of `s` whose items all satisfy `p`.
pub open spec fn suffix_run<T>(s: Seq<T>, p: spec_fn(T) -> bool) -> nat
    decreases s.len(),
{
    if s.len() > 0 && p(s.last()) {
        1 + suffix_run(s.drop_last(), p)
    } else {
        0
    }
}

/// `s` without its leading whitespace.
pub open spec fn trim_start(s: Seq<char>) -> Seq<char> {
    s.skip(prefix_run(s, is_white()) as int)
}

/// `s` without its trailing whitespace.
pub open spec fn trim_end(s: Seq<char>) -> Seq<char> {
    s.take(s.len() - suffix_run(s, is_white()))
}

/// `s` without its leading and trailing whitespace.
pub open spec fn trim(s: Seq<char>) -> Seq<char> {
    trim_end(trim_start(s))
}

/// The pieces of `s` between occurrences of `sep`. There is always at least one
/// piece; two adjacent separators enclose an empty piece.
pub open spec fn split(s: Seq<char>, sep: char) -> Seq<Seq<char>>
    decreases s.len(),
{
    let i = prefix_run(s, is_not(sep));
    if i >= s.len() {
        seq![s]
    } else {
        seq![s.take(i as int)] + split(s.skip((i + 1) as int), sep)
    }
}

/// A prefix run stops within the sequence, covers only items that satisfy the
/// predicate, and ends at the first item that does not.
pub proof fn lemma_prefix_run<T>(s: Seq<T>, p: spec_fn(T) -> bool)
    ensures
        prefix_run(s, p) <= s.len(),
        forall|i: int| 0 <= i < prefix_run(s, p) ==> p(#[trigger] s[i]),
        prefix_run(s, p) < s.len() ==> !p(s[prefix_run(s, p) as int]),
    decreases s.len(),
{
    if s.len() > 0 && p(s[0]) {
        let t = s.drop_first();
        lemma_prefix_run(t, p);
        assert forall|i: int| 0 <= i < prefix_run(s, p) implies p(#[trigger] s[i]) by {
            if i > 0 {
                assert(s[i] == t[i - 1]);
            }
        }
    }
}

/// The position where a prefix run stops is the only one with the properties
/// that `lemma_prefix_run` states.
pub proof fn lemma_prefix_run_is<T>(s: Seq<T>, p: spec_fn(T) -> bool, k: nat)
    requires
        k <= s.len(),
        forall|i: int| 0 <= i < k ==> p(#[trigger] s[i]),
        k < s.len() ==> !p(s[k as int]),
    ensures
        prefix_run(s, p) == k,
    decreases s.len(),
{
    if k > 0 {
        lemma_prefix_run_is(s.drop_first(), p, (k - 1) as nat);
    }
}

/// A suffix run stays within the sequence, covers only items that satisfy the
/// predicate, and is preceded by an item that does not.
pub proof fn lemma_suffix_run<T>(s: Seq<T>, p: spec_fn(T) -> bool)
    ensures
        suffix_run(s, p) <= s.len(),
        forall|i: int| s.len() - suffix_run(s, p) <= i < s.len() ==> p(#[trigger] s[i]),
        suffix_run(s, p) < s.len() ==> !p(s[s.len() - suffix_run(s, p) - 1]),
    decreases s.len(),
{
    if s.len() > 0 && p(s.last()) {
        let t = s.drop_last();
        lemma_suffix_run(t, p);
        assert forall|i: int| s.len() - suffix_run(s, p) <= i < s.len() implies p(
            #[trigger] s[i],
        ) by {
            if i < s.len() - 1 {
                assert(s[i] == t[i]);
            }
        }
    }
}

/// The length of a suffix run is the only one with the properties that
/// `lemma_suffix_run` states.
pub proof fn lemma_suffix_run_is<T>(s: Seq<T>, p: spec_fn(T) -> bool, k: nat)
    requires
        k <= s.len(),
        forall|i: int| s.len() - k <= i < s.len() ==> p(#[trigger] s[i]),
        k < s.len() ==> !p(s[s.len() - k - 1]),
    ensures
        suffix_run(s, p) == k,
    decreases s.len(),
{
    if k > 0 {
        lemma_suffix_run_is(s.drop_last(), p, (k - 1) as nat);
    }
}

/// Trimming yields a contiguous part of the text that neither begins nor ends
/// with whitespace.
pub proof fn lemma_trim_bounds(s: Seq<char>)
    ensures
        prefix_run(s, is_white()) + suffix_run(trim_start(s), is_white()) <= s.len(),
        trim(s) == s.subrange(
            prefix_run(s, is_white()) as int,
            s.len() - suffix_run(trim_start(s), is_white()),
        ),
        trim(s).len() > 0 ==> !white_space(trim(s)[0]) && !white_space(trim(s).last()),
{
    lemma_prefix_run(s, is_white());
    lemma_suffix_run(trim_start(s), is_white());
}

/// Trimming twice is trimming once.
pub proof fn lemma_trim_idempotent(s: Seq<char>)
    ensures
        trim(trim(s)) == trim(s),
{
    lemma_trim_bounds(s);
    lemma_prefix_run_is(trim(s), is_white(), 0);
    lemma_suffix_run_is(trim(s), is_white(), 0);
}

/// Splitting always yields at least one piece.
pub proof fn lemma_split_nonempty(s: Seq<char>, sep: char)
    ensures
        split(s, sep).len() >= 1,
    decreases s.len(),
{
    let i = prefix_run(s, is_not(sep));
    if i < s.len() {
        lemma_split_nonempty(s.skip((i + 1) as int), sep);
    }
}

/// A text without the separator is its own single piece, and a text with one
/// splits at the first: the piece before it, then the pieces of what follows.
pub proof fn lemma_split_at(s: Seq<char>, sep: char, i: int)
    requires
        0 <= i <= s.len(),
        forall|j: int| 0 <= j < i ==> #[trigger] s[j] != sep,
        i < s.len() ==> s[i] == sep,
    ensures
        i == s.len() ==> split(s, sep) == seq![s],
        i < s.len() ==> split(s, sep) == seq![s.take(i)] + split(s.skip(i + 1), sep),
{
    lemma_prefix_run_is(s, is_not(sep), i as nat);
}

/// Whether a character is whitespace.
pub fn is_white_space(c: char) -> (b: bool)
    ensures
        b == white_space(c),
{
    ('\u{9}' <= c && c <= '\u{d}') || c == ' ' || c == '\u{85}' || c == '\u{a0}' || c == '\u{1680}'
        || ('\u{2000}' <= c && c <= '\u{200a}') || c == '\u{2028}' || c == '\u{2029}' || c
        == '\u{202f}' || c == '\u{205f}' || c == '\u{3000}'
}

/// `String::push`: the character is added at the end of the string and what
/// was there stays.
#[verifier::external_body]
pub(crate) fn push_char(s: &mut String, c: char)
    ensures
        final(s)@ == old(s)@.push(c),
{
    s.push(c)
}

/// The characters of a string, in order.
pub fn chars_of(s: &str) -> (out: Vec<char>)
    ensures
        out@ == s@,
{
    let mut out: Vec<char> = Vec::new();
    for c in it: s.chars()
        invariant
            it.seq() == s@,
            out@ == s@.take(it.index() as int),
    {
        out.push(c);
    }
    out
}

/// The string made of the characters `chars[from..to]`.
pub fn string_of(chars: &Vec<char>, from: usize, to: usize) -> (out: String)
    requires
        from <= to <= chars.len(),
    ensures
        out@ == chars@.subrange(from as int, to as int),
{
    let mut out = String::new();
    let mut i: usize = from;
    while i < to
        invariant
            from <= i <= to <= chars.len(),
            out@ == chars@.subrange(from as int, i as int),
        decreases to - i,
    {
        push_char(&mut out, chars[i]);
        i += 1;
    }
    out
}

/// The characters `chars[from..to]`, copied.
pub fn copy_of(chars: &Vec<char>, from: usize, to: usize) -> (out: Vec<char>)
    requires
        from <= to <= chars.len(),
    ensures
        out@ == chars@.subrange(from as int, to as int),
{
    let mut out: Vec<char> = Vec::new();
    let mut i: usize = from;
    while i < to
        invariant
            from <= i <= to <= chars.len(),
            out@ == chars@.subrange(from as int, i as int),
        decreases to - i,
    {
        out.push(chars[i]);
        i += 1;
    }
    out
}

/// The first index in `from..to` whose character is not whitespace, or `to`.
pub fn skip_white(chars: &Vec<char>, from: usize, to: usize) -> (r: usize)
    requires
        from <= to <= chars.len(),
    ensures
        r == from + prefix_run(chars@.subrange(from as int, to as int), is_white()),
        from <= r <= to,
{
    let ghost part = chars@.subrange(from as int, to as int);
    let mut i: usize = from;
    while i < to && is_white_space(chars[i])
        invariant
            from <= i <= to <= chars.len(),
            part == chars@.subrange(from as int, to as int),
            forall|j: int| 0 <= j < i - from ==> is_white()(#[trigger] part[j]),
        decreases to - i,
    {
        i += 1;
    }
    proof {
        lemma_prefix_run_is(part, is_white(), (i - from) as nat);
    }
    i
}

/// The first index in `from..to` whose character is whitespace, or `to`.
pub fn skip_non_white(chars: &Vec<char>, from: usize, to: usize) -> (r: usize)
    requires
        from <= to <= chars.len(),
    ensures
        r == from + prefix_run(chars@.subrange(from as int, to as int), is_not_white()),
        from <= r <= to,
{
    let ghost part = chars@.subrange(from as int, to as int);
    let mut i: usize = from;
    while i < to && !is_white_space(chars[i])
        invariant
            from <= i <= to <= chars.len(),
            part == chars@.subrange(from as int, to as int),
            forall|j: int| 0 <= j < i - from ==> is_not_white()(#[trigger] part[j]),
        decreases to - i,
    {
        i += 1;
    }
    proof {
        lemma_prefix_run_is(part, is_not_white(), (i - from) as nat);
    }
    i
}

/// The end of `from..to` once its trailing whitespace is left out.
pub fn skip_white_back(chars: &Vec<char>, from: usize, to: usize) -> (r: usize)
    requires
        from <= to <= chars.len(),
    ensures
        r == to - suffix_run(chars@.subrange(from as int, to as int), is_white()),
        from <= r <= to,
{
    let ghost part = chars@.subrange(from as int, to as int);
    let mut i: usize = to;
    while i > from && is_white_space(chars[i - 1])
        invariant
            from <= i <= to <= chars.len(),
            part == chars@.subrange(from as int, to as int),
            forall|j: int| i - from <= j < to - from ==> is_white()(#[trigger] part[j]),
        decreases i - from,
    {
        i -= 1;
    }
    proof {
        lemma_suffix_run_is(part, is_white(), (to - i) as nat);
    }
    i
}

/// The first index in `from..to` that holds `sep`, or `to`.
pub fn find_char(chars: &Vec<char>, from: usize, to: usize, sep: char) -> (r: usize)
    requires
        from <= to <= chars.len(),
    ensures
        r == from + prefix_run(chars@.subrange(from as int, to as int), is_not(sep)),
        from <= r <= to,
        r < to ==> chars@[r as int] == sep,
        forall|j: int| from <= j < r ==> chars@[j] != sep,
{
    let ghost part = chars@.subrange(from as int, to as int);
    let mut i: usize = from;
    while i < to && chars[i] != sep
        invariant
            from <= i <= to <= chars.len(),
            part == chars@.subrange(from as int, to as int),
            forall|j: int| 0 <= j < i - from ==> is_not(sep)(#[trigger] part[j]),
            forall|j: int| from <= j < i ==> chars@[j] != sep,
        decreases to - i,
    {
        i += 1;
    }
    proof {
        lemma_prefix_run_is(part, is_not(sep), (i - from) as nat);
    }
    i
}

/// The bounds of `chars[from..to]` once trimmed.
pub fn trim_range(chars: &Vec<char>, from: usize, to: usize) -> (r: (usize, usize))
    requires
        from <= to <= chars.len(),
    ensures
        from <= r.0 <= r.1 <= to,
        chars@.subrange(r.0 as int, r.1 as int) == trim(chars@.subrange(from as int, to as int)),
{
    let a = skip_white(chars, from, to);
    let b = skip_white_back(chars, a, to);
    proof {
        let part = chars@.subrange(from as int, to as int);
        assert(trim_start(part) == chars@.subrange(a as int, to as int));
    }
    (a, b)
}

/// Whether `chars[from..to]` begins with `prefix`.
pub fn starts_with(chars: &Vec<char>, from: usize, to: usize, prefix: &Vec<char>) -> (b: bool)
    requires
        from <= to <= chars.len(),
    ensures
        b == prefix@.is_prefix_of(chars@.subrange(from as int, to as int)),
{
    let ghost part = chars@.subrange(from as int, to as int);
    if prefix.len() > to - from {
        return false;
    }
    let mut i: usize = 0;
    while i < prefix.len()
        invariant
            i <= prefix.len() <= to - from,
            from <= to <= chars.len(),
            part == chars@.subrange(from as int, to as int),
            forall|j: int| 0 <= j < i ==> prefix@[j] == part[j],
        decreases prefix.len() - i,
    {
        if prefix[i] != chars[from + i] {
            return false;
        }
        i += 1;
    }
    true
}

/// The bounds of the pieces of `chars[from..to]` between occurrences of `sep`,
/// in order. Each piece ends where the next separator stands, and the next
/// piece begins right after it.
pub fn split_ranges(chars: &Vec<char>, from: usize, to: usize, sep: char) -> (out: Vec<
    (usize, usize),
>)
    requires
        from <= to <= chars.len(),
    ensures
        out@.len() == split(chars@.subrange(from as int, to as int), sep).len(),
        out@.len() >= 1,
        out@[0].0 == from,
        out@[out@.len() - 1].1 == to,
        forall|i: int|
            0 <= i < out@.len() ==> from <= (#[trigger] out@[i]).0 <= out@[i].1 <= to,
        forall|i: int|
            0 <= i < out@.len() ==> chars@.subrange(
                (#[trigger] out@[i]).0 as int,
                out@[i].1 as int,
            ) == split(chars@.subrange(from as int, to as int), sep)[i],
        forall|i: int| 0 <= i < out@.len() - 1 ==> (#[trigger] out@[i]).1 + 1 == out@[i + 1].0,
{
    let ghost whole = chars@.subrange(from as int, to as int);
    let mut out: Vec<(usize, usize)> = Vec::new();
    let mut pos: usize = from;
    loop
        invariant_except_break
            from <= pos <= to <= chars.len(),
            whole == chars@.subrange(from as int, to as int),
            split(whole, sep).len() == out@.len() + split(
                chars@.subrange(pos as int, to as int),
                sep,
            ).len(),
            forall|i: int|
                0 <= i < split(chars@.subrange(pos as int, to as int), sep).len() ==> split(
                    whole,
                    sep,
                )[out@.len() + i] == #[trigger] split(
                    chars@.subrange(pos as int, to as int),
                    sep,
                )[i],
            out@.len() == 0 ==> pos == from,
            out@.len() > 0 ==> out@[0].0 == from && out@[out@.len() - 1].1 + 1 == pos,
        invariant
            from <= to <= chars.len(),
            forall|i: int|
                0 <= i < out@.len() ==> from <= (#[trigger] out@[i]).0 <= out@[i].1 <= to,
            forall|i: int|
                0 <= i < out@.len() ==> chars@.subrange(
                    (#[trigger] out@[i]).0 as int,
                    out@[i].1 as int,
                ) == split(whole, sep)[i],
            forall|i: int|
                0 <= i < out@.len() - 1 ==> (#[trigger] out@[i]).1 + 1 == out@[i + 1].0,
        ensures
            whole == chars@.subrange(from as int, to as int),
            out@.len() == split(whole, sep).len(),
            out@.len() >= 1,
            out@[0].0 == from,
            out@[out@.len() - 1].1 == to,
        decreases to - pos,
    {
        let end = find_char(chars, pos, to, sep);
        let ghost rest = chars@.subrange(pos as int, to as int);
        let ghost before = out@;
        proof {
            lemma_split_at(rest, sep, end - pos);
            assert(split(whole, sep)[before.len() as int] == split(rest, sep)[0]);
        }
        out.push((pos, end));
        if end == to {
            break ;
        }
        proof {
            let next = chars@.subrange(end + 1, to as int);
            assert(rest.skip(end - pos + 1) == next);
            assert forall|i: int| 0 <= i < split(next, sep).len() implies split(whole, sep)[out@.len()
                + i] == #[trigger] split(next, sep)[i] by {
                assert(split(whole, sep)[before.len() as int + (i + 1)] == split(rest, sep)[i + 1]);
            }
        }
        pos = end + 1;
    }
    out
}

} // verus!
