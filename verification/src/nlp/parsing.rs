//! The line format of a tagged corpus.
//!
//! A line holds pairs separated by single spaces. In a pair the tag stands
//! behind the last `=`; what stands before it is the word, in which every
//! further `=` is read as `/`. Words are put in lower case. A pair without
//! `=` makes the line malformed.

use vstd::prelude::*;
use crate::text::{chars_of, lower_char, lower_char_of, pairs, push_char, string_of};
use crate::nlp::END_TAG;

verus! {

/// The place of the first `c` in `s`, or the length of `s` where it holds none.
pub open spec fn index_of_first(s: Seq<char>, c: char) -> int
    decreases s.len(),
{
    if s.len() == 0 {
        0
    } else if s[0] == c {
        0
    } else {
        1 + index_of_first(s.drop_first(), c)
    }
}

/// The place of the last `c` in `s`, or -1 where it holds none.
pub open spec fn index_of_last(s: Seq<char>, c: char) -> int
    decreases s.len(),
{
    if s.len() == 0 {
        -1
    } else if s.last() == c {
        s.len() - 1
    } else {
        index_of_last(s.drop_last(), c)
    }
}

/// The pieces of `s` between occurrences of `c`.
pub open spec fn split(s: Seq<char>, c: char) -> Seq<Seq<char>>
    decreases s.len(),
{
    let i = index_of_first(s, c);
    if i < 0 || i >= s.len() {
        seq![s]
    } else {
        seq![s.take(i)] + split(s.skip(i + 1), c)
    }
}

/// `s` with every `=` read as `/`, in lower case.
pub open spec fn word_of(s: Seq<char>) -> Seq<char> {
    Seq::new(
        s.len(),
        |i: int|
            if s[i] == '=' {
                '/'
            } else {
                lower_char(s[i])
            },
    )
}

/// A piece of a line is a pair: it holds a `=`.
pub open spec fn is_pair(piece: Seq<char>) -> bool {
    index_of_last(piece, '=') >= 0
}

/// The word and the tag of a pair.
pub open spec fn pair_of(piece: Seq<char>) -> (Seq<char>, Seq<char>) {
    let at = index_of_last(piece, '=');
    (word_of(piece.take(at)), piece.skip(at + 1))
}

/// Every piece of the line is a pair.
pub open spec fn well_formed(line: Seq<char>) -> bool {
    forall|k: int| 0 <= k < split(line, ' ').len() ==> is_pair(#[trigger] split(line, ' ')[k])
}

/// The pairs of a line, with the terminal pair behind them.
pub open spec fn parsed(line: Seq<char>) -> Seq<(Seq<char>, Seq<char>)> {
    Seq::new(
        split(line, ' ').len() + 1,
        |k: int|
            if k < split(line, ' ').len() {
                pair_of(split(line, ' ')[k])
            } else {
                (END_TAG@, END_TAG@)
            },
    )
}

/// Where the first `c` of `s` stands, given that none stands before `i`
/// and that `i` holds one or is the end.
pub proof fn lemma_index_of_first(s: Seq<char>, c: char, i: int)
    requires
        0 <= i <= s.len(),
        forall|j: int| 0 <= j < i ==> s[j] != c,
        i == s.len() || s[i] == c,
    ensures
        index_of_first(s, c) == i,
    decreases s.len(),
{
    if s.len() > 0 && i > 0 {
        let r = s.drop_first();
        assert forall|j: int| 0 <= j < i - 1 implies r[j] != c by {
            assert(r[j] == s[j + 1]);
        }
        lemma_index_of_first(r, c, i - 1);
    }
}

/// Where the last `c` of `s` stands, given that none stands behind `i`
/// and that `i` holds one or is -1.
pub proof fn lemma_index_of_last(s: Seq<char>, c: char, i: int)
    requires
        -1 <= i < s.len(),
        forall|j: int| i < j < s.len() ==> s[j] != c,
        i == -1 || s[i] == c,
    ensures
        index_of_last(s, c) == i,
    decreases s.len(),
{
    if s.len() > 0 && i < s.len() - 1 {
        let r = s.drop_last();
        assert forall|j: int| i < j < r.len() implies r[j] != c by {
            assert(r[j] == s[j]);
        }
        lemma_index_of_last(r, c, i);
    }
}

/// The pair that the characters `from..to` of a line hold, if they hold one.
fn token_pair(chars: &Vec<char>, from: usize, to: usize) -> (r: Option<(String, String)>)
    requires
        from <= to <= chars.len(),
    ensures
        match r {
            Some(p) => is_pair(chars@.subrange(from as int, to as int)) && (p.0@, p.1@) == pair_of(
                chars@.subrange(from as int, to as int),
            ),
            None => !is_pair(chars@.subrange(from as int, to as int)),
        },
{
    let ghost piece = chars@.subrange(from as int, to as int);
    let mut at: usize = to;
    while at > from && chars[at - 1] != '='
        invariant
            from <= at <= to <= chars.len(),
            forall|j: int| at <= j < to ==> chars@[j] != '=',
        decreases at,
    {
        at -= 1;
    }
    if at == from {
        proof {
            lemma_index_of_last(piece, '=', -1);
        }
        return None;
    }
    let eq: usize = at - 1;
    proof {
        lemma_index_of_last(piece, '=', eq - from);
    }
    let mut word = String::new();
    let mut i: usize = from;
    let ghost want = word_of(piece.take(eq - from));
    while i < eq
        invariant
            from <= i <= eq < to <= chars.len(),
            piece == chars@.subrange(from as int, to as int),
            want == word_of(piece.take(eq - from)),
            word@ == want.take(i - from),
        decreases eq - i,
    {
        let c: char = chars[i];
        let d: char = if c == '=' {
            '/'
        } else {
            lower_char_of(c)
        };
        push_char(&mut word, d);
        assert(word@ == want.take(i + 1 - from)) by {
            assert(piece.take(eq - from)[i - from] == c);
            assert(word@ =~= want.take(i + 1 - from));
        }
        i += 1;
    }
    assert(want.take(eq - from) == want);
    let tag = string_of(chars, at, to);
    assert(chars@.subrange(at as int, to as int) == piece.skip(eq - from + 1));
    Some((word, tag))
}

/// The pairs of a line and the terminal pair, or `None` where a piece of
/// the line holds no `=`.
pub fn parse_line(sentence: &str) -> (r: Option<Vec<(String, String)>>)
    ensures
        r is Some <==> well_formed(sentence@),
        r is Some ==> pairs(r->0@) == parsed(sentence@),
{
    let chars = chars_of(sentence);
    let n: usize = chars.len();
    let ghost s = sentence@;
    let ghost done: Seq<Seq<char>> = Seq::empty();
    let mut out: Vec<(String, String)> = Vec::new();
    let mut start: usize = 0;
    let mut i: usize = 0;
    assert(s.skip(0) == s);
    while i < n
        invariant
            start <= i <= n,
            n == chars.len(),
            chars@ == s,
            s == sentence@,
            forall|j: int| start <= j < i ==> s[j] != ' ',
            split(s, ' ') == done + split(s.skip(start as int), ' '),
            out@.len() == done.len(),
            forall|k: int| 0 <= k < done.len() ==> is_pair(#[trigger] done[k]),
            forall|k: int|
                0 <= k < done.len() ==> ((#[trigger] out@[k]).0@, out@[k].1@) == pair_of(done[k]),
        decreases n - i,
    {
        if chars[i] == ' ' {
            let ghost rest = s.skip(start as int);
            let ghost piece = s.subrange(start as int, i as int);
            proof {
                assert forall|j: int| 0 <= j < i - start implies rest[j] != ' ' by {
                    assert(rest[j] == s[start + j]);
                }
                lemma_index_of_first(rest, ' ', i - start);
                assert(rest.take(i - start) == piece);
                assert(rest.skip(i - start + 1) == s.skip(i + 1));
                assert(split(s, ' ') == done.push(piece) + split(s.skip(i + 1), ' ')) by {
                    assert(done + (seq![piece] + split(s.skip(i + 1), ' ')) =~= done.push(piece)
                        + split(s.skip(i + 1), ' '));
                }
            }
            match token_pair(&chars, start, i) {
                Some(pair) => {
                    out.push(pair);
                },
                None => {
                    let ghost at = done.len() as int;
                    assert(split(s, ' ')[at] == piece);
                    assert(0 <= at < split(s, ' ').len());
                    assert(!is_pair(split(s, ' ')[at]));
                    return None;
                },
            }
            proof {
                done = done.push(piece);
            }
            start = i + 1;
        }
        i += 1;
    }
    let ghost rest = s.skip(start as int);
    proof {
        assert forall|j: int| 0 <= j < n - start implies rest[j] != ' ' by {
            assert(rest[j] == s[start + j]);
        }
        lemma_index_of_first(rest, ' ', n - start);
        assert(rest == s.subrange(start as int, n as int));
        assert(split(s, ' ') == done.push(rest)) by {
            assert(done + seq![rest] =~= done.push(rest));
        }
    }
    match token_pair(&chars, start, n) {
        Some(pair) => {
            out.push(pair);
        },
        None => {
            assert(split(s, ' ')[done.len() as int] == rest);
            return None;
        },
    }
    out.push((END_TAG.to_owned(), END_TAG.to_owned()));
    assert(pairs(out@) =~= parsed(s));
    Some(out)
}

/// The number of pieces of a line.
pub fn piece_count(sentence: &str) -> (r: u128)
    ensures
        r == split(sentence@, ' ').len(),
        r <= usize::MAX + 1,
{
    let chars = chars_of(sentence);
    let n: usize = chars.len();
    let ghost s = sentence@;
    let ghost done: Seq<Seq<char>> = Seq::empty();
    let mut count: usize = 0;
    let mut start: usize = 0;
    let mut i: usize = 0;
    assert(s.skip(0) == s);
    while i < n
        invariant
            start <= i <= n,
            n == chars.len(),
            chars@ == s,
            forall|j: int| start <= j < i ==> s[j] != ' ',
            split(s, ' ') == done + split(s.skip(start as int), ' '),
            count == done.len(),
            count <= start,
        decreases n - i,
    {
        if chars[i] == ' ' {
            let ghost rest = s.skip(start as int);
            let ghost piece = s.subrange(start as int, i as int);
            proof {
                assert forall|j: int| 0 <= j < i - start implies rest[j] != ' ' by {
                    assert(rest[j] == s[start + j]);
                }
                lemma_index_of_first(rest, ' ', i - start);
                assert(rest.take(i - start) == piece);
                assert(rest.skip(i - start + 1) == s.skip(i + 1));
                assert(split(s, ' ') == done.push(piece) + split(s.skip(i + 1), ' ')) by {
                    assert(done + (seq![piece] + split(s.skip(i + 1), ' ')) =~= done.push(piece)
                        + split(s.skip(i + 1), ' '));
                }
                done = done.push(piece);
            }
            count += 1;
            start = i + 1;
        }
        i += 1;
    }
    let ghost rest = s.skip(start as int);
    proof {
        assert forall|j: int| 0 <= j < n - start implies rest[j] != ' ' by {
            assert(rest[j] == s[start + j]);
        }
        lemma_index_of_first(rest, ' ', n - start);
        assert(split(s, ' ') == done.push(rest)) by {
            assert(done + seq![rest] =~= done.push(rest));
        }
    }
    count as u128 + 1
}

/// Tells whether every piece of a line is a pair.
pub fn is_well_formed(sentence: &str) -> (r: bool)
    ensures
        r == well_formed(sentence@),
{
    parse_line(sentence).is_some()
}

/// Splits a line of a tagged corpus into its pairs of word and tag, words
/// in lower case, and closes them with the terminal pair.
pub fn extract_word_and_tag(sentence: &str) -> (r: Vec<(String, String)>)
    requires
        well_formed(sentence@),
    ensures
        pairs(r@) == parsed(sentence@),
{
    match parse_line(sentence) {
        Some(v) => v,
        None => Vec::new(),
    }
}

/// `c` closes a sentence.
pub open spec fn is_closing(c: char) -> bool {
    c == '!' || c == '.' || c == '?'
}

/// A sentence with its closing mark set apart: where it ends in a closing
/// mark with no space before it, a space is put between.
pub open spec fn preprocessed(s: Seq<char>) -> Seq<char> {
    if s.len() >= 1 && is_closing(s.last()) && (s.len() < 2 || s[s.len() - 2] != ' ') {
        s.drop_last().push(' ').push(s.last())
    } else {
        s
    }
}

/// Sets the closing mark of a sentence apart from its last word, so that
/// it is a token of its own.
pub fn preprocess_sentence(s: &mut String)
    ensures
        final(s)@ == preprocessed(old(s)@),
{
    let chars = chars_of(s.as_str());
    let n: usize = chars.len();
    if n >= 1 {
        let last: char = chars[n - 1];
        if (last == '!' || last == '.' || last == '?') && (n < 2 || chars[n - 2] != ' ') {
            let mut out = string_of(&chars, 0, n - 1);
            push_char(&mut out, ' ');
            push_char(&mut out, last);
            assert(chars@.subrange(0, n - 1) == chars@.drop_last());
            *s = out;
        }
    }
}

} // verus!
