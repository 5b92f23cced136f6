//! Morphological patterns that stand in for words never seen in training.
//!
//! A word that matches a pattern is given an artificial tag, a symbol that is
//! counted and looked up like a word. Suffixes are tried before prefixes, each
//! table from its first line down, and the first match decides.

use vstd::prelude::*;
use crate::text::chars_of;

verus! {

/// `w` ends with `s`.
pub open spec fn ends_with(w: Seq<char>, s: Seq<char>) -> bool {
    s.len() <= w.len() && w.subrange(w.len() - s.len(), w.len() as int) == s
}

/// `w` starts with `p`.
pub open spec fn starts_with(w: Seq<char>, p: Seq<char>) -> bool {
    p.len() <= w.len() && w.subrange(0, p.len() as int) == p
}

/// `c` is one of `0`..`9`.
pub open spec fn is_digit(c: char) -> bool {
    '0' <= c && c <= '9'
}

/// The number of ASCII digits in `w`.
pub open spec fn digit_count(w: Seq<char>) -> nat
    decreases w.len(),
{
    if w.len() == 0 {
        0
    } else {
        digit_count(w.drop_last()) + if is_digit(w.last()) {
            1nat
        } else {
            0nat
        }
    }
}

/// The artificial tag of the first suffix pattern that `w` ends with.
pub open spec fn suffix_tag(w: Seq<char>) -> Option<Seq<char>> {
    if ends_with(w, "ing"@) {
        Some("SUFF-ING"@)
    } else if ends_with(w, "ess"@) {
        Some("SUFF-ESS"@)
    } else if ends_with(w, "ers"@) {
        Some("SUFF-ERS"@)
    } else if ends_with(w, "ed"@) {
        Some("SUFF-ED"@)
    } else if ends_with(w, "es"@) {
        Some("SUFF-ES"@)
    } else if ends_with(w, "er"@) {
        Some("SUFF-ER"@)
    } else if ends_with(w, "ly"@) {
        Some("SUFF-LY"@)
    } else if ends_with(w, "'s"@) {
        Some("SUFF-AP-S"@)
    } else if ends_with(w, "on"@) {
        Some("SUFF-ON"@)
    } else if ends_with(w, "le"@) {
        Some("SUFF-LE"@)
    } else {
        None
    }}

/// The artificial tag of the first prefix pattern that `w` starts with.
pub open spec fn prefix_tag(w: Seq<char>) -> Option<Seq<char>> {
    if starts_with(w, "pro"@) {
        Some("PREF-PRO"@)
    } else if starts_with(w, "pre"@) {
        Some("PREF-PRE"@)
    } else if starts_with(w, "dis"@) {
        Some("PREF-DIS"@)
    } else if starts_with(w, "con"@) {
        Some("PREF-CON"@)
    } else if starts_with(w, "com"@) {
        Some("PREF-COM"@)
    } else if starts_with(w, "sta"@) {
        Some("PREF-STA"@)
    } else if starts_with(w, "re"@) {
        Some("PREF-RE"@)
    } else if starts_with(w, "in"@) {
        Some("PREF-IN"@)
    } else if starts_with(w, "un"@) {
        Some("PREF-UN"@)
    } else {
        None
    }}

/// The artificial tag of a word: by suffix, else by prefix, else as a number
/// where more than half of its characters are digits, else as a dashed word
/// where it holds a dash, else none.
pub open spec fn artificial_tag(w: Seq<char>) -> Option<Seq<char>> {
    if suffix_tag(w) is Some {
        suffix_tag(w)
    } else if prefix_tag(w) is Some {
        prefix_tag(w)
    } else if 2 * digit_count(w) > w.len() {
        Some("IS-A-NUMBER"@)
    } else if w.contains('-') {
        Some("HAS-MANY-DASHES"@)
    } else {
        None
    }
}

/// The view of an optional string.
pub open spec fn tag_view(t: Option<&str>) -> Option<Seq<char>> {
    match t {
        Some(s) => Some(s@),
        None => None,
    }
}

fn has_suffix(w: &Vec<char>, suffix: &str) -> (r: bool)
    ensures
        r == ends_with(w@, suffix@),
{
    let s = chars_of(suffix);
    if s.len() > w.len() {
        return false;
    }
    let base: usize = w.len() - s.len();
    let mut i: usize = 0;
    while i < s.len()
        invariant
            i <= s.len(),
            s@ == suffix@,
            base + s.len() == w.len(),
            forall|j: int| 0 <= j < i ==> w@[base + j] == s@[j],
        decreases s.len() - i,
    {
        if w[base + i] != s[i] {
            assert(w@.subrange(w.len() - s.len(), w.len() as int)[i as int] != s@[i as int]);
            return false;
        }
        i += 1;
    }
    assert(w@.subrange(w.len() - s.len(), w.len() as int) =~= s@);
    true
}

fn has_prefix(w: &Vec<char>, prefix: &str) -> (r: bool)
    ensures
        r == starts_with(w@, prefix@),
{
    let p = chars_of(prefix);
    if p.len() > w.len() {
        return false;
    }
    let mut i: usize = 0;
    while i < p.len()
        invariant
            i <= p.len() <= w.len(),
            p@ == prefix@,
            forall|j: int| 0 <= j < i ==> w@[j] == p@[j],
        decreases p.len() - i,
    {
        if w[i] != p[i] {
            assert(w@.subrange(0, p.len() as int)[i as int] != p@[i as int]);
            return false;
        }
        i += 1;
    }
    assert(w@.subrange(0, p.len() as int) =~= p@);
    true
}

fn by_suffix(w: &Vec<char>) -> (r: Option<&'static str>)
    ensures
        tag_view(r) == suffix_tag(w@),
{
    if has_suffix(&w, "ing") {
        return Some("SUFF-ING");
    }
    if has_suffix(&w, "ess") {
        return Some("SUFF-ESS");
    }
    if has_suffix(&w, "ers") {
        return Some("SUFF-ERS");
    }
    if has_suffix(&w, "ed") {
        return Some("SUFF-ED");
    }
    if has_suffix(&w, "es") {
        return Some("SUFF-ES");
    }
    if has_suffix(&w, "er") {
        return Some("SUFF-ER");
    }
    if has_suffix(&w, "ly") {
        return Some("SUFF-LY");
    }
    if has_suffix(&w, "'s") {
        return Some("SUFF-AP-S");
    }
    if has_suffix(&w, "on") {
        return Some("SUFF-ON");
    }
    if has_suffix(&w, "le") {
        return Some("SUFF-LE");
    }
    None
}

fn by_prefix(w: &Vec<char>) -> (r: Option<&'static str>)
    ensures
        tag_view(r) == prefix_tag(w@),
{
    if has_prefix(&w, "pro") {
        return Some("PREF-PRO");
    }
    if has_prefix(&w, "pre") {
        return Some("PREF-PRE");
    }
    if has_prefix(&w, "dis") {
        return Some("PREF-DIS");
    }
    if has_prefix(&w, "con") {
        return Some("PREF-CON");
    }
    if has_prefix(&w, "com") {
        return Some("PREF-COM");
    }
    if has_prefix(&w, "sta") {
        return Some("PREF-STA");
    }
    if has_prefix(&w, "re") {
        return Some("PREF-RE");
    }
    if has_prefix(&w, "in") {
        return Some("PREF-IN");
    }
    if has_prefix(&w, "un") {
        return Some("PREF-UN");
    }
    None
}

/// Classifies a word by its shape.
///
/// Returns the artificial tag that stands for the word, or `None` where no
/// pattern matches.
pub fn get_matching_artificial_tag(word: &str) -> (r: Option<&'static str>)
    ensures
        tag_view(r) == artificial_tag(word@),
{
    let w = chars_of(word);
    let s = by_suffix(&w);
    if s.is_some() {
        return s;
    }
    let p = by_prefix(&w);
    if p.is_some() {
        return p;
    }
    let mut digits: usize = 0;
    let mut dash = false;
    let mut i: usize = 0;
    while i < w.len()
        invariant
            i <= w.len(),
            digits == digit_count(w@.take(i as int)),
            digits <= i,
            dash == w@.take(i as int).contains('-'),
        decreases w.len() - i,
    {
        proof {
            let a = w@.take(i as int);
            let b = w@.take(i + 1);
            assert(b.drop_last() == a);
            assert(b.last() == w@[i as int]);
            if a.contains('-') {
                let j = choose|j: int| 0 <= j < a.len() && a[j] == '-';
                assert(b[j] == '-');
            }
            if b.contains('-') && w@[i as int] != '-' {
                let j = choose|j: int| 0 <= j < b.len() && b[j] == '-';
                assert(a[j] == '-');
            }
        }
        let c: char = w[i];
        if '0' <= c && c <= '9' {
            digits += 1;
        }
        if c == '-' {
            dash = true;
        }
        i += 1;
    }
    assert(w@.take(w.len() as int) == w@);
    if digits > w.len() - digits {
        Some("IS-A-NUMBER")
    } else if dash {
        Some("HAS-MANY-DASHES")
    } else {
        None
    }
}

} // verus!
