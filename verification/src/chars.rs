//! Character classes and run lengths used by the tokenizer.

use vstd::prelude::*;

verus! {

/// A character that can form part of a macro name: ASCII alphanumeric or
/// underscore. Word boundaries for substitution and the tokens of directive
/// expressions are both defined by this class.
pub open spec fn is_word_char(c: char) -> bool {
    ('0' <= c && c <= '9') || ('a' <= c && c <= 'z') || ('A' <= c && c <= 'Z') || c == '_'
}

/// Whitespace as `str::trim` sees it: the Unicode `White_Space` set.
pub open spec fn is_space_char(c: char) -> bool {
    c == ' ' || c == '\t' || c == '\n' || c == '\u{b}' || c == '\u{c}' || c == '\r' || c
        == '\u{85}' || c == '\u{a0}' || c == '\u{1680}' || ('\u{2000}' <= c && c <= '\u{200a}')
        || c == '\u{2028}' || c == '\u{2029}' || c == '\u{202f}' || c == '\u{205f}' || c
        == '\u{3000}'
}

/// An ASCII decimal digit.
pub open spec fn is_digit_char(c: char) -> bool {
    '0' <= c && c <= '9'
}

pub fn word_char(c: char) -> (r: bool)
    ensures
        r == is_word_char(c),
{
    ('0' <= c && c <= '9') || ('a' <= c && c <= 'z') || ('A' <= c && c <= 'Z') || c == '_'
}

pub fn space_char(c: char) -> (r: bool)
    ensures
        r == is_space_char(c),
{
    c == ' ' || c == '\t' || c == '\n' || c == '\u{b}' || c == '\u{c}' || c == '\r' || c
        == '\u{85}' || c == '\u{a0}' || c == '\u{1680}' || ('\u{2000}' <= c && c <= '\u{200a}')
        || c == '\u{2028}' || c == '\u{2029}' || c == '\u{202f}' || c == '\u{205f}' || c
        == '\u{3000}'
}

pub fn digit_char(c: char) -> (r: bool)
    ensures
        r == is_digit_char(c),
{
    '0' <= c && c <= '9'
}

/// Length of the longest whitespace prefix of `s`.
pub open spec fn ws_len(s: Seq<char>) -> int
    decreases s.len(),
{
    if s.len() > 0 && is_space_char(s[0]) {
        1 + ws_len(s.skip(1))
    } else {
        0
    }
}

/// Length of the longest word-character prefix of `s`.
pub open spec fn word_len(s: Seq<char>) -> int
    decreases s.len(),
{
    if s.len() > 0 && is_word_char(s[0]) {
        1 + word_len(s.skip(1))
    } else {
        0
    }
}

/// Length of the longest non-whitespace prefix of `s`.
pub open spec fn nws_len(s: Seq<char>) -> int
    decreases s.len(),
{
    if s.len() > 0 && !is_space_char(s[0]) {
        1 + nws_len(s.skip(1))
    } else {
        0
    }
}

/// Length of the longest whitespace suffix of `s`.
pub open spec fn tws_len(s: Seq<char>) -> int
    decreases s.len(),
{
    if s.len() > 0 && is_space_char(s[s.len() - 1]) {
        1 + tws_len(s.drop_last())
    } else {
        0
    }
}

pub proof fn lemma_ws_len_bounds(s: Seq<char>)
    ensures
        0 <= ws_len(s) <= s.len(),
    decreases s.len(),
{
    if s.len() > 0 && is_space_char(s[0]) {
        lemma_ws_len_bounds(s.skip(1));
    }
}

pub proof fn lemma_word_len_bounds(s: Seq<char>)
    ensures
        0 <= word_len(s) <= s.len(),
    decreases s.len(),
{
    if s.len() > 0 && is_word_char(s[0]) {
        lemma_word_len_bounds(s.skip(1));
    }
}

/// A prefix of word characters stopped by a non-word character (or the end)
/// is the word prefix.
pub proof fn lemma_word_len_eq(s: Seq<char>, k: int)
    requires
        0 <= k <= s.len(),
        forall|t: int| 0 <= t < k ==> is_word_char(s[t]),
        k < s.len() ==> !is_word_char(s[k]),
    ensures
        word_len(s) == k,
    decreases s.len(),
{
    if k > 0 {
        assert forall|t: int| 0 <= t < k - 1 implies is_word_char(s.skip(1)[t]) by {
            assert(s.skip(1)[t] == s[t + 1]);
        }
        assert(k - 1 < s.skip(1).len() ==> !is_word_char(s.skip(1)[k - 1]));
        lemma_word_len_eq(s.skip(1), k - 1);
    }
}

/// A prefix of whitespace stopped by a non-whitespace character (or the end)
/// is the whitespace prefix.
pub proof fn lemma_ws_len_eq(s: Seq<char>, k: int)
    requires
        0 <= k <= s.len(),
        forall|t: int| 0 <= t < k ==> is_space_char(s[t]),
        k < s.len() ==> !is_space_char(s[k]),
    ensures
        ws_len(s) == k,
    decreases s.len(),
{
    if k > 0 {
        assert forall|t: int| 0 <= t < k - 1 implies is_space_char(s.skip(1)[t]) by {
            assert(s.skip(1)[t] == s[t + 1]);
        }
        assert(k - 1 < s.skip(1).len() ==> !is_space_char(s.skip(1)[k - 1]));
        lemma_ws_len_eq(s.skip(1), k - 1);
    }
}

/// A prefix free of whitespace stopped by whitespace (or the end) is the
/// non-whitespace prefix.
pub proof fn lemma_nws_len_eq(s: Seq<char>, k: int)
    requires
        0 <= k <= s.len(),
        forall|t: int| 0 <= t < k ==> !is_space_char(s[t]),
        k < s.len() ==> is_space_char(s[k]),
    ensures
        nws_len(s) == k,
    decreases s.len(),
{
    if k > 0 {
        assert forall|t: int| 0 <= t < k - 1 implies !is_space_char(s.skip(1)[t]) by {
            assert(s.skip(1)[t] == s[t + 1]);
        }
        assert(k - 1 < s.skip(1).len() ==> is_space_char(s.skip(1)[k - 1]));
        lemma_nws_len_eq(s.skip(1), k - 1);
    }
}

/// A suffix of whitespace stopped by a non-whitespace character (or the
/// start) is the whitespace suffix.
pub proof fn lemma_tws_len_eq(s: Seq<char>, k: int)
    requires
        0 <= k <= s.len(),
        forall|t: int| s.len() - k <= t < s.len() ==> is_space_char(s[t]),
        k < s.len() ==> !is_space_char(s[s.len() - k - 1]),
    ensures
        tws_len(s) == k,
    decreases s.len(),
{
    if k > 0 {
        assert(is_space_char(s[s.len() - 1]));
        assert forall|t: int| s.drop_last().len() - (k - 1) <= t < s.drop_last().len()
            implies is_space_char(s.drop_last()[t]) by {
            assert(s.drop_last()[t] == s[t]);
        }
        lemma_tws_len_eq(s.drop_last(), k - 1);
    }
}

/// The characters of `s`, one vector element per `char`.
pub fn chars_of(s: &str) -> (v: Vec<char>)
    ensures
        v@ == s@,
{
    let n = s.unicode_len();
    let mut v: Vec<char> = Vec::new();
    let mut i: usize = 0;
    while i < n
        invariant
            i <= n,
            n == s@.len(),
            v@ == s@.take(i as int),
        decreases n - i,
    {
        v.push(s.get_char(i));
        i = i + 1;
        proof {
            assert(v@ =~= s@.take(i as int));
        }
    }
    proof {
        assert(v@ =~= s@);
    }
    v
}

/// The characters `cv[lo..hi]` as a vector of their own.
pub fn vec_range(cv: &Vec<char>, lo: usize, hi: usize) -> (r: Vec<char>)
    requires
        lo <= hi <= cv@.len(),
    ensures
        r@ == cv@.subrange(lo as int, hi as int),
{
    let mut r: Vec<char> = Vec::new();
    let mut k: usize = lo;
    while k < hi
        invariant
            lo <= k <= hi <= cv@.len(),
            r@ == cv@.subrange(lo as int, k as int),
        decreases hi - k,
    {
        r.push(cv[k]);
        k = k + 1;
        proof {
            assert(r@ =~= cv@.subrange(lo as int, k as int));
        }
    }
    r
}

/// Whether `s` spells the same characters as `cv[lo..hi]`.
pub fn str_eq_range(s: &str, cv: &Vec<char>, lo: usize, hi: usize) -> (r: bool)
    requires
        lo <= hi <= cv@.len(),
    ensures
        r == (s@ == cv@.subrange(lo as int, hi as int)),
{
    let n = s.unicode_len();
    if n != hi - lo {
        proof {
            assert(s@.len() != cv@.subrange(lo as int, hi as int).len());
        }
        return false;
    }
    let mut k: usize = 0;
    while k < n
        invariant
            k <= n,
            n == s@.len(),
            n == hi - lo,
            lo <= hi <= cv@.len(),
            forall|t: int| 0 <= t < k ==> s@[t] == cv@[lo + t],
        decreases n - k,
    {
        if s.get_char(k) != cv[lo + k] {
            proof {
                assert(s@[k as int] != cv@.subrange(lo as int, hi as int)[k as int]);
            }
            return false;
        }
        k = k + 1;
    }
    proof {
        assert(s@ =~= cv@.subrange(lo as int, hi as int));
    }
    true
}

} // verus!
