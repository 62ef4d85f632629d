//! The directive expression evaluator.
//!
//! Grammar, each level allowing leading whitespace:
//! ```text
//! expr  := eq
//! eq    := unary ( "==" unary )*    left-to-right; each step compares
//! unary := "!"* term                each "!" negates once more
//! term  := "0" | "1" | name         a name is true iff its value is "1"
//! ```

use vstd::prelude::*;

use crate::chars::digit_char;
use crate::chars::is_digit_char;
use crate::chars::is_space_char;
use crate::chars::lemma_word_len_bounds;
use crate::chars::lemma_word_len_eq;
use crate::chars::lemma_ws_len_bounds;
use crate::chars::lemma_ws_len_eq;
use crate::chars::space_char;
use crate::chars::word_char;
use crate::chars::word_len;
use crate::chars::ws_len;
use crate::error::Error;
use crate::table::Context;
use vstd::string::StrSliceExecFns;

verus! {

pub open spec fn msg_expected_term() -> Seq<char> {
    "Expected term, found nothing"@
}

pub open spec fn msg_undefined_identifier() -> Seq<char> {
    "Undefined identifier"@
}

pub open spec fn msg_expected_eol() -> Seq<char> {
    "Expected end-of-line"@
}

/// Drops leading whitespace and `!` characters, returning the rest and
/// whether the number of `!` dropped was odd.
pub open spec fn strip_unary(s: Seq<char>) -> (Seq<char>, bool)
    decreases s.len(),
{
    if s.len() == 0 {
        (s, false)
    } else if is_space_char(s[0]) {
        strip_unary(s.skip(1))
    } else if s[0] == '!' {
        let (r, p) = strip_unary(s.skip(1));
        (r, !p)
    } else {
        (s, false)
    }
}

pub proof fn lemma_strip_unary_len(s: Seq<char>)
    ensures
        strip_unary(s).0.len() <= s.len(),
    decreases s.len(),
{
    if s.len() > 0 && (is_space_char(s[0]) || s[0] == '!') {
        lemma_strip_unary_len(s.skip(1));
    }
}

/// Parses one term after optional whitespace: the longest word-character run.
/// `"1"` and `"0"` are the two valid literals; any other token that starts
/// with a digit is refused; any other word is a macro name, looked up in the
/// table and true exactly when its value is `"1"`. An absent term and an
/// undefined name are errors.
pub open spec fn parse_term(s: Seq<char>, m: Map<Seq<char>, Seq<char>>) -> Result<
    (bool, Seq<char>),
    Seq<char>,
> {
    let t = s.skip(ws_len(s));
    let k = word_len(t);
    if k == 0 {
        Err(msg_expected_term())
    } else {
        let w = t.take(k);
        let rest = t.skip(k);
        if is_digit_char(w[0]) {
            if w == seq!['1'] {
                Ok((true, rest))
            } else if w == seq!['0'] {
                Ok((false, rest))
            } else {
                Err(msg_undefined_identifier())
            }
        } else if m.contains_key(w) {
            Ok((m[w] == seq!['1'], rest))
        } else {
            Err(msg_undefined_identifier())
        }
    }
}

/// Parses a term under the preceding `!` prefix.
pub open spec fn parse_unary(s: Seq<char>, m: Map<Seq<char>, Seq<char>>) -> Result<
    (bool, Seq<char>),
    Seq<char>,
> {
    let (t, neg) = strip_unary(s);
    match parse_term(t, m) {
        Ok((b, rest)) => Ok(((b != neg), rest)),
        Err(e) => Err(e),
    }
}

pub proof fn lemma_parse_unary_consumes(s: Seq<char>, m: Map<Seq<char>, Seq<char>>)
    ensures
        parse_unary(s, m) matches Ok((b, r)) ==> r.len() < s.len(),
{
    lemma_strip_unary_len(s);
    let t = strip_unary(s).0;
    lemma_ws_len_bounds(t);
    let t2 = t.skip(ws_len(t));
    lemma_word_len_bounds(t2);
}

/// Folds the remaining `== unary` steps into `acc`, left to right: each step
/// replaces `acc` by whether `acc` equals the next unary's value.
pub open spec fn parse_eq_rest(acc: bool, s: Seq<char>, m: Map<Seq<char>, Seq<char>>) -> Result<
    (bool, Seq<char>),
    Seq<char>,
>
    decreases s.len(),
    via parse_eq_rest_decreases
{
    let t = s.skip(ws_len(s));
    if t.len() >= 2 && t[0] == '=' && t[1] == '=' {
        match parse_unary(t.skip(2), m) {
            Ok((b, r)) => parse_eq_rest(acc == b, r, m),
            Err(e) => Err(e),
        }
    } else {
        Ok((acc, s))
    }
}

#[via_fn]
proof fn parse_eq_rest_decreases(acc: bool, s: Seq<char>, m: Map<Seq<char>, Seq<char>>) {
    lemma_ws_len_bounds(s);
    let t = s.skip(ws_len(s));
    if t.len() >= 2 && t[0] == '=' && t[1] == '=' {
        lemma_parse_unary_consumes(t.skip(2), m);
    }
}

/// Parses a whole equality chain: a unary, then the `== unary` fold.
pub open spec fn parse_eq(s: Seq<char>, m: Map<Seq<char>, Seq<char>>) -> Result<
    (bool, Seq<char>),
    Seq<char>,
> {
    match parse_unary(s, m) {
        Ok((b, r)) => parse_eq_rest(b, r, m),
        Err(e) => Err(e),
    }
}

/// Evaluates a whole expression: an equality chain that must be followed by
/// whitespace only.
pub open spec fn eval_expr(s: Seq<char>, m: Map<Seq<char>, Seq<char>>) -> Result<bool, Seq<char>> {
    match parse_eq(s, m) {
        Ok((b, r)) => if ws_len(r) == r.len() {
            Ok(b)
        } else {
            Err(msg_expected_eol())
        },
        Err(e) => Err(e),
    }
}

/// Whether a macro value is exactly the string `1`.
fn string_is_one(v: &String) -> (r: bool)
    ensures
        r == (v@ == seq!['1']),
{
    let n = v.as_str().unicode_len();
    if n == 1 && v.as_str().get_char(0) == '1' {
        proof {
            assert(v@ =~= seq!['1']);
        }
        true
    } else {
        proof {
            if v@ == seq!['1'] {
                assert(v@.len() == 1 && v@[0] == '1');
            }
        }
        false
    }
}

impl Context {
    /// The index of the first non-whitespace character at or after `i`.
    pub(crate) fn skip_whitespace(&self, e: &Vec<char>, i: usize) -> (j: usize)
        requires
            i <= e@.len(),
        ensures
            i <= j <= e@.len(),
            j - i == ws_len(e@.skip(i as int)),
            j < e@.len() ==> !is_space_char(e@[j as int]),
    {
        let n = e.len();
        let mut j: usize = i;
        while j < n && space_char(e[j])
            invariant
                i <= j <= n,
                n == e@.len(),
                forall|t: int| i <= t < j ==> is_space_char(e@[t]),
            decreases n - j,
        {
            j = j + 1;
        }
        proof {
            let s = e@.skip(i as int);
            assert forall|t: int| 0 <= t < j - i implies is_space_char(s[t]) by {
                assert(s[t] == e@[i + t]);
            }
            assert(j - i < s.len() ==> !is_space_char(s[j - i]));
            lemma_ws_len_eq(s, j - i);
        }
        j
    }

    /// Parses one term at `i`, mirroring [`parse_term`] on `e[i..]`.
    pub(crate) fn eval_term(&self, e: &Vec<char>, i: usize, line: u32) -> (r: Result<
        (bool, usize),
        Error,
    >)
        requires
            i <= e@.len(),
        ensures
            match r {
                Ok((b, j)) => i <= j <= e@.len() && parse_term(e@.skip(i as int), self@)
                    == Ok::<_, Seq<char>>((b, e@.skip(j as int))),
                Err(er) => er matches Error::Syntax { line: l, msg } && l == line && parse_term(
                    e@.skip(i as int),
                    self@,
                ) == Err::<(bool, Seq<char>), _>(msg@),
            },
    {
        let n = e.len();
        let j0 = self.skip_whitespace(e, i);
        let mut j: usize = j0;
        while j < n && word_char(e[j])
            invariant
                j0 <= j <= n,
                n == e@.len(),
                forall|t: int| j0 <= t < j ==> crate::chars::is_word_char(e@[t]),
            decreases n - j,
        {
            j = j + 1;
        }
        proof {
            let s = e@.skip(i as int);
            let t = s.skip(ws_len(s));
            assert(t =~= e@.skip(j0 as int));
            assert forall|u: int| 0 <= u < j - j0 implies crate::chars::is_word_char(t[u]) by {
                assert(t[u] == e@[j0 + u]);
            }
            assert(j - j0 < t.len() ==> !crate::chars::is_word_char(t[j - j0]));
            lemma_word_len_eq(t, j - j0);
            assert(t.take(j - j0) =~= e@.subrange(j0 as int, j as int));
            assert(t.skip(j - j0) =~= e@.skip(j as int));
        }
        if j == j0 {
            return Err(Error::Syntax { line, msg: "Expected term, found nothing" });
        }
        let ghost w = e@.subrange(j0 as int, j as int);
        proof {
            assert(w[0] == e@[j0 as int]);
        }
        if digit_char(e[j0]) {
            if j - j0 == 1 && e[j0] == '1' {
                proof {
                    assert(w =~= seq!['1']);
                }
                Ok((true, j))
            } else if j - j0 == 1 && e[j0] == '0' {
                proof {
                    assert(w =~= seq!['0']);
                    assert(w != seq!['1']);
                }
                Ok((false, j))
            } else {
                proof {
                    if w == seq!['1'] || w == seq!['0'] {
                        assert(w.len() == 1);
                        assert(e@[j0 as int] == w[0]);
                    }
                }
                Err(Error::Syntax { line, msg: "Undefined identifier" })
            }
        } else {
            match self.find_def(e, j0, j) {
                Some(v) => Ok((string_is_one(v), j)),
                None => Err(Error::Syntax { line, msg: "Undefined identifier" }),
            }
        }
    }

    /// Parses `!`-prefixed terms at `i`, mirroring [`parse_unary`] on `e[i..]`.
    pub(crate) fn eval_unary(&self, e: &Vec<char>, i: usize, line: u32) -> (r: Result<
        (bool, usize),
        Error,
    >)
        requires
            i <= e@.len(),
        ensures
            match r {
                Ok((b, j)) => i <= j <= e@.len() && parse_unary(e@.skip(i as int), self@)
                    == Ok::<_, Seq<char>>((b, e@.skip(j as int))),
                Err(er) => er matches Error::Syntax { line: l, msg } && l == line && parse_unary(
                    e@.skip(i as int),
                    self@,
                ) == Err::<(bool, Seq<char>), _>(msg@),
            },
    {
        let n = e.len();
        let mut p: usize = i;
        let mut neg = false;
        while p < n && (space_char(e[p]) || e[p] == '!')
            invariant
                i <= p <= n,
                n == e@.len(),
                strip_unary(e@.skip(i as int)).0 == strip_unary(e@.skip(p as int)).0,
                strip_unary(e@.skip(i as int)).1 == (neg != strip_unary(e@.skip(p as int)).1),
            decreases n - p,
        {
            proof {
                assert(e@.skip(p as int)[0] == e@[p as int]);
                assert(e@.skip(p as int).skip(1) =~= e@.skip(p + 1));
            }
            if !space_char(e[p]) {
                neg = !neg;
            }
            p = p + 1;
        }
        proof {
            let sp = e@.skip(p as int);
            if sp.len() > 0 {
                assert(sp[0] == e@[p as int]);
            }
            assert(strip_unary(sp) == (sp, false));
        }
        match self.eval_term(e, p, line) {
            Ok((b, j)) => Ok(((b != neg), j)),
            Err(er) => Err(er),
        }
    }

    /// Parses an equality chain at `i`, mirroring [`parse_eq`] on `e[i..]`.
    pub(crate) fn eval_eq(&self, e: &Vec<char>, i: usize, line: u32) -> (r: Result<
        (bool, usize),
        Error,
    >)
        requires
            i <= e@.len(),
        ensures
            match r {
                Ok((b, j)) => i <= j <= e@.len() && parse_eq(e@.skip(i as int), self@)
                    == Ok::<_, Seq<char>>((b, e@.skip(j as int))),
                Err(er) => er matches Error::Syntax { line: l, msg } && l == line && parse_eq(
                    e@.skip(i as int),
                    self@,
                ) == Err::<(bool, Seq<char>), _>(msg@),
            },
    {
        let n = e.len();
        let (b0, j0) = match self.eval_unary(e, i, line) {
            Ok(v) => v,
            Err(er) => {
                return Err(er);
            },
        };
        let mut acc = b0;
        let mut cur = j0;
        proof {
            assert(parse_eq(e@.skip(i as int), self@) == parse_eq_rest(
                b0,
                e@.skip(j0 as int),
                self@,
            ));
        }
        loop
            invariant
                i <= cur <= n,
                n == e@.len(),
                parse_eq(e@.skip(i as int), self@) == parse_eq_rest(
                    acc,
                    e@.skip(cur as int),
                    self@,
                ),
            decreases n - cur,
        {
            let p = self.skip_whitespace(e, cur);
            let ghost s = e@.skip(cur as int);
            let ghost t = s.skip(ws_len(s));
            proof {
                assert(t =~= e@.skip(p as int));
                if p + 1 < n {
                    assert(t[0] == e@[p as int]);
                    assert(t[1] == e@[p + 1]);
                } else if p < n {
                    assert(t[0] == e@[p as int]);
                }
            }
            let mut step = false;
            if p < n && e[p] == '=' {
                if p + 1 < n && e[p + 1] == '=' {
                    step = true;
                }
            }
            if step {
                proof {
                    assert(t.len() >= 2 && t[0] == '=' && t[1] == '=');
                    assert(t.skip(2) =~= e@.skip(p + 2));
                }
                match self.eval_unary(e, p + 2, line) {
                    Ok((b, j)) => {
                        acc = acc == b;
                        cur = j;
                    },
                    Err(er) => {
                        proof {
                            assert(parse_eq_rest(acc, e@.skip(cur as int), self@) == (
                            match parse_unary(t.skip(2), self@) {
                                Ok((b2, r2)) => parse_eq_rest(acc == b2, r2, self@),
                                Err(e2) => Err(e2),
                            }));
                        }
                        return Err(er);
                    },
                }
            } else {
                proof {
                    assert(!(t.len() >= 2 && t[0] == '=' && t[1] == '='));
                    assert(parse_eq_rest(acc, e@.skip(cur as int), self@) == Ok::<_, Seq<char>>(
                        (acc, e@.skip(cur as int)),
                    ));
                }
                return Ok((acc, cur));
            }
        }
    }

    /// Evaluates a whole expression, mirroring [`eval_expr`] on `e`. Errors
    /// carry `line` as their position.
    pub(crate) fn evaluate(&self, e: &Vec<char>, line: u32) -> (r: Result<bool, Error>)
        ensures
            match r {
                Ok(b) => eval_expr(e@, self@) == Ok::<_, Seq<char>>(b),
                Err(er) => er matches Error::Syntax { line: l, msg } && l == line && eval_expr(
                    e@,
                    self@,
                ) == Err::<bool, _>(msg@),
            },
    {
        proof {
            assert(e@.skip(0) =~= e@);
        }
        match self.eval_eq(e, 0, line) {
            Ok((b, j)) => {
                let p = self.skip_whitespace(e, j);
                if p == e.len() {
                    Ok(b)
                } else {
                    Err(Error::Syntax { line, msg: "Expected end-of-line" })
                }
            },
            Err(er) => Err(er),
        }
    }
}

} // verus!
