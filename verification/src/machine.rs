//! The conditional state machine: line classification, directive handling,
//! and the whole-text entry point.

use vstd::prelude::*;

use crate::chars::chars_of;
use crate::chars::is_space_char;
use crate::chars::lemma_nws_len_eq;
use crate::chars::lemma_tws_len_eq;
use crate::chars::lemma_ws_len_eq;
use crate::chars::nws_len;
use crate::chars::space_char;
use crate::chars::str_eq_range;
use crate::chars::tws_len;
use crate::chars::vec_range;
use crate::chars::ws_len;
use crate::error::Error;
use crate::eval::eval_expr;
use crate::subst::expand;
use crate::subst::expand_line;
use crate::table::Context;
use vstd::string::StrSliceExecFns;
use vstd::string::StringExecFns;

verus! {

/// The condition of the innermost open block.
#[derive(PartialEq, Eq, Structural, Copy, Clone, Debug)]
pub enum State {
    /// A sibling branch of this block was already taken, or the enclosing
    /// block is itself dead: no later branch of this block may activate.
    Skip,
    /// No branch of this block has matched yet: lines are suppressed, but a
    /// later `#elif` or `#else` may still activate it.
    Inactive,
    /// The current branch matches: lines pass through to the output.
    Active,
}

pub open spec fn msg_if_expr() -> Seq<char> {
    "Expected expression after `#if`"@
}

pub open spec fn msg_elif_expr() -> Seq<char> {
    "Expected expression after `#elif`"@
}

pub open spec fn msg_else_expr() -> Seq<char> {
    "Unexpected expression after `#else`"@
}

pub open spec fn msg_unmatched_endif() -> Seq<char> {
    "Unexpected `#endif` with no matching `#if`"@
}

pub open spec fn msg_unknown_directive() -> Seq<char> {
    "Unrecognised preprocessor directive"@
}

/// Index of the first `//` in `s`, or the length of `s` if there is none.
pub open spec fn comment_pos(s: Seq<char>) -> int
    decreases s.len(),
{
    if s.len() < 2 {
        s.len() as int
    } else if s[0] == '/' && s[1] == '/' {
        0
    } else {
        1 + comment_pos(s.skip(1))
    }
}

pub proof fn lemma_comment_pos_eq(s: Seq<char>, k: int)
    requires
        0 <= k <= s.len(),
        forall|t: int| 0 <= t < k ==> !(t + 1 < s.len() && #[trigger] s[t] == '/' && s[t + 1] == '/'),
        k < s.len() ==> k + 1 < s.len() && s[k] == '/' && s[k + 1] == '/',
    ensures
        comment_pos(s) == k,
    decreases s.len(),
{
    if s.len() < 2 {
        assert(k == s.len());
    } else if k == 0 {
    } else {
        assert(!(0 + 1 < s.len() && s[0] == '/' && s[1] == '/'));
        assert forall|t: int| 0 <= t < k - 1 implies !(t + 1 < s.skip(1).len() && #[trigger] s.skip(
            1,
        )[t] == '/' && s.skip(1)[t + 1] == '/') by {
            assert(s.skip(1)[t] == s[t + 1]);
            assert(t + 1 < s.skip(1).len() ==> s.skip(1)[t + 1] == s[t + 2]);
        }
        if k - 1 < s.skip(1).len() {
            assert(s.skip(1)[k - 1] == s[k]);
            assert(s.skip(1)[k] == s[k + 1]);
        }
        lemma_comment_pos_eq(s.skip(1), k - 1);
    }
}

/// Leading and trailing whitespace removed.
pub open spec fn trim_full(s: Seq<char>) -> Seq<char> {
    let t = s.skip(ws_len(s));
    t.take(t.len() - tws_len(t))
}

/// A line is a directive when, after substitution, its first non-blank
/// character is `#`.
pub open spec fn is_directive(s: Seq<char>) -> bool {
    let t = s.skip(ws_len(s));
    t.len() > 0 && t[0] == '#'
}

/// The keyword of a directive line: the trimmed line, cut at the first `//`,
/// up to the first whitespace.
pub open spec fn directive_name(s: Seq<char>) -> Seq<char> {
    let t = s.skip(ws_len(s));
    let c = t.take(comment_pos(t));
    c.take(nws_len(c))
}

/// The expression of a directive line: what follows the keyword, cut at the
/// first `//` and trimmed; absent when nothing is left.
pub open spec fn directive_expr(s: Seq<char>) -> Option<Seq<char>> {
    let t = s.skip(ws_len(s));
    let c = t.take(comment_pos(t));
    let r = trim_full(c.skip(nws_len(c)));
    if r.len() == 0 {
        None
    } else {
        Some(r)
    }
}

/// One step of the state machine on an already-substituted line: the new
/// stack of saved states, the new current state, and the text to emit, or
/// the error message the line provokes.
///
/// A plain line is emitted exactly when the current state is `Active`.
/// `#if` saves the current state and enters the block: its expression is
/// evaluated only from `Active`; a dead context always yields `Skip`.
/// `#elif` evaluates only from `Inactive`; from `Active` or `Skip` it closes
/// the branch for good. `#else` activates exactly from `Inactive`. `#endif`
/// restores the saved state.
pub open spec fn step_line(
    stack: Seq<State>,
    st: State,
    s: Seq<char>,
    m: Map<Seq<char>, Seq<char>>,
) -> Result<(Seq<State>, State, Option<Seq<char>>), Seq<char>> {
    if !is_directive(s) {
        Ok(
            (
                stack,
                st,
                if st is Active {
                    Some(s)
                } else {
                    None
                },
            ),
        )
    } else {
        let name = directive_name(s);
        let oe = directive_expr(s);
        if name == "#if"@ {
            match oe {
                None => Err(msg_if_expr()),
                Some(ex) => if st is Active {
                    match eval_expr(ex, m) {
                        Ok(b) => Ok(
                            (
                                stack.push(st),
                                if b {
                                    State::Active
                                } else {
                                    State::Inactive
                                },
                                None,
                            ),
                        ),
                        Err(msg) => Err(msg),
                    }
                } else {
                    Ok((stack.push(st), State::Skip, None))
                },
            }
        } else if name == "#elif"@ {
            match oe {
                None => Err(msg_elif_expr()),
                Some(ex) => if st is Inactive {
                    match eval_expr(ex, m) {
                        Ok(b) => Ok(
                            (
                                stack,
                                if b {
                                    State::Active
                                } else {
                                    State::Inactive
                                },
                                None,
                            ),
                        ),
                        Err(msg) => Err(msg),
                    }
                } else {
                    Ok((stack, State::Skip, None))
                },
            }
        } else if name == "#else"@ {
            if oe is Some {
                Err(msg_else_expr())
            } else {
                Ok(
                    (
                        stack,
                        if st is Inactive {
                            State::Active
                        } else {
                            State::Skip
                        },
                        None,
                    ),
                )
            }
        } else if name == "#endif"@ {
            if oe is Some {
                Err(msg_else_expr())
            } else if stack.len() == 0 {
                Err(msg_unmatched_endif())
            } else {
                Ok((stack.drop_last(), stack.last(), None))
            }
        } else {
            Err(msg_unknown_directive())
        }
    }
}

/// Length of the first line of `s`, its `\n` terminator included; the whole
/// of `s` when no `\n` is left.
pub open spec fn first_line_len(s: Seq<char>) -> int
    decreases s.len(),
{
    if s.len() == 0 {
        0
    } else if s[0] == '\n' {
        1
    } else {
        1 + first_line_len(s.skip(1))
    }
}

pub proof fn lemma_first_line_len_bounds(s: Seq<char>)
    ensures
        s.len() > 0 ==> 1 <= first_line_len(s) <= s.len(),
        s.len() == 0 ==> first_line_len(s) == 0,
    decreases s.len(),
{
    if s.len() > 0 && s[0] != '\n' {
        lemma_first_line_len_bounds(s.skip(1));
    }
}

/// A `\n` at `p`, preceded by none, ends the first line just after itself.
pub proof fn lemma_first_line_len_found(s: Seq<char>, p: int)
    requires
        0 <= p < s.len(),
        s[p] == '\n',
        forall|t: int| 0 <= t < p ==> s[t] != '\n',
    ensures
        first_line_len(s) == p + 1,
    decreases s.len(),
{
    if p > 0 {
        assert forall|t: int| 0 <= t < p - 1 implies s.skip(1)[t] != '\n' by {
            assert(s.skip(1)[t] == s[t + 1]);
        }
        assert(s.skip(1)[p - 1] == s[p]);
        lemma_first_line_len_found(s.skip(1), p - 1);
    }
}

/// Without any `\n`, the first line is all of `s`.
pub proof fn lemma_first_line_len_none(s: Seq<char>)
    requires
        forall|t: int| 0 <= t < s.len() ==> s[t] != '\n',
    ensures
        first_line_len(s) == s.len(),
    decreases s.len(),
{
    if s.len() > 0 {
        assert forall|t: int| 0 <= t < s.skip(1).len() implies s.skip(1)[t] != '\n' by {
            assert(s.skip(1)[t] == s[t + 1]);
        }
        lemma_first_line_len_none(s.skip(1));
    }
}

/// The lines of a text, in order, each keeping its `\n` terminator; only the
/// last can lack one. The empty text has no lines.
pub open spec fn split_lines(s: Seq<char>) -> Seq<Seq<char>>
    decreases s.len(),
    via split_lines_decreases
{
    if s.len() == 0 {
        Seq::empty()
    } else {
        seq![s.take(first_line_len(s))] + split_lines(s.skip(first_line_len(s)))
    }
}

#[via_fn]
proof fn split_lines_decreases(s: Seq<char>) {
    lemma_first_line_len_bounds(s);
}

/// Runs the state machine over a sequence of raw lines, starting from the
/// given stack, state and 0-based count of lines already consumed: the
/// concatenation of everything emitted, or the 1-based error line and its
/// message.
pub open spec fn run_lines(
    lines: Seq<Seq<char>>,
    stack: Seq<State>,
    st: State,
    m: Map<Seq<char>, Seq<char>>,
    lineno: int,
) -> Result<Seq<char>, (int, Seq<char>)>
    decreases lines.len(),
{
    if lines.len() == 0 {
        Ok(Seq::empty())
    } else {
        match step_line(stack, st, expand(lines[0], m), m) {
            Err(msg) => Err((lineno + 1, msg)),
            Ok((stack2, st2, emit)) => match run_lines(lines.skip(1), stack2, st2, m, lineno + 1) {
                Err(er) => Err(er),
                Ok(rest) => Ok(
                    (match emit {
                        Some(t) => t,
                        None => Seq::empty(),
                    }) + rest,
                ),
            },
        }
    }
}

/// What preprocessing a whole text means: split it into lines and run the
/// state machine from the initial state. An unterminated `#if` at the end of
/// the input is accepted; [`Processor::open_blocks`] lets a caller detect it.
pub open spec fn spec_process(input: Seq<char>, m: Map<Seq<char>, Seq<char>>) -> Result<
    Seq<char>,
    (int, Seq<char>),
> {
    run_lines(split_lines(input), Seq::empty(), State::Active, m, 0)
}

} // verus!

use vstd::prelude::*;

verus! {

/// The spec-level image of a [`Processor`]: the saved states, the current
/// state, and how many lines have been consumed.
pub struct ProcView {
    pub stack: Seq<State>,
    pub state: State,
    pub line: u32,
}

/// Carries the conditional state of one run from line to line: feed every
/// line of the input, in order, to [`Processor::process_line`] and write out
/// whatever it hands back.
pub struct Processor {
    stack: Vec<State>,
    state: State,
    line: u32,
}

impl View for Processor {
    type V = ProcView;

    closed spec fn view(&self) -> ProcView {
        ProcView { stack: self.stack@, state: self.state, line: self.line }
    }
}

impl Processor {
    /// A fresh run: active, no open blocks, no lines seen.
    pub fn new() -> (r: Processor)
        ensures
            r@.stack == Seq::<State>::empty(),
            r@.state == State::Active,
            r@.line == 0,
    {
        let p = Processor { stack: Vec::new(), state: State::Active, line: 0 };
        proof {
            assert(p@.stack =~= Seq::<State>::empty());
        }
        p
    }

    /// How many lines this run has consumed.
    pub fn lines_seen(&self) -> (r: u32)
        ensures
            r == self@.line,
    {
        self.line
    }

    /// How many `#if` blocks are open and not yet closed by `#endif`. The
    /// end of the input with open blocks still counted here is an
    /// unterminated `#if`; a caller that wants to refuse it checks for zero
    /// after the last line.
    pub fn open_blocks(&self) -> (r: usize)
        ensures
            r == self@.stack.len(),
    {
        self.stack.len()
    }

    /// Consumes one line: substitutes macros, classifies the result, and
    /// either hands back the text to emit or steps the conditional state.
    /// Errors report the line's 1-based position and leave the conditional
    /// state as it was.
    #[verifier::rlimit(100)]
    pub fn process_line(&mut self, ctx: &Context, line: &str) -> (r: Result<Option<String>, Error>)
        requires
            old(self)@.line < u32::MAX,
        ensures
            final(self)@.line == old(self)@.line + 1,
            match step_line(old(self)@.stack, old(self)@.state, expand(line@, ctx@), ctx@) {
                Ok((stack2, st2, emit)) => {
                    &&& r matches Ok(o)
                    &&& final(self)@.stack == stack2
                    &&& final(self)@.state == st2
                    &&& match emit {
                        Some(text) => o matches Some(written) && written@ == text,
                        None => o is None,
                    }
                },
                Err(msg) => {
                    &&& r matches Err(er)
                    &&& er matches Error::Syntax { line: l, msg: ms } && l == old(self)@.line + 1
                        && ms@ == msg
                    &&& final(self)@.stack == old(self)@.stack
                    &&& final(self)@.state == old(self)@.state
                },
            },
    {
        self.line = self.line + 1;
        let expanded = expand_line(ctx, line);
        let ghost s = expanded@;
        let cv = chars_of(expanded.as_str());
        let n = cv.len();
        proof {
            assert(cv@.skip(0) =~= cv@);
        }
        let lo = ctx.skip_whitespace(&cv, 0);
        let ghost t = s.skip(ws_len(s));
        proof {
            assert(t =~= cv@.skip(lo as int));
        }
        if lo == n || cv[lo] != '#' {
            proof {
                if lo < n {
                    assert(t[0] == cv@[lo as int]);
                }
                assert(!is_directive(s));
            }
            if self.state == State::Active {
                return Ok(Some(expanded));
            } else {
                return Ok(None);
            }
        }
        proof {
            assert(t[0] == cv@[lo as int]);
            assert(is_directive(s));
        }
        let mut cp: usize = lo;
        while cp + 1 < n && !(cv[cp] == '/' && cv[cp + 1] == '/')
            invariant
                lo <= cp <= n,
                n == cv@.len(),
                cp < n,
                forall|u: int| lo <= u < cp ==> !(#[trigger] cv@[u] == '/' && cv@[u + 1] == '/'),
            decreases n - cp,
        {
            cp = cp + 1;
        }
        let cpos: usize = if cp + 1 < n {
            cp
        } else {
            n
        };
        proof {
            assert forall|u: int| 0 <= u < cpos - lo implies !(u + 1 < t.len() && #[trigger] t[u]
                == '/' && t[u + 1] == '/') by {
                assert(t[u] == cv@[lo + u]);
                assert(u + 1 < t.len() ==> t[u + 1] == cv@[lo + u + 1]);
            }
            if cpos < n {
                assert(t[cpos - lo] == cv@[cpos as int]);
                assert(t[cpos - lo + 1] == cv@[cpos + 1]);
            }
            lemma_comment_pos_eq(t, cpos - lo);
        }
        let ghost c = t.take(comment_pos(t));
        proof {
            assert(c =~= cv@.subrange(lo as int, cpos as int));
        }
        let mut ne: usize = lo;
        while ne < cpos && !space_char(cv[ne])
            invariant
                lo <= ne <= cpos <= n,
                n == cv@.len(),
                forall|u: int| lo <= u < ne ==> !is_space_char(cv@[u]),
            decreases cpos - ne,
        {
            ne = ne + 1;
        }
        proof {
            assert forall|u: int| 0 <= u < ne - lo implies !is_space_char(c[u]) by {
                assert(c[u] == cv@[lo + u]);
            }
            assert(ne - lo < c.len() ==> is_space_char(c[ne - lo]));
            lemma_nws_len_eq(c, ne - lo);
            assert(c.take(nws_len(c)) =~= cv@.subrange(lo as int, ne as int));
        }
        let ghost rest = c.skip(nws_len(c));
        proof {
            assert(rest =~= cv@.subrange(ne as int, cpos as int));
        }
        let mut elo: usize = ne;
        while elo < cpos && space_char(cv[elo])
            invariant
                ne <= elo <= cpos <= n,
                n == cv@.len(),
                forall|u: int| ne <= u < elo ==> is_space_char(cv@[u]),
            decreases cpos - elo,
        {
            elo = elo + 1;
        }
        let mut ehi: usize = cpos;
        while ehi > elo && space_char(cv[ehi - 1])
            invariant
                elo <= ehi <= cpos <= n,
                n == cv@.len(),
                forall|u: int| ehi <= u < cpos ==> is_space_char(cv@[u]),
            decreases ehi,
        {
            ehi = ehi - 1;
        }
        proof {
            assert forall|u: int| 0 <= u < elo - ne implies is_space_char(rest[u]) by {
                assert(rest[u] == cv@[ne + u]);
            }
            assert(elo - ne < rest.len() ==> !is_space_char(rest[elo - ne]));
            lemma_ws_len_eq(rest, elo - ne);
        }
        let ghost t2 = rest.skip(ws_len(rest));
        proof {
            assert(t2 =~= cv@.subrange(elo as int, cpos as int));
            assert forall|u: int| t2.len() - (cpos - ehi) <= u < t2.len() implies is_space_char(
                t2[u],
            ) by {
                assert(t2[u] == cv@[elo + u]);
            }
            if cpos - ehi < t2.len() {
                assert(t2[ehi - elo - 1] == cv@[ehi - 1]);
            }
            lemma_tws_len_eq(t2, cpos - ehi);
            assert(trim_full(rest) =~= cv@.subrange(elo as int, ehi as int));
        }
        let has_expr = ehi > elo;
        let ghost ex = cv@.subrange(elo as int, ehi as int);
        proof {
            assert(directive_expr(s) == (if has_expr {
                Some(ex)
            } else {
                None
            }));
        }
        if str_eq_range("#if", &cv, lo, ne) {
            if !has_expr {
                return Err(Error::Syntax { line: self.line, msg: "Expected expression after `#if`" });
            }
            if self.state == State::Active {
                let ev = vec_range(&cv, elo, ehi);
                match ctx.evaluate(&ev, self.line) {
                    Ok(b) => {
                        let prev = self.state;
                        self.stack.push(prev);
                        self.state = if b {
                            State::Active
                        } else {
                            State::Inactive
                        };
                        Ok(None)
                    },
                    Err(er) => Err(er),
                }
            } else {
                let prev = self.state;
                self.stack.push(prev);
                self.state = State::Skip;
                Ok(None)
            }
        } else if str_eq_range("#elif", &cv, lo, ne) {
            if !has_expr {
                return Err(
                    Error::Syntax { line: self.line, msg: "Expected expression after `#elif`" },
                );
            }
            if self.state == State::Inactive {
                let ev = vec_range(&cv, elo, ehi);
                match ctx.evaluate(&ev, self.line) {
                    Ok(b) => {
                        self.state = if b {
                            State::Active
                        } else {
                            State::Inactive
                        };
                        Ok(None)
                    },
                    Err(er) => Err(er),
                }
            } else {
                self.state = State::Skip;
                Ok(None)
            }
        } else if str_eq_range("#else", &cv, lo, ne) {
            if has_expr {
                return Err(
                    Error::Syntax { line: self.line, msg: "Unexpected expression after `#else`" },
                );
            }
            self.state = if self.state == State::Inactive {
                State::Active
            } else {
                State::Skip
            };
            Ok(None)
        } else if str_eq_range("#endif", &cv, lo, ne) {
            if has_expr {
                return Err(
                    Error::Syntax { line: self.line, msg: "Unexpected expression after `#else`" },
                );
            }
            match self.stack.pop() {
                Some(prev) => {
                    self.state = prev;
                    Ok(None)
                },
                None => Err(
                    Error::Syntax {
                        line: self.line,
                        msg: "Unexpected `#endif` with no matching `#if`",
                    },
                ),
            }
        } else {
            Err(Error::Syntax { line: self.line, msg: "Unrecognised preprocessor directive" })
        }
    }
}

} // verus!

verus! {

/// Preprocesses a whole text held in memory: the transformed text, or the
/// first error with its 1-based line number — exactly what [`spec_process`]
/// says for this input and table. The macro table is only read. Line numbers
/// are reported in a `u32`, so the text must be shorter than `u32::MAX`
/// characters.
pub fn process_str(input: &str, context: &mut Context) -> (r: Result<String, Error>)
    requires
        input@.len() < u32::MAX,
    ensures
        *final(context) == *old(context),
        match spec_process(input@, old(context)@) {
            Ok(text) => r matches Ok(out) && out@ == text,
            Err((ln, msg)) => r matches Err(er) && er matches Error::Syntax { line: l, msg: ms }
                && l as int == ln && ms@ == msg,
        },
{
    let cv = chars_of(input);
    let n = cv.len();
    let mut proc = Processor::new();
    let mut out = String::new();
    let mut i: usize = 0;
    proof {
        assert(input@.skip(0) =~= input@);
        match run_lines(split_lines(input@), Seq::<State>::empty(), State::Active, context@, 0) {
            Ok(rest) => {
                assert(out@ + rest =~= rest);
            },
            Err(e) => {},
        }
    }
    while i < n
        invariant
            i <= n,
            n == cv@.len(),
            cv@ == input@,
            n < u32::MAX,
            proc@.line <= i,
            *context == *old(context),
            match run_lines(
                split_lines(input@.skip(i as int)),
                proc@.stack,
                proc@.state,
                context@,
                proc@.line as int,
            ) {
                Ok(rest) => spec_process(input@, context@) == Ok::<Seq<char>, (int, Seq<char>)>(
                    out@ + rest,
                ),
                Err(e) => spec_process(input@, context@) == Err::<Seq<char>, (int, Seq<char>)>(e),
            },
        decreases n - i,
    {
        let mut j: usize = i;
        while j < n && cv[j] != '\n'
            invariant
                i <= j <= n,
                n == cv@.len(),
                cv@ == input@,
                forall|u: int| i <= u < j ==> cv@[u] != '\n',
            decreases n - j,
        {
            j = j + 1;
        }
        let eol: usize = if j < n {
            j + 1
        } else {
            j
        };
        let ghost srem = input@.skip(i as int);
        proof {
            if j < n {
                assert(srem[j - i] == input@[j as int]);
                assert forall|u: int| 0 <= u < j - i implies srem[u] != '\n' by {
                    assert(srem[u] == input@[i + u]);
                }
                lemma_first_line_len_found(srem, j - i);
            } else {
                assert forall|u: int| 0 <= u < srem.len() implies srem[u] != '\n' by {
                    assert(srem[u] == input@[i + u]);
                }
                lemma_first_line_len_none(srem);
            }
        }
        let line_s = input.substring_char(i, eol);
        proof {
            assert(line_s@ =~= srem.take(first_line_len(srem)));
            assert(srem.skip(first_line_len(srem)) =~= input@.skip(eol as int));
            assert(split_lines(srem)[0] == line_s@);
            assert(split_lines(srem).skip(1) =~= split_lines(input@.skip(eol as int)));
        }
        let ghost out0 = out@;
        let ghost stack0 = proc@.stack;
        let ghost st0 = proc@.state;
        let ghost ln0 = proc@.line;
        match proc.process_line(context, line_s) {
            Ok(opt) => {
                let ghost emitted: Seq<char> = match opt {
                    Some(ref txt) => txt@,
                    None => Seq::empty(),
                };
                match opt {
                    Some(txt) => out.append(txt.as_str()),
                    None => {},
                }
                proof {
                    assert(out@ == out0 + emitted);
                    match run_lines(
                        split_lines(input@.skip(eol as int)),
                        proc@.stack,
                        proc@.state,
                        context@,
                        proc@.line as int,
                    ) {
                        Ok(rest) => {
                            assert(out0 + (emitted + rest) =~= out@ + rest);
                        },
                        Err(e) => {},
                    }
                }
            },
            Err(er) => {
                return Err(er);
            },
        }
        i = eol;
    }
    proof {
        assert(input@.skip(n as int) =~= Seq::<char>::empty());
        assert(out@ + Seq::<char>::empty() =~= out@);
    }
    Ok(out)
}

} // verus!
