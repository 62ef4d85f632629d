//! General laws of the preprocessor, stated over the specification
//! functions and proved once and for all.

use vstd::prelude::*;

use crate::chars::is_word_char;
use crate::chars::lemma_word_len_bounds;
use crate::chars::lemma_word_len_eq;
use crate::chars::word_len;
use crate::eval::eval_expr;
use crate::machine::directive_expr;
use crate::machine::directive_name;
use crate::machine::first_line_len;
use crate::machine::is_directive;
use crate::machine::lemma_first_line_len_bounds;
use crate::machine::msg_unmatched_endif;
use crate::machine::run_lines;
use crate::machine::spec_process;
use crate::machine::split_lines;
use crate::machine::step_line;
use crate::machine::State;
use crate::subst::expand;

verus! {

/// The lines of a text, joined back together.
pub open spec fn concat_lines(lines: Seq<Seq<char>>) -> Seq<char>
    decreases lines.len(),
{
    if lines.len() == 0 {
        Seq::empty()
    } else {
        lines[0] + concat_lines(lines.skip(1))
    }
}

/// Splitting a text into lines loses nothing: the lines, in order, spell
/// the text again.
pub proof fn lemma_split_lines_concat(s: Seq<char>)
    ensures
        concat_lines(split_lines(s)) == s,
    decreases s.len(),
{
    if s.len() == 0 {
        assert(concat_lines(split_lines(s)) =~= s);
    } else {
        lemma_first_line_len_bounds(s);
        let k = first_line_len(s);
        lemma_split_lines_concat(s.skip(k));
        assert(split_lines(s)[0] == s.take(k));
        assert(split_lines(s).skip(1) =~= split_lines(s.skip(k)));
        assert(s.take(k) + s.skip(k) =~= s);
    }
}

/// No maximal word of `s` names a defined macro.
pub open spec fn free_of_macros(s: Seq<char>, m: Map<Seq<char>, Seq<char>>) -> bool
    decreases s.len(),
    via free_of_macros_decreases
{
    if s.len() == 0 {
        true
    } else if !is_word_char(s[0]) {
        free_of_macros(s.skip(1), m)
    } else {
        !m.contains_key(s.take(word_len(s))) && free_of_macros(s.skip(word_len(s)), m)
    }
}

#[via_fn]
proof fn free_of_macros_decreases(s: Seq<char>, m: Map<Seq<char>, Seq<char>>) {
    if s.len() > 0 && is_word_char(s[0]) {
        lemma_word_len_bounds(s);
        lemma_word_len_bounds(s.skip(1));
    }
}

/// Substitution leaves a line without defined macro names unchanged.
pub proof fn lemma_expand_id(s: Seq<char>, m: Map<Seq<char>, Seq<char>>)
    requires
        free_of_macros(s, m),
    ensures
        expand(s, m) == s,
    decreases s.len(),
{
    if s.len() == 0 {
        assert(expand(s, m) =~= s);
    } else if !is_word_char(s[0]) {
        lemma_expand_id(s.skip(1), m);
        assert(seq![s[0]] + s.skip(1) =~= s);
    } else {
        lemma_word_len_bounds(s);
        lemma_word_len_bounds(s.skip(1));
        let k = word_len(s);
        lemma_expand_id(s.skip(k), m);
        assert(s.take(k) + s.skip(k) =~= s);
    }
}

/// From the `Active` state, lines that are neither directives nor touched by
/// substitution are all emitted as they are, whatever the saved stack and
/// line count.
proof fn lemma_run_plain(
    lines: Seq<Seq<char>>,
    stack: Seq<State>,
    m: Map<Seq<char>, Seq<char>>,
    lineno: int,
)
    requires
        forall|k: int| 0 <= k < lines.len() ==> free_of_macros(#[trigger] lines[k], m),
        forall|k: int| 0 <= k < lines.len() ==> !is_directive(#[trigger] lines[k]),
    ensures
        run_lines(lines, stack, State::Active, m, lineno) == Ok::<Seq<char>, (int, Seq<char>)>(
            concat_lines(lines),
        ),
    decreases lines.len(),
{
    if lines.len() == 0 {
        assert(run_lines(lines, stack, State::Active, m, lineno) == Ok::<
            Seq<char>,
            (int, Seq<char>),
        >(Seq::empty()));
    } else {
        lemma_expand_id(lines[0], m);
        assert forall|k: int| 0 <= k < lines.skip(1).len() implies free_of_macros(
            #[trigger] lines.skip(1)[k],
            m,
        ) && !is_directive(lines.skip(1)[k]) by {
            assert(lines.skip(1)[k] == lines[k + 1]);
        }
        lemma_run_plain(lines.skip(1), stack, m, lineno + 1);
    }
}

/// Pass-through: a text in which no line is a directive and no maximal word
/// names a defined macro comes out unchanged, whatever else the macro table
/// holds.
pub proof fn law_pass_through(input: Seq<char>, m: Map<Seq<char>, Seq<char>>)
    requires
        forall|k: int|
            0 <= k < split_lines(input).len() ==> free_of_macros(
                #[trigger] split_lines(input)[k],
                m,
            ),
        forall|k: int| 0 <= k < split_lines(input).len() ==> !is_directive(
            #[trigger] split_lines(input)[k],
        ),
    ensures
        spec_process(input, m) == Ok::<Seq<char>, (int, Seq<char>)>(input),
{
    lemma_run_plain(split_lines(input), Seq::empty(), m, 0);
    lemma_split_lines_concat(input);
}

/// Nested skip propagation: in a dead context — the current state `Inactive`
/// or `Skip` — a `#if` line never evaluates its expression. Whatever that
/// expression holds, even an undefined name or malformed syntax, the step
/// cannot fail: it saves the state and enters `Skip`.
pub proof fn law_nested_if_skipped(
    stack: Seq<State>,
    st: State,
    s: Seq<char>,
    m: Map<Seq<char>, Seq<char>>,
)
    requires
        st != State::Active,
        is_directive(s),
        directive_name(s) == "#if"@,
        directive_expr(s) is Some,
    ensures
        step_line(stack, st, s, m) == Ok::<(Seq<State>, State, Option<Seq<char>>), Seq<char>>(
            (stack.push(st), State::Skip, None),
        ),
{
}

/// An `#endif` with no open block is refused, whatever the current state.
pub proof fn law_unmatched_endif(st: State, s: Seq<char>, m: Map<Seq<char>, Seq<char>>)
    requires
        is_directive(s),
        directive_name(s) == "#endif"@,
        directive_expr(s) is None,
    ensures
        step_line(Seq::empty(), st, s, m) == Err::<(Seq<State>, State, Option<Seq<char>>), _>(
            msg_unmatched_endif(),
        ),
{
    lemma_keywords_distinct();
}

/// Word-boundary correctness: a maximal word — a run of word characters
/// followed by a non-word character — is replaced exactly when the whole
/// word is a defined name. A name embedded in a longer word is part of that
/// longer word and is never matched on its own.
pub proof fn law_word_boundary(w: Seq<char>, c: char, rest: Seq<char>, m: Map<Seq<char>, Seq<char>>)
    requires
        w.len() > 0,
        forall|t: int| 0 <= t < w.len() ==> is_word_char(#[trigger] w[t]),
        !is_word_char(c),
    ensures
        expand(w + seq![c] + rest, m) == (if m.contains_key(w) {
            m[w]
        } else {
            w
        }) + (seq![c] + expand(rest, m)),
{
    let s = w + seq![c] + rest;
    assert(s[0] == w[0]);
    assert forall|t: int| 0 <= t < w.len() implies is_word_char(s[t]) by {
        assert(s[t] == w[t]);
    }
    assert(s[w.len() as int] == c);
    lemma_word_len_eq(s, w.len() as int);
    assert(s.take(w.len() as int) =~= w);
    assert(s.skip(w.len() as int) =~= seq![c] + rest);
    let s2 = seq![c] + rest;
    assert(s2[0] == c);
    assert(s2.skip(1) =~= rest);
    assert(expand(s2, m) == seq![c] + expand(rest, m));
}

/// The four directive keywords spell four different words.
proof fn lemma_keywords_distinct()
    ensures
        "#if"@ != "#elif"@,
        "#if"@ != "#else"@,
        "#if"@ != "#endif"@,
        "#elif"@ != "#else"@,
        "#elif"@ != "#endif"@,
        "#else"@ != "#endif"@,
{
    reveal_strlit("#endif");
    reveal_strlit("#if");
    reveal_strlit("#elif");
    reveal_strlit("#else");
    assert("#endif"@.len() == 6);
    assert("#if"@.len() == 3);
    assert("#elif"@.len() == 5);
    assert("#else"@.len() == 5);
    assert("#elif"@[1] == 'e' && "#elif"@[2] == 'l' && "#else"@[2] == 'l' && "#endif"@[2] == 'n');
    assert("#else"@[3] == 's' && "#elif"@[3] == 'i');
}

} // verus!

verus! {

/// Else exclusivity: a block `#if … / body A / #else / body B / #endif`
/// with plain body lines emits exactly the substituted body A when the
/// condition holds and exactly the substituted body B when it does not —
/// never both, never neither — whatever stack and line count surround it,
/// and the block restores the state it found.
pub proof fn law_else_exclusive(
    l_if: Seq<char>,
    la: Seq<char>,
    l_else: Seq<char>,
    lb: Seq<char>,
    l_end: Seq<char>,
    ex: Seq<char>,
    cond: bool,
    stack: Seq<State>,
    m: Map<Seq<char>, Seq<char>>,
    lineno: int,
)
    requires
        is_directive(expand(l_if, m)),
        directive_name(expand(l_if, m)) == "#if"@,
        directive_expr(expand(l_if, m)) == Some(ex),
        eval_expr(ex, m) == Ok::<bool, Seq<char>>(cond),
        !is_directive(expand(la, m)),
        !is_directive(expand(lb, m)),
        is_directive(expand(l_else, m)),
        directive_name(expand(l_else, m)) == "#else"@,
        directive_expr(expand(l_else, m)) is None,
        is_directive(expand(l_end, m)),
        directive_name(expand(l_end, m)) == "#endif"@,
        directive_expr(expand(l_end, m)) is None,
    ensures
        run_lines(seq![l_if, la, l_else, lb, l_end], stack, State::Active, m, lineno) == Ok::<
            Seq<char>,
            (int, Seq<char>),
        >(
            expand(
                if cond {
                    la
                } else {
                    lb
                },
                m,
            ),
        ),
{
    lemma_keywords_distinct();
    let lines = seq![l_if, la, l_else, lb, l_end];
    let stack1 = stack.push(State::Active);
    let st1 = if cond {
        State::Active
    } else {
        State::Inactive
    };
    let st2 = if cond {
        State::Skip
    } else {
        State::Active
    };
    let aval = if cond {
        expand(la, m)
    } else {
        Seq::<char>::empty()
    };
    let bval = if cond {
        Seq::<char>::empty()
    } else {
        expand(lb, m)
    };
    assert(stack1.len() > 0 && stack1.last() == State::Active && stack1.drop_last() =~= stack);
    assert(step_line(stack, State::Active, expand(l_if, m), m) == Ok::<
        (Seq<State>, State, Option<Seq<char>>),
        Seq<char>,
    >((stack1, st1, None)));
    assert(step_line(stack1, st1, expand(la, m), m) == Ok::<
        (Seq<State>, State, Option<Seq<char>>),
        Seq<char>,
    >((
        stack1,
        st1,
        if cond {
            Some(expand(la, m))
        } else {
            None
        },
    )));
    assert(step_line(stack1, st1, expand(l_else, m), m) == Ok::<
        (Seq<State>, State, Option<Seq<char>>),
        Seq<char>,
    >((stack1, st2, None)));
    assert(step_line(stack1, st2, expand(lb, m), m) == Ok::<
        (Seq<State>, State, Option<Seq<char>>),
        Seq<char>,
    >((
        stack1,
        st2,
        if cond {
            None
        } else {
            Some(expand(lb, m))
        },
    )));
    assert(step_line(stack1, st2, expand(l_end, m), m) == Ok::<
        (Seq<State>, State, Option<Seq<char>>),
        Seq<char>,
    >((stack, State::Active, None)));
    assert(seq![l_end].skip(1) =~= Seq::<Seq<char>>::empty());
    assert(seq![l_end][0] == l_end);
    assert(run_lines(Seq::<Seq<char>>::empty(), stack, State::Active, m, lineno + 5) == Ok::<
        Seq<char>,
        (int, Seq<char>),
    >(Seq::empty()));
    assert(run_lines(seq![l_end], stack1, st2, m, lineno + 4) == Ok::<Seq<char>, (int, Seq<char>)>(
        Seq::empty() + Seq::empty(),
    ));
    assert(seq![lb, l_end].skip(1) =~= seq![l_end]);
    assert(seq![lb, l_end][0] == lb);
    assert(run_lines(seq![lb, l_end], stack1, st2, m, lineno + 3) == Ok::<
        Seq<char>,
        (int, Seq<char>),
    >(bval + (Seq::empty() + Seq::empty())));
    assert(seq![l_else, lb, l_end].skip(1) =~= seq![lb, l_end]);
    assert(seq![l_else, lb, l_end][0] == l_else);
    assert(run_lines(seq![l_else, lb, l_end], stack1, st1, m, lineno + 2) == Ok::<
        Seq<char>,
        (int, Seq<char>),
    >(Seq::empty() + (bval + (Seq::empty() + Seq::empty()))));
    assert(seq![la, l_else, lb, l_end].skip(1) =~= seq![l_else, lb, l_end]);
    assert(seq![la, l_else, lb, l_end][0] == la);
    assert(run_lines(seq![la, l_else, lb, l_end], stack1, st1, m, lineno + 1) == Ok::<
        Seq<char>,
        (int, Seq<char>),
    >(aval + (Seq::empty() + (bval + (Seq::empty() + Seq::empty())))));
    assert(lines.skip(1) =~= seq![la, l_else, lb, l_end]);
    assert(lines[0] == l_if);
    assert(run_lines(lines, stack, State::Active, m, lineno) == Ok::<Seq<char>, (int, Seq<char>)>(
        Seq::empty() + (aval + (Seq::empty() + (bval + (Seq::empty() + Seq::empty())))),
    ));
    if cond {
        assert(Seq::empty() + (aval + (Seq::empty() + (bval + (Seq::empty() + Seq::empty()))))
            =~= expand(la, m));
    } else {
        assert(Seq::empty() + (aval + (Seq::empty() + (bval + (Seq::empty() + Seq::empty()))))
            =~= expand(lb, m));
    }
}

} // verus!

verus! {

/// Elif first-match-wins: in `#if … / A / #elif … / B / #elif … / C /
/// #endif`, when the `#if` condition is false and the first `#elif`
/// condition is true, exactly the substituted B is emitted. The second
/// `#elif` needs no condition at all: once a branch was taken it is never
/// evaluated, so it cannot also activate.
pub proof fn law_elif_first_match(
    l_if: Seq<char>,
    la: Seq<char>,
    l_elif1: Seq<char>,
    lb: Seq<char>,
    l_elif2: Seq<char>,
    lc: Seq<char>,
    l_end: Seq<char>,
    ex0: Seq<char>,
    ex1: Seq<char>,
    stack: Seq<State>,
    m: Map<Seq<char>, Seq<char>>,
    lineno: int,
)
    requires
        is_directive(expand(l_if, m)),
        directive_name(expand(l_if, m)) == "#if"@,
        directive_expr(expand(l_if, m)) == Some(ex0),
        eval_expr(ex0, m) == Ok::<bool, Seq<char>>(false),
        is_directive(expand(l_elif1, m)),
        directive_name(expand(l_elif1, m)) == "#elif"@,
        directive_expr(expand(l_elif1, m)) == Some(ex1),
        eval_expr(ex1, m) == Ok::<bool, Seq<char>>(true),
        is_directive(expand(l_elif2, m)),
        directive_name(expand(l_elif2, m)) == "#elif"@,
        directive_expr(expand(l_elif2, m)) is Some,
        is_directive(expand(l_end, m)),
        directive_name(expand(l_end, m)) == "#endif"@,
        directive_expr(expand(l_end, m)) is None,
        !is_directive(expand(la, m)),
        !is_directive(expand(lb, m)),
        !is_directive(expand(lc, m)),
    ensures
        run_lines(
            seq![l_if, la, l_elif1, lb, l_elif2, lc, l_end],
            stack,
            State::Active,
            m,
            lineno,
        ) == Ok::<Seq<char>, (int, Seq<char>)>(expand(lb, m)),
{
    lemma_keywords_distinct();
    let lines = seq![l_if, la, l_elif1, lb, l_elif2, lc, l_end];
    let stack1 = stack.push(State::Active);
    assert(stack1.len() > 0 && stack1.last() == State::Active && stack1.drop_last() =~= stack);
    assert(step_line(stack, State::Active, expand(l_if, m), m) == Ok::<
        (Seq<State>, State, Option<Seq<char>>),
        Seq<char>,
    >((stack1, State::Inactive, None)));
    assert(step_line(stack1, State::Inactive, expand(la, m), m) == Ok::<
        (Seq<State>, State, Option<Seq<char>>),
        Seq<char>,
    >((stack1, State::Inactive, None)));
    assert(step_line(stack1, State::Inactive, expand(l_elif1, m), m) == Ok::<
        (Seq<State>, State, Option<Seq<char>>),
        Seq<char>,
    >((stack1, State::Active, None)));
    assert(step_line(stack1, State::Active, expand(lb, m), m) == Ok::<
        (Seq<State>, State, Option<Seq<char>>),
        Seq<char>,
    >((stack1, State::Active, Some(expand(lb, m)))));
    assert(step_line(stack1, State::Active, expand(l_elif2, m), m) == Ok::<
        (Seq<State>, State, Option<Seq<char>>),
        Seq<char>,
    >((stack1, State::Skip, None)));
    assert(step_line(stack1, State::Skip, expand(lc, m), m) == Ok::<
        (Seq<State>, State, Option<Seq<char>>),
        Seq<char>,
    >((stack1, State::Skip, None)));
    assert(step_line(stack1, State::Skip, expand(l_end, m), m) == Ok::<
        (Seq<State>, State, Option<Seq<char>>),
        Seq<char>,
    >((stack, State::Active, None)));
    assert(seq![l_end].skip(1) =~= Seq::<Seq<char>>::empty());
    assert(seq![l_end][0] == l_end);
    assert(run_lines(Seq::<Seq<char>>::empty(), stack, State::Active, m, lineno + 7) == Ok::<
        Seq<char>,
        (int, Seq<char>),
    >(Seq::empty()));
    assert(run_lines(seq![l_end], stack1, State::Skip, m, lineno + 6) == Ok::<
        Seq<char>,
        (int, Seq<char>),
    >(Seq::empty() + Seq::empty()));
    assert(seq![lc, l_end].skip(1) =~= seq![l_end]);
    assert(seq![lc, l_end][0] == lc);
    assert(run_lines(seq![lc, l_end], stack1, State::Skip, m, lineno + 5) == Ok::<
        Seq<char>,
        (int, Seq<char>),
    >(Seq::empty() + (Seq::empty() + Seq::empty())));
    assert(seq![l_elif2, lc, l_end].skip(1) =~= seq![lc, l_end]);
    assert(seq![l_elif2, lc, l_end][0] == l_elif2);
    assert(run_lines(seq![l_elif2, lc, l_end], stack1, State::Active, m, lineno + 4) == Ok::<
        Seq<char>,
        (int, Seq<char>),
    >(Seq::empty() + (Seq::empty() + (Seq::empty() + Seq::empty()))));
    assert(seq![lb, l_elif2, lc, l_end].skip(1) =~= seq![l_elif2, lc, l_end]);
    assert(seq![lb, l_elif2, lc, l_end][0] == lb);
    assert(run_lines(seq![lb, l_elif2, lc, l_end], stack1, State::Active, m, lineno + 3) == Ok::<
        Seq<char>,
        (int, Seq<char>),
    >(expand(lb, m) + (Seq::empty() + (Seq::empty() + (Seq::empty() + Seq::empty())))));
    assert(seq![l_elif1, lb, l_elif2, lc, l_end].skip(1) =~= seq![lb, l_elif2, lc, l_end]);
    assert(seq![l_elif1, lb, l_elif2, lc, l_end][0] == l_elif1);
    assert(run_lines(seq![l_elif1, lb, l_elif2, lc, l_end], stack1, State::Inactive, m, lineno + 2)
        == Ok::<Seq<char>, (int, Seq<char>)>(
        Seq::empty() + (expand(lb, m) + (Seq::empty() + (Seq::empty() + (Seq::empty()
            + Seq::empty())))),
    ));
    assert(seq![la, l_elif1, lb, l_elif2, lc, l_end].skip(1) =~= seq![
        l_elif1,
        lb,
        l_elif2,
        lc,
        l_end,
    ]);
    assert(seq![la, l_elif1, lb, l_elif2, lc, l_end][0] == la);
    assert(run_lines(
        seq![la, l_elif1, lb, l_elif2, lc, l_end],
        stack1,
        State::Inactive,
        m,
        lineno + 1,
    ) == Ok::<Seq<char>, (int, Seq<char>)>(
        Seq::empty() + (Seq::empty() + (expand(lb, m) + (Seq::empty() + (Seq::empty() + (
        Seq::empty() + Seq::empty()))))),
    ));
    assert(lines.skip(1) =~= seq![la, l_elif1, lb, l_elif2, lc, l_end]);
    assert(lines[0] == l_if);
    assert(run_lines(lines, stack, State::Active, m, lineno) == Ok::<Seq<char>, (int, Seq<char>)>(
        Seq::empty() + (Seq::empty() + (Seq::empty() + (expand(lb, m) + (Seq::empty() + (
        Seq::empty() + (Seq::empty() + Seq::empty())))))),
    ));
    assert(Seq::empty() + (Seq::empty() + (Seq::empty() + (expand(lb, m) + (Seq::empty() + (
    Seq::empty() + (Seq::empty() + Seq::empty())))))) =~= expand(lb, m));
}

} // verus!
