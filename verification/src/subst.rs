//! Whole-word macro substitution.

use vstd::prelude::*;

use crate::chars::chars_of;
use crate::chars::is_word_char;
use crate::chars::lemma_word_len_bounds;
use crate::chars::lemma_word_len_eq;
use crate::chars::word_char;
use crate::chars::word_len;
use crate::table::Context;
use vstd::string::StrSliceExecFns;
use vstd::string::StringExecFns;

verus! {

/// Whole-word substitution over one line: each maximal run of word
/// characters that names a defined macro is replaced by that macro's value;
/// every other character passes through. The substitution is a single pass:
/// replacement text is not scanned again. A macro name that is not a plain
/// word (empty, or holding a non-word character) can never equal a maximal
/// word run, so it never matches.
pub open spec fn expand(s: Seq<char>, m: Map<Seq<char>, Seq<char>>) -> Seq<char>
    decreases s.len(),
    via expand_decreases
{
    if s.len() == 0 {
        Seq::empty()
    } else if !is_word_char(s[0]) {
        seq![s[0]] + expand(s.skip(1), m)
    } else {
        let w = s.take(word_len(s));
        (if m.contains_key(w) {
            m[w]
        } else {
            w
        }) + expand(s.skip(word_len(s)), m)
    }
}

#[via_fn]
proof fn expand_decreases(s: Seq<char>, m: Map<Seq<char>, Seq<char>>) {
    if s.len() > 0 && is_word_char(s[0]) {
        lemma_word_len_bounds(s);
        lemma_word_len_bounds(s.skip(1));
    }
}

/// Applies [`expand`] to one line: scans the maximal word runs, looks each
/// up in the table, and copies everything else through unchanged.
pub fn expand_line(ctx: &Context, line: &str) -> (r: String)
    ensures
        r@ == expand(line@, ctx@),
{
    let cv = chars_of(line);
    let n = cv.len();
    let mut out = String::new();
    let mut seg: usize = 0;
    let mut i: usize = 0;
    proof {
        assert(line@.skip(0) =~= line@);
        assert(out@ + line@.subrange(0, 0) + expand(line@, ctx@) =~= expand(line@, ctx@));
    }
    while i < n
        invariant
            seg <= i <= n,
            n == cv@.len(),
            cv@ == line@,
            out@ + line@.subrange(seg as int, i as int) + expand(line@.skip(i as int), ctx@)
                == expand(line@, ctx@),
        decreases n - i,
    {
        if !word_char(cv[i]) {
            proof {
                let s = line@.skip(i as int);
                assert(s[0] == line@[i as int]);
                assert(s.skip(1) =~= line@.skip(i + 1));
                assert(line@.subrange(seg as int, i as int) + (seq![s[0]] + expand(
                    line@.skip(i + 1),
                    ctx@,
                )) =~= line@.subrange(seg as int, i + 1) + expand(line@.skip(i + 1), ctx@));
            }
            i = i + 1;
        } else {
            let mut j: usize = i + 1;
            while j < n && word_char(cv[j])
                invariant
                    i < j <= n,
                    n == cv@.len(),
                    cv@ == line@,
                    forall|t: int| i <= t < j ==> is_word_char(line@[t]),
                decreases n - j,
            {
                j = j + 1;
            }
            proof {
                let s = line@.skip(i as int);
                assert forall|t: int| 0 <= t < j - i implies is_word_char(s[t]) by {
                    assert(s[t] == line@[i + t]);
                }
                assert(j - i < s.len() ==> !is_word_char(s[j - i]));
                lemma_word_len_eq(s, j - i);
                assert(s.take(j - i) =~= line@.subrange(i as int, j as int));
                assert(s.skip(j - i) =~= line@.skip(j as int));
            }
            let ghost w = line@.subrange(i as int, j as int);
            match ctx.find_def(&cv, i, j) {
                Some(v) => {
                    let ghost out0 = out@;
                    out.append(line.substring_char(seg, i));
                    out.append(v.as_str());
                    proof {
                        assert(line@.subrange(j as int, j as int) =~= Seq::<char>::empty());
                        assert(out@ =~= out0 + line@.subrange(seg as int, i as int) + ctx@[w]);
                        assert(out@ + line@.subrange(j as int, j as int) + expand(
                            line@.skip(j as int),
                            ctx@,
                        ) =~= (out0 + line@.subrange(seg as int, i as int)) + (ctx@[w] + expand(
                            line@.skip(j as int),
                            ctx@,
                        )));
                        assert(out0 + line@.subrange(seg as int, i as int) + (ctx@[w] + expand(
                            line@.skip(j as int),
                            ctx@,
                        )) =~= (out0 + line@.subrange(seg as int, i as int)) + (ctx@[w] + expand(
                            line@.skip(j as int),
                            ctx@,
                        )));
                    }
                    seg = j;
                },
                None => {
                    proof {
                        assert(line@.subrange(seg as int, i as int) + (w + expand(
                            line@.skip(j as int),
                            ctx@,
                        )) =~= line@.subrange(seg as int, j as int) + expand(
                            line@.skip(j as int),
                            ctx@,
                        ));
                    }
                },
            }
            i = j;
        }
    }
    out.append(line.substring_char(seg, n));
    proof {
        assert(line@.skip(n as int) =~= Seq::<char>::empty());
        assert(expand(line@.skip(n as int), ctx@) =~= Seq::<char>::empty());
        assert(out@ =~= expand(line@, ctx@));
    }
    out
}

} // verus!
