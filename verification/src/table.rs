//! The macro table: an ordered record of `define` calls, read as a map in
//! which the last definition of a name wins.

use vstd::prelude::*;

use crate::chars::chars_of;
use crate::chars::str_eq_range;

verus! {

/// One recorded definition.
#[derive(Debug, Clone)]
struct Def {
    name: String,
    value: String,
}

/// The context for a preprocessing run: the macro table.
///
/// Built by [`Context::new`] and [`Context::define`]; read-only while a text
/// is processed. Its view is the map from macro name to value, where the
/// latest `define` of a name is the one that counts.
#[derive(Debug, Clone)]
pub struct Context {
    defs: Vec<Def>,
}

/// The definitions as (name, value) character sequences, in order.
spec fn def_pairs(defs: Seq<Def>) -> Seq<(Seq<char>, Seq<char>)> {
    defs.map_values(|d: Def| (d.name@, d.value@))
}

/// The map that a sequence of definitions denotes: later entries override
/// earlier ones.
spec fn map_of(ps: Seq<(Seq<char>, Seq<char>)>) -> Map<Seq<char>, Seq<char>>
    decreases ps.len(),
{
    if ps.len() == 0 {
        Map::empty()
    } else {
        map_of(ps.drop_last()).insert(ps.last().0, ps.last().1)
    }
}

impl View for Context {
    type V = Map<Seq<char>, Seq<char>>;

    closed spec fn view(&self) -> Map<Seq<char>, Seq<char>> {
        map_of(def_pairs(self.defs@))
    }
}

impl Context {
    /// Creates a new, empty context with no macros defined.
    pub fn new() -> (r: Self)
        ensures
            r@ == Map::<Seq<char>, Seq<char>>::empty(),
    {
        let c = Context { defs: Vec::new() };
        proof {
            assert(def_pairs(c.defs@) =~= Seq::<(Seq<char>, Seq<char>)>::empty());
            assert(c@ =~= Map::<Seq<char>, Seq<char>>::empty());
        }
        c
    }

    /// Defines a macro, overriding any earlier definition of the same name.
    /// Returns the context again, so that calls can be chained.
    pub fn define(&mut self, name: &str, value: &str) -> (r: &mut Self)
        ensures
            r@ == old(self)@.insert(name@, value@),
            *final(self) == *final(r),
    {
        self.defs.push(Def { name: name.to_owned(), value: value.to_owned() });
        proof {
            let ps = def_pairs(old(self).defs@);
            let ps2 = def_pairs(self.defs@);
            assert(ps2.drop_last() =~= ps);
            assert(ps2.last() == (name@, value@));
        }
        self
    }

    /// Looks a macro up; `None` if it was never defined.
    pub fn get_macro(&self, name: &str) -> (r: Option<&String>)
        ensures
            match r {
                Some(v) => self@.contains_key(name@) && v@ == self@[name@],
                None => !self@.contains_key(name@),
            },
    {
        let cv = chars_of(name);
        let n = cv.len();
        let r = self.find_def(&cv, 0, n);
        proof {
            assert(cv@.subrange(0, n as int) =~= name@);
        }
        r
    }

    /// Looks up the word `cv[lo..hi]` in the table: the value of its latest
    /// definition, or `None` if that word was never defined.
    pub(crate) fn find_def(&self, cv: &Vec<char>, lo: usize, hi: usize) -> (r: Option<&String>)
        requires
            lo <= hi <= cv@.len(),
        ensures
            match r {
                Some(v) => self@.contains_key(cv@.subrange(lo as int, hi as int)) && v@ == self@[
                    cv@.subrange(lo as int, hi as int)
                ],
                None => !self@.contains_key(cv@.subrange(lo as int, hi as int)),
            },
    {
        let ghost w = cv@.subrange(lo as int, hi as int);
        let ghost ps = def_pairs(self.defs@);
        let n = self.defs.len();
        let mut j: usize = n;
        proof {
            assert(ps.take(n as int) =~= ps);
        }
        while j > 0
            invariant
                j <= n,
                n == self.defs.len(),
                ps == def_pairs(self.defs@),
                w == cv@.subrange(lo as int, hi as int),
                lo <= hi <= cv@.len(),
                map_of(ps).contains_key(w) == map_of(ps.take(j as int)).contains_key(w),
                map_of(ps).contains_key(w) ==> map_of(ps)[w] == map_of(ps.take(j as int))[w],
            decreases j,
        {
            j = j - 1;
            proof {
                assert(ps.take(j + 1).drop_last() =~= ps.take(j as int));
                assert(ps.take(j + 1).last() == ps[j as int]);
            }
            if str_eq_range(self.defs[j].name.as_str(), cv, lo, hi) {
                return Some(&self.defs[j].value);
            }
        }
        proof {
            assert(ps.take(0) =~= Seq::<(Seq<char>, Seq<char>)>::empty());
        }
        None
    }
}

} // verus!
