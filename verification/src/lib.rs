use vstd::prelude::*;

pub mod charmap;
pub mod charrange;
pub mod re;

pub use re::{cheese, consider, eps, nul, sundae, toppings, Re, Res, SpecRe};

verus! {

broadcast use vstd::std_specs::vec::group_vec_axioms;

use crate::charmap::{lemma_map_get_entry, Charmap};
use crate::charrange::lemma_intersects_iff;
use crate::re::{
    lemma_derive_in_range, lemma_derive_uniform, lemma_derive_wf, re_eq, spec_derive,
    spec_nullable, spec_wf,
};
use vstd::string::StrSliceExecFns;

/// One discovered state: its expression, a cached nullability flag, and the
/// lazily filled transition table from character intervals to successors.
struct StateRec {
    re: Re,
    next: Charmap<usize>,
    nullable: bool,
}

/// The expression reached after consuming a string character by character.
pub open spec fn spec_run(re: SpecRe, s: Seq<char>) -> SpecRe
    decreases s.len(),
{
    if s.len() == 0 {
        re
    } else {
        spec_run(spec_derive(re, s[0] as u32).1, s.drop_first())
    }
}

/// Every discovered state is well-formed, its nullability flag is right, and
/// every cached transition is the true derivative of its expression over its
/// whole interval, pointing at an existing state.
spec fn states_ok(ss: Seq<StateRec>) -> bool {
    &&& forall|i: int| 0 <= i < ss.len() ==> spec_wf((#[trigger] ss[i]).re@)
    &&& forall|i: int|
        0 <= i < ss.len() ==> (#[trigger] ss[i]).nullable == spec_nullable(ss[i].re@)
    &&& forall|i: int| 0 <= i < ss.len() ==> (#[trigger] ss[i]).next.wf()
    &&& forall|i: int, j: int|
        #![trigger ss[i].next@[j]]
        0 <= i < ss.len() && 0 <= j < ss[i].next@.len() ==> ss[i].next@[j].1 < ss.len()
    &&& forall|i: int, j: int, c: u32|
        #![trigger ss[i].next@[j], spec_derive(ss[i].re@, c)]
        0 <= i < ss.len() && 0 <= j < ss[i].next@.len() && ss[i].next@[j].0.spec_contains(c)
            ==> spec_derive(ss[i].re@, c) == (ss[i].next@[j].0, ss[ss[i].next@[j].1 as int].re@)
}

/// A lazily built deterministic matcher: states are discovered on demand and
/// deduplicated by the canonical form of their expression.
pub struct Matcher {
    states: Vec<StateRec>,
}

impl Matcher {
    pub closed spec fn wf(&self) -> bool {
        &&& self.states@.len() >= 1
        &&& states_ok(self.states@)
    }

    /// The expression this matcher was compiled from.
    pub closed spec fn re_spec(&self) -> SpecRe {
        self.states@[0].re@
    }

    /// Seeds the machine with the root expression as its initial state.
    pub fn new(re: Re) -> (m: Matcher)
        requires
            spec_wf(re@),
        ensures
            m.wf(),
            m.re_spec() == re@,
    {
        let nb = re.nullable();
        let m = Matcher { states: vec![StateRec { re, next: Charmap::new(), nullable: nb }] };
        proof {
            assert(m.states@.len() == 1);
            assert(m.states@[0].next@.len() == 0);
        }
        m
    }

    /// Finds the state owning an expression equal to `re`, or allocates one.
    #[verifier::loop_isolation(false)]
    fn add_state(&mut self, re: Re) -> (t: usize)
        requires
            old(self).wf(),
            spec_wf(re@),
        ensures
            final(self).wf(),
            t < final(self).states@.len(),
            final(self).states@[t as int].re@ == re@,
            old(self).states@.len() <= final(self).states@.len(),
            forall|i: int|
                0 <= i < old(self).states@.len() ==> final(self).states@[i] == old(
                    self,
                ).states@[i],
    {
        let n = self.states.len();
        let mut i: usize = 0;
        while i < n
            invariant
                0 <= i <= n,
                n == self.states@.len(),
                self.wf(),
            decreases n - i,
        {
            if re_eq(&self.states[i].re, &re) {
                return i;
            }
            i += 1;
        }
        let nb = re.nullable();
        let ghost oss = self.states@;
        self.states.push(StateRec { re, next: Charmap::new(), nullable: nb });
        proof {
            let ss = self.states@;
            assert(ss.len() == oss.len() + 1);
            assert(forall|k: int| 0 <= k < oss.len() ==> ss[k] == (#[trigger] oss[k]));
            assert(ss[oss.len() as int].next@.len() == 0);
            assert(states_ok(ss)) by {
                assert forall|p: int, q: int|
                    #![trigger ss[p].next@[q]]
                    0 <= p < ss.len() && 0 <= q < ss[p].next@.len() implies ss[p].next@[q].1
                    < ss.len() by {
                    if p < oss.len() {
                        assert(ss[p] == oss[p]);
                    }
                }
                assert forall|p: int, q: int, c: u32|
                    #![trigger ss[p].next@[q], spec_derive(ss[p].re@, c)]
                    0 <= p < ss.len() && 0 <= q < ss[p].next@.len()
                        && ss[p].next@[q].0.spec_contains(c) implies spec_derive(ss[p].re@, c) == (
                    ss[p].next@[q].0,
                    ss[ss[p].next@[q].1 as int].re@,
                ) by {
                    if p < oss.len() {
                        assert(ss[p] == oss[p]);
                        assert(oss[p].next@[q].1 < oss.len());
                        assert(ss[oss[p].next@[q].1 as int] == oss[oss[p].next@[q].1 as int]);
                    }
                }
            }
        }
        n
    }

    /// One transition: consult the cached table, or derive, register the
    /// residual and cache the maximal interval it covers. The insertion can
    /// never overlap a cached interval, because both are uniform blocks of
    /// the same transition partition.
    fn step(&mut self, state: usize, ch: &char) -> (t: usize)
        requires
            old(self).wf(),
            state < old(self).states@.len(),
        ensures
            final(self).wf(),
            t < final(self).states@.len(),
            old(self).states@.len() <= final(self).states@.len(),
            forall|i: int|
                0 <= i < old(self).states@.len() ==> (#[trigger] final(self).states@[i]).re@ == old(
                    self,
                ).states@[i].re@,
            final(self).states@[t as int].re@ == spec_derive(
                old(self).states@[state as int].re@,
                *ch as u32,
            ).1,
    {
        let c = *ch as u32;
        let ghost sre = self.states@[state as int].re@;
        let cached = self.states[state].next.get(ch);
        match cached {
            Some(tr) => {
                let t = *tr;
                proof {
                    let nx = self.states@[state as int].next@;
                    lemma_map_get_entry(nx, c);
                    let j = choose|j: int|
                        0 <= j < nx.len() && (#[trigger] nx[j]).0.spec_contains(c) && nx[j].1
                            == t;
                    assert(spec_derive(sre, c) == (nx[j].0, self.states@[nx[j].1 as int].re@));
                }
                return t;
            },
            None => {},
        }
        let re = self.states[state].re.clone();
        let (range, next_re) = re.derive(ch);
        proof {
            lemma_derive_wf(sre, c);
            lemma_derive_in_range(sre, c);
        }
        let t = self.add_state(next_re);
        let ghost mid = self.states@;
        let rec = &mut self.states[state];
        let ghost old_next = rec.next@;
        let ok = rec.next.try_insert(range, t);
        proof {
            // the new interval cannot overlap a cached one
            if !ok {
                let j = choose|j: int|
                    0 <= j < old_next.len() && ((#[trigger] old_next[j]).0.spec_intersects(range)
                        || old_next[j].0.spec_contains(range.start));
                let jr = old_next[j].0;
                assert(jr.spec_intersects(range)) by {
                    if jr.spec_contains(range.start) {
                        assert(range.spec_contains(range.start));
                        lemma_intersects_iff(jr, range);
                    }
                }
                assert(jr.wf() && range.wf()) by {
                    assert(mid[state as int].next.wf());
                }
                lemma_intersects_iff(jr, range);
                let p = choose|p: u32| jr.spec_contains(p) && range.spec_contains(p);
                assert(spec_derive(sre, p) == (jr, mid[old_next[j].1 as int].re@)) by {
                    assert(mid[state as int].next@[j] == old_next[j]);
                }
                lemma_derive_uniform(sre, c, p);
                assert(jr == range);
                assert(jr.spec_contains(c));
                lemma_map_get_entry(old_next, c);
                assert(false);
            }
            assert(ok);
            // the table still describes true derivatives over whole intervals
            let ss = self.states@;
            let k = choose|k: int|
                0 <= k <= old_next.len() && ss[state as int].next@ == old_next.insert(
                    k,
                    (range, t),
                );
            assert(ss == mid.update(state as int, ss[state as int]));
            assert(forall|i: int|
                0 <= i < ss.len() && i != state ==> ss[i] == (#[trigger] mid[i]));
            assert(ss[state as int].re@ == mid[state as int].re@);
            assert(ss[state as int].nullable == mid[state as int].nullable);
            assert(states_ok(ss)) by {
                assert forall|p: int, q: int|
                    #![trigger ss[p].next@[q]]
                    0 <= p < ss.len() && 0 <= q < ss[p].next@.len() implies ss[p].next@[q].1
                    < ss.len() by {
                    if p == state {
                        if q < k {
                            assert(ss[p].next@[q] == old_next[q]);
                            assert(mid[p].next@[q] == old_next[q]);
                        } else if q == k {
                        } else {
                            assert(ss[p].next@[q] == old_next[q - 1]);
                            assert(mid[p].next@[q - 1] == old_next[q - 1]);
                        }
                    }
                }
                assert forall|p: int, q: int, c2: u32|
                    #![trigger ss[p].next@[q], spec_derive(ss[p].re@, c2)]
                    0 <= p < ss.len() && 0 <= q < ss[p].next@.len()
                        && ss[p].next@[q].0.spec_contains(c2) implies spec_derive(ss[p].re@, c2)
                    == (ss[p].next@[q].0, ss[ss[p].next@[q].1 as int].re@) by {
                    if p == state {
                        if q == k {
                            assert(ss[p].next@[q] == (range, t));
                            lemma_derive_uniform(sre, c, c2);
                            assert(ss[t as int].re@ == spec_derive(sre, c).1);
                        } else {
                            let qo = if q < k {
                                q
                            } else {
                                q - 1
                            };
                            assert(ss[p].next@[q] == old_next[qo]);
                            assert(mid[p].next@[qo] == old_next[qo]);
                            assert(spec_derive(mid[p].re@, c2) == (
                                old_next[qo].0,
                                mid[old_next[qo].1 as int].re@,
                            ));
                            assert(ss[old_next[qo].1 as int].re@ == mid[old_next[qo].1
                                as int].re@);
                        }
                    } else {
                        assert(ss[p] == mid[p]);
                        assert(spec_derive(mid[p].re@, c2) == (
                            mid[p].next@[q].0,
                            mid[mid[p].next@[q].1 as int].re@,
                        ));
                        assert(ss[mid[p].next@[q].1 as int].re@ == mid[mid[p].next@[q].1
                            as int].re@);
                    }
                }
            }
        }
        t
    }

    /// Folds the transition function over the characters of `s`, left to
    /// right, and answers with the final state's nullability. The result is a
    /// pure function of the compiled expression and the string.
    #[verifier::loop_isolation(false)]
    pub fn matches(&mut self, s: &str) -> (r: bool)
        requires
            old(self).wf(),
        ensures
            final(self).wf(),
            final(self).re_spec() == old(self).re_spec(),
            r == spec_nullable(spec_run(old(self).re_spec(), s@)),
    {
        let n = s.unicode_len();
        let mut state: usize = 0;
        let mut i: usize = 0;
        proof {
            assert(s@.skip(0) =~= s@);
        }
        while i < n
            invariant
                0 <= i <= n,
                n == s@.len(),
                self.wf(),
                state < self.states@.len(),
                self.re_spec() == old(self).re_spec(),
                spec_run(self.states@[state as int].re@, s@.skip(i as int)) == spec_run(
                    old(self).re_spec(),
                    s@,
                ),
            decreases n - i,
        {
            let ch = s.get_char(i);
            let ghost pre_re = self.states@[state as int].re@;
            let ghost rest = s@.skip(i as int);
            state = self.step(state, &ch);
            i += 1;
            proof {
                assert(rest[0] == s@[i as int - 1]);
                assert(rest.drop_first() =~= s@.skip(i as int));
                assert(spec_run(pre_re, rest) == spec_run(
                    spec_derive(pre_re, rest[0] as u32).1,
                    rest.drop_first(),
                ));
            }
        }
        proof {
            assert(s@.skip(n as int) =~= Seq::<char>::empty());
        }
        self.states[state].nullable
    }
}

/// Matching is a pure function of the compiled expression and the input:
/// two matchers compiled from expressions with the same canonical form answer
/// every string alike, and repeating a match cannot change the answer.
pub proof fn lemma_match_deterministic(m1: Matcher, m2: Matcher, s: Seq<char>)
    requires
        m1.re_spec() == m2.re_spec(),
    ensures
        spec_nullable(spec_run(m1.re_spec(), s)) == spec_nullable(spec_run(m2.re_spec(), s)),
{
}

/// Compiles an expression into a fresh matcher.
pub fn compile(re: Re) -> (m: Matcher)
    requires
        spec_wf(re@),
    ensures
        m.wf(),
        m.re_spec() == re@,
{
    Matcher::new(re)
}

} // verus!
