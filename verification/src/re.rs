use vstd::prelude::*;

verus! {

broadcast use vstd::std_specs::vec::group_vec_axioms;

use crate::charmap::{set_wf, Charset, InOrOut, spec_found, spec_gap, covered,
    lemma_found_entry, lemma_found_at, lemma_gap_props};
use crate::charrange::{CharRange, CHAR_BOUND};

/// The mathematical shape of an expression: the same operators as `Re`, with
/// sequences and views in place of vectors and sets.
pub enum SpecRe {
    Nul,
    Eps,
    Chars(Seq<CharRange>),
    Neg(Box<SpecRe>),
    Alt(Seq<SpecRe>),
    And(Seq<SpecRe>),
    Cat(Box<SpecRe>, Box<SpecRe>),
    Star(Box<SpecRe>),
    Fan(Box<SpecRe>, usize),
    Lit(Seq<char>),
    Moon(Box<SpecRe>, usize, usize),
    Consider(Seq<SpecRe>, usize, usize, usize),
}

/// A list of sub-expressions of an alternation, conjunction or digit-choice
/// node.
pub struct Res(Vec<Re>);

/// A regular-language expression over code points, extended with counting
/// operators: `Fan` is bounded repetition, `Moon` a cyclic-phase counter, and
/// `Consider` a weighted-residue constraint over a list of digit choices.
pub enum Re {
    Nul,
    Eps,
    Chars(Charset),
    Neg(Box<Re>),
    Alt(Res),
    And(Res),
    Cat(Box<Re>, Box<Re>),
    Star(Box<Re>),
    Fan(Box<Re>, usize),
    Lit(Vec<char>),
    Moon(Box<Re>, usize, usize),
    Consider(Res, usize, usize, usize),
}

pub closed spec fn re_view(re: Re) -> SpecRe
    decreases re,
{
    match re {
        Re::Nul => SpecRe::Nul,
        Re::Eps => SpecRe::Eps,
        Re::Chars(s) => SpecRe::Chars(s@),
        Re::Neg(x) => SpecRe::Neg(Box::new(re_view(*x))),
        Re::Alt(rs) => SpecRe::Alt(res_views(rs.0@)),
        Re::And(rs) => SpecRe::And(res_views(rs.0@)),
        Re::Cat(a, b) => SpecRe::Cat(Box::new(re_view(*a)), Box::new(re_view(*b))),
        Re::Star(a) => SpecRe::Star(Box::new(re_view(*a))),
        Re::Fan(a, n) => SpecRe::Fan(Box::new(re_view(*a)), n),
        Re::Lit(v) => SpecRe::Lit(v@),
        Re::Moon(a, p, q) => SpecRe::Moon(Box::new(re_view(*a)), p, q),
        Re::Consider(cs, v, t, w) => SpecRe::Consider(res_views(cs.0@), v, t, w),
    }
}

pub closed spec fn res_views(s: Seq<Re>) -> Seq<SpecRe>
    decreases s,
{
    if s.len() == 0 {
        Seq::empty()
    } else {
        res_views(s.drop_last()).push(re_view(s.last()))
    }
}

impl View for Re {
    type V = SpecRe;

    closed spec fn view(&self) -> SpecRe {
        re_view(*self)
    }
}

impl View for Res {
    type V = Seq<SpecRe>;

    closed spec fn view(&self) -> Seq<SpecRe> {
        res_views(self.0@)
    }
}

/// The view of a list is the element-wise view.
pub proof fn lemma_res_views(s: Seq<Re>)
    ensures
        res_views(s).len() == s.len(),
        forall|i: int| 0 <= i < s.len() ==> res_views(s)[i] == (#[trigger] s[i])@,
    decreases s,
{
    if s.len() > 0 {
        lemma_res_views(s.drop_last());
        assert forall|i: int| 0 <= i < s.len() implies res_views(s)[i] == (#[trigger] s[i])@ by {
            if i < s.len() - 1 {
                assert(s.drop_last()[i] == s[i]);
                assert(res_views(s)[i] == res_views(s.drop_last())[i]);
            } else {
                assert(s[i] == s.last());
            }
        }
    }
}

impl Res {
    pub fn len(&self) -> (r: usize)
        ensures
            r == self@.len(),
    {
        proof {
            lemma_res_views(self.0@);
        }
        self.0.len()
    }
}

/// Every character of a literal is a code point of the domain.
pub open spec fn lit_wf(s: Seq<char>) -> bool {
    forall|i: int| 0 <= i < s.len() ==> (#[trigger] s[i]) as u32 <= 0x10FFFF
}

/// Structural well-formedness: every character class is a valid interval set,
/// every literal holds domain code points, every cyclic counter has a
/// positive modulus, and so does every weighted-residue node.
pub open spec fn spec_wf(re: SpecRe) -> bool
    decreases re,
{
    match re {
        SpecRe::Nul => true,
        SpecRe::Eps => true,
        SpecRe::Chars(ks) => set_wf(ks),
        SpecRe::Neg(x) => spec_wf(*x),
        SpecRe::Alt(rs) => all_wf(rs),
        SpecRe::And(rs) => all_wf(rs),
        SpecRe::Cat(a, b) => spec_wf(*a) && spec_wf(*b),
        SpecRe::Star(a) => spec_wf(*a),
        SpecRe::Fan(a, _) => spec_wf(*a),
        SpecRe::Lit(s) => lit_wf(s),
        SpecRe::Moon(a, _, q) => q >= 1 && spec_wf(*a),
        SpecRe::Consider(cs, _, _, w) => w >= 1 && all_wf(cs),
    }
}

pub open spec fn all_wf(rs: Seq<SpecRe>) -> bool
    decreases rs,
{
    if rs.len() == 0 {
        true
    } else {
        all_wf(rs.drop_last()) && spec_wf(rs.last())
    }
}

/// A list is well-formed exactly when each member is.
pub proof fn lemma_all_wf(rs: Seq<SpecRe>)
    ensures
        all_wf(rs) == forall|i: int| 0 <= i < rs.len() ==> spec_wf(#[trigger] rs[i]),
    decreases rs,
{
    if rs.len() > 0 {
        lemma_all_wf(rs.drop_last());
        if all_wf(rs) {
            assert forall|i: int| 0 <= i < rs.len() implies spec_wf(#[trigger] rs[i]) by {
                if i < rs.len() - 1 {
                    assert(rs.drop_last()[i] == rs[i]);
                }
            }
        } else {
            if !all_wf(rs.drop_last()) {
                let i = choose|i: int|
                    0 <= i < rs.drop_last().len() && !spec_wf(#[trigger] rs.drop_last()[i]);
                assert(rs[i] == rs.drop_last()[i]);
                assert(!spec_wf(rs[i]));
            } else {
                assert(!spec_wf(rs.last()));
            }
        }
    }
}

/// Whether an expression accepts the empty string.
pub open spec fn spec_nullable(re: SpecRe) -> bool
    decreases re,
{
    match re {
        SpecRe::Nul => false,
        SpecRe::Eps => true,
        SpecRe::Chars(_) => false,
        SpecRe::Neg(x) => !spec_nullable(*x),
        SpecRe::Alt(rs) => any_nullable(rs),
        SpecRe::And(rs) => all_nullable(rs),
        SpecRe::Cat(a, b) => spec_nullable(*a) && spec_nullable(*b),
        SpecRe::Star(_) => true,
        SpecRe::Fan(_, _) => false,
        SpecRe::Lit(s) => s.len() == 0,
        SpecRe::Moon(_, p, q) => p == q,
        SpecRe::Consider(_, v, t, _) => v == t,
    }
}

pub open spec fn any_nullable(rs: Seq<SpecRe>) -> bool
    decreases rs,
{
    if rs.len() == 0 {
        false
    } else {
        any_nullable(rs.drop_last()) || spec_nullable(rs.last())
    }
}

pub open spec fn all_nullable(rs: Seq<SpecRe>) -> bool
    decreases rs,
{
    if rs.len() == 0 {
        true
    } else {
        all_nullable(rs.drop_last()) && spec_nullable(rs.last())
    }
}

impl Re {
    /// Decides acceptance of the empty string.
    #[verifier::loop_isolation(false)]
    pub fn nullable(&self) -> (r: bool)
        ensures
            r == spec_nullable(self@),
        decreases *self,
    {
        match self {
            Re::Nul => false,
            Re::Eps => true,
            Re::Chars(_) => false,
            Re::Neg(x) => !x.nullable(),
            Re::Alt(rs) => {
                let n = rs.0.len();
                let mut i: usize = 0;
                let mut found = false;
                proof {
                    lemma_res_views(rs.0@);
                    assert(res_views(rs.0@).subrange(0, 0) =~= Seq::<SpecRe>::empty());
                }
                while i < n
                    invariant
                        0 <= i <= n,
                        n == rs.0@.len(),
                        res_views(rs.0@).len() == n,
                        forall|j: int|
                            0 <= j < n ==> res_views(rs.0@)[j] == (#[trigger] rs.0@[j])@,
                        found == any_nullable(res_views(rs.0@).subrange(0, i as int)),
                    decreases n - i,
                {
                    let e = &rs.0[i];
                    let b = e.nullable();
                    found = found || b;
                    i += 1;
                    proof {
                        let vs = res_views(rs.0@);
                        assert(vs.subrange(0, i as int).drop_last() =~= vs.subrange(
                            0,
                            i as int - 1,
                        ));
                        assert(vs.subrange(0, i as int).last() == vs[i as int - 1]);
                    }
                }
                proof {
                    assert(res_views(rs.0@).subrange(0, n as int) == res_views(rs.0@));
                }
                found
            },
            Re::And(rs) => {
                let n = rs.0.len();
                let mut i: usize = 0;
                let mut all = true;
                proof {
                    lemma_res_views(rs.0@);
                    assert(res_views(rs.0@).subrange(0, 0) =~= Seq::<SpecRe>::empty());
                }
                while i < n
                    invariant
                        0 <= i <= n,
                        n == rs.0@.len(),
                        res_views(rs.0@).len() == n,
                        forall|j: int|
                            0 <= j < n ==> res_views(rs.0@)[j] == (#[trigger] rs.0@[j])@,
                        all == all_nullable(res_views(rs.0@).subrange(0, i as int)),
                    decreases n - i,
                {
                    let e = &rs.0[i];
                    let b = e.nullable();
                    all = all && b;
                    i += 1;
                    proof {
                        let vs = res_views(rs.0@);
                        assert(vs.subrange(0, i as int).drop_last() =~= vs.subrange(
                            0,
                            i as int - 1,
                        ));
                        assert(vs.subrange(0, i as int).last() == vs[i as int - 1]);
                    }
                }
                proof {
                    assert(res_views(rs.0@).subrange(0, n as int) == res_views(rs.0@));
                }
                all
            },
            Re::Cat(a, b) => {
                let na = a.nullable();
                na && b.nullable()
            },
            Re::Star(_) => true,
            Re::Fan(_, _) => false,
            Re::Lit(s) => s.len() == 0,
            Re::Moon(_, p, q) => p == q,
            Re::Consider(_, v, t, _) => v == t,
        }
    }
}

/// The view function sends each constructor of `Re` to the matching
/// constructor of `SpecRe`.
pub proof fn lemma_view_variant(a: Re)
    ensures
        (a is Nul) == (a@ is Nul),
        (a is Eps) == (a@ is Eps),
        (a is Chars) == (a@ is Chars),
        (a is Neg) == (a@ is Neg),
        (a is Alt) == (a@ is Alt),
        (a is And) == (a@ is And),
        (a is Cat) == (a@ is Cat),
        (a is Star) == (a@ is Star),
        (a is Fan) == (a@ is Fan),
        (a is Lit) == (a@ is Lit),
        (a is Moon) == (a@ is Moon),
        (a is Consider) == (a@ is Consider),
{
    match a {
        Re::Nul => {},
        Re::Eps => {},
        Re::Chars(_) => {},
        Re::Neg(_) => {},
        Re::Alt(_) => {},
        Re::And(_) => {},
        Re::Cat(_, _) => {},
        Re::Star(_) => {},
        Re::Fan(_, _) => {},
        Re::Lit(_) => {},
        Re::Moon(_, _, _) => {},
        Re::Consider(_, _, _, _) => {},
    }
}

fn clone_re(re: &Re) -> (r: Re)
    ensures
        r@ == re@,
    decreases *re,
{
    match re {
        Re::Nul => Re::Nul,
        Re::Eps => Re::Eps,
        Re::Chars(s) => Re::Chars(s.clone()),
        Re::Neg(x) => Re::Neg(Box::new(clone_re(x))),
        Re::Alt(rs) => Re::Alt(clone_res(rs)),
        Re::And(rs) => Re::And(clone_res(rs)),
        Re::Cat(a, b) => Re::Cat(Box::new(clone_re(a)), Box::new(clone_re(b))),
        Re::Star(a) => Re::Star(Box::new(clone_re(a))),
        Re::Fan(a, n) => Re::Fan(Box::new(clone_re(a)), *n),
        Re::Lit(v) => Re::Lit(clone_chars(v)),
        Re::Moon(a, p, q) => Re::Moon(Box::new(clone_re(a)), *p, *q),
        Re::Consider(cs, v, t, w) => Re::Consider(clone_res(cs), *v, *t, *w),
    }
}

fn clone_chars(v: &Vec<char>) -> (r: Vec<char>)
    ensures
        r@ == v@,
{
    let n = v.len();
    let mut out: Vec<char> = Vec::new();
    let mut i: usize = 0;
    while i < n
        invariant
            0 <= i <= n,
            n == v@.len(),
            out@ =~= v@.subrange(0, i as int),
        decreases n - i,
    {
        out.push(v[i]);
        i += 1;
        proof {
            assert(out@ =~= v@.subrange(0, i as int));
        }
    }
    proof {
        assert(out@ =~= v@);
    }
    out
}

#[verifier::loop_isolation(false)]
fn clone_res(rs: &Res) -> (r: Res)
    ensures
        r@ == rs@,
    decreases *rs,
{
    let n = rs.0.len();
    let mut out: Vec<Re> = Vec::new();
    let mut i: usize = 0;
    proof {
        lemma_res_views(rs.0@);
        assert(res_views(out@) =~= res_views(rs.0@).subrange(0, 0));
    }
    while i < n
        invariant
            0 <= i <= n,
            n == rs.0@.len(),
            res_views(out@) =~= res_views(rs.0@).subrange(0, i as int),
        decreases n - i,
    {
        let ghost prev = out@;
        let e = clone_re(&rs.0[i]);
        out.push(e);
        i += 1;
        proof {
            assert(out@.drop_last() =~= prev);
            assert(res_views(out@) =~= res_views(rs.0@).subrange(0, i as int)) by {
                assert(res_views(out@) == res_views(prev).push(e@));
                let vs = res_views(rs.0@);
                assert(vs.subrange(0, i as int).drop_last() =~= vs.subrange(0, i as int - 1));
                assert(vs.subrange(0, i as int).last() == vs[i as int - 1]);
                assert(vs[i as int - 1] == rs.0@[i as int - 1]@);
            }
        }
    }
    proof {
        assert(res_views(rs.0@).subrange(0, n as int) == res_views(rs.0@));
        assert(res_views(out@) == res_views(rs.0@));
    }
    Res(out)
}

impl Clone for Re {
    /// A clone has the same view as its source.
    fn clone(&self) -> (r: Self)
        ensures
            r@ == self@,
    {
        clone_re(self)
    }
}

impl Clone for Res {
    /// A clone has the same view as its source.
    fn clone(&self) -> (r: Self)
        ensures
            r@ == self@,
    {
        clone_res(self)
    }
}

/// Decides view equality of two expressions: the canonical-equality test that
/// state deduplication rests on.
pub fn re_eq(a: &Re, b: &Re) -> (r: bool)
    ensures
        r == (a@ == b@),
    decreases *a,
{
    proof {
        lemma_view_variant(*a);
        lemma_view_variant(*b);
    }
    match (a, b) {
        (Re::Nul, Re::Nul) => true,
        (Re::Eps, Re::Eps) => true,
        (Re::Chars(s1), Re::Chars(s2)) => {
            let r1 = s1.ranges();
            let r2 = s2.ranges();
            ranges_eq(&r1, &r2)
        },
        (Re::Neg(x), Re::Neg(y)) => re_eq(x, y),
        (Re::Alt(r1), Re::Alt(r2)) => res_eq(r1, r2),
        (Re::And(r1), Re::And(r2)) => res_eq(r1, r2),
        (Re::Cat(a1, b1), Re::Cat(a2, b2)) => {
            let e1 = re_eq(a1, a2);
            e1 && re_eq(b1, b2)
        },
        (Re::Star(x), Re::Star(y)) => re_eq(x, y),
        (Re::Fan(x, n), Re::Fan(y, m)) => {
            let e = re_eq(x, y);
            e && n == m
        },
        (Re::Lit(u), Re::Lit(v)) => chars_eq(u, v),
        (Re::Moon(x, p1, q1), Re::Moon(y, p2, q2)) => {
            let e = re_eq(x, y);
            e && p1 == p2 && q1 == q2
        },
        (Re::Consider(c1, v1, t1, w1), Re::Consider(c2, v2, t2, w2)) => {
            let e = res_eq(c1, c2);
            e && v1 == v2 && t1 == t2 && w1 == w2
        },
        _ => false,
    }
}

fn ranges_eq(r1: &Vec<CharRange>, r2: &Vec<CharRange>) -> (r: bool)
    ensures
        r == (r1@ == r2@),
{
    let n = r1.len();
    if n != r2.len() {
        return false;
    }
    let mut i: usize = 0;
    while i < n
        invariant
            0 <= i <= n,
            n == r1@.len(),
            n == r2@.len(),
            forall|j: int| 0 <= j < i ==> r1@[j] == (#[trigger] r2@[j]),
        decreases n - i,
    {
        if !(r1[i] == r2[i]) {
            return false;
        }
        i += 1;
    }
    proof {
        assert(r1@ =~= r2@);
    }
    true
}

fn chars_eq(u: &Vec<char>, v: &Vec<char>) -> (r: bool)
    ensures
        r == (u@ == v@),
{
    let n = u.len();
    if n != v.len() {
        return false;
    }
    let mut i: usize = 0;
    while i < n
        invariant
            0 <= i <= n,
            n == u@.len(),
            n == v@.len(),
            forall|j: int| 0 <= j < i ==> u@[j] == (#[trigger] v@[j]),
        decreases n - i,
    {
        if u[i] != v[i] {
            return false;
        }
        i += 1;
    }
    proof {
        assert(u@ =~= v@);
    }
    true
}

#[verifier::loop_isolation(false)]
fn res_eq(r1: &Res, r2: &Res) -> (r: bool)
    ensures
        r == (r1@ == r2@),
    decreases *r1,
{
    proof {
        lemma_res_views(r1.0@);
        lemma_res_views(r2.0@);
    }
    let n = r1.0.len();
    if n != r2.0.len() {
        return false;
    }
    let mut i: usize = 0;
    while i < n
        invariant
            0 <= i <= n,
            n == r1.0@.len(),
            n == r2.0@.len(),
            forall|j: int| 0 <= j < i ==> res_views(r1.0@)[j] == (#[trigger] res_views(r2.0@)[j]),
        decreases n - i,
    {
        if !re_eq(&r1.0[i], &r2.0[i]) {
            return false;
        }
        i += 1;
    }
    proof {
        assert(res_views(r1.0@) =~= res_views(r2.0@));
    }
    true
}

/// Decides whether the view of `x` occurs among the views of `v`.
fn contains_re(v: &Vec<Re>, x: &Re) -> (r: bool)
    ensures
        r == res_views(v@).contains(x@),
{
    proof {
        lemma_res_views(v@);
    }
    let n = v.len();
    let mut i: usize = 0;
    while i < n
        invariant
            0 <= i <= n,
            n == v@.len(),
            res_views(v@).len() == n,
            forall|j: int| 0 <= j < n ==> res_views(v@)[j] == (#[trigger] v@[j])@,
            forall|j: int| 0 <= j < i ==> res_views(v@)[j] != x@,
        decreases n - i,
    {
        if re_eq(&v[i], x) {
            proof {
                assert(res_views(v@)[i as int] == x@);
            }
            return true;
        }
        i += 1;
    }
    proof {
        if res_views(v@).contains(x@) {
            let j = choose|j: int| 0 <= j < res_views(v@).len() && res_views(v@)[j] == x@;
            assert(false);
        }
    }
    false
}

pub open spec fn is_neg_nul(re: SpecRe) -> bool {
    match re {
        SpecRe::Neg(x) => match *x {
            SpecRe::Nul => true,
            _ => false,
        },
        _ => false,
    }
}

pub open spec fn has_neg_nul(parts: Seq<SpecRe>) -> bool
    decreases parts,
{
    if parts.len() == 0 {
        false
    } else {
        has_neg_nul(parts.drop_last()) || is_neg_nul(parts.last())
    }
}

pub open spec fn has_nul(parts: Seq<SpecRe>) -> bool
    decreases parts,
{
    if parts.len() == 0 {
        false
    } else {
        has_nul(parts.drop_last()) || parts.last() is Nul
    }
}

/// One level of flattening for alternation members.
pub open spec fn alt_flat(parts: Seq<SpecRe>) -> Seq<SpecRe>
    decreases parts,
{
    if parts.len() == 0 {
        Seq::empty()
    } else {
        alt_flat(parts.drop_last()) + (match parts.last() {
            SpecRe::Alt(rs) => rs,
            SpecRe::Nul => Seq::empty(),
            _ => seq![parts.last()],
        })
    }
}

/// One level of flattening for conjunction members.
pub open spec fn and_flat(parts: Seq<SpecRe>) -> Seq<SpecRe>
    decreases parts,
{
    if parts.len() == 0 {
        Seq::empty()
    } else {
        and_flat(parts.drop_last()) + (if is_neg_nul(parts.last()) {
            Seq::empty()
        } else {
            match parts.last() {
                SpecRe::And(rs) => rs,
                _ => seq![parts.last()],
            }
        })
    }
}

/// Removes duplicates, keeping the first occurrence of each member.
pub open spec fn dedup(s: Seq<SpecRe>) -> Seq<SpecRe>
    decreases s,
{
    if s.len() == 0 {
        Seq::empty()
    } else {
        let d = dedup(s.drop_last());
        if s.drop_last().contains(s.last()) {
            d
        } else {
            d.push(s.last())
        }
    }
}

/// Deduplication keeps exactly the members.
pub proof fn lemma_dedup_contains(s: Seq<SpecRe>, x: SpecRe)
    ensures
        dedup(s).contains(x) == s.contains(x),
    decreases s,
{
    if s.len() == 0 {
        if s.contains(x) {
            let i = choose|i: int| 0 <= i < s.len() && s[i] == x;
        }
        if dedup(s).contains(x) {
            let i = choose|i: int| 0 <= i < dedup(s).len() && dedup(s)[i] == x;
        }
    } else {
        let pre = s.drop_last();
        lemma_dedup_contains(pre, x);
        assert(s.contains(x) == (pre.contains(x) || s.last() == x)) by {
            if s.contains(x) {
                let i = choose|i: int| 0 <= i < s.len() && s[i] == x;
                if i < s.len() - 1 {
                    assert(pre[i] == x);
                    assert(pre.contains(x));
                }
            }
            if pre.contains(x) {
                let i = choose|i: int| 0 <= i < pre.len() && pre[i] == x;
                assert(s[i] == x);
            }
            if s.last() == x {
                assert(s[s.len() - 1] == x);
            }
        }
        if pre.contains(s.last()) {
            assert(dedup(s) == dedup(pre));
        } else {
            assert(dedup(s) == dedup(pre).push(s.last()));
            assert(dedup(s).contains(x) == (dedup(pre).contains(x) || s.last() == x)) by {
                if dedup(s).contains(x) {
                    let i = choose|i: int| 0 <= i < dedup(s).len() && dedup(s)[i] == x;
                    if i < dedup(s).len() - 1 {
                        assert(dedup(pre)[i] == x);
                        assert(dedup(pre).contains(x));
                    }
                }
                if dedup(pre).contains(x) {
                    let i = choose|i: int| 0 <= i < dedup(pre).len() && dedup(pre)[i] == x;
                    assert(dedup(s)[i] == x);
                }
                if s.last() == x {
                    assert(dedup(s)[dedup(s).len() - 1] == x);
                }
            }
        }
    }
}

/// If one member is a negated empty language, so is the whole list.
pub proof fn lemma_has_neg_nul_at(s: Seq<SpecRe>, i: int)
    requires
        0 <= i < s.len(),
        is_neg_nul(s[i]),
    ensures
        has_neg_nul(s),
    decreases s,
{
    if i < s.len() - 1 {
        assert(s.drop_last()[i] == s[i]);
        lemma_has_neg_nul_at(s.drop_last(), i);
    }
}

/// If one member is the empty language, the list has it.
pub proof fn lemma_has_nul_at(s: Seq<SpecRe>, i: int)
    requires
        0 <= i < s.len(),
        s[i] is Nul,
    ensures
        has_nul(s),
    decreases s,
{
    if i < s.len() - 1 {
        assert(s.drop_last()[i] == s[i]);
        lemma_has_nul_at(s.drop_last(), i);
    }
}

/// The canonical alternation of a list of members.
pub open spec fn spec_alt(parts: Seq<SpecRe>) -> SpecRe {
    if has_neg_nul(parts) {
        SpecRe::Neg(Box::new(SpecRe::Nul))
    } else {
        let all = dedup(alt_flat(parts));
        if all.len() == 0 {
            SpecRe::Nul
        } else if all.len() == 1 {
            all[0]
        } else {
            SpecRe::Alt(all)
        }
    }
}

/// The canonical conjunction of a list of members.
pub open spec fn spec_and(parts: Seq<SpecRe>) -> SpecRe {
    if has_nul(parts) {
        SpecRe::Nul
    } else {
        let all = dedup(and_flat(parts));
        if all.len() == 0 {
            SpecRe::Neg(Box::new(SpecRe::Nul))
        } else if all.len() == 1 {
            all[0]
        } else {
            SpecRe::And(all)
        }
    }
}

/// The canonical concatenation: folds away the empty language and the empty
/// string and re-associates to the right.
pub open spec fn spec_cat(a: SpecRe, b: SpecRe) -> SpecRe
    decreases a,
{
    match a {
        SpecRe::Nul => SpecRe::Nul,
        SpecRe::Eps => b,
        SpecRe::Cat(x, y) => spec_cat(*x, spec_cat(*y, b)),
        _ => match b {
            SpecRe::Nul => SpecRe::Nul,
            SpecRe::Eps => a,
            _ => SpecRe::Cat(Box::new(a), Box::new(b)),
        },
    }
}

/// The canonical negation: a double negation cancels.
pub open spec fn spec_neg(a: SpecRe) -> SpecRe {
    match a {
        SpecRe::Neg(x) => *x,
        _ => SpecRe::Neg(Box::new(a)),
    }
}

fn is_nul(x: &Re) -> (r: bool)
    ensures
        r == (x@ is Nul),
{
    proof {
        lemma_view_variant(*x);
    }
    match x {
        Re::Nul => true,
        _ => false,
    }
}

impl Re {
    /// Canonicalizing alternation: flattens nested alternations, drops
    /// empty-language members, collapses to a total negation when one occurs,
    /// removes duplicates and simplifies the trivial sizes.
    #[verifier::loop_isolation(false)]
    pub(crate) fn alt(parts: &Vec<Re>) -> (r: Re)
        ensures
            r@ == spec_alt(res_views(parts@)),
    {
        let ghost pv = res_views(parts@);
        proof {
            lemma_res_views(parts@);
            assert(pv.subrange(0, 0) =~= Seq::<SpecRe>::empty());
            assert(alt_flat(pv.subrange(0, 0)) =~= Seq::<SpecRe>::empty());
        }
        let n = parts.len();
        let mut all: Vec<Re> = Vec::new();
        let mut i: usize = 0;
        while i < n
            invariant
                0 <= i <= n,
                n == parts@.len(),
                pv == res_views(parts@),
                pv.len() == n,
                forall|j: int| 0 <= j < n ==> pv[j] == (#[trigger] parts@[j])@,
                !has_neg_nul(pv.subrange(0, i as int)),
                res_views(all@) =~= alt_flat(pv.subrange(0, i as int)),
            decreases n - i,
        {
            let ghost prev_all = res_views(all@);
            let x = &parts[i];
            proof {
                lemma_view_variant(*x);
                assert(x@ == pv[i as int]);
            }
            match x {
                Re::Alt(rs) => {
                    let ghost inner = res_views(rs.0@);
                    proof {
                        lemma_res_views(rs.0@);
                        assert(inner.subrange(0, 0) =~= Seq::<SpecRe>::empty());
                        assert(prev_all + inner.subrange(0, 0) =~= prev_all);
                    }
                    let m = rs.0.len();
                    let mut j: usize = 0;
                    while j < m
                        invariant
                            0 <= j <= m,
                            m == rs.0@.len(),
                            inner == res_views(rs.0@),
                            inner.len() == m,
                            forall|k: int| 0 <= k < m ==> inner[k] == (#[trigger] rs.0@[k])@,
                            res_views(all@) =~= prev_all + inner.subrange(0, j as int),
                        decreases m - j,
                    {
                        let ghost before = res_views(all@);
                        let ghost bv = all@;
                        all.push(rs.0[j].clone());
                        j += 1;
                        proof {
                            assert(all@.drop_last() =~= bv);
                            assert(res_views(all@) == before.push(rs.0@[j as int - 1]@));
                            assert(prev_all + inner.subrange(0, j as int) =~= (prev_all
                                + inner.subrange(0, j as int - 1)).push(inner[j as int - 1]));
                        }
                    }
                    proof {
                        assert(inner.subrange(0, m as int) == inner);
                    }
                },
                Re::Neg(y) => {
                    if is_nul(y) {
                        proof {
                            assert(is_neg_nul(pv[i as int]));
                            lemma_has_neg_nul_at(pv, i as int);
                            assert(x@ == SpecRe::Neg(Box::new(SpecRe::Nul)));
                        }
                        return Re::Neg(Box::new(Re::Nul));
                    } else {
                        let ghost bv = all@;
                        all.push(x.clone());
                        proof {
                            assert(all@.drop_last() =~= bv);
                            assert(res_views(all@) == prev_all.push(pv[i as int]));
                        }
                    }
                },
                Re::Nul => {},
                _ => {
                    let ghost bv = all@;
                    all.push(x.clone());
                    proof {
                        assert(all@.drop_last() =~= bv);
                        assert(res_views(all@) == prev_all.push(pv[i as int]));
                    }
                },
            }
            i += 1;
            proof {
                let cur = pv.subrange(0, i as int);
                assert(cur.drop_last() =~= pv.subrange(0, i as int - 1));
                assert(cur.last() == pv[i as int - 1]);
                assert(!has_neg_nul(cur));
                assert(res_views(all@) =~= alt_flat(cur)) by {
                    match pv[i as int - 1] {
                        SpecRe::Alt(rs) => {
                            assert(alt_flat(cur) == alt_flat(cur.drop_last()) + rs);
                        },
                        SpecRe::Nul => {
                            assert(alt_flat(cur) =~= alt_flat(cur.drop_last()));
                        },
                        _ => {
                            assert(alt_flat(cur) == alt_flat(cur.drop_last()) + seq![
                                pv[i as int - 1],
                            ]);
                            assert(res_views(all@) =~= alt_flat(cur.drop_last()) + seq![
                                pv[i as int - 1],
                            ]);
                        },
                    }
                }
            }
        }
        proof {
            assert(pv.subrange(0, n as int) == pv);
        }
        Re::collapse_alt(all)
    }

    /// The deduplication and final collapse shared by `alt`'s main path.
    #[verifier::loop_isolation(false)]
    fn collapse_alt(all: Vec<Re>) -> (r: Re)
        ensures
            ({
                let d = dedup(res_views(all@));
                r@ == if d.len() == 0 {
                    SpecRe::Nul
                } else if d.len() == 1 {
                    d[0]
                } else {
                    SpecRe::Alt(d)
                }
            }),
    {
        let ded = dedup_vec(&all);
        let len = ded.len();
        proof {
            lemma_res_views(ded@);
        }
        if len == 0 {
            proof {
                assert(res_views(ded@) =~= Seq::<SpecRe>::empty());
            }
            Re::Nul
        } else if len == 1 {
            let mut ded = ded;
            match ded.pop() {
                Some(x) => {
                    proof {
                        assert(x@ == res_views(ded@ + seq![x])[0]) by {
                            lemma_res_views(ded@ + seq![x]);
                        }
                    }
                    x
                },
                None => {
                    proof {
                        assert(false);
                    }
                    Re::Nul
                },
            }
        } else {
            Re::Alt(Res(ded))
        }
    }

    /// Canonicalizing conjunction: flattens nested conjunctions, drops
    /// negated-empty-language members, collapses to the empty language when
    /// one occurs, removes duplicates and simplifies the trivial sizes.
    #[verifier::loop_isolation(false)]
    pub(crate) fn and(parts: &Vec<Re>) -> (r: Re)
        ensures
            r@ == spec_and(res_views(parts@)),
    {
        let ghost pv = res_views(parts@);
        proof {
            lemma_res_views(parts@);
            assert(pv.subrange(0, 0) =~= Seq::<SpecRe>::empty());
            assert(and_flat(pv.subrange(0, 0)) =~= Seq::<SpecRe>::empty());
        }
        let n = parts.len();
        let mut all: Vec<Re> = Vec::new();
        let mut i: usize = 0;
        while i < n
            invariant
                0 <= i <= n,
                n == parts@.len(),
                pv == res_views(parts@),
                pv.len() == n,
                forall|j: int| 0 <= j < n ==> pv[j] == (#[trigger] parts@[j])@,
                !has_nul(pv.subrange(0, i as int)),
                res_views(all@) =~= and_flat(pv.subrange(0, i as int)),
            decreases n - i,
        {
            let ghost prev_all = res_views(all@);
            let x = &parts[i];
            proof {
                lemma_view_variant(*x);
                assert(x@ == pv[i as int]);
            }
            match x {
                Re::And(rs) => {
                    let ghost inner = res_views(rs.0@);
                    proof {
                        lemma_res_views(rs.0@);
                        assert(inner.subrange(0, 0) =~= Seq::<SpecRe>::empty());
                        assert(prev_all + inner.subrange(0, 0) =~= prev_all);
                    }
                    let m = rs.0.len();
                    let mut j: usize = 0;
                    while j < m
                        invariant
                            0 <= j <= m,
                            m == rs.0@.len(),
                            inner == res_views(rs.0@),
                            inner.len() == m,
                            forall|k: int| 0 <= k < m ==> inner[k] == (#[trigger] rs.0@[k])@,
                            res_views(all@) =~= prev_all + inner.subrange(0, j as int),
                        decreases m - j,
                    {
                        let ghost before = res_views(all@);
                        let ghost bv = all@;
                        all.push(rs.0[j].clone());
                        j += 1;
                        proof {
                            assert(all@.drop_last() =~= bv);
                            assert(res_views(all@) == before.push(rs.0@[j as int - 1]@));
                            assert(prev_all + inner.subrange(0, j as int) =~= (prev_all
                                + inner.subrange(0, j as int - 1)).push(inner[j as int - 1]));
                        }
                    }
                    proof {
                        assert(inner.subrange(0, m as int) == inner);
                    }
                },
                Re::Neg(y) => {
                    if is_nul(y) {
                        proof {
                            assert(is_neg_nul(pv[i as int]));
                        }
                    } else {
                        let ghost bv = all@;
                        all.push(x.clone());
                        proof {
                            assert(all@.drop_last() =~= bv);
                            assert(res_views(all@) == prev_all.push(pv[i as int]));
                        }
                    }
                },
                Re::Nul => {
                    proof {
                        lemma_has_nul_at(pv, i as int);
                    }
                    return Re::Nul;
                },
                _ => {
                    let ghost bv = all@;
                    all.push(x.clone());
                    proof {
                        assert(all@.drop_last() =~= bv);
                        assert(res_views(all@) == prev_all.push(pv[i as int]));
                    }
                },
            }
            i += 1;
            proof {
                let cur = pv.subrange(0, i as int);
                assert(cur.drop_last() =~= pv.subrange(0, i as int - 1));
                assert(cur.last() == pv[i as int - 1]);
                assert(!has_nul(cur));
                assert(res_views(all@) =~= and_flat(cur)) by {
                    if is_neg_nul(pv[i as int - 1]) {
                        assert(and_flat(cur) =~= and_flat(cur.drop_last()));
                    } else {
                        match pv[i as int - 1] {
                            SpecRe::And(rs) => {
                                assert(and_flat(cur) == and_flat(cur.drop_last()) + rs);
                            },
                            _ => {
                                assert(and_flat(cur) == and_flat(cur.drop_last()) + seq![
                                    pv[i as int - 1],
                                ]);
                                assert(res_views(all@) =~= and_flat(cur.drop_last()) + seq![
                                    pv[i as int - 1],
                                ]);
                            },
                        }
                    }
                }
            }
        }
        proof {
            assert(pv.subrange(0, n as int) == pv);
        }
        let ded = dedup_vec(&all);
        let len = ded.len();
        proof {
            lemma_res_views(ded@);
        }
        if len == 0 {
            proof {
                assert(res_views(ded@) =~= Seq::<SpecRe>::empty());
            }
            Re::Neg(Box::new(Re::Nul))
        } else if len == 1 {
            let mut ded = ded;
            match ded.pop() {
                Some(x) => {
                    proof {
                        assert(x@ == res_views(ded@ + seq![x])[0]) by {
                            lemma_res_views(ded@ + seq![x]);
                        }
                    }
                    x
                },
                None => {
                    proof {
                        assert(false);
                    }
                    Re::Nul
                },
            }
        } else {
            Re::And(Res(ded))
        }
    }

    /// Canonicalizing concatenation.
    pub(crate) fn cat(a: Re, b: Re) -> (r: Re)
        ensures
            r@ == spec_cat(a@, b@),
        decreases a,
    {
        proof {
            lemma_view_variant(a);
            lemma_view_variant(b);
        }
        match a {
            Re::Nul => Re::Nul,
            Re::Eps => b,
            Re::Cat(x, y) => {
                let inner = Re::cat(*y, b);
                Re::cat(*x, inner)
            },
            other => match b {
                Re::Nul => Re::Nul,
                Re::Eps => other,
                bb => Re::Cat(Box::new(other), Box::new(bb)),
            },
        }
    }

    /// Canonicalizing negation.
    pub(crate) fn neg_of(a: Re) -> (r: Re)
        ensures
            r@ == spec_neg(a@),
    {
        proof {
            lemma_view_variant(a);
        }
        match a {
            Re::Neg(x) => *x,
            other => Re::Neg(Box::new(other)),
        }
    }
}

/// Removes duplicate members, keeping first occurrences.
#[verifier::loop_isolation(false)]
fn dedup_vec(all: &Vec<Re>) -> (r: Vec<Re>)
    ensures
        res_views(r@) == dedup(res_views(all@)),
{
    let ghost av = res_views(all@);
    proof {
        lemma_res_views(all@);
        assert(av.subrange(0, 0) =~= Seq::<SpecRe>::empty());
        assert(dedup(av.subrange(0, 0)) =~= Seq::<SpecRe>::empty());
    }
    let m = all.len();
    let mut ded: Vec<Re> = Vec::new();
    let mut k: usize = 0;
    while k < m
        invariant
            0 <= k <= m,
            m == all@.len(),
            av == res_views(all@),
            av.len() == m,
            forall|j: int| 0 <= j < m ==> av[j] == (#[trigger] all@[j])@,
            res_views(ded@) =~= dedup(av.subrange(0, k as int)),
        decreases m - k,
    {
        let ghost prev = res_views(ded@);
        let x = &all[k];
        proof {
            assert(x@ == av[k as int]);
        }
        if !contains_re(&ded, x) {
            let ghost bv = ded@;
            ded.push(x.clone());
            proof {
                assert(ded@.drop_last() =~= bv);
                assert(res_views(ded@) == prev.push(av[k as int]));
            }
        }
        k += 1;
        proof {
            let cur = av.subrange(0, k as int);
            assert(cur.drop_last() =~= av.subrange(0, k as int - 1));
            assert(cur.last() == av[k as int - 1]);
            lemma_dedup_contains(cur.drop_last(), cur.last());
            assert(res_views(ded@) =~= dedup(cur));
        }
    }
    proof {
        assert(av.subrange(0, m as int) == av);
        assert(res_views(ded@) == dedup(av));
    }
    ded
}

/// The whole-domain interval.
pub open spec fn range_all() -> CharRange {
    CharRange { start: 0, end: CHAR_BOUND }
}

/// The continuation list of a weighted-residue node: each derived choice is
/// chained onto the node with the accumulator advanced by that digit.
pub open spec fn consider_conts(
    ds: Seq<SpecRe>,
    cs: Seq<SpecRe>,
    v: usize,
    t: usize,
    w: usize,
) -> Seq<SpecRe> {
    Seq::new(
        ds.len(),
        |i: int|
            spec_cat(
                ds[i],
                SpecRe::Consider(cs, ((v as int * cs.len() + i) % (w as int)) as usize, t, w),
            ),
    )
}

/// The one-character derivative: the maximal interval around `c` on which the
/// residual is the right continuation, and that residual.
pub open spec fn spec_derive(re: SpecRe, c: u32) -> (CharRange, SpecRe)
    decreases re,
{
    match re {
        SpecRe::Nul => (range_all(), SpecRe::Nul),
        SpecRe::Eps => (range_all(), SpecRe::Nul),
        SpecRe::Chars(ks) => match spec_found(ks, c) {
            Some(k) => (k, SpecRe::Eps),
            None => (spec_gap(ks, c), SpecRe::Nul),
        },
        SpecRe::Lit(s) => if s.len() == 0 {
            (range_all(), SpecRe::Nul)
        } else if c == s[0] as u32 {
            (
                CharRange { start: c, end: (c + 1) as u32 },
                if s.len() == 1 {
                    SpecRe::Eps
                } else {
                    SpecRe::Lit(s.drop_first())
                },
            )
        } else if c < s[0] as u32 {
            (CharRange { start: 0, end: s[0] as u32 }, SpecRe::Nul)
        } else {
            (CharRange { start: (s[0] as u32 + 1) as u32, end: CHAR_BOUND }, SpecRe::Nul)
        },
        SpecRe::Neg(x) => {
            let (r, d) = spec_derive(*x, c);
            (r, spec_neg(d))
        },
        SpecRe::Alt(rs) => {
            let (r, ds) = spec_derive_seq(rs, c);
            (r, spec_alt(ds))
        },
        SpecRe::And(rs) => {
            let (r, ds) = spec_derive_seq(rs, c);
            (r, spec_and(ds))
        },
        SpecRe::Cat(a, b) => {
            let (r0, ap) = spec_derive(*a, c);
            let apb = spec_cat(ap, *b);
            if spec_nullable(*a) {
                let (r1, bp) = spec_derive(*b, c);
                (r0.spec_inter(r1), spec_alt(seq![apb, bp]))
            } else {
                (r0, apb)
            }
        },
        SpecRe::Star(a) => {
            let (r, ap) = spec_derive(*a, c);
            (r, spec_cat(ap, SpecRe::Star(a)))
        },
        SpecRe::Fan(a, n) => {
            let next = if n > 2 {
                SpecRe::Fan(a, (n - 1) as usize)
            } else {
                *a
            };
            let (r, ap) = spec_derive(*a, c);
            (r, spec_cat(ap, next))
        },
        SpecRe::Moon(a, p, q) => {
            let np = if p >= q {
                (p - q + 1) as usize
            } else {
                (p + 1) as usize
            };
            let (r, ap) = spec_derive(*a, c);
            (r, spec_cat(ap, SpecRe::Moon(a, np, q)))
        },
        SpecRe::Consider(cs, v, t, w) => {
            let (r, ds) = spec_derive_seq(cs, c);
            (r, spec_alt(consider_conts(ds, cs, v, t, w)))
        },
    }
}

/// Derives every member and intersects the returned intervals, left to right
/// from the whole domain.
pub open spec fn spec_derive_seq(rs: Seq<SpecRe>, c: u32) -> (CharRange, Seq<SpecRe>)
    decreases rs,
{
    if rs.len() == 0 {
        (range_all(), Seq::empty())
    } else {
        let (r0, ds) = spec_derive_seq(rs.drop_last(), c);
        let (r1, d) = spec_derive(rs.last(), c);
        (r0.spec_inter(r1), ds.push(d))
    }
}

/// Deriving a list gives one residual per member, each the member's own
/// derivative.
pub proof fn lemma_derive_seq_parts(rs: Seq<SpecRe>, c: u32)
    ensures
        spec_derive_seq(rs, c).1.len() == rs.len(),
        forall|i: int|
            0 <= i < rs.len() ==> spec_derive_seq(rs, c).1[i] == spec_derive(#[trigger] rs[i], c).1,
    decreases rs,
{
    if rs.len() > 0 {
        lemma_derive_seq_parts(rs.drop_last(), c);
        assert forall|i: int|
            0 <= i < rs.len() implies spec_derive_seq(rs, c).1[i] == spec_derive(
            #[trigger] rs[i],
            c,
        ).1 by {
            if i < rs.len() - 1 {
                assert(rs.drop_last()[i] == rs[i]);
                assert(spec_derive_seq(rs, c).1[i] == spec_derive_seq(rs.drop_last(), c).1[i]);
            } else {
                assert(rs[i] == rs.last());
            }
        }
    }
}

#[verifier::loop_isolation(false)]
fn derive_seq(v: &Vec<Re>, ch: &char) -> (r: (CharRange, Vec<Re>))
    requires
        all_wf(res_views(v@)),
    ensures
        r.0 == spec_derive_seq(res_views(v@), *ch as u32).0,
        res_views(r.1@) == spec_derive_seq(res_views(v@), *ch as u32).1,
    decreases v@,
{
    let ghost vs = res_views(v@);
    let ghost c = *ch as u32;
    proof {
        lemma_res_views(v@);
        lemma_all_wf(vs);
        assert(vs.subrange(0, 0) =~= Seq::<SpecRe>::empty());
        assert(res_views(Seq::<Re>::empty()) =~= Seq::<SpecRe>::empty());
    }
    let n = v.len();
    let mut acc = CharRange::all();
    let mut ds: Vec<Re> = Vec::new();
    let mut i: usize = 0;
    while i < n
        invariant
            0 <= i <= n,
            n == v@.len(),
            vs == res_views(v@),
            vs.len() == n,
            forall|j: int| 0 <= j < n ==> vs[j] == (#[trigger] v@[j])@,
            forall|j: int| 0 <= j < n ==> spec_wf(#[trigger] vs[j]),
            acc == spec_derive_seq(vs.subrange(0, i as int), c).0,
            res_views(ds@) =~= spec_derive_seq(vs.subrange(0, i as int), c).1,
        decreases n - i,
    {
        let (ri, di) = v[i].derive(ch);
        acc = acc.inter(&ri);
        let ghost bv = ds@;
        ds.push(di);
        i += 1;
        proof {
            assert(ds@.drop_last() =~= bv);
            let cur = vs.subrange(0, i as int);
            assert(cur.drop_last() =~= vs.subrange(0, i as int - 1));
            assert(cur.last() == vs[i as int - 1]);
        }
    }
    proof {
        assert(vs.subrange(0, n as int) == vs);
    }
    (acc, ds)
}

impl Re {
    /// The one-character derivative, paired with the maximal interval of
    /// code points around `ch` that share this residual.
    #[verifier::loop_isolation(false)]
    pub fn derive(&self, ch: &char) -> (r: (CharRange, Re))
        requires
            spec_wf(self@),
        ensures
            r.0 == spec_derive(self@, *ch as u32).0,
            r.1@ == spec_derive(self@, *ch as u32).1,
        decreases *self,
    {
        proof {
            lemma_view_variant(*self);
        }
        let c_exec = *ch as u32;
        match self {
            Re::Nul => (CharRange::all(), Re::Nul),
            Re::Eps => (CharRange::all(), Re::Nul),
            Re::Chars(set) => {
                proof {
                    set.lemma_keys_wf();
                }
                match set.get_in_or_out(ch) {
                    InOrOut::In(k) => (k, Re::Eps),
                    InOrOut::Out(g) => (g, Re::Nul),
                }
            },
            Re::Lit(s) => {
                let n = s.len();
                if n == 0 {
                    (CharRange::all(), Re::Nul)
                } else {
                    let first = s[0];
                    if c_exec == first as u32 {
                        let res = if n == 1 {
                            Re::Eps
                        } else {
                            let mut rest: Vec<char> = Vec::new();
                            let mut i: usize = 1;
                            while i < n
                                invariant
                                    1 <= i <= n,
                                    n == s@.len(),
                                    rest@ =~= s@.subrange(1, i as int),
                                decreases n - i,
                            {
                                rest.push(s[i]);
                                i += 1;
                                proof {
                                    assert(rest@ =~= s@.subrange(1, i as int));
                                }
                            }
                            proof {
                                assert(rest@ =~= s@.drop_first());
                            }
                            Re::Lit(rest)
                        };
                        (CharRange { start: c_exec, end: c_exec + 1 }, res)
                    } else if c_exec < first as u32 {
                        (CharRange { start: 0, end: first as u32 }, Re::Nul)
                    } else {
                        (CharRange { start: first as u32 + 1, end: CHAR_BOUND }, Re::Nul)
                    }
                }
            },
            Re::Neg(x) => {
                let (range, d) = x.derive(ch);
                (range, Re::neg_of(d))
            },
            Re::Alt(rs) => {
                let (range, ds) = derive_seq(&rs.0, ch);
                (range, Re::alt(&ds))
            },
            Re::And(rs) => {
                let (range, ds) = derive_seq(&rs.0, ch);
                (range, Re::and(&ds))
            },
            Re::Cat(a, b) => {
                let (r0, ap) = a.derive(ch);
                let apb = Re::cat(ap, (**b).clone());
                if a.nullable() {
                    let (r1, bp) = b.derive(ch);
                    let ghost apbv = apb@;
                    let ghost bpv = bp@;
                    let both = vec![apb, bp];
                    proof {
                        lemma_res_views(both@);
                        assert(res_views(both@) =~= seq![apbv, bpv]);
                    }
                    (r0.inter(&r1), Re::alt(&both))
                } else {
                    (r0, apb)
                }
            },
            Re::Star(a) => {
                let (range, ap) = a.derive(ch);
                let again = Re::Star(Box::new((**a).clone()));
                proof {
                    assert(again@ == self@);
                }
                (range, Re::cat(ap, again))
            },
            Re::Fan(a, count) => {
                let next = if *count > 2 {
                    Re::Fan(Box::new((**a).clone()), *count - 1)
                } else {
                    (**a).clone()
                };
                let (range, ap) = a.derive(ch);
                (range, Re::cat(ap, next))
            },
            Re::Moon(a, phase, planet) => {
                let (range, ap) = a.derive(ch);
                let np = if *phase >= *planet {
                    *phase - *planet + 1
                } else {
                    *phase + 1
                };
                (range, Re::cat(ap, Re::Moon(Box::new((**a).clone()), np, *planet)))
            },
            Re::Consider(cs, v, t, w) => {
                let (range, ds) = derive_seq(&cs.0, ch);
                let len = cs.0.len();
                let dn = ds.len();
                let ghost csv = res_views(cs.0@);
                let ghost dsv = res_views(ds@);
                let ghost conts_spec = consider_conts(dsv, csv, *v, *t, *w);
                proof {
                    lemma_res_views(ds@);
                    lemma_res_views(cs.0@);
                    lemma_derive_seq_parts(csv, c_exec);
                    assert(dsv.len() == csv.len());
                }
                let mut conts: Vec<Re> = Vec::new();
                let mut i: usize = 0;
                while i < dn
                    invariant
                        0 <= i <= dn,
                        dn == ds@.len(),
                        len == cs.0@.len(),
                        dsv == res_views(ds@),
                        csv == res_views(cs.0@),
                        dsv.len() == dn,
                        csv.len() == len,
                        dn == len,
                        *w >= 1,
                        conts_spec == consider_conts(dsv, csv, *v, *t, *w),
                        forall|j: int| 0 <= j < dn ==> dsv[j] == (#[trigger] ds@[j])@,
                        res_views(conts@) =~= conts_spec.subrange(0, i as int),
                    decreases dn - i,
                {
                    proof {
                        assert((*v as int) * (len as int) + (i as int) < 0x100000000000000000000000000000000int)
                            by (nonlinear_arith)
                            requires
                                0 <= *v as int <= 0xffffffffffffffffint,
                                0 <= len as int <= 0xffffffffffffffffint,
                                0 <= i as int <= 0xffffffffffffffffint,
                        ;
                    }
                    let nv_w = ((*v as u128) * (len as u128) + (i as u128)) % (*w as u128);
                    let nv = nv_w as usize;
                    let di = ds[i].clone();
                    let node = Re::Consider(cs.clone(), nv, *t, *w);
                    let elem = Re::cat(di, node);
                    let ghost bv = conts@;
                    conts.push(elem);
                    i += 1;
                    proof {
                        assert(conts@.drop_last() =~= bv);
                        assert(nv as int == (((*v as int) * (len as int) + (i as int - 1)) % (
                        *w as int)));
                        assert(elem@ == conts_spec[i as int - 1]);
                        assert(res_views(conts@) =~= conts_spec.subrange(0, i as int));
                    }
                }
                proof {
                    assert(conts_spec.subrange(0, dn as int) == conts_spec);
                }
                (range, Re::alt(&conts))
            },
        }
    }
}

// ---------------------------------------------------------------------------
// Well-formedness is preserved by the canonicalizing constructors.
// ---------------------------------------------------------------------------
/// Well-formedness of a concatenated list splits over the halves.
pub proof fn lemma_all_wf_concat(a: Seq<SpecRe>, b: Seq<SpecRe>)
    ensures
        all_wf(a + b) == (all_wf(a) && all_wf(b)),
{
    lemma_all_wf(a);
    lemma_all_wf(b);
    lemma_all_wf(a + b);
    if all_wf(a) && all_wf(b) {
        assert forall|i: int| 0 <= i < (a + b).len() implies spec_wf(#[trigger] (a + b)[i]) by {
            if i < a.len() {
                assert((a + b)[i] == a[i]);
            } else {
                assert((a + b)[i] == b[i - a.len()]);
            }
        }
    }
    if all_wf(a + b) {
        assert forall|i: int| 0 <= i < a.len() implies spec_wf(#[trigger] a[i]) by {
            assert((a + b)[i] == a[i]);
        }
        assert forall|i: int| 0 <= i < b.len() implies spec_wf(#[trigger] b[i]) by {
            assert((a + b)[i + a.len()] == b[i]);
        }
    }
}

pub proof fn lemma_alt_flat_wf(parts: Seq<SpecRe>)
    requires
        all_wf(parts),
    ensures
        all_wf(alt_flat(parts)),
    decreases parts,
{
    if parts.len() > 0 {
        lemma_alt_flat_wf(parts.drop_last());
        let tail_part = match parts.last() {
            SpecRe::Alt(rs) => rs,
            SpecRe::Nul => Seq::<SpecRe>::empty(),
            _ => seq![parts.last()],
        };
        assert(all_wf(tail_part)) by {
            assert(spec_wf(parts.last()));
            match parts.last() {
                SpecRe::Alt(rs) => {
                    assert(all_wf(rs));
                },
                SpecRe::Nul => {
                    assert(tail_part.len() == 0);
                },
                _ => {
                    assert(all_wf(Seq::<SpecRe>::empty()));
                    assert(tail_part.drop_last() =~= Seq::<SpecRe>::empty());
                    assert(tail_part.last() == parts.last());
                },
            }
        }
        lemma_all_wf_concat(alt_flat(parts.drop_last()), tail_part);
    }
}

pub proof fn lemma_and_flat_wf(parts: Seq<SpecRe>)
    requires
        all_wf(parts),
    ensures
        all_wf(and_flat(parts)),
    decreases parts,
{
    if parts.len() > 0 {
        lemma_and_flat_wf(parts.drop_last());
        let tail_part = if is_neg_nul(parts.last()) {
            Seq::<SpecRe>::empty()
        } else {
            match parts.last() {
                SpecRe::And(rs) => rs,
                _ => seq![parts.last()],
            }
        };
        assert(all_wf(tail_part)) by {
            assert(spec_wf(parts.last()));
            if is_neg_nul(parts.last()) {
                assert(tail_part.len() == 0);
            } else {
                match parts.last() {
                    SpecRe::And(rs) => {
                        assert(all_wf(rs));
                    },
                    _ => {
                        assert(all_wf(Seq::<SpecRe>::empty()));
                        assert(tail_part.drop_last() =~= Seq::<SpecRe>::empty());
                        assert(tail_part.last() == parts.last());
                    },
                }
            }
        }
        lemma_all_wf_concat(and_flat(parts.drop_last()), tail_part);
    }
}

pub proof fn lemma_dedup_wf(sq: Seq<SpecRe>)
    requires
        all_wf(sq),
    ensures
        all_wf(dedup(sq)),
{
    lemma_all_wf(sq);
    lemma_all_wf(dedup(sq));
    assert forall|i: int| 0 <= i < dedup(sq).len() implies spec_wf(#[trigger] dedup(sq)[i]) by {
        assert(dedup(sq).contains(dedup(sq)[i]));
        lemma_dedup_contains(sq, dedup(sq)[i]);
        let j = choose|j: int| 0 <= j < sq.len() && sq[j] == dedup(sq)[i];
    }
}

pub proof fn lemma_spec_alt_wf(parts: Seq<SpecRe>)
    requires
        all_wf(parts),
    ensures
        spec_wf(spec_alt(parts)),
{
    assert(spec_wf(SpecRe::Nul));
    if !has_neg_nul(parts) {
        lemma_alt_flat_wf(parts);
        lemma_dedup_wf(alt_flat(parts));
        let all = dedup(alt_flat(parts));
        lemma_all_wf(all);
    }
}

pub proof fn lemma_spec_and_wf(parts: Seq<SpecRe>)
    requires
        all_wf(parts),
    ensures
        spec_wf(spec_and(parts)),
{
    assert(spec_wf(SpecRe::Nul));
    if !has_nul(parts) {
        lemma_and_flat_wf(parts);
        lemma_dedup_wf(and_flat(parts));
        let all = dedup(and_flat(parts));
        lemma_all_wf(all);
    }
}

pub proof fn lemma_spec_cat_wf(a: SpecRe, b: SpecRe)
    requires
        spec_wf(a),
        spec_wf(b),
    ensures
        spec_wf(spec_cat(a, b)),
    decreases a,
{
    match a {
        SpecRe::Cat(x, y) => {
            lemma_spec_cat_wf(*y, b);
            lemma_spec_cat_wf(*x, spec_cat(*y, b));
        },
        _ => {},
    }
}

pub proof fn lemma_spec_neg_wf(a: SpecRe)
    requires
        spec_wf(a),
    ensures
        spec_wf(spec_neg(a)),
{
}

// ---------------------------------------------------------------------------
// The public combinator surface.
// ---------------------------------------------------------------------------
/// The empty language.
pub fn nul() -> (r: Re)
    ensures
        r@ == SpecRe::Nul,
        spec_wf(r@),
{
    Re::Nul
}

/// The language of exactly the empty string.
pub fn eps() -> (r: Re)
    ensures
        r@ == SpecRe::Eps,
        spec_wf(r@),
{
    Re::Eps
}

fn str_chars(s: &str) -> (v: Vec<char>)
    ensures
        v@ == s@,
        lit_wf(v@),
{
    let n = s.unicode_len();
    let mut v: Vec<char> = Vec::new();
    let mut i: usize = 0;
    while i < n
        invariant
            0 <= i <= n,
            n == s@.len(),
            v@ =~= s@.subrange(0, i as int),
            lit_wf(v@),
        decreases n - i,
    {
        let ghost prev = v@;
        let ch = s.get_char(i);
        assert(ch as u32 <= 0x10FFFF);
        v.push(ch);
        i += 1;
        proof {
            assert(v@ =~= s@.subrange(0, i as int));
            assert forall|j: int| 0 <= j < v@.len() implies (#[trigger] v@[j]) as u32 <= 0x10FFFF
            by {
                if j < v@.len() - 1 {
                    assert(v@[j] == prev[j]);
                }
            }
        }
    }
    proof {
        assert(v@ =~= s@);
    }
    v
}

/// A literal: the language holding exactly the given string.
pub fn sundae(s: &str) -> (r: Re)
    ensures
        r@ == SpecRe::Lit(s@),
        spec_wf(r@),
{
    Re::Lit(str_chars(s))
}

/// A character class holding the inclusive range `lo..=hi`.
pub fn cheese(lo: char, hi: char) -> (r: Re)
    requires
        lo as u32 <= hi as u32,
    ensures
        r@ == SpecRe::Chars(seq![CharRange { start: lo as u32, end: (hi as u32 + 1) as u32 }]),
        spec_wf(r@),
{
    let set = Charset::of_range(CharRange { start: lo as u32, end: hi as u32 + 1 });
    Re::Chars(set)
}

/// A character class holding exactly the characters of `chars`.
pub fn toppings(chars: &str) -> (r: Re)
    ensures
        r@ is Chars,
        set_wf(r@->Chars_0),
        forall|c: u32|
            #![trigger covered(r@->Chars_0, c)]
            covered(r@->Chars_0, c) <==> exists|j: int|
                0 <= j < chars@.len() && (#[trigger] chars@[j]) as u32 == c,
        spec_wf(r@),
{
    let cs = str_chars(chars);
    let n = cs.len();
    let mut set = Charset::new();
    let mut i: usize = 0;
    while i < n
        invariant
            0 <= i <= n,
            n == cs@.len(),
            cs@ == chars@,
            set.wf(),
            forall|c: u32|
                #![trigger covered(set@, c)]
                set.spec_contains(c) <==> exists|j: int|
                    0 <= j < i && (#[trigger] cs@[j]) as u32 == c,
        decreases n - i,
    {
        set.insert_char(cs[i]);
        i += 1;
        proof {
            assert forall|c: u32|
                #![trigger covered(set@, c)]
                set.spec_contains(c) <==> exists|j: int|
                    0 <= j < i && (#[trigger] cs@[j]) as u32 == c by {
                if set.spec_contains(c) {
                    if c == cs@[i as int - 1] as u32 {
                        assert(cs@[i as int - 1] as u32 == c);
                    } else {
                        let j = choose|j: int| 0 <= j < i - 1 && (#[trigger] cs@[j]) as u32 == c;
                    }
                }
                if exists|j: int| 0 <= j < i && (#[trigger] cs@[j]) as u32 == c {
                    let j = choose|j: int| 0 <= j < i && (#[trigger] cs@[j]) as u32 == c;
                    if j < i - 1 {
                        assert(exists|k: int| 0 <= k < i - 1 && (#[trigger] cs@[k]) as u32 == c);
                    }
                }
            }
        }
    }
    proof {
        set.lemma_wf_keys();
    }
    Re::Chars(set)
}

/// The full list of digit choices for a weighted-residue constraint, with a
/// zero accumulator.
pub fn consider(res: Vec<Re>, target: usize, within: usize) -> (r: Re)
    requires
        within >= 1,
        all_wf(res_views(res@)),
    ensures
        r@ == SpecRe::Consider(res_views(res@), 0, target, within),
        spec_wf(r@),
{
    Re::Consider(Res(res), 0, target, within)
}

impl Re {
    /// Kleene star.
    pub fn star(self) -> (r: Re)
        ensures
            r@ == SpecRe::Star(Box::new(self@)),
            spec_wf(self@) ==> spec_wf(r@),
    {
        Re::Star(Box::new(self))
    }

    /// Negation (complement language).
    pub fn neg(self) -> (r: Re)
        ensures
            r@ == SpecRe::Neg(Box::new(self@)),
            spec_wf(self@) ==> spec_wf(r@),
    {
        Re::Neg(Box::new(self))
    }

    /// One or more repetitions: the star intersected with the complement of
    /// the empty string.
    pub fn sun(self) -> (r: Re)
        requires
            spec_wf(self@),
        ensures
            r@ == spec_and(seq![
                SpecRe::Star(Box::new(self@)),
                SpecRe::Neg(Box::new(SpecRe::Eps)),
            ]),
            spec_wf(r@),
    {
        let starred = self.star();
        starred.conj(eps().neg())
    }

    /// Zero or one occurrence: the union with the empty string.
    pub fn fickle(self) -> (r: Re)
        requires
            spec_wf(self@),
        ensures
            r@ == spec_alt(seq![self@, SpecRe::Eps]),
            spec_wf(r@),
    {
        self.disj(eps())
    }

    /// A cyclic-phase counter: accepts when the running count of completed
    /// inner matches lands on the modulus.
    pub fn moon_phase(self, phase: usize, planet: usize) -> (r: Re)
        requires
            planet >= 1,
        ensures
            r@ == SpecRe::Moon(Box::new(self@), phase, planet),
            spec_wf(self@) ==> spec_wf(r@),
    {
        Re::Moon(Box::new(self), phase, planet)
    }

    /// A cyclic-phase counter starting at phase one.
    pub fn moon(self, planet: usize) -> (r: Re)
        requires
            planet >= 1,
        ensures
            r@ == SpecRe::Moon(Box::new(self@), 1, planet),
            spec_wf(self@) ==> spec_wf(r@),
    {
        self.moon_phase(1, planet)
    }

    /// Exactly `count` repetitions.
    pub fn fan(self, count: usize) -> (r: Re)
        ensures
            count == 0 ==> r@ == SpecRe::Eps,
            count == 1 ==> r@ == self@,
            count >= 2 ==> r@ == SpecRe::Fan(Box::new(self@), count),
            spec_wf(self@) ==> spec_wf(r@),
    {
        if count == 0 {
            Re::Eps
        } else if count == 1 {
            self
        } else {
            Re::Fan(Box::new(self), count)
        }
    }

    /// Conjunction of two languages; two character classes intersect as sets.
    pub fn conj(self, other: Re) -> (r: Re)
        requires
            spec_wf(self@),
            spec_wf(other@),
        ensures
            spec_wf(r@),
            (self@ is Chars && other@ is Chars) ==> ({
                let ks = r@->Chars_0;
                &&& r@ is Chars
                &&& forall|c: u32|
                    #![trigger covered(ks, c)]
                    c < CHAR_BOUND ==> (covered(ks, c) <==> (covered(self@->Chars_0, c) && covered(
                        other@->Chars_0,
                        c,
                    )))
            }),
            !(self@ is Chars && other@ is Chars) ==> r@ == spec_and(seq![self@, other@]),
    {
        proof {
            lemma_view_variant(self);
            lemma_view_variant(other);
        }
        match (self, other) {
            (Re::Chars(s1), Re::Chars(s2)) => {
                proof {
                    s1.lemma_keys_wf();
                    s2.lemma_keys_wf();
                }
                let inter = s1.intersection(&s2);
                proof {
                    inter.lemma_wf_keys();
                }
                Re::Chars(inter)
            },
            (a, b) => {
                let ghost av = a@;
                let ghost bv = b@;
                let both = vec![a, b];
                proof {
                    lemma_res_views(both@);
                    assert(res_views(both@) =~= seq![av, bv]);
                    lemma_all_wf(res_views(both@));
                    lemma_spec_and_wf(res_views(both@));
                }
                Re::and(&both)
            },
        }
    }

    /// Alternation of two languages; two character classes unite as sets.
    pub fn disj(self, other: Re) -> (r: Re)
        requires
            spec_wf(self@),
            spec_wf(other@),
        ensures
            spec_wf(r@),
            (self@ is Chars && other@ is Chars) ==> ({
                let ks = r@->Chars_0;
                &&& r@ is Chars
                &&& forall|c: u32|
                    #![trigger covered(ks, c)]
                    covered(ks, c) <==> (covered(self@->Chars_0, c) || covered(
                        other@->Chars_0,
                        c,
                    ))
            }),
            !(self@ is Chars && other@ is Chars) ==> r@ == spec_alt(seq![self@, other@]),
    {
        proof {
            lemma_view_variant(self);
            lemma_view_variant(other);
        }
        match (self, other) {
            (Re::Chars(s1), Re::Chars(s2)) => {
                proof {
                    s1.lemma_keys_wf();
                    s2.lemma_keys_wf();
                }
                let uni = s1.union(&s2);
                proof {
                    uni.lemma_wf_keys();
                }
                Re::Chars(uni)
            },
            (a, b) => {
                let ghost av = a@;
                let ghost bv = b@;
                let both = vec![a, b];
                proof {
                    lemma_res_views(both@);
                    assert(res_views(both@) =~= seq![av, bv]);
                    lemma_all_wf(res_views(both@));
                    lemma_spec_alt_wf(res_views(both@));
                }
                Re::alt(&both)
            },
        }
    }

    /// Concatenation of two languages.
    pub fn concat(self, other: Re) -> (r: Re)
        ensures
            r@ == spec_cat(self@, other@),
            spec_wf(self@) && spec_wf(other@) ==> spec_wf(r@),
    {
        proof {
            if spec_wf(self@) && spec_wf(other@) {
                lemma_spec_cat_wf(self@, other@);
            }
        }
        Re::cat(self, other)
    }
}

// ---------------------------------------------------------------------------
// The derivative interval contains the character that produced it, the
// residual stays well-formed, and every character of the interval yields the
// same derivative. These three facts make the lazily cached transition table
// of the matcher sound.
// ---------------------------------------------------------------------------
/// Intersecting two intervals that share a point keeps exactly the common
/// points.
pub proof fn lemma_inter_decompose(a: CharRange, b: CharRange, c: u32, c2: u32)
    requires
        a.spec_contains(c),
        b.spec_contains(c),
        a.spec_inter(b).spec_contains(c2),
    ensures
        a.spec_contains(c2),
        b.spec_contains(c2),
{
}

/// The interval returned by a derivative is well-formed and contains the
/// deriving character.
pub proof fn lemma_derive_in_range(re: SpecRe, c: u32)
    requires
        spec_wf(re),
        c < CHAR_BOUND,
    ensures
        spec_derive(re, c).0.wf(),
        spec_derive(re, c).0.spec_contains(c),
    decreases re,
{
    match re {
        SpecRe::Lit(sq) => {
            if sq.len() > 0 {
                assert(sq[0] as u32 <= 0x10FFFF);
                assert((sq[0] as u32) < CHAR_BOUND);
            }
        },
        SpecRe::Chars(ks) => {
            lemma_found_entry(ks, c);
            match spec_found(ks, c) {
                Some(k) => {
                    let i = choose|i: int| 0 <= i < ks.len() && ks[i] == k;
                    assert(ks[i].start < ks[i].end && ks[i].end <= CHAR_BOUND);
                },
                None => {
                    lemma_gap_props(ks, c);
                },
            }
        },
        SpecRe::Neg(x) => {
            lemma_derive_in_range(*x, c);
        },
        SpecRe::Alt(rs) => {
            lemma_all_wf(rs);
            lemma_derive_seq_in_range(rs, c);
        },
        SpecRe::And(rs) => {
            lemma_all_wf(rs);
            lemma_derive_seq_in_range(rs, c);
        },
        SpecRe::Cat(a, b) => {
            lemma_derive_in_range(*a, c);
            if spec_nullable(*a) {
                lemma_derive_in_range(*b, c);
            }
        },
        SpecRe::Star(a) => {
            lemma_derive_in_range(*a, c);
        },
        SpecRe::Fan(a, _) => {
            lemma_derive_in_range(*a, c);
        },
        SpecRe::Moon(a, _, _) => {
            lemma_derive_in_range(*a, c);
        },
        SpecRe::Consider(cs, _, _, _) => {
            lemma_all_wf(cs);
            lemma_derive_seq_in_range(cs, c);
        },
        _ => {},
    }
}

/// The interval of a member-list derivative is well-formed and contains the
/// deriving character.
pub proof fn lemma_derive_seq_in_range(rs: Seq<SpecRe>, c: u32)
    requires
        forall|i: int| 0 <= i < rs.len() ==> spec_wf(#[trigger] rs[i]),
        c < CHAR_BOUND,
    ensures
        spec_derive_seq(rs, c).0.wf(),
        spec_derive_seq(rs, c).0.spec_contains(c),
    decreases rs,
{
    if rs.len() > 0 {
        assert forall|i: int| 0 <= i < rs.drop_last().len() implies spec_wf(
            #[trigger] rs.drop_last()[i],
        ) by {
            assert(rs.drop_last()[i] == rs[i]);
        }
        lemma_derive_seq_in_range(rs.drop_last(), c);
        assert(rs[rs.len() - 1] == rs.last());
        lemma_derive_in_range(rs.last(), c);
    }
}

/// The residual of a derivative is well-formed.
pub proof fn lemma_derive_wf(re: SpecRe, c: u32)
    requires
        spec_wf(re),
        c < CHAR_BOUND,
    ensures
        spec_wf(spec_derive(re, c).1),
    decreases re,
{
    assert(spec_wf(SpecRe::Nul));
    assert(spec_wf(SpecRe::Eps));
    match re {
        SpecRe::Neg(x) => {
            lemma_derive_wf(*x, c);
            lemma_spec_neg_wf(spec_derive(*x, c).1);
        },
        SpecRe::Alt(rs) => {
            lemma_all_wf(rs);
            lemma_derive_seq_wf(rs, c);
            lemma_all_wf(spec_derive_seq(rs, c).1);
            lemma_spec_alt_wf(spec_derive_seq(rs, c).1);
        },
        SpecRe::And(rs) => {
            lemma_all_wf(rs);
            lemma_derive_seq_wf(rs, c);
            lemma_all_wf(spec_derive_seq(rs, c).1);
            lemma_spec_and_wf(spec_derive_seq(rs, c).1);
        },
        SpecRe::Cat(a, b) => {
            lemma_derive_wf(*a, c);
            let ap = spec_derive(*a, c).1;
            lemma_spec_cat_wf(ap, *b);
            if spec_nullable(*a) {
                lemma_derive_wf(*b, c);
                let apb = spec_cat(ap, *b);
                let bp = spec_derive(*b, c).1;
                let pair = seq![apb, bp];
                assert(all_wf(pair)) by {
                    assert(all_wf(Seq::<SpecRe>::empty()));
                    assert(seq![apb].drop_last() =~= Seq::<SpecRe>::empty());
                    assert(seq![apb].last() == apb);
                    assert(all_wf(seq![apb]));
                    assert(pair.drop_last() =~= seq![apb]);
                    assert(pair.last() == bp);
                }
                lemma_spec_alt_wf(pair);
            }
        },
        SpecRe::Star(a) => {
            lemma_derive_wf(*a, c);
            lemma_spec_cat_wf(spec_derive(*a, c).1, SpecRe::Star(a));
        },
        SpecRe::Fan(a, n) => {
            lemma_derive_wf(*a, c);
            let next = if n > 2 {
                SpecRe::Fan(a, (n - 1) as usize)
            } else {
                *a
            };
            lemma_spec_cat_wf(spec_derive(*a, c).1, next);
        },
        SpecRe::Moon(a, p, q) => {
            lemma_derive_wf(*a, c);
            let np = if p >= q {
                (p - q + 1) as usize
            } else {
                (p + 1) as usize
            };
            lemma_spec_cat_wf(spec_derive(*a, c).1, SpecRe::Moon(a, np, q));
        },
        SpecRe::Lit(sq) => {
            if sq.len() > 1 && c == sq[0] as u32 {
                assert(lit_wf(sq.drop_first())) by {
                    assert forall|i: int|
                        0 <= i < sq.drop_first().len() implies (#[trigger] sq.drop_first()[i]) as u32
                        <= 0x10FFFF by {
                        assert(sq.drop_first()[i] == sq[i + 1]);
                    }
                }
            }
        },
        SpecRe::Consider(cs, v, t, w) => {
            lemma_all_wf(cs);
            lemma_derive_seq_wf(cs, c);
            let ds = spec_derive_seq(cs, c).1;
            lemma_all_wf(ds);
            let conts = consider_conts(ds, cs, v, t, w);
            assert forall|i: int| 0 <= i < conts.len() implies spec_wf(#[trigger] conts[i]) by {
                let node = SpecRe::Consider(
                    cs,
                    ((v as int * cs.len() + i) % (w as int)) as usize,
                    t,
                    w,
                );
                assert(spec_wf(node));
                lemma_spec_cat_wf(ds[i], node);
            }
            lemma_all_wf(conts);
            lemma_spec_alt_wf(conts);
        },
        _ => {},
    }
}

/// Every residual of a member-list derivative is well-formed.
pub proof fn lemma_derive_seq_wf(rs: Seq<SpecRe>, c: u32)
    requires
        forall|i: int| 0 <= i < rs.len() ==> spec_wf(#[trigger] rs[i]),
        c < CHAR_BOUND,
    ensures
        forall|i: int|
            0 <= i < spec_derive_seq(rs, c).1.len() ==> spec_wf(
                #[trigger] spec_derive_seq(rs, c).1[i],
            ),
    decreases rs,
{
    lemma_derive_seq_parts(rs, c);
    assert forall|i: int|
        0 <= i < spec_derive_seq(rs, c).1.len() implies spec_wf(
        #[trigger] spec_derive_seq(rs, c).1[i],
    ) by {
        lemma_derive_wf(rs[i], c);
    }
}

/// Every character of the derivative's interval produces the same derivative:
/// the interval really is a uniform block of the transition partition.
pub proof fn lemma_derive_uniform(re: SpecRe, c: u32, c2: u32)
    requires
        spec_wf(re),
        c < CHAR_BOUND,
        spec_derive(re, c).0.spec_contains(c2),
    ensures
        spec_derive(re, c2) == spec_derive(re, c),
    decreases re,
{
    lemma_derive_in_range(re, c);
    assert(c2 < CHAR_BOUND);
    match re {
        SpecRe::Chars(ks) => {
            lemma_found_entry(ks, c);
            match spec_found(ks, c) {
                Some(k) => {
                    let i = choose|i: int| 0 <= i < ks.len() && ks[i] == k;
                    lemma_found_at(ks, i, c2);
                },
                None => {
                    lemma_gap_props(ks, c);
                },
            }
        },
        SpecRe::Lit(sq) => {
            if sq.len() == 0 {
            } else if c == sq[0] as u32 {
                assert(c2 == c);
            } else if c < sq[0] as u32 {
                assert(c2 < sq[0] as u32);
            } else {
                assert(c2 > sq[0] as u32);
            }
        },
        SpecRe::Neg(x) => {
            lemma_derive_uniform(*x, c, c2);
        },
        SpecRe::Alt(rs) => {
            lemma_all_wf(rs);
            lemma_derive_seq_uniform(rs, c, c2);
        },
        SpecRe::And(rs) => {
            lemma_all_wf(rs);
            lemma_derive_seq_uniform(rs, c, c2);
        },
        SpecRe::Cat(a, b) => {
            lemma_derive_in_range(*a, c);
            if spec_nullable(*a) {
                lemma_derive_in_range(*b, c);
                lemma_inter_decompose(spec_derive(*a, c).0, spec_derive(*b, c).0, c, c2);
                lemma_derive_uniform(*a, c, c2);
                lemma_derive_uniform(*b, c, c2);
            } else {
                lemma_derive_uniform(*a, c, c2);
            }
        },
        SpecRe::Star(a) => {
            lemma_derive_uniform(*a, c, c2);
        },
        SpecRe::Fan(a, _) => {
            lemma_derive_uniform(*a, c, c2);
        },
        SpecRe::Moon(a, _, _) => {
            lemma_derive_uniform(*a, c, c2);
        },
        SpecRe::Consider(cs, _, _, _) => {
            lemma_all_wf(cs);
            lemma_derive_seq_uniform(cs, c, c2);
        },
        _ => {},
    }
}

/// Uniformity for member lists.
pub proof fn lemma_derive_seq_uniform(rs: Seq<SpecRe>, c: u32, c2: u32)
    requires
        forall|i: int| 0 <= i < rs.len() ==> spec_wf(#[trigger] rs[i]),
        c < CHAR_BOUND,
        spec_derive_seq(rs, c).0.spec_contains(c2),
    ensures
        spec_derive_seq(rs, c2) == spec_derive_seq(rs, c),
    decreases rs,
{
    if rs.len() > 0 {
        assert forall|i: int| 0 <= i < rs.drop_last().len() implies spec_wf(
            #[trigger] rs.drop_last()[i],
        ) by {
            assert(rs.drop_last()[i] == rs[i]);
        }
        assert(rs[rs.len() - 1] == rs.last());
        lemma_derive_seq_in_range(rs.drop_last(), c);
        lemma_derive_in_range(rs.last(), c);
        lemma_inter_decompose(
            spec_derive_seq(rs.drop_last(), c).0,
            spec_derive(rs.last(), c).0,
            c,
            c2,
        );
        lemma_derive_seq_uniform(rs.drop_last(), c, c2);
        lemma_derive_uniform(rs.last(), c, c2);
    }
}

} // verus!