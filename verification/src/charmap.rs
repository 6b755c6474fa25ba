use vstd::prelude::*;

verus! {

use crate::charrange::{CharRange, CHAR_BOUND};

/// Answer of a point query: either inside a stored interval or in a maximal gap.
pub enum InOrOut<A, B> {
    In(A),
    Out(B),
}

/// An ordered map from disjoint, non-empty code-point intervals to values,
/// kept as a vector of entries sorted by interval start.
pub struct Charmap<V> {
    entries: Vec<(CharRange, V)>,
}

/// Entries are non-empty, inside the domain, sorted and pairwise disjoint.
pub open spec fn map_wf<V>(es: Seq<(CharRange, V)>) -> bool {
    &&& forall|i: int|
        0 <= i < es.len() ==> (#[trigger] es[i]).0.start < es[i].0.end && es[i].0.end <= CHAR_BOUND
    &&& forall|i: int, j: int|
        #![trigger es[i], es[j]]
        0 <= i < j < es.len() ==> es[i].0.end <= es[j].0.start
}

/// The value mapped at a code point, if any.
pub open spec fn map_get<V>(es: Seq<(CharRange, V)>, c: u32) -> Option<V>
    decreases es.len(),
{
    if es.len() == 0 {
        None
    } else if es.last().0.spec_contains(c) {
        Some(es.last().1)
    } else {
        map_get(es.drop_last(), c)
    }
}

/// The interval sequence of a map's entries.
pub open spec fn map_keys<V>(es: Seq<(CharRange, V)>) -> Seq<CharRange> {
    es.map_values(|e: (CharRange, V)| e.0)
}

/// A sorted sequence of disjoint, non-empty intervals (the key part of `map_wf`).
pub open spec fn set_wf(ks: Seq<CharRange>) -> bool {
    &&& forall|i: int|
        0 <= i < ks.len() ==> (#[trigger] ks[i]).start < ks[i].end && ks[i].end <= CHAR_BOUND
    &&& forall|i: int, j: int|
        #![trigger ks[i], ks[j]]
        0 <= i < j < ks.len() ==> ks[i].end <= ks[j].start
}

/// The stored interval containing a code point, if any.
pub open spec fn spec_found(ks: Seq<CharRange>, c: u32) -> Option<CharRange>
    decreases ks.len(),
{
    if ks.len() == 0 {
        None
    } else if ks.last().spec_contains(c) {
        Some(ks.last())
    } else {
        spec_found(ks.drop_last(), c)
    }
}

/// The lower bound of the gap around `c`: the end of the last interval
/// starting at or below `c`, or the bottom of the domain.
pub open spec fn spec_below(ks: Seq<CharRange>, c: u32) -> u32
    decreases ks.len(),
{
    if ks.len() == 0 {
        0
    } else if ks.last().start <= c {
        ks.last().end
    } else {
        spec_below(ks.drop_last(), c)
    }
}

/// The upper bound of the gap: the start of the first interval above `b`,
/// or the top of the domain.
pub open spec fn spec_above(ks: Seq<CharRange>, b: u32) -> u32
    decreases ks.len(),
{
    if ks.len() == 0 {
        CHAR_BOUND
    } else if ks.first().start > b {
        ks.first().start
    } else {
        spec_above(ks.drop_first(), b)
    }
}

/// The maximal uncovered interval around an uncovered code point.
pub open spec fn spec_gap(ks: Seq<CharRange>, c: u32) -> CharRange {
    let b = spec_below(ks, c);
    CharRange { start: b, end: spec_above(ks, b) }
}

/// If entry `i` contains `c`, the lookup returns its value.
pub proof fn lemma_map_get_at<V>(es: Seq<(CharRange, V)>, i: int, c: u32)
    requires
        map_wf(es),
        0 <= i < es.len(),
        es[i].0.spec_contains(c),
    ensures
        map_get(es, c) == Some(es[i].1),
    decreases es.len(),
{
    if i == es.len() - 1 {
    } else {
        assert(es[i].0.end <= es.last().0.start);
        assert(!es.last().0.spec_contains(c));
        assert(es.drop_last()[i] == es[i]);
        lemma_map_get_at(es.drop_last(), i, c);
    }
}

/// A successful lookup names some containing entry; a failed one rules all out.
pub proof fn lemma_map_get_entry<V>(es: Seq<(CharRange, V)>, c: u32)
    ensures
        match map_get(es, c) {
            Some(v) => exists|i: int|
                0 <= i < es.len() && (#[trigger] es[i]).0.spec_contains(c) && es[i].1 == v,
            None => forall|i: int| 0 <= i < es.len() ==> !(#[trigger] es[i]).0.spec_contains(c),
        },
    decreases es.len(),
{
    if es.len() == 0 {
    } else if es.last().0.spec_contains(c) {
        assert(es[es.len() - 1].0.spec_contains(c));
    } else {
        lemma_map_get_entry(es.drop_last(), c);
        match map_get(es.drop_last(), c) {
            Some(v) => {
                let i = choose|i: int|
                    0 <= i < es.drop_last().len() && (#[trigger] es.drop_last()[i]).0.spec_contains(
                        c,
                    ) && es.drop_last()[i].1 == v;
                assert(es[i] == es.drop_last()[i]);
            },
            None => {
                assert forall|i: int| 0 <= i < es.len() implies !(
                #[trigger] es[i]).0.spec_contains(c) by {
                    if i < es.len() - 1 {
                        assert(es.drop_last()[i] == es[i]);
                    }
                }
            },
        }
    }
}

/// The same correspondence for the key-only lookup.
pub proof fn lemma_found_entry(ks: Seq<CharRange>, c: u32)
    ensures
        match spec_found(ks, c) {
            Some(k) => ks.contains(k) && k.spec_contains(c),
            None => forall|i: int| 0 <= i < ks.len() ==> !(#[trigger] ks[i]).spec_contains(c),
        },
    decreases ks.len(),
{
    if ks.len() == 0 {
    } else if ks.last().spec_contains(c) {
        assert(ks[ks.len() - 1] == ks.last());
    } else {
        lemma_found_entry(ks.drop_last(), c);
        match spec_found(ks.drop_last(), c) {
            Some(k) => {
                let i = choose|i: int| 0 <= i < ks.drop_last().len() && ks.drop_last()[i] == k;
                assert(ks[i] == k);
            },
            None => {
                assert forall|i: int| 0 <= i < ks.len() implies !(#[trigger] ks[i]).spec_contains(c)
                by {
                    if i < ks.len() - 1 {
                        assert(ks.drop_last()[i] == ks[i]);
                    }
                }
            },
        }
    }
}

/// The key-only and the value lookups agree on success, at the same entry.
pub proof fn lemma_found_get<V>(es: Seq<(CharRange, V)>, c: u32)
    ensures
        match (spec_found(map_keys(es), c), map_get(es, c)) {
            (Some(k), Some(v)) => exists|i: int|
                0 <= i < es.len() && #[trigger] es[i] == (k, v),
            (None, None) => true,
            _ => false,
        },
    decreases es.len(),
{
    assert(map_keys(es).len() == es.len());
    if es.len() == 0 {
    } else {
        assert(map_keys(es).last() == es.last().0);
        assert(map_keys(es).drop_last() =~= map_keys(es.drop_last()));
        if es.last().0.spec_contains(c) {
            assert(es[es.len() - 1] == (es.last().0, es.last().1));
        } else {
            lemma_found_get(es.drop_last(), c);
            match (spec_found(map_keys(es.drop_last()), c), map_get(es.drop_last(), c)) {
                (Some(k), Some(v)) => {
                    let i = choose|i: int|
                        0 <= i < es.drop_last().len() && #[trigger] es.drop_last()[i] == (k, v);
                    assert(es[i] == (k, v));
                },
                _ => {},
            }
        }
    }
}

/// If entry `i` contains `c`, the key lookup returns that interval.
pub proof fn lemma_found_at(ks: Seq<CharRange>, i: int, c: u32)
    requires
        set_wf(ks),
        0 <= i < ks.len(),
        ks[i].spec_contains(c),
    ensures
        spec_found(ks, c) == Some(ks[i]),
    decreases ks.len(),
{
    if i == ks.len() - 1 {
    } else {
        assert(ks[i].end <= ks.last().start);
        assert(!ks.last().spec_contains(c));
        assert(ks.drop_last()[i] == ks[i]);
        lemma_found_at(ks.drop_last(), i, c);
    }
}

/// In a sorted interval sequence, the positions with start at or below `c`
/// form a prefix.
pub proof fn lemma_split_idx(ks: Seq<CharRange>, c: u32) -> (i: int)
    requires
        set_wf(ks),
    ensures
        0 <= i <= ks.len(),
        forall|j: int| 0 <= j < i ==> (#[trigger] ks[j]).start <= c,
        forall|j: int| i <= j < ks.len() ==> (#[trigger] ks[j]).start > c,
    decreases ks.len(),
{
    if ks.len() == 0 {
        0
    } else if ks.last().start <= c {
        assert forall|j: int| 0 <= j < ks.len() implies (#[trigger] ks[j]).start <= c by {
            if j < ks.len() - 1 {
                assert(ks[j].end <= ks.last().start);
            }
        }
        ks.len() as int
    } else {
        let i = lemma_split_idx(ks.drop_last(), c);
        assert forall|j: int| 0 <= j < i implies (#[trigger] ks[j]).start <= c by {
            assert(ks.drop_last()[j] == ks[j]);
        }
        assert forall|j: int| i <= j < ks.len() implies (#[trigger] ks[j]).start > c by {
            if j < ks.len() - 1 {
                assert(ks.drop_last()[j] == ks[j]);
            }
        }
        i
    }
}

/// The recursive lower-bound scan agrees with the split position.
pub proof fn lemma_below_idx(ks: Seq<CharRange>, c: u32, i: int)
    requires
        set_wf(ks),
        0 <= i <= ks.len(),
        forall|j: int| 0 <= j < i ==> (#[trigger] ks[j]).start <= c,
        forall|j: int| i <= j < ks.len() ==> (#[trigger] ks[j]).start > c,
    ensures
        spec_below(ks, c) == if i > 0 {
            ks[i - 1].end
        } else {
            0u32
        },
    decreases ks.len(),
{
    if ks.len() == 0 {
    } else if ks.last().start <= c {
        assert(i == ks.len());
    } else {
        assert(i < ks.len());
        lemma_below_idx(ks.drop_last(), c, i);
        if i > 0 {
            assert(ks.drop_last()[i - 1] == ks[i - 1]);
        }
    }
}

/// The recursive upper-bound scan agrees with the split position.
pub proof fn lemma_above_idx(ks: Seq<CharRange>, b: u32, i: int)
    requires
        set_wf(ks),
        0 <= i <= ks.len(),
        forall|j: int| 0 <= j < i ==> (#[trigger] ks[j]).start <= b,
        forall|j: int| i <= j < ks.len() ==> (#[trigger] ks[j]).start > b,
    ensures
        spec_above(ks, b) == if i < ks.len() {
            ks[i].start
        } else {
            CHAR_BOUND
        },
    decreases ks.len(),
{
    if ks.len() == 0 {
    } else if ks.first().start > b {
        assert(i == 0);
    } else {
        assert(i >= 1);
        let tail = ks.drop_first();
        assert forall|j: int| 0 <= j < tail.len() implies set_wf_at(tail, j) by {
            assert(tail[j] == ks[j + 1]);
        }
        assert(set_wf(tail)) by {
            assert forall|p: int, q: int|
                #![trigger tail[p], tail[q]]
                0 <= p < q < tail.len() implies tail[p].end <= tail[q].start by {
                assert(tail[p] == ks[p + 1]);
                assert(tail[q] == ks[q + 1]);
            }
            assert forall|p: int|
                0 <= p < tail.len() implies (#[trigger] tail[p]).start < tail[p].end && tail[p].end
                <= CHAR_BOUND by {
                assert(tail[p] == ks[p + 1]);
            }
        }
        assert forall|j: int| 0 <= j < i - 1 implies (#[trigger] tail[j]).start <= b by {
            assert(tail[j] == ks[j + 1]);
        }
        assert forall|j: int| i - 1 <= j < tail.len() implies (#[trigger] tail[j]).start > b by {
            assert(tail[j] == ks[j + 1]);
        }
        lemma_above_idx(tail, b, i - 1);
        if i < ks.len() {
            assert(tail[i - 1] == ks[i]);
        }
    }
}

/// Helper trigger shape for per-index well-formedness.
pub open spec fn set_wf_at(ks: Seq<CharRange>, i: int) -> bool {
    ks[i].start < ks[i].end && ks[i].end <= CHAR_BOUND
}

/// For an uncovered point the surrounding gap is well-formed, contains the
/// point, and is the same for every point it contains; no point of the gap is
/// covered.
pub proof fn lemma_gap_props(ks: Seq<CharRange>, c: u32)
    requires
        set_wf(ks),
        c < CHAR_BOUND,
        spec_found(ks, c) is None,
    ensures
        spec_gap(ks, c).wf(),
        spec_gap(ks, c).spec_contains(c),
        forall|c2: u32|
            #![trigger spec_found(ks, c2)]
            spec_gap(ks, c).spec_contains(c2) ==> spec_found(ks, c2) is None,
        forall|c2: u32|
            #![trigger spec_gap(ks, c2)]
            spec_gap(ks, c).spec_contains(c2) ==> spec_gap(ks, c2) == spec_gap(ks, c),
{
    lemma_found_entry(ks, c);
    let i = lemma_split_idx(ks, c);
    if i > 0 {
        assert(!ks[i - 1].spec_contains(c));
    }
    lemma_below_idx(ks, c, i);
    let b = spec_below(ks, c);
    assert(b <= c);
    assert forall|j: int| 0 <= j < i implies (#[trigger] ks[j]).start <= b by {
        if j < i - 1 {
            assert(ks[j].end <= ks[i - 1].start);
        }
    }
    assert forall|j: int| i <= j < ks.len() implies (#[trigger] ks[j]).start > b by {
        assert(ks[j].start > c);
    }
    lemma_above_idx(ks, b, i);
    let a = spec_above(ks, b);
    assert(a > c);
    assert(a <= CHAR_BOUND);
    assert forall|c2: u32|
        #![trigger spec_found(ks, c2)]
        #![trigger spec_gap(ks, c2)]
        spec_gap(ks, c).spec_contains(c2) implies spec_found(ks, c2) is None && spec_gap(ks, c2)
        == spec_gap(ks, c) by {
        assert(b <= c2 < a);
        assert forall|j: int| 0 <= j < i implies (#[trigger] ks[j]).start <= c2 by {
            assert(ks[j].start <= b);
        }
        assert forall|j: int| i <= j < ks.len() implies (#[trigger] ks[j]).start > c2 by {
            assert(ks[j].start >= a) by {
                if i < ks.len() {
                    assert(ks[i].end <= ks[j].start || j == i);
                }
            }
        }
        assert forall|j: int| 0 <= j < ks.len() implies !(#[trigger] ks[j]).spec_contains(c2) by {
            if j < i {
                assert(ks[j].end <= b) by {
                    if j < i - 1 {
                        assert(ks[j].end <= ks[i - 1].start);
                    }
                }
            }
        }
        lemma_found_entry(ks, c2);
        if spec_found(ks, c2) is Some {
            let k = spec_found(ks, c2)->Some_0;
            let w = choose|w: int| 0 <= w < ks.len() && ks[w] == k;
            assert(ks[w].spec_contains(c2));
            assert(false);
        }
        assert(spec_found(ks, c2) is None);
        lemma_below_idx(ks, c2, i);
        assert(spec_below(ks, c2) == b);
        assert(spec_gap(ks, c2) == spec_gap(ks, c));
    }
}

/// Re-inserting both remainders of every boundary interval around a newly
/// dominant key preserves well-formedness and updates the map pointwise.
proof fn lemma_insert_shape<V>(
    old_es: Seq<(CharRange, V)>,
    out: Seq<(CharRange, V)>,
    key: CharRange,
    value: V,
    lo: int,
    hi: int,
)
    requires
        map_wf(old_es),
        key.start < key.end,
        key.end <= CHAR_BOUND,
        0 <= lo <= hi <= old_es.len(),
        forall|i: int| 0 <= i < lo ==> (#[trigger] old_es[i]).0.end <= key.start,
        forall|i: int|
            lo <= i < hi ==> (#[trigger] old_es[i]).0.start < key.end && old_es[i].0.end
                > key.start,
        forall|i: int| hi <= i < old_es.len() ==> (#[trigger] old_es[i]).0.start >= key.end,
        out == old_es.subrange(0, lo) + insert_left_part(old_es, key, lo, hi) + seq![(key, value)]
            + insert_right_part(old_es, key, lo, hi) + old_es.subrange(hi, old_es.len() as int),
    ensures
        map_wf(out),
        forall|c: u32| key.spec_contains(c) ==> map_get(out, c) == Some(value),
        forall|c: u32| !key.spec_contains(c) ==> map_get(out, c) == map_get(old_es, c),
{
    let n = old_es.len() as int;
    let left = insert_left_part(old_es, key, lo, hi);
    let right = insert_right_part(old_es, key, lo, hi);
    let bl = left.len() as int;
    let br = right.len() as int;
    let ki = lo + bl;
    assert(out.len() == n - (hi - lo) + bl + 1 + br);
    assert forall|i: int| 0 <= i < lo implies out[i] == old_es[i] by {}
    assert(out[ki] == (key, value));
    assert forall|i: int| ki + 1 + br <= i < out.len() implies out[i] == old_es[i - (ki + 1 + br)
        + hi] by {}
    // well-formedness
    assert forall|i: int|
        0 <= i < out.len() implies (#[trigger] out[i]).0.start < out[i].0.end && out[i].0.end
        <= CHAR_BOUND by {
        if i < lo {
        } else if i < ki {
            assert(out[i] == left[0]);
        } else if i == ki {
        } else if i < ki + 1 + br {
            assert(out[i] == right[0]);
        } else {
        }
    }
    assert forall|i: int, j: int|
        #![trigger out[i], out[j]]
        0 <= i < j < out.len() implies out[i].0.end <= out[j].0.start by {
        let lo_end_bound = key.start;
        if i < lo {
            assert(out[i] == old_es[i]);
            assert(old_es[i].0.end <= key.start);
            if j < lo {
            } else if j < ki {
                assert(out[j] == left[0]);
                assert(old_es[i].0.end <= old_es[lo].0.start);
            } else if j == ki {
            } else if j < ki + 1 + br {
                assert(out[j] == right[0]);
            } else {
                assert(out[j] == old_es[j - (ki + 1 + br) + hi]);
                assert(old_es[j - (ki + 1 + br) + hi].0.start >= key.end);
            }
        } else if i < ki {
            assert(out[i] == left[0]);
            if j == ki {
            } else if j < ki + 1 + br {
                assert(out[j] == right[0]);
            } else {
                assert(out[j] == old_es[j - (ki + 1 + br) + hi]);
                assert(old_es[j - (ki + 1 + br) + hi].0.start >= key.end);
            }
        } else if i == ki {
            if j < ki + 1 + br {
                assert(out[j] == right[0]);
            } else {
                assert(out[j] == old_es[j - (ki + 1 + br) + hi]);
                assert(old_es[j - (ki + 1 + br) + hi].0.start >= key.end);
            }
        } else if i < ki + 1 + br {
            assert(out[i] == right[0]);
            assert(out[j] == old_es[j - (ki + 1 + br) + hi]);
            assert(old_es[hi - 1].0.end <= old_es[j - (ki + 1 + br) + hi].0.start);
        } else {
            assert(out[i] == old_es[i - (ki + 1 + br) + hi]);
            assert(out[j] == old_es[j - (ki + 1 + br) + hi]);
        }
    }
    // pointwise: inside the key
    assert forall|c: u32| key.spec_contains(c) implies map_get(out, c) == Some(value) by {
        lemma_map_get_at(out, ki, c);
    }
    // pointwise: outside the key
    assert forall|c: u32| !key.spec_contains(c) implies map_get(out, c) == map_get(old_es, c) by {
        lemma_map_get_entry(old_es, c);
        match map_get(old_es, c) {
            Some(v) => {
                let i = choose|i: int|
                    0 <= i < old_es.len() && (#[trigger] old_es[i]).0.spec_contains(c)
                        && old_es[i].1 == v;
                if i < lo {
                    lemma_map_get_at(out, i, c);
                } else if i < hi {
                    if c < key.start {
                        assert(i == lo) by {
                            if i > lo {
                                assert(old_es[lo].0.end <= old_es[i].0.start);
                            }
                        }
                        assert(bl == 1);
                        assert(out[lo] == left[0]);
                        assert(out[lo].0.spec_contains(c));
                        lemma_map_get_at(out, lo, c);
                    } else {
                        assert(c >= key.end);
                        assert(i == hi - 1) by {
                            if i < hi - 1 {
                                assert(old_es[i].0.end <= old_es[hi - 1].0.start);
                                assert(old_es[hi - 1].0.start < key.end);
                            }
                        }
                        assert(br == 1);
                        assert(out[ki + 1] == right[0]);
                        assert(out[ki + 1].0.spec_contains(c));
                        lemma_map_get_at(out, ki + 1, c);
                    }
                } else {
                    lemma_map_get_at(out, i - hi + ki + 1 + br, c);
                }
            },
            None => {
                lemma_map_get_entry(out, c);
                if map_get(out, c) is Some {
                    let j = choose|j: int|
                        0 <= j < out.len() && (#[trigger] out[j]).0.spec_contains(c);
                    if j < lo {
                        assert(old_es[j].0.spec_contains(c));
                    } else if j < ki {
                        assert(out[j] == left[0]);
                        assert(old_es[lo].0.spec_contains(c));
                    } else if j == ki {
                    } else if j < ki + 1 + br {
                        assert(out[j] == right[0]);
                        assert(old_es[hi - 1].0.spec_contains(c));
                    } else {
                        assert(old_es[j - (ki + 1 + br) + hi].0.spec_contains(c));
                    }
                    assert(false);
                }
            },
        }
    }
}

/// The trimmed left remainder of the interval straddling the key's start.
pub open spec fn insert_left_part<V>(
    old_es: Seq<(CharRange, V)>,
    key: CharRange,
    lo: int,
    hi: int,
) -> Seq<(CharRange, V)> {
    if lo < hi && old_es[lo].0.start < key.start {
        seq![(CharRange { start: old_es[lo].0.start, end: key.start }, old_es[lo].1)]
    } else {
        Seq::empty()
    }
}

/// The trimmed right remainder of the interval straddling the key's end.
pub open spec fn insert_right_part<V>(
    old_es: Seq<(CharRange, V)>,
    key: CharRange,
    lo: int,
    hi: int,
) -> Seq<(CharRange, V)> {
    if lo < hi && old_es[hi - 1].0.end > key.end {
        seq![(CharRange { start: key.end, end: old_es[hi - 1].0.end }, old_es[hi - 1].1)]
    } else {
        Seq::empty()
    }
}

impl<V> View for Charmap<V> {
    type V = Seq<(CharRange, V)>;

    closed spec fn view(&self) -> Seq<(CharRange, V)> {
        self.entries@
    }
}

impl<V> Charmap<V> {
    pub open spec fn wf(&self) -> bool {
        map_wf(self@)
    }

    pub fn new() -> (r: Charmap<V>)
        ensures
            r@ =~= Seq::<(CharRange, V)>::empty(),
            r.wf(),
    {
        Charmap { entries: Vec::new() }
    }

    /// The largest stored interval, if any.
    pub fn last_key(&self) -> (r: Option<CharRange>)
        ensures
            match r {
                Some(k) => self@.len() > 0 && k == self@.last().0,
                None => self@.len() == 0,
            },
    {
        let n = self.entries.len();
        if n == 0 {
            None
        } else {
            Some(self.entries[n - 1].0)
        }
    }

    /// True when `key` touches a stored interval, or the point `key.start`
    /// itself is covered.
    pub fn intersects(&self, key: &CharRange) -> (r: bool)
        ensures
            r == exists|i: int|
                0 <= i < self@.len() && ((#[trigger] self@[i]).0.spec_intersects(*key)
                    || self@[i].0.spec_contains(key.start)),
    {
        let n = self.entries.len();
        let mut i: usize = 0;
        while i < n
            invariant
                0 <= i <= n,
                n == self@.len(),
                forall|j: int|
                    0 <= j < i ==> !((#[trigger] self@[j]).0.spec_intersects(*key)
                        || self@[j].0.spec_contains(key.start)),
            decreases n - i,
        {
            let e = &self.entries[i];
            if e.0.intersects(key) || e.0.contains_u32(key.start) {
                return true;
            }
            i += 1;
        }
        false
    }

    /// The entry whose interval contains `ch`, if any.
    pub fn get_entry(&self, ch: &char) -> (r: Option<(CharRange, &V)>)
        requires
            self.wf(),
        ensures
            match r {
                Some((k, v)) => spec_found(map_keys(self@), *ch as u32) == Some(k) && map_get(
                    self@,
                    *ch as u32,
                ) == Some(*v),
                None => spec_found(map_keys(self@), *ch as u32) is None && map_get(
                    self@,
                    *ch as u32,
                ) is None,
            },
    {
        let c = *ch as u32;
        let n = self.entries.len();
        let mut i: usize = 0;
        while i < n
            invariant
                0 <= i <= n,
                n == self@.len(),
                self.wf(),
                c == *ch as u32,
                forall|j: int| 0 <= j < i ==> !(#[trigger] self@[j]).0.spec_contains(c),
            decreases n - i,
        {
            let e = &self.entries[i];
            if e.0.contains_u32(c) {
                proof {
                    lemma_map_get_at(self@, i as int, c);
                    lemma_found_get(self@, c);
                    lemma_found_entry(map_keys(self@), c);
                    assert(map_keys(self@)[i as int] == self@[i as int].0);
                }
                return Some((e.0, &e.1));
            }
            i += 1;
        }
        proof {
            lemma_map_get_entry(self@, c);
            if map_get(self@, c) is Some {
                let w = choose|j: int|
                    0 <= j < self@.len() && (#[trigger] self@[j]).0.spec_contains(c);
                assert(false);
            }
            lemma_found_get(self@, c);
        }
        None
    }

    /// The value stored at `ch`, if any.
    pub fn get(&self, ch: &char) -> (r: Option<&V>)
        requires
            self.wf(),
        ensures
            match r {
                Some(v) => map_get(self@, *ch as u32) == Some(*v),
                None => map_get(self@, *ch as u32) is None,
            },
    {
        match self.get_entry(ch) {
            Some((_, v)) => Some(v),
            None => None,
        }
    }

    pub fn contains_key(&self, ch: &char) -> (r: bool)
        requires
            self.wf(),
        ensures
            r == (map_get(self@, *ch as u32) is Some),
    {
        match self.get_entry(ch) {
            Some(_) => true,
            None => false,
        }
    }

    /// All entries, in ascending interval order.
    pub fn range_values(&self) -> (r: &Vec<(CharRange, V)>)
        ensures
            r@ == self@,
    {
        &self.entries
    }

    /// Classifies `ch` as inside a stored interval (returning it and its
    /// value) or inside the maximal uncovered gap around it.
    pub fn get_in_or_out(&self, ch: &char) -> (r: InOrOut<(CharRange, &V), CharRange>)
        requires
            self.wf(),
        ensures
            match r {
                InOrOut::In((k, v)) => spec_found(map_keys(self@), *ch as u32) == Some(k)
                    && map_get(self@, *ch as u32) == Some(*v),
                InOrOut::Out(g) => map_get(self@, *ch as u32) is None && g == spec_gap(
                    map_keys(self@),
                    *ch as u32,
                ),
            },
    {
        let c = *ch as u32;
        let ghost ks = map_keys(self@);
        proof {
            assert(ks.len() == self@.len());
            assert forall|j: int| 0 <= j < self@.len() implies ks[j] == (#[trigger] self@[j]).0
            by {}
        }
        let n = self.entries.len();
        let mut i: usize = 0;
        while i < n && self.entries[i].0.start <= c
            invariant
                0 <= i <= n,
                n == self@.len(),
                self.wf(),
                forall|j: int| 0 <= j < i ==> (#[trigger] self@[j]).0.start <= c,
            decreases n - i,
        {
            i += 1;
        }
        proof {
            assert forall|j: int| i <= j < n implies (#[trigger] self@[j]).0.start > c by {
                if i < n && j > i {
                    assert(self@[i as int].0.end <= self@[j].0.start);
                }
            }
            assert(set_wf(ks)) by {
                assert forall|p: int|
                    0 <= p < ks.len() implies (#[trigger] ks[p]).start < ks[p].end && ks[p].end
                    <= CHAR_BOUND by {
                    assert(ks[p] == self@[p].0);
                }
                assert forall|p: int, q: int|
                    #![trigger ks[p], ks[q]]
                    0 <= p < q < ks.len() implies ks[p].end <= ks[q].start by {
                    assert(ks[p] == self@[p].0 && ks[q] == self@[q].0);
                }
            }
        }
        if i > 0 && self.entries[i - 1].0.contains_u32(c) {
            let e = &self.entries[i - 1];
            proof {
                lemma_found_at(ks, i - 1, c);
                lemma_map_get_at(self@, i - 1, c);
            }
            return InOrOut::In((e.0, &e.1));
        }
        let below = if i > 0 {
            self.entries[i - 1].0.end
        } else {
            0
        };
        let above = if i < n {
            self.entries[i].0.start
        } else {
            CHAR_BOUND
        };
        proof {
            assert forall|j: int| 0 <= j < n implies !(#[trigger] self@[j]).0.spec_contains(c) by {
                if j < i - 1 {
                    assert(self@[j].0.end <= self@[i - 1].0.start);
                }
            }
            lemma_map_get_entry(self@, c);
            if map_get(self@, c) is Some {
                let w = choose|w: int|
                    0 <= w < self@.len() && (#[trigger] self@[w]).0.spec_contains(c);
                assert(false);
            }
            lemma_below_idx(ks, c, i as int);
            assert(below == spec_below(ks, c));
            assert forall|j: int| 0 <= j < i implies (#[trigger] ks[j]).start <= below by {
                if j < i - 1 {
                    assert(ks[j].end <= ks[i - 1].start);
                }
            }
            assert(below <= c);
            assert forall|j: int| i <= j < ks.len() implies (#[trigger] ks[j]).start > below by {
                assert(ks[j].start > c);
            }
            lemma_above_idx(ks, below, i as int);
            assert(above == spec_above(ks, below));
        }
        InOrOut::Out(CharRange { start: below, end: above })
    }
}

impl<V: Copy> Charmap<V> {
    /// Maps every code point of `key` to `value`; anything `key` overlapped
    /// is truncated to its remainder outside `key` or removed, never merged.
    pub fn insert(&mut self, key: CharRange, value: V)
        requires
            old(self).wf(),
            key.start < key.end,
            key.end <= CHAR_BOUND,
        ensures
            final(self).wf(),
            forall|c: u32| key.spec_contains(c) ==> map_get(final(self)@, c) == Some(value),
            forall|c: u32| !key.spec_contains(c) ==> map_get(final(self)@, c) == map_get(old(self)@, c),
    {
        let n = self.entries.len();
        let ghost oes = self@;
        // the entries wholly below the key
        let mut lo: usize = 0;
        while lo < n && self.entries[lo].0.end <= key.start
            invariant
                0 <= lo <= n,
                n == self@.len(),
                self.wf(),
                self@ == oes,
                forall|j: int| 0 <= j < lo ==> (#[trigger] self@[j]).0.end <= key.start,
            decreases n - lo,
        {
            lo += 1;
        }
        // the entries reaching into or past the key
        let mut hi: usize = lo;
        while hi < n && self.entries[hi].0.start < key.end
            invariant
                lo <= hi <= n,
                n == self@.len(),
                self.wf(),
                self@ == oes,
                forall|j: int| lo <= j < hi ==> (#[trigger] self@[j]).0.start < key.end,
            decreases n - hi,
        {
            hi += 1;
        }
        proof {
            assert forall|j: int| lo <= j < hi implies (#[trigger] self@[j]).0.end > key.start by {
                if j > lo {
                    assert(self@[lo as int].0.end <= self@[j].0.start);
                }
            }
            assert forall|j: int| hi <= j < n implies (#[trigger] self@[j]).0.start >= key.end by {
                if hi < n && j > hi {
                    assert(self@[hi as int].0.end <= self@[j].0.start);
                }
            }
        }
        let mut out: Vec<(CharRange, V)> = Vec::new();
        let mut i: usize = 0;
        while i < lo
            invariant
                0 <= i <= lo <= n,
                n == self@.len(),
                self@ == oes,
                out@ =~= self@.subrange(0, i as int),
            decreases lo - i,
        {
            let e = self.entries[i];
            out.push(e);
            i += 1;
        }
        let ghost left = insert_left_part(oes, key, lo as int, hi as int);
        let ghost right = insert_right_part(oes, key, lo as int, hi as int);
        if lo < hi && self.entries[lo].0.start < key.start {
            out.push((CharRange { start: self.entries[lo].0.start, end: key.start }, self.entries[lo].1));
        }
        proof {
            assert(out@ =~= oes.subrange(0, lo as int) + left);
        }
        out.push((key, value));
        if lo < hi && self.entries[hi - 1].0.end > key.end {
            out.push((CharRange { start: key.end, end: self.entries[hi - 1].0.end }, self.entries[hi - 1].1));
        }
        proof {
            assert(out@ =~= oes.subrange(0, lo as int) + left + seq![(key, value)] + right);
        }
        let mut j: usize = hi;
        while j < n
            invariant
                hi <= j <= n,
                n == self@.len(),
                self@ == oes,
                out@ =~= oes.subrange(0, lo as int) + left + seq![(key, value)] + right
                    + oes.subrange(hi as int, j as int),
            decreases n - j,
        {
            let e = self.entries[j];
            out.push(e);
            j += 1;
            proof {
                assert(out@ =~= oes.subrange(0, lo as int) + left + seq![(key, value)] + right
                    + oes.subrange(hi as int, j as int));
            }
        }
        proof {
            assert(oes.subrange(hi as int, n as int) == oes.subrange(hi as int, j as int));
            lemma_insert_shape(oes, out@, key, value, lo as int, hi as int);
        }
        self.entries = out;
    }

    /// Inserts only when `key` overlaps nothing already stored.
    pub fn try_insert(&mut self, key: CharRange, value: V) -> (r: bool)
        requires
            old(self).wf(),
            key.start < key.end,
            key.end <= CHAR_BOUND,
        ensures
            final(self).wf(),
            r == !(exists|i: int|
                0 <= i < old(self)@.len() && ((#[trigger] old(self)@[i]).0.spec_intersects(key)
                    || old(self)@[i].0.spec_contains(key.start))),
            r ==> exists|k: int|
                0 <= k <= old(self)@.len() && final(self)@ == old(self)@.insert(k, (key, value)),
            !r ==> final(self)@ == old(self)@,
    {
        if self.intersects(&key) {
            false
        } else {
            let n = self.entries.len();
            let ghost oes = self@;
            proof {
                assert forall|j: int|
                    0 <= j < n implies (#[trigger] self@[j]).0.end <= key.start || self@[j].0.start
                    >= key.end by {
                    assert(!self@[j].0.spec_intersects(key));
                    assert(!self@[j].0.spec_contains(key.start));
                }
            }
            let mut idx: usize = 0;
            while idx < n && self.entries[idx].0.start < key.start
                invariant
                    0 <= idx <= n,
                    n == self@.len(),
                    self.wf(),
                    self@ == oes,
                    forall|j: int| 0 <= j < idx ==> (#[trigger] self@[j]).0.start < key.start,
                decreases n - idx,
            {
                idx += 1;
            }
            proof {
                assert forall|j: int|
                    idx <= j < n implies (#[trigger] self@[j]).0.start >= key.start by {
                    if idx < n && j > idx {
                        assert(self@[idx as int].0.end <= self@[j].0.start);
                        assert(self@[idx as int].0.start < self@[idx as int].0.end);
                    }
                }
            }
            self.entries.insert(idx, (key, value));
            proof {
                let newes = oes.insert(idx as int, (key, value));
                assert(self@ == newes);
                assert(map_wf(self@)) by {
                    assert forall|p: int|
                        0 <= p < self@.len() implies (#[trigger] self@[p]).0.start < self@[p].0.end
                        && self@[p].0.end <= CHAR_BOUND by {
                        if p < idx {
                            assert(self@[p] == oes[p]);
                        } else if p > idx {
                            assert(self@[p] == oes[p - 1]);
                        }
                    }
                    assert forall|p: int, q: int|
                        #![trigger self@[p], self@[q]]
                        0 <= p < q < self@.len() implies self@[p].0.end <= self@[q].0.start by {
                        if p < idx {
                            assert(self@[p] == oes[p]);
                            assert(oes[p].0.start < key.start);
                            assert(oes[p].0.end <= key.start);
                        }
                        if q > idx {
                            assert(self@[q] == oes[q - 1]);
                        }
                        if p > idx && q > idx {
                            assert(self@[p] == oes[p - 1]);
                        }
                        if q == idx && p < idx {
                            assert(self@[p] == oes[p]);
                        }
                        if p == idx && q > idx {
                            assert(self@[q] == oes[q - 1]);
                            assert(oes[q - 1].0.start >= key.start);
                            assert(oes[q - 1].0.start >= key.end || oes[q - 1].0.end
                                <= key.start);
                        }
                    }
                }
            }
            true
        }
    }

    /// Zips two interval maps into one by a sorted two-pointer sweep: where
    /// only one side holds a value it is kept; where both do, the caller's
    /// combiner decides, once per maximal overlap interval. `right` is left
    /// empty.
    #[verifier::loop_isolation(false)]
    #[verifier::rlimit(30)]
    pub fn merge<F: Fn(&CharRange, &V, &V) -> V>(&mut self, right: &mut Charmap<V>, combine: F)
        requires
            old(self).wf(),
            old(right).wf(),
            forall|r: CharRange, a: V, b: V| #[trigger] call_requires(combine, (&r, &a, &b)),
        ensures
            final(self).wf(),
            final(right)@.len() == 0,
            forall|c: u32|
                #![trigger map_get(final(self)@, c)]
                merged_at(old(self)@, old(right)@, final(self)@, combine, c),
    {
        let mut lefts: Vec<(CharRange, V)> = Vec::new();
        core::mem::swap(&mut self.entries, &mut lefts);
        let mut rights: Vec<(CharRange, V)> = Vec::new();
        core::mem::swap(&mut right.entries, &mut rights);
        let ghost lv = lefts@;
        let ghost rv = rights@;
        let ln = lefts.len();
        let rn = rights.len();
        let mut out: Vec<(CharRange, V)> = Vec::new();
        let mut li: usize = 0;
        let mut ri: usize = 0;
        let mut ltrim: u32 = 0;
        let mut rtrim: u32 = 0;
        let ghost mut cursor: u32 = 0;
        while li < ln && ri < rn
            invariant
                0 <= li <= ln,
                0 <= ri <= rn,
                ln == lv.len(),
                rn == rv.len(),
                lefts@ == lv,
                rights@ == rv,
                map_wf(lv),
                map_wf(rv),
                map_wf(out@),
                forall|r: CharRange, a: V, b: V| #[trigger] call_requires(combine, (&r, &a, &b)),
                forall|j: int| 0 <= j < out@.len() ==> (#[trigger] out@[j]).0.end <= cursor,
                li < ln ==> ltrim < lv[li as int].0.end,
                ri < rn ==> rtrim < rv[ri as int].0.end,
                ltrim <= cursor,
                rtrim <= cursor,
                li < ln ==> cursor <= max_u32(lv[li as int].0.start, ltrim),
                ri < rn ==> cursor <= max_u32(rv[ri as int].0.start, rtrim),
                forall|j: int| 0 <= j < li ==> (#[trigger] lv[j]).0.end <= cursor,
                forall|j: int| 0 <= j < ri ==> (#[trigger] rv[j]).0.end <= cursor,
                forall|c: u32| c < cursor ==> #[trigger] merged_at(lv, rv, out@, combine, c),
            decreases (ln + rn - li - ri), (0x220000 - ltrim - rtrim),
        {
            let (lr, la) = lefts[li];
            let (rr, ra) = rights[ri];
            let ls = if lr.start >= ltrim {
                lr.start
            } else {
                ltrim
            };
            let le = lr.end;
            let rs = if rr.start >= rtrim {
                rr.start
            } else {
                rtrim
            };
            let re = rr.end;
            let ghost old_out = out@;
            let ghost old_cursor = cursor;
            proof {
                assert(ls < le);
                assert(rs < re);
            }
            if le <= rs {
                out.push((CharRange { start: ls, end: le }, la));
                li += 1;
                proof {
                    cursor = le;
                    lemma_merge_piece_keep(lv, rv, lv, rv, old_out, out@, combine, old_cursor, ls, le, la, li as int - 1, ri as int, true);
                }
            } else if re <= ls {
                out.push((CharRange { start: rs, end: re }, ra));
                ri += 1;
                proof {
                    cursor = re;
                    lemma_merge_piece_keep(rv, lv, lv, rv, old_out, out@, combine, old_cursor, rs, re, ra, ri as int - 1, li as int, false);
                }
            } else if ls < rs {
                out.push((CharRange { start: ls, end: rs }, la));
                ltrim = rs;
                proof {
                    cursor = rs;
                    lemma_merge_piece_keep(lv, rv, lv, rv, old_out, out@, combine, old_cursor, ls, rs, la, li as int, ri as int, true);
                }
            } else if rs < ls {
                out.push((CharRange { start: rs, end: ls }, ra));
                rtrim = ls;
                proof {
                    cursor = ls;
                    lemma_merge_piece_keep(rv, lv, lv, rv, old_out, out@, combine, old_cursor, rs, ls, ra, ri as int, li as int, false);
                }
            } else {
                let oe = if le <= re {
                    le
                } else {
                    re
                };
                let piece = CharRange { start: ls, end: oe };
                let b = combine(&piece, &la, &ra);
                let ghost old_ltrim = ltrim;
                let ghost old_rtrim = rtrim;
                out.push((piece, b));
                ltrim = oe;
                rtrim = oe;
                let ghost oli = li as int;
                let ghost ori = ri as int;
                if le == oe {
                    li += 1;
                }
                if re == oe {
                    ri += 1;
                }
                proof {
                    cursor = oe;
                    assert(ls == max_u32(lv[oli].0.start, old_ltrim));
                    assert(ls == max_u32(rv[ori].0.start, old_rtrim));
                    lemma_merge_piece_combined(
                        lv,
                        rv,
                        old_out,
                        out@,
                        combine,
                        old_cursor,
                        old_ltrim,
                        old_rtrim,
                        ls,
                        oe,
                        la,
                        ra,
                        b,
                        oli,
                        ori,
                    );
                }
            }
        }
        while li < ln
            invariant
                0 <= li <= ln,
                0 <= ri <= rn,
                li < ln ==> ri == rn,
                ln == lv.len(),
                rn == rv.len(),
                lefts@ == lv,
                map_wf(lv),
                map_wf(rv),
                map_wf(out@),
                forall|j: int| 0 <= j < out@.len() ==> (#[trigger] out@[j]).0.end <= cursor,
                li < ln ==> ltrim < lv[li as int].0.end,
                ltrim <= cursor,
                rtrim <= cursor,
                li < ln ==> cursor <= max_u32(lv[li as int].0.start, ltrim),
                ri < rn ==> rtrim < rv[ri as int].0.end,
                ri < rn ==> cursor <= max_u32(rv[ri as int].0.start, rtrim),
                forall|j: int| 0 <= j < li ==> (#[trigger] lv[j]).0.end <= cursor,
                forall|j: int| 0 <= j < ri ==> (#[trigger] rv[j]).0.end <= cursor,
                li < ln ==> forall|j: int| 0 <= j < rn ==> (#[trigger] rv[j]).0.end <= cursor,
                forall|c: u32| c < cursor ==> #[trigger] merged_at(lv, rv, out@, combine, c),
            decreases ln - li,
        {
            let (lr, la) = lefts[li];
            let ls = if lr.start >= ltrim {
                lr.start
            } else {
                ltrim
            };
            let ghost old_out = out@;
            let ghost old_cursor = cursor;
            out.push((CharRange { start: ls, end: lr.end }, la));
            li += 1;
            proof {
                cursor = lr.end;
                lemma_merge_piece_keep(lv, rv, lv, rv, old_out, out@, combine, old_cursor, ls, lr.end, la, li as int - 1, rn as int, true);
            }
        }
        while ri < rn
            invariant
                0 <= ri <= rn,
                ln == lv.len(),
                rn == rv.len(),
                rights@ == rv,
                map_wf(lv),
                map_wf(rv),
                map_wf(out@),
                forall|j: int| 0 <= j < out@.len() ==> (#[trigger] out@[j]).0.end <= cursor,
                ri < rn ==> rtrim < rv[ri as int].0.end,
                rtrim <= cursor,
                ri < rn ==> cursor <= max_u32(rv[ri as int].0.start, rtrim),
                forall|j: int| 0 <= j < ln ==> (#[trigger] lv[j]).0.end <= cursor,
                forall|j: int| 0 <= j < ri ==> (#[trigger] rv[j]).0.end <= cursor,
                forall|c: u32| c < cursor ==> #[trigger] merged_at(lv, rv, out@, combine, c),
            decreases rn - ri,
        {
            let (rr, ra) = rights[ri];
            let rs = if rr.start >= rtrim {
                rr.start
            } else {
                rtrim
            };
            let ghost old_out = out@;
            let ghost old_cursor = cursor;
            out.push((CharRange { start: rs, end: rr.end }, ra));
            ri += 1;
            proof {
                cursor = rr.end;
                lemma_merge_piece_keep(rv, lv, lv, rv, old_out, out@, combine, old_cursor, rs, rr.end, ra, ri as int - 1, ln as int, false);
            }
        }
        self.entries = out;
        proof {
            assert forall|c: u32| #[trigger] merged_at(lv, rv, self@, combine, c) by {
                if c < cursor {
                } else {
                    lemma_map_get_none_above(lv, c, cursor);
                    lemma_map_get_none_above(rv, c, cursor);
                    lemma_map_get_none_above(self@, c, cursor);
                }
            }
        }
    }

    /// Splits off the part of the map at or above `at`; an interval that
    /// straddles `at` from below is removed and handed back separately.
    pub fn split_off(&mut self, at: &char) -> (r: (Option<(CharRange, V)>, Charmap<V>))
        requires
            old(self).wf(),
        ensures
            final(self).wf(),
            r.1.wf(),
            old(self)@ == final(self)@ + (match r.0 {
                Some(e) => seq![e],
                None => Seq::<(CharRange, V)>::empty(),
            }) + r.1@,
            forall|i: int| 0 <= i < final(self)@.len() ==> (#[trigger] final(self)@[i]).0.end <= *at as u32,
            forall|i: int| 0 <= i < r.1@.len() ==> (#[trigger] r.1@[i]).0.start >= *at as u32,
            match r.0 {
                Some(e) => e.0.spec_contains(*at as u32) && e.0.start < *at as u32,
                None => true,
            },
    {
        let c = *at as u32;
        let n = self.entries.len();
        let ghost oes = self@;
        let mut cut: usize = 0;
        while cut < n && self.entries[cut].0.start < c
            invariant
                0 <= cut <= n,
                n == self@.len(),
                self.wf(),
                self@ == oes,
                forall|j: int| 0 <= j < cut ==> (#[trigger] self@[j]).0.start < c,
            decreases n - cut,
        {
            cut += 1;
        }
        proof {
            assert forall|j: int| cut <= j < n implies (#[trigger] self@[j]).0.start >= c by {
                if cut < n && j > cut {
                    assert(self@[cut as int].0.end <= self@[j].0.start);
                }
            }
        }
        let tail = self.entries.split_off(cut);
        let right = Charmap { entries: tail };
        proof {
            assert(self@ =~= oes.subrange(0, cut as int));
            assert(right@ =~= oes.subrange(cut as int, n as int));
        }
        let m = self.entries.len();
        let popped = if m > 0 && self.entries[m - 1].0.contains_u32(c) {
            self.entries.pop()
        } else {
            None
        };
        proof {
            let kept = self@.len() as int;
            assert forall|i: int| 0 <= i < kept implies (#[trigger] self@[i]).0.end <= c by {
                assert(self@[i] == oes[i]);
                assert(oes[i].0.start < c);
                if oes[i].0.end > c {
                    match popped {
                        Some(e) => {
                            assert(kept == m - 1);
                            assert(oes[m - 1].0.spec_contains(c));
                            assert(oes[i].0.end <= oes[m - 1].0.start);
                            assert(false);
                        },
                        None => {
                            if i < kept - 1 {
                                assert(oes[i].0.end <= oes[kept - 1].0.start);
                                assert(oes[kept - 1].0.start < c);
                            }
                            assert(false);
                        },
                    }
                }
            }
            assert(oes =~= self@ + (match popped {
                Some(e) => seq![e],
                None => Seq::<(CharRange, V)>::empty(),
            }) + right@);
        }
        (popped, right)
    }
}

/// A code point is mapped exactly when some stored interval contains it.
pub proof fn lemma_cover<V>(es: Seq<(CharRange, V)>, c: u32)
    ensures
        (map_get(es, c) is Some) == covered(map_keys(es), c),
{
    lemma_map_get_entry(es, c);
    match map_get(es, c) {
        Some(v) => {
            let i = choose|i: int|
                0 <= i < es.len() && (#[trigger] es[i]).0.spec_contains(c) && es[i].1 == v;
            assert(map_keys(es)[i] == es[i].0);
        },
        None => {
            if covered(map_keys(es), c) {
                let i = choose|i: int|
                    0 <= i < map_keys(es).len() && (#[trigger] map_keys(es)[i]).spec_contains(c);
                assert(es[i].0.spec_contains(c));
                assert(false);
            }
        },
    }
}

/// True when some interval of `ks` contains `c`.
pub open spec fn covered(ks: Seq<CharRange>, c: u32) -> bool {
    exists|i: int| 0 <= i < ks.len() && (#[trigger] ks[i]).spec_contains(c)
}

/// The total width of a sorted interval sequence.
pub open spec fn spec_len(ks: Seq<CharRange>) -> int
    decreases ks.len(),
{
    if ks.len() == 0 {
        0
    } else {
        spec_len(ks.drop_last()) + (ks.last().end - ks.last().start)
    }
}

/// Disjoint sorted intervals cannot cover more than the span they sit in.
pub proof fn lemma_len_bound(ks: Seq<CharRange>)
    requires
        set_wf(ks),
    ensures
        0 <= spec_len(ks),
        ks.len() > 0 ==> spec_len(ks) <= ks.last().end - ks.first().start,
        spec_len(ks) <= CHAR_BOUND,
    decreases ks.len(),
{
    if ks.len() == 0 {
    } else {
        let pre = ks.drop_last();
        assert(set_wf(pre)) by {
            assert forall|i: int|
                0 <= i < pre.len() implies (#[trigger] pre[i]).start < pre[i].end && pre[i].end
                <= CHAR_BOUND by {
                assert(pre[i] == ks[i]);
            }
            assert forall|i: int, j: int|
                #![trigger pre[i], pre[j]]
                0 <= i < j < pre.len() implies pre[i].end <= pre[j].start by {
                assert(pre[i] == ks[i] && pre[j] == ks[j]);
            }
        }
        lemma_len_bound(pre);
        if pre.len() > 0 {
            assert(pre.last() == ks[ks.len() - 2]);
            assert(pre.first() == ks.first());
            assert(ks[ks.len() - 2].end <= ks.last().start);
        }
    }
}

pub open spec fn max_u32(a: u32, b: u32) -> u32 {
    if a >= b {
        a
    } else {
        b
    }
}

/// What the sweep guarantees at a single code point: one-sided values are
/// kept, overlaps carry some combiner output for an interval containing the
/// point, and uncovered points stay unmapped.
pub open spec fn merged_at<V, F: Fn(&CharRange, &V, &V) -> V>(
    l: Seq<(CharRange, V)>,
    r: Seq<(CharRange, V)>,
    out: Seq<(CharRange, V)>,
    combine: F,
    c: u32,
) -> bool {
    if map_get(l, c) is Some && map_get(r, c) is Some {
        exists|rr: CharRange, v: V|
            map_get(out, c) == Some(v) && rr.spec_contains(c) && #[trigger] call_ensures(
                combine,
                (&rr, &map_get(l, c)->Some_0, &map_get(r, c)->Some_0),
                v,
            )
    } else if map_get(l, c) is Some {
        map_get(out, c) == map_get(l, c)
    } else if map_get(r, c) is Some {
        map_get(out, c) == map_get(r, c)
    } else {
        map_get(out, c) is None
    }
}

/// Appending an interval past every stored end keeps the map well-formed.
proof fn lemma_append_wf<V>(
    old_out: Seq<(CharRange, V)>,
    out: Seq<(CharRange, V)>,
    piece: CharRange,
    b: V,
    cursor: u32,
)
    requires
        map_wf(old_out),
        out == old_out.push((piece, b)),
        forall|j: int| 0 <= j < old_out.len() ==> (#[trigger] old_out[j]).0.end <= cursor,
        cursor <= piece.start,
        piece.start < piece.end,
        piece.end <= CHAR_BOUND,
    ensures
        map_wf(out),
{
    assert forall|p: int|
        0 <= p < out.len() implies (#[trigger] out[p]).0.start < out[p].0.end && out[p].0.end
        <= CHAR_BOUND by {
        if p < out.len() - 1 {
            assert(out[p] == old_out[p]);
        }
    }
    assert forall|p: int, q: int|
        #![trigger out[p], out[q]]
        0 <= p < q < out.len() implies out[p].0.end <= out[q].0.start by {
        if q < out.len() - 1 {
            assert(out[p] == old_out[p] && out[q] == old_out[q]);
        } else {
            assert(out[p] == old_out[p]);
        }
    }
}

/// Between the cursor and the head's effective start, a map holds nothing.
proof fn lemma_merge_uncovered<V>(es: Seq<(CharRange, V)>, i: int, trim: u32, c: u32, cursor: u32)
    requires
        map_wf(es),
        0 <= i <= es.len(),
        forall|j: int| 0 <= j < i ==> (#[trigger] es[j]).0.end <= cursor,
        trim <= cursor,
        cursor <= c,
        i < es.len() ==> c < max_u32(es[i].0.start, trim),
        i == es.len() ==> forall|j: int| 0 <= j < es.len() ==> (#[trigger] es[j]).0.end <= cursor,
    ensures
        map_get(es, c) is None,
{
    if i < es.len() {
        assert(c < es[i].0.start) by {
            if es[i].0.start < trim {
            }
        }
    }
    assert forall|j: int| 0 <= j < es.len() implies !(#[trigger] es[j]).0.spec_contains(c) by {
        if j < i {
            assert(es[j].0.end <= cursor);
        } else if i < es.len() && j >= i {
            assert(es[i].0.start <= es[j].0.start) by {
                if j > i {
                    assert(es[i].0.end <= es[j].0.start);
                }
            }
        }
    }
    lemma_map_get_entry(es, c);
    if map_get(es, c) is Some {
        let w = choose|w: int| 0 <= w < es.len() && (#[trigger] es[w]).0.spec_contains(c);
        assert(false);
    }
}

/// Above the cursor that closed a finished sweep, a map holds nothing.
proof fn lemma_map_get_none_above<V>(es: Seq<(CharRange, V)>, c: u32, cursor: u32)
    requires
        map_wf(es),
        forall|j: int| 0 <= j < es.len() ==> (#[trigger] es[j]).0.end <= cursor,
        cursor <= c,
    ensures
        map_get(es, c) is None,
{
    lemma_map_get_entry(es, c);
    if map_get(es, c) is Some {
        let w = choose|w: int| 0 <= w < es.len() && (#[trigger] es[w]).0.spec_contains(c);
        assert(false);
    }
}

/// One kept single-sided piece preserves the sweep's pointwise account.
/// `own` is the side the piece comes from (at head index `oi`, which has just
/// been passed or trimmed up to `pe`); `other` is the side with no value on
/// the piece. `own_is_left` says which argument order `merged_at` uses.
#[verifier::spinoff_prover]
proof fn lemma_merge_piece_keep<V, F: Fn(&CharRange, &V, &V) -> V>(
    own: Seq<(CharRange, V)>,
    other: Seq<(CharRange, V)>,
    l: Seq<(CharRange, V)>,
    r: Seq<(CharRange, V)>,
    old_out: Seq<(CharRange, V)>,
    out: Seq<(CharRange, V)>,
    combine: F,
    old_cursor: u32,
    ps: u32,
    pe: u32,
    a: V,
    oi: int,
    other_i: int,
    own_is_left: bool,
)
    requires
        own_is_left ==> l == own && r == other,
        !own_is_left ==> l == other && r == own,
        map_wf(own),
        map_wf(other),
        map_wf(old_out),
        0 <= oi < own.len(),
        own[oi].1 == a,
        own[oi].0.start <= ps < pe <= own[oi].0.end,
        0 <= other_i <= other.len(),
        forall|j: int| 0 <= j < other_i ==> (#[trigger] other[j]).0.end <= old_cursor,
        other_i < other.len() ==> pe <= other[other_i].0.start,
        forall|j: int| 0 <= j < old_out.len() ==> (#[trigger] old_out[j]).0.end <= old_cursor,
        old_cursor <= ps,
        own[oi].0.start < ps ==> ps <= old_cursor,
        forall|c: u32| c < old_cursor ==> #[trigger] merged_at(l, r, old_out, combine, c),
        forall|j: int| 0 <= j < oi ==> (#[trigger] own[j]).0.end <= old_cursor,
        out == old_out.push((CharRange { start: ps, end: pe }, a)),
    ensures
        map_wf(out),
        forall|j: int| 0 <= j < out.len() ==> (#[trigger] out[j]).0.end <= pe,
        forall|c: u32| c < pe ==> #[trigger] merged_at(l, r, out, combine, c),
{
    let piece = CharRange { start: ps, end: pe };
    lemma_append_wf(old_out, out, piece, a, old_cursor);
    assert(out.drop_last() =~= old_out);
    assert forall|j: int| 0 <= j < out.len() implies (#[trigger] out[j]).0.end <= pe by {
        if j < out.len() - 1 {
            assert(out[j] == old_out[j]);
        }
    }
    assert forall|c: u32| c < pe implies #[trigger] merged_at(l, r, out, combine, c) by {
        if c < old_cursor {
            assert(merged_at(l, r, old_out, combine, c));
            assert(map_get(out, c) == map_get(old_out, c));
            if map_get(l, c) is Some && map_get(r, c) is Some {
                let (rr, v) = choose|rr: CharRange, v: V|
                    map_get(old_out, c) == Some(v) && rr.spec_contains(c)
                        && #[trigger] call_ensures(
                        combine,
                        (&rr, &map_get(l, c)->Some_0, &map_get(r, c)->Some_0),
                        v,
                    );
                assert(map_get(out, c) == Some(v) && rr.spec_contains(c) && call_ensures(
                    combine,
                    (&rr, &map_get(l, c)->Some_0, &map_get(r, c)->Some_0),
                    v,
                ));
            }
        } else {
            assert(map_get(old_out, c) is None) by {
                lemma_map_get_none_above(old_out, c, old_cursor);
            }
            // the other side holds nothing from the old cursor up to the piece's end
            assert(map_get(other, c) is None) by {
                assert forall|j: int|
                    0 <= j < other.len() implies !(#[trigger] other[j]).0.spec_contains(c) by {
                    if j < other_i {
                        assert(other[j].0.end <= old_cursor);
                    } else {
                        assert(other[other_i].0.start <= other[j].0.start) by {
                            if j > other_i {
                                assert(other[other_i].0.end <= other[j].0.start);
                            }
                        }
                    }
                }
                lemma_map_get_entry(other, c);
                if map_get(other, c) is Some {
                    let w = choose|w: int|
                        0 <= w < other.len() && (#[trigger] other[w]).0.spec_contains(c);
                    assert(false);
                }
            }
            if c < ps {
                // an uncovered stretch before the piece
                assert(map_get(own, c) is None) by {
                    assert forall|j: int|
                        0 <= j < own.len() implies !(#[trigger] own[j]).0.spec_contains(c) by {
                        if j < oi {
                            assert(own[j].0.end <= old_cursor);
                        } else if j > oi {
                            assert(own[oi].0.end <= own[j].0.start);
                        } else {
                            // a trimmed head starts its piece at the old
                            // cursor, so nothing of it lies below the piece
                            if own[oi].0.spec_contains(c) {
                                assert(own[oi].0.start <= c < ps);
                                assert(ps <= old_cursor);
                                assert(false);
                            }
                        }
                    }
                    lemma_map_get_entry(own, c);
                    if map_get(own, c) is Some {
                        let w = choose|w: int|
                            0 <= w < own.len() && (#[trigger] own[w]).0.spec_contains(c);
                        assert(false);
                    }
                }
                assert(!piece.spec_contains(c));
                assert(map_get(out, c) == map_get(old_out, c));
            } else {
                lemma_map_get_at(own, oi, c);
                assert(piece.spec_contains(c));
                assert(map_get(out, c) == Some(a));
            }
        }
    }
}

/// One combined piece over an overlap preserves the sweep's pointwise
/// account.
#[verifier::spinoff_prover]
proof fn lemma_merge_piece_combined<V, F: Fn(&CharRange, &V, &V) -> V>(
    lv: Seq<(CharRange, V)>,
    rv: Seq<(CharRange, V)>,
    old_out: Seq<(CharRange, V)>,
    out: Seq<(CharRange, V)>,
    combine: F,
    old_cursor: u32,
    old_ltrim: u32,
    old_rtrim: u32,
    ls: u32,
    oe: u32,
    la: V,
    ra: V,
    b: V,
    oli: int,
    ori: int,
)
    requires
        map_wf(lv),
        map_wf(rv),
        map_wf(old_out),
        0 <= oli < lv.len(),
        0 <= ori < rv.len(),
        lv[oli].1 == la,
        rv[ori].1 == ra,
        ls == max_u32(lv[oli].0.start, old_ltrim),
        ls == max_u32(rv[ori].0.start, old_rtrim),
        ls < oe,
        oe <= lv[oli].0.end,
        oe <= rv[ori].0.end,
        forall|j: int| 0 <= j < oli ==> (#[trigger] lv[j]).0.end <= old_cursor,
        forall|j: int| 0 <= j < ori ==> (#[trigger] rv[j]).0.end <= old_cursor,
        forall|j: int| 0 <= j < old_out.len() ==> (#[trigger] old_out[j]).0.end <= old_cursor,
        old_ltrim <= old_cursor,
        old_rtrim <= old_cursor,
        old_cursor <= ls,
        call_ensures(combine, (&CharRange { start: ls, end: oe }, &la, &ra), b),
        forall|c: u32| c < old_cursor ==> #[trigger] merged_at(lv, rv, old_out, combine, c),
        out == old_out.push((CharRange { start: ls, end: oe }, b)),
    ensures
        map_wf(out),
        forall|j: int| 0 <= j < out.len() ==> (#[trigger] out[j]).0.end <= oe,
        forall|c: u32| c < oe ==> #[trigger] merged_at(lv, rv, out, combine, c),
{
    let piece = CharRange { start: ls, end: oe };
    assert(piece.end <= CHAR_BOUND) by {
        assert(lv[oli].0.end <= CHAR_BOUND);
    }
    lemma_append_wf(old_out, out, piece, b, old_cursor);
    assert(out.drop_last() =~= old_out);
    assert forall|j: int| 0 <= j < out.len() implies (#[trigger] out[j]).0.end <= oe by {
        if j < out.len() - 1 {
            assert(out[j] == old_out[j]);
        }
    }
    assert forall|c: u32| c < oe implies #[trigger] merged_at(lv, rv, out, combine, c) by {
        if c < old_cursor {
            assert(merged_at(lv, rv, old_out, combine, c));
            assert(map_get(out, c) == map_get(old_out, c));
            if map_get(lv, c) is Some && map_get(rv, c) is Some {
                let (rr, v) = choose|rr: CharRange, v: V|
                    map_get(old_out, c) == Some(v) && rr.spec_contains(c)
                        && #[trigger] call_ensures(
                        combine,
                        (&rr, &map_get(lv, c)->Some_0, &map_get(rv, c)->Some_0),
                        v,
                    );
                assert(map_get(out, c) == Some(v) && rr.spec_contains(c) && call_ensures(
                    combine,
                    (&rr, &map_get(lv, c)->Some_0, &map_get(rv, c)->Some_0),
                    v,
                ));
            }
        } else if c < ls {
            lemma_merge_uncovered(lv, oli, old_ltrim, c, old_cursor);
            lemma_merge_uncovered(rv, ori, old_rtrim, c, old_cursor);
            assert(map_get(out, c) == map_get(old_out, c));
            lemma_map_get_none_above(old_out, c, old_cursor);
            assert(merged_at(lv, rv, out, combine, c));
        } else {
            lemma_map_get_at(lv, oli, c);
            lemma_map_get_at(rv, ori, c);
            assert(map_get(lv, c) == Some(la));
            assert(map_get(rv, c) == Some(ra));
            assert(map_get(out, c) == Some(b));
            assert(piece.spec_contains(c) && call_ensures(combine, (&piece, &la, &ra), b));
            assert(map_get(lv, c)->Some_0 == la);
            assert(map_get(rv, c)->Some_0 == ra);
            assert(call_ensures(
                combine,
                (&piece, &map_get(lv, c)->Some_0, &map_get(rv, c)->Some_0),
                b,
            ));
            assert(exists|rr: CharRange, v: V|
                map_get(out, c) == Some(v) && rr.spec_contains(c) && #[trigger] call_ensures(
                    combine,
                    (&rr, &map_get(lv, c)->Some_0, &map_get(rv, c)->Some_0),
                    v,
                ));
            assert(merged_at(lv, rv, out, combine, c));
        }
    }
}

/// A set of code points: an interval map with presence-only values.
pub struct Charset(Charmap<()>);

impl View for Charset {
    type V = Seq<CharRange>;

    closed spec fn view(&self) -> Seq<CharRange> {
        map_keys(self.0@)
    }
}

impl Charset {
    pub closed spec fn inner(&self) -> Seq<(CharRange, ())> {
        self.0@
    }

    pub closed spec fn wf(&self) -> bool {
        map_wf(self.0@)
    }

    /// A well-formed set's view is a sorted, disjoint interval sequence.
    pub proof fn lemma_wf_keys(&self)
        requires
            self.wf(),
        ensures
            set_wf(self@),
    {
        assert forall|i: int|
            0 <= i < self@.len() implies (#[trigger] self@[i]).start < self@[i].end
            && self@[i].end <= CHAR_BOUND by {
            assert(self@[i] == self.0@[i].0);
        }
        assert forall|i: int, j: int|
            #![trigger self@[i], self@[j]]
            0 <= i < j < self@.len() implies self@[i].end <= self@[j].start by {
            assert(self@[i] == self.0@[i].0 && self@[j] == self.0@[j].0);
        }
    }

    /// A set whose view is well-formed is itself well-formed.
    pub proof fn lemma_keys_wf(&self)
        requires
            set_wf(self@),
        ensures
            self.wf(),
    {
        assert forall|i: int|
            0 <= i < self.0@.len() implies (#[trigger] self.0@[i]).0.start < self.0@[i].0.end
            && self.0@[i].0.end <= CHAR_BOUND by {
            assert(self@[i] == self.0@[i].0);
        }
        assert forall|i: int, j: int|
            #![trigger self.0@[i], self.0@[j]]
            0 <= i < j < self.0@.len() implies self.0@[i].0.end <= self.0@[j].0.start by {
            assert(self@[i] == self.0@[i].0 && self@[j] == self.0@[j].0);
        }
    }

    /// Membership of a code point.
    pub open spec fn spec_contains(&self, c: u32) -> bool {
        covered(self@, c)
    }

    /// The set of every code point in the domain.
    pub fn all() -> (r: Charset)
        ensures
            r.wf(),
            r@ =~= seq![CharRange { start: 0, end: CHAR_BOUND }],
            forall|c: u32| c < CHAR_BOUND ==> r.spec_contains(c),
    {
        let r = Charset(Charmap { entries: vec![(CharRange { start: 0, end: CHAR_BOUND }, ())] });
        proof {
            assert(r.0@ =~= seq![(CharRange { start: 0, end: CHAR_BOUND }, ())]);
            assert(r@ =~= seq![CharRange { start: 0, end: CHAR_BOUND }]);
            assert forall|c: u32| c < CHAR_BOUND implies r.spec_contains(c) by {
                assert(r@[0].spec_contains(c));
            }
        }
        r
    }

    /// The set holding exactly one non-empty interval.
    pub fn of_range(range: CharRange) -> (r: Charset)
        requires
            range.start < range.end,
            range.end <= CHAR_BOUND,
        ensures
            r.wf(),
            r@ =~= seq![range],
    {
        let r = Charset(Charmap { entries: vec![(range, ())] });
        proof {
            assert(r.0@ =~= seq![(range, ())]);
            assert(r@ =~= seq![range]);
        }
        r
    }

    pub fn new() -> (r: Charset)
        ensures
            r.wf(),
            r@ =~= Seq::<CharRange>::empty(),
    {
        let r = Charset(Charmap::new());
        proof {
            assert(r@ =~= Seq::<CharRange>::empty());
        }
        r
    }

    pub fn contains(&self, ch: &char) -> (r: bool)
        requires
            self.wf(),
        ensures
            r == self.spec_contains(*ch as u32),
    {
        let r = self.0.contains_key(ch);
        proof {
            lemma_cover(self.0@, *ch as u32);
        }
        r
    }

    /// The stored interval containing `ch`, if any.
    pub fn get(&self, ch: &char) -> (r: Option<CharRange>)
        requires
            self.wf(),
        ensures
            r == spec_found(self@, *ch as u32),
    {
        match self.0.get_entry(ch) {
            Some((k, _)) => Some(k),
            None => None,
        }
    }

    pub fn insert_char(&mut self, ch: char)
        requires
            old(self).wf(),
        ensures
            final(self).wf(),
            forall|c: u32|
                final(self).spec_contains(c) <==> (old(self).spec_contains(c) || c == ch as u32),
    {
        let r = CharRange { start: ch as u32, end: ch as u32 + 1 };
        self.insert(r);
        proof {
            assert forall|c: u32|
                self.spec_contains(c) <==> (old(self).spec_contains(c) || c == ch as u32) by {
                assert(r.spec_contains(c) == (c == ch as u32));
            }
        }
    }

    /// Makes every code point of `range` a member; overlapped intervals are
    /// trimmed, so membership elsewhere is unchanged.
    pub fn insert(&mut self, range: CharRange)
        requires
            old(self).wf(),
            range.start < range.end,
            range.end <= CHAR_BOUND,
        ensures
            final(self).wf(),
            forall|c: u32|
                #![trigger covered(final(self)@, c)]
                final(self).spec_contains(c) <==> (old(self).spec_contains(c)
                    || range.spec_contains(c)),
    {
        self.0.insert(range, ());
        proof {
            assert forall|c: u32|
                #![trigger covered(self@, c)]
                self.spec_contains(c) <==> (old(self).spec_contains(c) || range.spec_contains(c))
            by {
                lemma_cover(old(self).0@, c);
                lemma_cover(self.0@, c);
                if range.spec_contains(c) {
                    assert(map_get(self.0@, c) == Some(()));
                    assert(self.spec_contains(c));
                } else {
                    assert(map_get(self.0@, c) == map_get(old(self).0@, c));
                }
            }
        }
    }

    /// All stored intervals, ascending.
    pub fn ranges(&self) -> (r: Vec<CharRange>)
        ensures
            r@ == self@,
    {
        let n = self.0.range_values().len();
        let mut out: Vec<CharRange> = Vec::new();
        let mut i: usize = 0;
        while i < n
            invariant
                0 <= i <= n,
                n == self.0@.len(),
                out@ =~= self@.subrange(0, i as int),
            decreases n - i,
        {
            let e = self.0.range_values()[i].0;
            proof {
                assert(self@[i as int] == self.0@[i as int].0);
            }
            out.push(e);
            i += 1;
            proof {
                assert(out@ =~= self@.subrange(0, i as int));
            }
        }
        proof {
            assert(out@ =~= self@);
        }
        out
    }

    /// The complement's intervals: the maximal gaps between stored intervals
    /// and the final tail of the domain.
    pub fn holes(&self) -> (r: Vec<CharRange>)
        requires
            self.wf(),
        ensures
            set_wf(r@),
            forall|c: u32| c < CHAR_BOUND ==> (#[trigger] covered(r@, c)) == !covered(self@, c),
    {
        proof {
            self.lemma_wf_keys();
        }
        let rs = self.ranges();
        let n = rs.len();
        let mut out: Vec<CharRange> = Vec::new();
        let mut cursor: u32 = 0;
        let mut i: usize = 0;
        while i < n
            invariant
                0 <= i <= n,
                n == rs@.len(),
                rs@ == self@,
                set_wf(self@),
                cursor == if i > 0 {
                    self@[i as int - 1].end
                } else {
                    0u32
                },
                set_wf(out@),
                forall|j: int| 0 <= j < out@.len() ==> (#[trigger] out@[j]).end <= cursor,
                forall|c: u32|
                    c < cursor ==> (#[trigger] covered(out@, c)) == !covered(
                        self@.subrange(0, i as int),
                        c,
                    ),
            decreases n - i,
        {
            let ghost old_out = out@;
            let ghost old_cursor = cursor;
            let e = rs[i];
            proof {
                assert(e == self@[i as int]);
                if i > 0 {
                    assert(self@[i as int - 1].end <= self@[i as int].start);
                }
            }
            if e.start > cursor {
                out.push(CharRange { start: cursor, end: e.start });
            }
            cursor = e.end;
            i += 1;
            proof {
                let pre = self@.subrange(0, i as int - 1);
                let cur = self@.subrange(0, i as int);
                assert(forall|j: int| 0 <= j < pre.len() ==> pre[j] == (#[trigger] cur[j]));
                assert(cur[i as int - 1] == e);
                if old_out.len() < out@.len() {
                    assert(out@ =~= old_out.push(CharRange { start: old_cursor, end: e.start }));
                }
                assert(set_wf(out@)) by {
                    assert forall|p: int, q: int|
                        #![trigger out@[p], out@[q]]
                        0 <= p < q < out@.len() implies out@[p].end <= out@[q].start by {
                        if q < old_out.len() {
                            assert(old_out[p] == out@[p] && old_out[q] == out@[q]);
                        } else if p < old_out.len() {
                            assert(old_out[p] == out@[p]);
                        }
                    }
                    assert forall|p: int|
                        0 <= p < out@.len() implies (#[trigger] out@[p]).start < out@[p].end
                        && out@[p].end <= CHAR_BOUND by {
                        if p < old_out.len() {
                            assert(old_out[p] == out@[p]);
                        }
                    }
                }
                assert forall|c: u32|
                    c < cursor implies (#[trigger] covered(out@, c)) == !covered(cur, c) by {
                    if c < old_cursor {
                        assert(covered(out@, c) == covered(old_out, c)) by {
                            if covered(old_out, c) {
                                let j = choose|j: int|
                                    0 <= j < old_out.len() && (#[trigger] old_out[j]).spec_contains(
                                        c,
                                    );
                                assert(out@[j].spec_contains(c));
                            }
                            if covered(out@, c) {
                                let j = choose|j: int|
                                    0 <= j < out@.len() && (#[trigger] out@[j]).spec_contains(c);
                                if j >= old_out.len() {
                                    assert(out@[j].start == old_cursor);
                                    assert(false);
                                }
                                assert(old_out[j].spec_contains(c));
                            }
                        }
                        assert(covered(cur, c) == covered(pre, c)) by {
                            assert(!e.spec_contains(c)) by {
                                assert(e.start >= old_cursor);
                            }
                            if covered(pre, c) {
                                let j = choose|j: int|
                                    0 <= j < pre.len() && (#[trigger] pre[j]).spec_contains(c);
                                assert(cur[j].spec_contains(c));
                            }
                            if covered(cur, c) {
                                let j = choose|j: int|
                                    0 <= j < cur.len() && (#[trigger] cur[j]).spec_contains(c);
                                assert(j < pre.len()) by {
                                    if j == i - 1 {
                                        assert(false);
                                    }
                                }
                                assert(pre[j].spec_contains(c));
                            }
                        }
                    } else {
                        // a point between the old cursor and the new one
                        if c < e.start {
                            assert(covered(out@, c)) by {
                                assert(out@[out@.len() - 1].spec_contains(c));
                            }
                            assert(!covered(cur, c)) by {
                                if covered(cur, c) {
                                    let j = choose|j: int|
                                        0 <= j < cur.len() && (#[trigger] cur[j]).spec_contains(c);
                                    if j < i - 1 {
                                        assert(cur[j] == self@[j]);
                                        assert(self@[j].end <= old_cursor) by {
                                            if j < i - 2 {
                                                assert(self@[j].end <= self@[i as int - 2].start);
                                                assert(self@[i as int - 2].start
                                                    < self@[i as int - 2].end);
                                            }
                                        }
                                    }
                                    assert(false);
                                }
                            }
                        } else {
                            assert(covered(cur, c)) by {
                                assert(cur[i as int - 1].spec_contains(c));
                            }
                            assert(!covered(out@, c)) by {
                                if covered(out@, c) {
                                    let j = choose|j: int|
                                        0 <= j < out@.len() && (#[trigger] out@[j]).spec_contains(
                                            c,
                                        );
                                    if j < old_out.len() {
                                        assert(out@[j].end <= old_cursor);
                                    } else {
                                        assert(out@[j].end == e.start);
                                    }
                                    assert(false);
                                }
                            }
                        }
                    }
                }
            }
        }
        // the tail of the domain
        let ghost old_out = out@;
        let ghost old_cursor = cursor;
        if cursor < CHAR_BOUND {
            out.push(CharRange { start: cursor, end: CHAR_BOUND });
        }
        proof {
            assert(self@.subrange(0, n as int) == self@);
            if old_out.len() < out@.len() {
                assert(out@ =~= old_out.push(CharRange { start: old_cursor, end: CHAR_BOUND }));
            }
            assert(set_wf(out@)) by {
                assert forall|p: int, q: int|
                    #![trigger out@[p], out@[q]]
                    0 <= p < q < out@.len() implies out@[p].end <= out@[q].start by {
                    if q < old_out.len() {
                        assert(old_out[p] == out@[p] && old_out[q] == out@[q]);
                    } else if p < old_out.len() {
                        assert(old_out[p] == out@[p]);
                    }
                }
                assert forall|p: int|
                    0 <= p < out@.len() implies (#[trigger] out@[p]).start < out@[p].end
                    && out@[p].end <= CHAR_BOUND by {
                    if p < old_out.len() {
                        assert(old_out[p] == out@[p]);
                    }
                }
            }
            assert forall|c: u32|
                c < CHAR_BOUND implies (#[trigger] covered(out@, c)) == !covered(self@, c) by {
                if c < old_cursor {
                    assert(covered(out@, c) == covered(old_out, c)) by {
                        if covered(old_out, c) {
                            let j = choose|j: int|
                                0 <= j < old_out.len() && (#[trigger] old_out[j]).spec_contains(c);
                            assert(out@[j].spec_contains(c));
                        }
                        if covered(out@, c) {
                            let j = choose|j: int|
                                0 <= j < out@.len() && (#[trigger] out@[j]).spec_contains(c);
                            if j >= old_out.len() {
                                assert(out@[j].start == old_cursor);
                                assert(false);
                            }
                            assert(old_out[j].spec_contains(c));
                        }
                    }
                } else {
                    // at or above the final cursor: uncovered, inside the tail
                    assert(covered(out@, c)) by {
                        assert(out@[out@.len() - 1].spec_contains(c));
                    }
                    assert(!covered(self@, c)) by {
                        if covered(self@, c) {
                            let j = choose|j: int|
                                0 <= j < self@.len() && (#[trigger] self@[j]).spec_contains(c);
                            assert(n > 0);
                            assert(self@[j].end <= old_cursor) by {
                                if j < n - 1 {
                                    assert(self@[j].end <= self@[n as int - 1].start);
                                    assert(self@[n as int - 1].start < self@[n as int - 1].end);
                                }
                            }
                            assert(false);
                        }
                    }
                }
            }
        }
        out
    }

    /// The stored interval around `ch`, or the maximal uncovered gap.
    pub fn get_in_or_out(&self, ch: &char) -> (r: InOrOut<CharRange, CharRange>)
        requires
            self.wf(),
        ensures
            match r {
                InOrOut::In(k) => spec_found(self@, *ch as u32) == Some(k),
                InOrOut::Out(g) => spec_found(self@, *ch as u32) is None && g == spec_gap(
                    self@,
                    *ch as u32,
                ),
            },
    {
        proof {
            lemma_found_get(self.0@, *ch as u32);
        }
        match self.0.get_in_or_out(ch) {
            InOrOut::In((k, _)) => InOrOut::In(k),
            InOrOut::Out(g) => InOrOut::Out(g),
        }
    }

    /// How many code points the set holds.
    pub fn len(&self) -> (r: usize)
        requires
            self.wf(),
        ensures
            r as int == spec_len(self@),
    {
        proof {
            self.lemma_wf_keys();
        }
        let rs = self.ranges();
        let n = rs.len();
        let mut sum: u32 = 0;
        let mut i: usize = 0;
        while i < n
            invariant
                0 <= i <= n,
                n == rs@.len(),
                rs@ == self@,
                set_wf(self@),
                sum as int == spec_len(self@.subrange(0, i as int)),
            decreases n - i,
        {
            proof {
                let cur = self@.subrange(0, i as int + 1);
                assert(set_wf(cur)) by {
                    assert forall|p: int|
                        0 <= p < cur.len() implies (#[trigger] cur[p]).start < cur[p].end
                        && cur[p].end <= CHAR_BOUND by {
                        assert(cur[p] == self@[p]);
                    }
                    assert forall|p: int, q: int|
                        #![trigger cur[p], cur[q]]
                        0 <= p < q < cur.len() implies cur[p].end <= cur[q].start by {
                        assert(cur[p] == self@[p] && cur[q] == self@[q]);
                    }
                }
                lemma_len_bound(cur);
                assert(cur.drop_last() =~= self@.subrange(0, i as int));
                assert(cur.last() == self@[i as int]);
            }
            let e = rs[i];
            sum = sum + (e.end - e.start);
            i += 1;
        }
        proof {
            assert(self@.subrange(0, n as int) == self@);
        }
        sum as usize
    }

    /// Replaces the set by its complement within the domain.
    pub fn invert(&mut self)
        requires
            old(self).wf(),
        ensures
            final(self).wf(),
            forall|c: u32|
                #![trigger covered(final(self)@, c)]
                c < CHAR_BOUND ==> (final(self).spec_contains(c) <==> !old(self).spec_contains(c)),
    {
        let hs = self.holes();
        let mut r = Charset(Charmap::new());
        proof {
            assert(r@ =~= Seq::<CharRange>::empty());
        }
        insert_all(&mut r, &hs);
        self.0 = r.0;
        proof {
            assert forall|c: u32|
                #![trigger covered(self@, c)]
                c < CHAR_BOUND implies (self.spec_contains(c) <==> !old(self).spec_contains(c))
            by {}
        }
    }

    /// The set of code points lying in either set.
    pub fn union(&self, other: &Charset) -> (r: Charset)
        requires
            self.wf(),
            other.wf(),
        ensures
            r.wf(),
            forall|c: u32|
                #![trigger covered(r@, c)]
                r.spec_contains(c) <==> (self.spec_contains(c) || other.spec_contains(c)),
    {
        proof {
            self.lemma_wf_keys();
            other.lemma_wf_keys();
        }
        let mut r = Charset(Charmap::new());
        proof {
            assert(r@ =~= Seq::<CharRange>::empty());
        }
        let rs1 = self.ranges();
        let rs2 = other.ranges();
        insert_all(&mut r, &rs1);
        insert_all(&mut r, &rs2);
        r
    }

    /// The set of code points lying in both sets, built by inverting the
    /// union of both complements.
    pub fn intersection(&self, other: &Charset) -> (r: Charset)
        requires
            self.wf(),
            other.wf(),
        ensures
            r.wf(),
            forall|c: u32|
                #![trigger covered(r@, c)]
                c < CHAR_BOUND ==> (r.spec_contains(c) <==> (self.spec_contains(c)
                    && other.spec_contains(c))),
    {
        let hs1 = self.holes();
        let hs2 = other.holes();
        let mut r = Charset(Charmap::new());
        proof {
            assert(r@ =~= Seq::<CharRange>::empty());
        }
        insert_all(&mut r, &hs1);
        insert_all(&mut r, &hs2);
        r.invert();
        r
    }
}

/// Inserts every given non-empty interval into the set.
fn insert_all(dst: &mut Charset, rs: &Vec<CharRange>)
    requires
        old(dst).wf(),
        forall|j: int|
            0 <= j < rs@.len() ==> (#[trigger] rs@[j]).start < rs@[j].end && rs@[j].end
                <= CHAR_BOUND,
    ensures
        final(dst).wf(),
        forall|c: u32|
            #![trigger covered(final(dst)@, c)]
            final(dst).spec_contains(c) <==> (old(dst).spec_contains(c) || covered(rs@, c)),
{
    let n = rs.len();
    let mut i: usize = 0;
    while i < n
        invariant
            0 <= i <= n,
            n == rs@.len(),
            forall|j: int|
                0 <= j < rs@.len() ==> (#[trigger] rs@[j]).start < rs@[j].end && rs@[j].end
                    <= CHAR_BOUND,
            dst.wf(),
            forall|c: u32|
                #![trigger covered(dst@, c)]
                dst.spec_contains(c) <==> (old(dst).spec_contains(c) || covered(
                    rs@.subrange(0, i as int),
                    c,
                )),
        decreases n - i,
    {
        let h = rs[i];
        dst.insert(h);
        i += 1;
        proof {
            let pre = rs@.subrange(0, i as int - 1);
            let cur = rs@.subrange(0, i as int);
            assert(forall|j: int| 0 <= j < pre.len() ==> pre[j] == (#[trigger] cur[j]));
            assert(cur[i as int - 1] == h);
            assert forall|c: u32|
                #![trigger covered(dst@, c)]
                dst.spec_contains(c) <==> (old(dst).spec_contains(c) || covered(cur, c)) by {
                if h.spec_contains(c) {
                    assert(cur[i as int - 1].spec_contains(c));
                } else {
                    if covered(pre, c) {
                        let j = choose|j: int|
                            0 <= j < pre.len() && (#[trigger] pre[j]).spec_contains(c);
                        assert(cur[j].spec_contains(c));
                    }
                    if covered(cur, c) {
                        let j = choose|j: int|
                            0 <= j < cur.len() && (#[trigger] cur[j]).spec_contains(c);
                        assert(j < pre.len());
                        assert(pre[j].spec_contains(c));
                    }
                }
            }
        }
    }
    proof {
        assert(rs@.subrange(0, n as int) == rs@);
    }
}

impl Clone for Charset {
    /// A clone keeps exactly the same intervals.
    fn clone(&self) -> (r: Self)
        ensures
            r@ == self@,
            r.wf() == self.wf(),
    {
        let src = self.0.range_values();
        let n = src.len();
        let mut entries: Vec<(CharRange, ())> = Vec::new();
        let mut i: usize = 0;
        while i < n
            invariant
                0 <= i <= n,
                n == self.0@.len(),
                entries@ =~= self.0@.subrange(0, i as int),
            decreases n - i,
        {
            let e = self.0.range_values()[i];
            entries.push(e);
            i += 1;
            proof {
                assert(entries@ =~= self.0@.subrange(0, i as int));
            }
        }
        let r = Charset(Charmap { entries });
        proof {
            assert(r.0@ =~= self.0@);
            assert(r@ =~= self@);
        }
        r
    }
}

} // verus!