use vstd::prelude::*;

verus! {

/// One past the largest code point: the character domain is `[0, CHAR_BOUND)`.
pub const CHAR_BOUND: u32 = 0x110000;

/// A half-open range `[start, end)` of Unicode code points.
///
/// Bounds are stored as plain code points so that a range boundary may fall
/// anywhere in the numeric domain, including on a surrogate value that is not
/// itself a `char`.
#[derive(Clone, Copy, Debug, PartialEq, Eq, Structural)]
pub struct CharRange {
    pub start: u32,
    pub end: u32,
}

impl CharRange {
    /// A well-formed range: ordered bounds inside the domain.
    pub open spec fn wf(self) -> bool {
        self.start <= self.end <= CHAR_BOUND
    }

    pub open spec fn spec_contains(self, c: u32) -> bool {
        self.start <= c < self.end
    }

    pub open spec fn spec_is_empty(self) -> bool {
        self.start >= self.end
    }

    pub open spec fn spec_intersects(self, other: CharRange) -> bool {
        (if self.start >= other.start { self.start } else { other.start })
            < (if self.end <= other.end { self.end } else { other.end })
    }

    /// The intersection, clamped so that the result is never reversed.
    pub open spec fn spec_inter(self, other: CharRange) -> CharRange {
        let start = if self.start >= other.start { self.start } else { other.start };
        let low_end = if self.end <= other.end { self.end } else { other.end };
        CharRange { start, end: if low_end >= start { low_end } else { start } }
    }

    pub fn new(start: u32, end: u32) -> (r: CharRange)
        ensures
            r == (CharRange { start, end }),
    {
        CharRange { start, end }
    }

    /// The empty range sitting at `c`.
    pub fn at(c: char) -> (r: CharRange)
        ensures
            r == (CharRange { start: c as u32, end: c as u32 }),
    {
        CharRange { start: c as u32, end: c as u32 }
    }

    pub fn start_from(c: char) -> (r: CharRange)
        ensures
            r == (CharRange { start: c as u32, end: CHAR_BOUND }),
    {
        CharRange { start: c as u32, end: CHAR_BOUND }
    }

    pub fn end_at(c: char) -> (r: CharRange)
        ensures
            r == (CharRange { start: 0, end: c as u32 }),
    {
        CharRange { start: 0, end: c as u32 }
    }

    pub fn contains(&self, ch: &char) -> (r: bool)
        ensures
            r == self.spec_contains(*ch as u32),
    {
        self.start <= *ch as u32 && (*ch as u32) < self.end
    }

    pub fn contains_u32(&self, c: u32) -> (r: bool)
        ensures
            r == self.spec_contains(c),
    {
        self.start <= c && c < self.end
    }

    pub fn all() -> (r: CharRange)
        ensures
            r == (CharRange { start: 0, end: CHAR_BOUND }),
    {
        CharRange { start: 0, end: CHAR_BOUND }
    }

    pub fn empty() -> (r: CharRange)
        ensures
            r == (CharRange { start: 0, end: 0 }),
    {
        CharRange { start: 0, end: 0 }
    }

    pub fn is_empty(&self) -> (r: bool)
        ensures
            r == self.spec_is_empty(),
    {
        self.start >= self.end
    }

    pub fn start(&self) -> (r: u32)
        ensures
            r == self.start,
    {
        self.start
    }

    pub fn end(&self) -> (r: u32)
        ensures
            r == self.end,
    {
        self.end
    }

    pub fn intersects(&self, other: &CharRange) -> (r: bool)
        ensures
            r == self.spec_intersects(*other),
    {
        let lo = if self.start >= other.start { self.start } else { other.start };
        let hi = if self.end <= other.end { self.end } else { other.end };
        lo < hi
    }

    /// The clamped intersection of two ranges.
    pub fn inter(&self, other: &CharRange) -> (r: CharRange)
        ensures
            r == self.spec_inter(*other),
    {
        let start = if self.start >= other.start { self.start } else { other.start };
        let low_end = if self.end <= other.end { self.end } else { other.end };
        let end = if low_end >= start { low_end } else { start };
        CharRange { start, end }
    }
}

/// Two ranges intersect exactly when some code point lies in both.
pub proof fn lemma_intersects_iff(a: CharRange, b: CharRange)
    requires
        a.wf(),
        b.wf(),
    ensures
        a.spec_intersects(b) <==> exists|c: u32| a.spec_contains(c) && b.spec_contains(c),
{
    if a.spec_intersects(b) {
        let w: u32 = if a.start >= b.start { a.start } else { b.start };
        assert(a.spec_contains(w) && b.spec_contains(w));
    }
}

impl PartialOrd for CharRange {
    fn partial_cmp(&self, other: &Self) -> (r: Option<core::cmp::Ordering>) {
        if self.start < other.start {
            Some(core::cmp::Ordering::Less)
        } else if self.start > other.start {
            Some(core::cmp::Ordering::Greater)
        } else if self.end < other.end {
            Some(core::cmp::Ordering::Less)
        } else if self.end > other.end {
            Some(core::cmp::Ordering::Greater)
        } else {
            Some(core::cmp::Ordering::Equal)
        }
    }
}

impl vstd::std_specs::cmp::PartialOrdSpecImpl for CharRange {
    open spec fn obeys_partial_cmp_spec() -> bool {
        true
    }

    open spec fn partial_cmp_spec(&self, other: &Self) -> Option<core::cmp::Ordering> {
        if self.start < other.start {
            Some(core::cmp::Ordering::Less)
        } else if self.start > other.start {
            Some(core::cmp::Ordering::Greater)
        } else if self.end < other.end {
            Some(core::cmp::Ordering::Less)
        } else if self.end > other.end {
            Some(core::cmp::Ordering::Greater)
        } else {
            Some(core::cmp::Ordering::Equal)
        }
    }
}

} // verus!
