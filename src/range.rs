use std::cmp::Ordering;
use vstd::prelude::*;

verus! {

/// A range of code points, including both endpoints.
///
/// If `start` is strictly larger than `end` then this represents an empty range.
#[derive(Clone, Copy, Debug, PartialEq, Eq, Hash, Structural)]
pub struct CharRange {
    pub start: u32,
    pub end: u32,
}

/// The largest code point that a range can mention.
pub const MAX_CHAR: u32 = 0xFFFF_FFFF;

impl CharRange {
    /// The range holds `c`.
    pub open spec fn has(self, c: int) -> bool {
        self.start <= c && c <= self.end
    }

    /// The range holds no code point.
    pub open spec fn spec_is_empty(self) -> bool {
        self.start > self.end
    }

    /// Some code point lies in both ranges.
    pub open spec fn overlaps(self, other: CharRange) -> bool {
        exists|c: int| self.has(c) && other.has(c)
    }

    /// Every code point of `other` lies in `self`.
    pub open spec fn includes(self, other: CharRange) -> bool {
        forall|c: int| other.has(c) ==> self.has(c)
    }

    pub open spec fn spec_intersection(self, other: CharRange) -> CharRange {
        CharRange {
            start: if self.start >= other.start { self.start } else { other.start },
            end: if self.end <= other.end { self.end } else { other.end },
        }
    }

    pub open spec fn spec_cover(self, other: CharRange) -> CharRange {
        if self.spec_is_empty() {
            other
        } else if other.spec_is_empty() {
            self
        } else {
            CharRange {
                start: if self.start <= other.start { self.start } else { other.start },
                end: if self.end >= other.end { self.end } else { other.end },
            }
        }
    }

    /// Creates a new `CharRange` with the given start and endpoints (inclusive).
    pub fn new(start: u32, end: u32) -> (r: CharRange)
        ensures
            r.start == start,
            r.end == end,
    {
        CharRange { start, end }
    }

    /// Creates a new `CharRange` containing all characters.
    pub fn full() -> (r: CharRange)
        ensures
            r.start == 0,
            r.end == MAX_CHAR,
            forall|c: u32| r.has(c as int),
    {
        CharRange { start: 0, end: MAX_CHAR }
    }

    /// Creates a new `CharRange` containing a single character.
    pub fn single(ch: u32) -> (r: CharRange)
        ensures
            r.start == ch,
            r.end == ch,
    {
        CharRange::new(ch, ch)
    }

    /// Tests whether a given char belongs to this range.
    pub fn contains(&self, ch: u32) -> (r: bool)
        ensures
            r == self.has(ch as int),
    {
        self.start <= ch && ch <= self.end
    }

    /// Computes the intersection between two ranges.
    pub fn intersection(&self, other: &CharRange) -> (r: CharRange)
        ensures
            r == self.spec_intersection(*other),
    {
        let start = if self.start >= other.start { self.start } else { other.start };
        let end = if self.end <= other.end { self.end } else { other.end };
        CharRange::new(start, end)
    }

    /// Tests whether this range is empty.
    pub fn is_empty(&self) -> (r: bool)
        ensures
            r == self.spec_is_empty(),
    {
        self.start > self.end
    }

    /// Places the code point `ch` against this range: `Less` where the range ends before it,
    /// `Greater` where it starts after it, `Equal` where the range holds it.
    pub fn cmp_point(&self, ch: u32) -> (r: Ordering)
        ensures
            (r == Ordering::Less) == (self.end < ch),
            (r == Ordering::Greater) == (self.end >= ch && self.start > ch),
            (r == Ordering::Equal) == self.has(ch as int),
    {
        if self.end < ch {
            Ordering::Less
        } else if self.start > ch {
            Ordering::Greater
        } else {
            Ordering::Equal
        }
    }

    /// Returns the smallest range that covers `self` and `other`.
    pub fn cover(&self, other: &CharRange) -> (r: CharRange)
        ensures
            r == self.spec_cover(*other),
    {
        if self.is_empty() {
            *other
        } else if other.is_empty() {
            *self
        } else {
            let start = if self.start <= other.start { self.start } else { other.start };
            let end = if self.end >= other.end { self.end } else { other.end };
            CharRange::new(start, end)
        }
    }
}

/// The intersection of two ranges is empty exactly when they share no code point; the cover of
/// two ranges holds both of them, and every range that holds both holds the cover.
pub proof fn lemma_intersection_and_cover(a: CharRange, b: CharRange)
    ensures
        a.spec_intersection(b).spec_is_empty() <==> !a.overlaps(b),
        a.spec_cover(b).includes(a),
        a.spec_cover(b).includes(b),
        forall|r: CharRange| r.includes(a) && r.includes(b) ==> #[trigger] r.includes(a.spec_cover(b)),
{
    let i = a.spec_intersection(b);
    if !i.spec_is_empty() {
        assert(a.has(i.start as int) && b.has(i.start as int));
    }
    assert forall|r: CharRange| r.includes(a) && r.includes(b) implies #[trigger] r.includes(
        a.spec_cover(b),
    ) by {
        if !a.spec_is_empty() {
            assert(a.has(a.start as int) && a.has(a.end as int));
        }
        if !b.spec_is_empty() {
            assert(b.has(b.start as int) && b.has(b.end as int));
        }
    }
}

} // verus!
