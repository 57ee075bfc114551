use vstd::prelude::*;

verus! {

/// A half-open interval of `u64` keys: `start` belongs to it, `end` does not.
#[derive(Debug, Clone, Copy, PartialEq, Eq, Structural, Hash)]
pub struct Range {
    pub start: u64,
    pub end: u64,
}

/// A range of user virtual addresses.
pub type AddrRange = Range;

/// A range of offsets in a file.
pub type FileRange = Range;

/// A range of offsets in a mappable object.
pub type MappableRange = Range;

impl Range {
    /// `start` does not lie past `end`.
    pub open spec fn well_formed(self) -> bool {
        self.start <= self.end
    }

    /// The number of keys in the range.
    pub open spec fn length(self) -> int {
        self.end - self.start
    }

    /// Key `k` lies in the range.
    pub open spec fn has(self, k: int) -> bool {
        self.start <= k < self.end
    }

    /// The two ranges have a key in common.
    pub open spec fn meets(self, other: Range) -> bool {
        self.start < other.end && other.start < self.end
    }

    /// Every bound of `other` lies within the bounds of this range.
    pub open spec fn covers(self, other: Range) -> bool {
        self.start <= other.start && other.end <= self.end
    }

    /// The common part of two ranges. Where they have none it is an empty
    /// range that starts at the greater of the two starts.
    pub open spec fn common(self, other: Range) -> Range {
        let start = if self.start >= other.start { self.start } else { other.start };
        let end = if self.end <= other.end { self.end } else { other.end };
        if end < start {
            Range { start, end: start }
        } else {
            Range { start, end }
        }
    }

    /// Key `k` lies strictly inside the range, so that both sides of a cut at
    /// `k` hold a key.
    pub open spec fn cuttable(self, k: int) -> bool {
        self.start < k < self.end
    }

    /// Ranges are ordered by their starts, and by their ends where the starts
    /// agree.
    pub open spec fn before(self, other: Range) -> bool {
        self.start < other.start || (self.start == other.start && self.end < other.end)
    }

    pub fn is_well_formed(&self) -> (b: bool)
        ensures
            b == self.well_formed(),
    {
        self.start <= self.end
    }

    pub fn is_empty(&self) -> (b: bool)
        ensures
            b == (self.start == self.end),
    {
        self.start == self.end
    }

    pub fn len(&self) -> (n: u64)
        requires
            self.well_formed(),
        ensures
            n == self.length(),
    {
        self.end - self.start
    }

    pub fn contains(&self, k: u64) -> (b: bool)
        ensures
            b == self.has(k as int),
    {
        self.start <= k && k < self.end
    }

    pub fn overlaps(&self, other: &Range) -> (b: bool)
        ensures
            b == self.meets(*other),
    {
        self.start < other.end && other.start < self.end
    }

    pub fn is_superset_of(&self, other: &Range) -> (b: bool)
        ensures
            b == self.covers(*other),
    {
        self.start <= other.start && other.end <= self.end
    }

    pub fn intersect(&self, other: &Range) -> (r: Range)
        ensures
            r == self.common(*other),
            r.well_formed(),
    {
        let start = if self.start >= other.start { self.start } else { other.start };
        let end = if self.end <= other.end { self.end } else { other.end };
        if end < start {
            Range { start, end: start }
        } else {
            Range { start, end }
        }
    }

    pub fn can_split_at(&self, k: u64) -> (b: bool)
        ensures
            b == self.cuttable(k as int),
    {
        self.start < k && k < self.end
    }

    pub fn precedes(&self, other: &Range) -> (b: bool)
        ensures
            b == self.before(*other),
    {
        self.start < other.start || (self.start == other.start && self.end < other.end)
    }
}

/// The common part of two ranges holds exactly the keys that both hold.
pub proof fn common_is_intersection(a: Range, b: Range, k: int)
    ensures
        a.common(b).has(k) <==> a.has(k) && b.has(k),
{
}

/// The whole of `u64` as a range. The greatest key itself lies outside it.
pub open spec fn whole() -> Range {
    Range { start: 0, end: u64::MAX }
}

} // verus!
