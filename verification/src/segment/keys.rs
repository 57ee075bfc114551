use vstd::prelude::*;

use crate::range::Range;

verus! {

/// A range whose bounds may be open: a missing start stands for the least key,
/// a missing end for the greatest.
#[derive(Debug, Clone, Copy, PartialEq, Eq)]
pub struct MaybeRange {
    pub start: Option<u64>,
    pub end: Option<u64>,
}

/// A free stretch between two neighbouring segments.
#[derive(Debug, Clone, Copy, PartialEq, Eq)]
pub struct Gap {
    pub range: MaybeRange,
    pub prev_key: Option<Range>,
}

/// A segment, together with the keys of its neighbours.
#[derive(Debug, Clone, Copy, PartialEq, Eq)]
pub struct Seg {
    pub range: Range,
    pub prev_key: Option<Range>,
    pub next_key: Option<Range>,
}

#[derive(Debug, Clone, Copy)]
pub enum SegOrGap {
    Segment(Seg),
    Gap(Gap),
}

impl Gap {
    /// The least key of the gap.
    pub open spec fn lo(self) -> u64 {
        match self.range.start {
            Some(k) => k,
            None => 0,
        }
    }

    /// The key just past the gap, or the greatest key where the gap is open.
    pub open spec fn hi(self) -> u64 {
        match self.range.end {
            Some(k) => k,
            None => u64::MAX,
        }
    }

    /// The gap as a range.
    pub open spec fn span(self) -> Range {
        Range { start: self.lo(), end: self.hi() }
    }

    /// The empty gap at the least key.
    pub fn minimum() -> (g: Self)
        ensures
            g == (Gap { range: MaybeRange { start: Some(0), end: Some(0) }, prev_key: None }),
    {
        Gap { range: MaybeRange { start: Some(0), end: Some(0) }, prev_key: None }
    }

    pub fn range(&self) -> (r: Range)
        ensures
            r == self.span(),
    {
        Range { start: self.start(), end: self.end() }
    }

    pub fn start(&self) -> (k: u64)
        ensures
            k == self.lo(),
    {
        match self.range.start {
            Some(k) => k,
            None => 0,
        }
    }

    pub fn end(&self) -> (k: u64)
        ensures
            k == self.hi(),
    {
        match self.range.end {
            Some(k) => k,
            None => u64::MAX,
        }
    }

    pub fn is_superset_of(&self, r: &Range) -> (b: bool)
        ensures
            b == self.span().covers(*r),
    {
        self.range().is_superset_of(r)
    }

    pub fn is_empty(&self) -> (b: bool)
        ensures
            b == (self.lo() == self.hi()),
    {
        self.start() == self.end()
    }
}

impl Seg {
    pub fn new(range: Range, prev_key: Option<Range>, next_key: Option<Range>) -> (s: Self)
        ensures
            s == (Seg { range, prev_key, next_key }),
    {
        Seg { range, prev_key, next_key }
    }

    pub fn start(&self) -> (k: u64)
        ensures
            k == self.range.start,
    {
        self.range.start
    }

    pub fn end(&self) -> (k: u64)
        ensures
            k == self.range.end,
    {
        self.range.end
    }

    pub fn range(&self) -> (r: Range)
        ensures
            r == self.range,
    {
        self.range
    }
}

/// The keys of a segment set: no key is an empty range, and each lies wholly
/// before the next.
pub open spec fn sorted(ks: Seq<Range>) -> bool {
    &&& forall|i: int| 0 <= i < ks.len() ==> (#[trigger] ks[i]).start < ks[i].end
    &&& forall|i: int, j: int|
        0 <= i < j < ks.len() ==> (#[trigger] ks[i]).end <= (#[trigger] ks[j]).start
}

/// How many keys are ordered before `r`.
pub open spec fn count_before(ks: Seq<Range>, r: Range) -> nat
    decreases ks.len(),
{
    if ks.len() == 0 {
        0
    } else {
        count_before(ks.drop_last(), r) + if ks.last().before(r) {
            1nat
        } else {
            0nat
        }
    }
}

/// How many keys are ordered before `r` or equal it.
pub open spec fn count_through(ks: Seq<Range>, r: Range) -> nat
    decreases ks.len(),
{
    if ks.len() == 0 {
        0
    } else {
        count_through(ks.drop_last(), r) + if !r.before(ks.last()) {
            1nat
        } else {
            0nat
        }
    }
}

/// The key at index `i`, if there is one.
pub open spec fn key_at(ks: Seq<Range>, i: int) -> Option<Range> {
    if 0 <= i < ks.len() {
        Some(ks[i])
    } else {
        None
    }
}

/// The segment at index `i`.
pub open spec fn seg_at(ks: Seq<Range>, i: int) -> Seg {
    Seg { range: ks[i], prev_key: key_at(ks, i - 1), next_key: key_at(ks, i + 1) }
}

/// The gap between the segments at indices `i - 1` and `i`.
pub open spec fn gap_at(ks: Seq<Range>, i: int) -> Gap {
    Gap {
        range: MaybeRange {
            start: if 0 < i <= ks.len() {
                Some(ks[i - 1].end)
            } else {
                None
            },
            end: if 0 <= i < ks.len() {
                Some(ks[i].start)
            } else {
                None
            },
        },
        prev_key: key_at(ks, i - 1),
    }
}

/// Key `k` lies in the segment at index `i`.
pub open spec fn held_at(ks: Seq<Range>, k: int, i: int) -> bool {
    0 <= i < ks.len() && ks[i].has(k)
}

/// Key `k` lies in no segment.
pub open spec fn free(ks: Seq<Range>, k: int) -> bool {
    forall|i: int| 0 <= i < ks.len() ==> !(#[trigger] ks[i]).has(k)
}

/// No segment meets `r`.
pub open spec fn range_free(ks: Seq<Range>, r: Range) -> bool {
    forall|i: int| 0 <= i < ks.len() ==> !(#[trigger] ks[i]).meets(r)
}

/// Key `k` lies between the segments at indices `i - 1` and `i`.
pub open spec fn between(ks: Seq<Range>, k: int, i: int) -> bool {
    &&& 0 <= i <= ks.len()
    &&& 0 < i ==> ks[i - 1].end <= k
    &&& i < ks.len() ==> k < ks[i].start
}

/// The keys before index `c` are ordered before `r`, and the others are not.
pub open spec fn parts_before(ks: Seq<Range>, r: Range, c: int) -> bool {
    &&& 0 <= c <= ks.len()
    &&& forall|i: int| 0 <= i < c ==> (#[trigger] ks[i]).before(r)
    &&& forall|i: int| c <= i < ks.len() ==> !(#[trigger] ks[i]).before(r)
}

/// The keys before index `c` are not ordered after `r`, and the others are.
pub open spec fn parts_through(ks: Seq<Range>, r: Range, c: int) -> bool {
    &&& 0 <= c <= ks.len()
    &&& forall|i: int| 0 <= i < c ==> !r.before(#[trigger] ks[i])
    &&& forall|i: int| c <= i < ks.len() ==> r.before(#[trigger] ks[i])
}

pub proof fn lemma_count_before_unique(ks: Seq<Range>, r: Range, c: int)
    requires
        parts_before(ks, r, c),
    ensures
        count_before(ks, r) == c,
    decreases ks.len(),
{
    if ks.len() > 0 {
        let n = ks.len() as int;
        let ds = ks.drop_last();
        if c == n {
            assert forall|i: int| 0 <= i < c - 1 implies (#[trigger] ds[i]).before(r) by {
                assert(ds[i] == ks[i]);
            }
            lemma_count_before_unique(ds, r, c - 1);
        } else {
            assert forall|i: int| 0 <= i < c implies (#[trigger] ds[i]).before(r) by {
                assert(ds[i] == ks[i]);
            }
            assert forall|i: int| c <= i < ds.len() implies !(#[trigger] ds[i]).before(r) by {
                assert(ds[i] == ks[i]);
            }
            lemma_count_before_unique(ds, r, c);
        }
    }
}

pub proof fn lemma_count_through_unique(ks: Seq<Range>, r: Range, c: int)
    requires
        parts_through(ks, r, c),
    ensures
        count_through(ks, r) == c,
    decreases ks.len(),
{
    if ks.len() > 0 {
        let n = ks.len() as int;
        let ds = ks.drop_last();
        if c == n {
            assert forall|i: int| 0 <= i < c - 1 implies !r.before(#[trigger] ds[i]) by {
                assert(ds[i] == ks[i]);
            }
            lemma_count_through_unique(ds, r, c - 1);
        } else {
            assert forall|i: int| 0 <= i < c implies !r.before(#[trigger] ds[i]) by {
                assert(ds[i] == ks[i]);
            }
            assert forall|i: int| c <= i < ds.len() implies r.before(#[trigger] ds[i]) by {
                assert(ds[i] == ks[i]);
            }
            lemma_count_through_unique(ds, r, c);
        }
    }
}

/// In sorted keys the count is the index at which `r` would stand.
pub proof fn lemma_count_before(ks: Seq<Range>, r: Range)
    requires
        sorted(ks),
    ensures
        parts_before(ks, r, count_before(ks, r) as int),
    decreases ks.len(),
{
    if ks.len() > 0 {
        let ds = ks.drop_last();
        assert forall|i: int| 0 <= i < ds.len() implies ds[i] == ks[i] by {}
        lemma_count_before(ds, r);
        let c = count_before(ds, r) as int;
        if ks.last().before(r) {
            assert forall|i: int| 0 <= i < ks.len() implies (#[trigger] ks[i]).before(r) by {
                if i < ks.len() - 1 {
                    assert(ks[i].end <= ks[ks.len() - 1].start);
                }
            }
            assert(parts_before(ks, r, ks.len() as int));
            lemma_count_before_unique(ks, r, ks.len() as int);
        } else {
            assert forall|i: int| 0 <= i < c implies (#[trigger] ks[i]).before(r) by {
                assert(ds[i].before(r));
            }
            assert forall|i: int| c <= i < ks.len() implies !(#[trigger] ks[i]).before(r) by {
                if i < ks.len() - 1 {
                    assert(!ds[i].before(r));
                }
            }
        }
    }
}

/// In sorted keys the count is the index past which `r` would stand.
pub proof fn lemma_count_through(ks: Seq<Range>, r: Range)
    requires
        sorted(ks),
    ensures
        parts_through(ks, r, count_through(ks, r) as int),
    decreases ks.len(),
{
    if ks.len() > 0 {
        let ds = ks.drop_last();
        assert forall|i: int| 0 <= i < ds.len() implies ds[i] == ks[i] by {}
        lemma_count_through(ds, r);
        let c = count_through(ds, r) as int;
        if !r.before(ks.last()) {
            assert forall|i: int| 0 <= i < ks.len() implies !r.before(#[trigger] ks[i]) by {
                if i < ks.len() - 1 {
                    assert(ks[i].end <= ks[ks.len() - 1].start);
                }
            }
            assert(parts_through(ks, r, ks.len() as int));
            lemma_count_through_unique(ks, r, ks.len() as int);
        } else {
            assert forall|i: int| 0 <= i < c implies !r.before(#[trigger] ks[i]) by {
                assert(!r.before(ds[i]));
            }
            assert forall|i: int| c <= i < ks.len() implies r.before(#[trigger] ks[i]) by {
                if i < ks.len() - 1 {
                    assert(r.before(ds[i]));
                }
            }
        }
    }
}

/// At most one segment holds a key.
pub proof fn holder_is_unique(ks: Seq<Range>, k: int, i: int, j: int)
    requires
        sorted(ks),
        held_at(ks, k, i),
        held_at(ks, k, j),
    ensures
        i == j,
{
}

/// A key in no segment lies between two neighbours, in one way only.
pub proof fn lemma_between(ks: Seq<Range>, k: u64, i: int)
    requires
        sorted(ks),
        between(ks, k as int, i),
    ensures
        free(ks, k as int),
        i == count_before(ks, Range { start: k, end: k }),
        forall|j: int| 0 <= j < i ==> (#[trigger] ks[j]).end <= k,
        forall|j: int| i <= j < ks.len() ==> k < (#[trigger] ks[j]).start,
{
    let r = Range { start: k, end: k };
    assert forall|j: int| 0 <= j < i implies (#[trigger] ks[j]).end <= k && ks[j].before(r) by {
        if j < i - 1 {
            assert(ks[j].end <= ks[i - 1].start);
        }
    }
    assert forall|j: int| i <= j < ks.len() implies k < (#[trigger] ks[j]).start && !ks[j].before(
        r,
    ) by {
        if j > i {
            assert(ks[i].end <= ks[j].start);
        }
    }
    assert(parts_before(ks, r, i));
    lemma_count_before_unique(ks, r, i);
}

/// Where the counts put a key that no segment holds.
pub proof fn lemma_free_is_between(ks: Seq<Range>, k: u64)
    requires
        sorted(ks),
        free(ks, k as int),
    ensures
        between(ks, k as int, count_before(ks, Range { start: k, end: k }) as int),
{
    let r = Range { start: k, end: k };
    lemma_count_before(ks, r);
    let c = count_before(ks, r) as int;
    if 0 < c {
        assert(ks[c - 1].before(r));
        assert(!ks[c - 1].has(k as int));
    }
    if c < ks.len() {
        assert(!ks[c].before(r));
        assert(!ks[c].has(k as int));
    }
}

} // verus!
