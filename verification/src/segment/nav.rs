use vstd::prelude::*;

use crate::range::Range;
use crate::segment::keys::{
    between, count_before, count_through, free, gap_at, held_at, key_at, lemma_between,
    lemma_free_is_between, seg_at, sorted, Gap, MaybeRange, Seg, SegOrGap,
};
use crate::segment::ops::SetOperations;
use crate::segment::set::SegmentSet;

verus! {

/// The empty range at `k`, which stands before every segment that starts at `k`.
pub open spec fn at(k: u64) -> Range {
    Range { start: k, end: k }
}

/// The segment that follows the key `r`.
pub open spec fn seg_after(ks: Seq<Range>, r: Range) -> Option<Seg> {
    let c = count_through(ks, r) as int;
    if c < ks.len() {
        Some(Seg { range: ks[c], prev_key: Some(r), next_key: key_at(ks, c + 1) })
    } else {
        None
    }
}

/// The segment that comes before the key `r`.
pub open spec fn seg_before(ks: Seq<Range>, r: Range) -> Option<Seg> {
    let c = count_before(ks, r) as int;
    if 0 < c {
        Some(Seg { range: ks[c - 1], prev_key: key_at(ks, c - 2), next_key: Some(r) })
    } else {
        None
    }
}

/// The gap that follows the segment with range `r`.
pub open spec fn gap_after(ks: Seq<Range>, r: Range) -> Option<Gap> {
    if r.end == u64::MAX {
        None
    } else {
        Some(
            Gap {
                range: MaybeRange {
                    start: Some(r.end),
                    end: match key_at(ks, count_through(ks, r) as int) {
                        Some(k) => Some(k.start),
                        None => None,
                    },
                },
                prev_key: Some(r),
            },
        )
    }
}

/// The gap that comes before the segment with range `r`.
pub open spec fn gap_before(ks: Seq<Range>, r: Range) -> Option<Gap> {
    if r.start == 0 {
        None
    } else {
        let prev = key_at(ks, count_before(ks, r) - 1);
        Some(
            Gap {
                range: MaybeRange {
                    start: match prev {
                        Some(k) => Some(k.end),
                        None => None,
                    },
                    end: Some(r.start),
                },
                prev_key: prev,
            },
        )
    }
}

/// The segment that follows the gap `g`. Past a bounded gap that no segment
/// follows, it is the rest of the keys.
pub open spec fn seg_after_gap(ks: Seq<Range>, g: Gap) -> Option<Seg> {
    match g.range.end {
        None => None,
        Some(e) => {
            let prev_key = match g.range.start {
                Some(k) => key_at(ks, count_before(ks, at(k)) - 1),
                None => None,
            };
            let c = count_before(ks, at(e)) as int;
            if c < ks.len() {
                Some(Seg { range: ks[c], prev_key, next_key: key_at(ks, c + 1) })
            } else {
                Some(Seg { range: Range { start: e, end: u64::MAX }, prev_key, next_key: None })
            }
        },
    }
}

/// The segment that comes before the gap `g`.
pub open spec fn seg_before_gap(ks: Seq<Range>, g: Gap) -> Option<Seg> {
    let c = count_before(ks, g.span()) as int;
    if 0 < c {
        Some(Seg { range: ks[c - 1], prev_key: key_at(ks, c - 2), next_key: key_at(ks, c) })
    } else {
        None
    }
}

/// The first segment that holds `k` or a key above it.
pub open spec fn first_from(ks: Seq<Range>, k: int, i: int) -> bool {
    &&& 0 <= i <= ks.len()
    &&& forall|j: int| 0 <= j < i ==> (#[trigger] ks[j]).end <= k
    &&& forall|j: int| i <= j < ks.len() ==> k < (#[trigger] ks[j]).end
}

/// The index of the first segment that holds `k` or a key above it, or the
/// number of segments.
pub open spec fn first_past(ks: Seq<Range>, k: int) -> int {
    choose|i: int| first_from(ks, k, i)
}

pub proof fn lemma_first_past(ks: Seq<Range>, k: int, i: int)
    requires
        first_from(ks, k, i),
    ensures
        first_past(ks, k) == i,
{
    let j = first_past(ks, k);
    assert(first_from(ks, k, j));
    if i < j {
        assert(ks[i].end <= k);
    } else if j < i {
        assert(ks[j].end <= k);
    }
}

/// What stands next to the segment with range `r` upwards: the gap there
/// unless it is empty, and then the segment.
pub open spec fn item_after(ks: Seq<Range>, r: Range) -> Option<SegOrGap> {
    match gap_after(ks, r) {
        Some(g) if g.lo() < g.hi() => Some(SegOrGap::Gap(g)),
        _ => match seg_after(ks, r) {
            Some(s) => Some(SegOrGap::Segment(s)),
            None => None,
        },
    }
}

/// What stands next to the segment with range `r` downwards.
pub open spec fn item_before(ks: Seq<Range>, r: Range) -> Option<SegOrGap> {
    match gap_before(ks, r) {
        Some(g) if g.lo() < g.hi() => Some(SegOrGap::Gap(g)),
        _ => match seg_before(ks, r) {
            Some(s) => Some(SegOrGap::Segment(s)),
            None => None,
        },
    }
}

/// The total length of the ranges.
pub open spec fn total_length(ks: Seq<Range>) -> int
    decreases ks.len(),
{
    if ks.len() == 0 {
        0
    } else {
        total_length(ks.drop_last()) + ks.last().length()
    }
}

/// The total length of what the ranges have in common with `r`.
pub open spec fn total_common(ks: Seq<Range>, r: Range) -> int
    decreases ks.len(),
{
    if ks.len() == 0 {
        0
    } else {
        total_common(ks.drop_last(), r) + ks.last().common(r).length()
    }
}

pub proof fn lemma_total_length_bound(ks: Seq<Range>)
    requires
        sorted(ks),
    ensures
        0 <= total_length(ks),
        ks.len() > 0 ==> total_length(ks) <= ks.last().end,
    decreases ks.len(),
{
    if ks.len() > 0 {
        let ds = ks.drop_last();
        assert forall|i: int| 0 <= i < ds.len() implies ds[i] == ks[i] by {}
        lemma_total_length_bound(ds);
        if ds.len() > 0 {
            assert(ds.last() == ks[ks.len() - 2]);
        }
    }
}

pub proof fn lemma_total_common_bound(ks: Seq<Range>, r: Range)
    requires
        sorted(ks),
        r.start <= r.end,
    ensures
        0 <= total_common(ks, r) <= total_length(ks),
    decreases ks.len(),
{
    if ks.len() > 0 {
        let ds = ks.drop_last();
        assert forall|i: int| 0 <= i < ds.len() implies ds[i] == ks[i] by {}
        lemma_total_common_bound(ds, r);
    }
}

pub proof fn lemma_total_length_take(ks: Seq<Range>, i: int)
    requires
        0 <= i < ks.len(),
    ensures
        total_length(ks.take(i + 1)) == total_length(ks.take(i)) + ks[i].length(),
{
    assert(ks.take(i + 1).drop_last() =~= ks.take(i));
}

pub proof fn lemma_total_common_take(ks: Seq<Range>, r: Range, i: int)
    requires
        0 <= i < ks.len(),
    ensures
        total_common(ks.take(i + 1), r) == total_common(ks.take(i), r) + ks[i].common(r).length(),
{
    assert(ks.take(i + 1).drop_last() =~= ks.take(i));
}

/// Ranges that have nothing in common with `r` add nothing.
pub proof fn lemma_total_common_none(ks: Seq<Range>, r: Range, i: int, n: int)
    requires
        0 <= i <= n <= ks.len(),
        r.start <= r.end,
        forall|j: int| i <= j < n ==> (#[trigger] ks[j]).start < ks[j].end && !ks[j].meets(r),
    ensures
        total_common(ks.take(n), r) == total_common(ks.take(i), r),
    decreases n - i,
{
    if i < n {
        lemma_total_common_none(ks, r, i, n - 1);
        lemma_total_common_take(ks, r, n - 1);
        assert(!ks[n - 1].meets(r));
    }
}

impl<O: SetOperations> SegmentSet<O> {
    /// The index of the first segment that holds `k` or a key above it.
    pub(crate) fn index_past(&self, k: u64) -> (i: usize)
        requires
            self.wf(),
        ensures
            first_from(self.ranges(), k as int, i as int),
            i == first_past(self.ranges(), k as int),
    {
        let ghost ks = self.ranges();
        let c = self.rank_before(Range { start: k, end: k });
        let mut i = c;
        if i > 0 && self.keys[i - 1].end > k {
            i = i - 1;
        }
        proof {
            assert forall|j: int| 0 <= j < i implies (#[trigger] ks[j]).end <= k by {
                if j < c - 1 {
                    assert(ks[j].end <= ks[c - 1].start);
                    assert(ks[c - 1].before(at(k)));
                }
            }
            assert forall|j: int| i <= j < ks.len() implies k < (#[trigger] ks[j]).end by {
                if c <= j {
                    assert(!ks[j].before(at(k)));
                    assert(ks[j].start < ks[j].end);
                }
            }
            lemma_first_past(ks, k as int, i as int);
        }
        i
    }

    pub fn last_segment(&self) -> (s: Option<Seg>)
        requires
            self.wf(),
        ensures
            match s {
                Some(s) => self.ranges().len() > 0 && s == seg_at(
                    self.ranges(),
                    self.ranges().len() - 1,
                ),
                None => self.ranges().len() == 0,
            },
    {
        let n = self.keys.len();
        if n == 0 {
            None
        } else {
            Some(self.seg_from(n - 1))
        }
    }

    pub fn first_segment(&self) -> (s: Option<Seg>)
        requires
            self.wf(),
        ensures
            match s {
                Some(s) => self.ranges().len() > 0 && s == seg_at(self.ranges(), 0),
                None => self.ranges().len() == 0,
            },
    {
        if self.keys.len() == 0 {
            None
        } else {
            Some(self.seg_from(0))
        }
    }

    /// The gap past the last segment, unless that segment ends at the greatest
    /// key.
    pub fn last_gap(&self) -> (g: Option<Gap>)
        requires
            self.wf(),
        ensures
            match g {
                Some(g) => {
                    let n = self.ranges().len() as int;
                    &&& g.range.start == Some(if n > 0 { self.ranges()[n - 1].end } else { 0 })
                    &&& g.range.end is None
                    &&& g.prev_key == key_at(self.ranges(), n - 1)
                    &&& g.lo() < u64::MAX
                },
                None => self.ranges().len() > 0 && self.ranges().last().end == u64::MAX,
            },
    {
        let n = self.keys.len();
        let prev_key = self.key_below(n);
        let gap_start = match prev_key {
            Some(k) => k.end,
            None => 0,
        };
        if gap_start == u64::MAX {
            None
        } else {
            Some(Gap { range: MaybeRange { start: Some(gap_start), end: None }, prev_key })
        }
    }

    /// The gap below the first segment, unless that segment starts at the
    /// least key.
    pub fn first_gap(&self) -> (g: Option<Gap>)
        requires
            self.wf(),
        ensures
            match g {
                Some(g) => g == gap_at(self.ranges(), 0) && g.lo() < g.hi(),
                None => self.ranges().len() > 0 && self.ranges()[0].start == 0,
            },
    {
        if self.keys.len() > 0 && self.keys[0].start == 0 {
            None
        } else {
            Some(self.gap_from(0))
        }
    }

    /// The gap that holds `key`, unless a segment holds it.
    pub fn find_gap(&self, key: u64) -> (g: Option<Gap>)
        requires
            self.wf(),
        ensures
            match g {
                Some(g) => free(self.ranges(), key as int) && exists|i: int|
                    between(self.ranges(), key as int, i) && g == #[trigger] gap_at(
                        self.ranges(),
                        i,
                    ),
                None => exists|i: int| held_at(self.ranges(), key as int, i),
            },
            g is Some ==> g == Some(
                gap_at(self.ranges(), count_before(self.ranges(), at(key)) as int),
            ),
    {
        let c = self.rank_before(Range { start: key, end: key });
        let n = self.keys.len();
        if c > 0 && self.keys[c - 1].end > key {
            assert(held_at(self.ranges(), key as int, c - 1));
            return None;
        }
        if c < n && self.keys[c].start <= key {
            assert(held_at(self.ranges(), key as int, c as int));
            return None;
        }
        assert(between(self.ranges(), key as int, c as int));
        proof {
            lemma_between(self.ranges(), key, c as int);
        }
        Some(self.gap_from(c))
    }

    /// The segment that holds `key`.
    pub fn find_segment(&self, key: u64) -> (s: Option<Seg>)
        requires
            self.wf(),
        ensures
            match s {
                Some(s) => exists|i: int|
                    held_at(self.ranges(), key as int, i) && s == #[trigger] seg_at(
                        self.ranges(),
                        i,
                    ),
                None => free(self.ranges(), key as int),
            },
    {
        let c = self.rank_before(Range { start: key, end: key });
        let n = self.keys.len();
        if c > 0 && self.keys[c - 1].contains(key) {
            assert(held_at(self.ranges(), key as int, c - 1));
            return Some(self.seg_from(c - 1));
        }
        if c < n && self.keys[c].contains(key) {
            assert(held_at(self.ranges(), key as int, c as int));
            return Some(self.seg_from(c));
        }
        proof {
            if c > 0 {
                assert(self.keys@[c - 1].before(at(key)));
            }
            if c < n {
                assert(!self.keys@[c as int].before(at(key)));
            }
            assert(between(self.ranges(), key as int, c as int));
            lemma_between(self.ranges(), key, c as int);
        }
        None
    }

    /// The gap that holds `min`, or else the one past the segment that does.
    pub fn lower_bound_gap(&self, min: u64) -> (g: Option<Gap>)
        requires
            self.wf(),
        ensures
            g is Some,
            forall|i: int|
                #![trigger gap_at(self.ranges(), i)]
                between(self.ranges(), min as int, i) ==> g == Some(gap_at(self.ranges(), i)),
            forall|i: int|
                #![trigger held_at(self.ranges(), min as int, i)]
                held_at(self.ranges(), min as int, i) ==> g == Some(
                    gap_at(self.ranges(), i + 1),
                ),
    {
        match self.find_gap(min) {
            Some(gap) => {
                assert forall|i: int| between(self.ranges(), min as int, i) implies Some(gap)
                    == Some(#[trigger] gap_at(self.ranges(), i)) by {
                    lemma_between(self.ranges(), min, i);
                }
                Some(gap)
            },
            None => {
                let c = self.rank_through(Range { start: min, end: u64::MAX });
                proof {
                    let ks = self.ranges();
                    let h = choose|i: int| held_at(ks, min as int, i);
                    assert forall|i: int| held_at(ks, min as int, i) implies c == i + 1 by {
                        let r = Range { start: min, end: u64::MAX };
                        if c <= i {
                            assert(r.before(ks[i]));
                        }
                        if i + 1 < c {
                            assert(ks[i].end <= ks[i + 1].start);
                            assert(!r.before(ks[i + 1]));
                        }
                    }
                    assert(c == h + 1);
                }
                let g = self.gap_from(c);
                assert forall|i: int| between(self.ranges(), min as int, i) implies Some(g)
                    == Some(#[trigger] gap_at(self.ranges(), i)) by {
                    lemma_between(self.ranges(), min, i);
                    let h = choose|i: int| held_at(self.ranges(), min as int, i);
                    assert(!self.ranges()[h].has(min as int));
                }
                Some(g)
            },
        }
    }

    /// The gap that holds `max`, or else the one before the segment that does,
    /// unless that segment is the first.
    pub fn upper_bound_gap(&self, max: u64) -> (g: Option<Gap>)
        requires
            self.wf(),
        ensures
            forall|i: int|
                #![trigger gap_at(self.ranges(), i)]
                between(self.ranges(), max as int, i) ==> g == Some(gap_at(self.ranges(), i)),
            forall|i: int|
                #![trigger held_at(self.ranges(), max as int, i)]
                held_at(self.ranges(), max as int, i) ==> g == (if i == 0 {
                    None
                } else {
                    Some(gap_at(self.ranges(), i))
                }),
    {
        match self.find_gap(max) {
            Some(gap) => {
                assert forall|i: int| between(self.ranges(), max as int, i) implies Some(gap)
                    == Some(#[trigger] gap_at(self.ranges(), i)) by {
                    lemma_between(self.ranges(), max, i);
                }
                Some(gap)
            },
            None => {
                let c = self.rank_through(Range { start: max, end: u64::MAX });
                proof {
                    let ks = self.ranges();
                    let h = choose|i: int| held_at(ks, max as int, i);
                    assert forall|i: int| held_at(ks, max as int, i) implies c == i + 1 by {
                        let r = Range { start: max, end: u64::MAX };
                        if c <= i {
                            assert(r.before(ks[i]));
                        }
                        if i + 1 < c {
                            assert(ks[i].end <= ks[i + 1].start);
                            assert(!r.before(ks[i + 1]));
                        }
                    }
                    assert(c == h + 1);
                    assert forall|i: int| !between(ks, max as int, i) by {
                        if between(ks, max as int, i) {
                            lemma_between(ks, max, i);
                            assert(!ks[h].has(max as int));
                        }
                    }
                }
                if c == 1 {
                    None
                } else {
                    Some(self.gap_from(c - 1))
                }
            },
        }
    }

    /// The first segment that holds `min` or a key above it.
    pub fn lower_bound_segment(&self, min: u64) -> (s: Option<Seg>)
        requires
            self.wf(),
        ensures
            exists|i: int| #[trigger]
                first_from(self.ranges(), min as int, i) && s == (if i < self.ranges().len() {
                    Some(seg_at(self.ranges(), i))
                } else {
                    None
                }),
    {
        match self.find_segment(min) {
            Some(seg) => {
                proof {
                    let ks = self.ranges();
                    let i = choose|i: int| held_at(ks, min as int, i) && seg == seg_at(ks, i);
                    assert forall|j: int| 0 <= j < i implies (#[trigger] ks[j]).end <= min by {
                        assert(ks[j].end <= ks[i].start);
                    }
                    assert forall|j: int| i <= j < ks.len() implies min < (#[trigger] ks[j]).end by {
                        if i < j {
                            assert(ks[i].end <= ks[j].start);
                        }
                    }
                    assert(first_from(ks, min as int, i));
                }
                Some(seg)
            },
            None => {
                let c = self.rank_before(Range { start: min, end: min });
                proof {
                    lemma_free_is_between(self.ranges(), min);
                    lemma_between(self.ranges(), min, c as int);
                    assert forall|j: int| c <= j < self.ranges().len() implies min < (
                    #[trigger] self.ranges()[j]).end by {
                        assert(min < self.ranges()[j].start);
                    }
                    assert(first_from(self.ranges(), min as int, c as int));
                }
                if c < self.keys.len() {
                    Some(self.seg_from(c))
                } else {
                    None
                }
            },
        }
    }

    /// The last segment that holds `max` or a key below it.
    pub fn upper_bound_segment(&self, max: u64) -> (s: Option<Seg>)
        requires
            self.wf(),
        ensures
            exists|i: int|
                {
                    &&& 0 <= i <= self.ranges().len()
                    &&& forall|j: int| 0 <= j < i ==> (#[trigger] self.ranges()[j]).start <= max
                    &&& forall|j: int|
                        i <= j < self.ranges().len() ==> max < (#[trigger] self.ranges()[j]).start
                    &&& s == (if 0 < i {
                        Some(#[trigger] seg_at(self.ranges(), i - 1))
                    } else {
                        None
                    })
                },
    {
        let c = self.rank_through(Range { start: max, end: u64::MAX });
        proof {
            let r = Range { start: max, end: u64::MAX };
            let ks = self.ranges();
            assert forall|j: int| 0 <= j < c implies (#[trigger] ks[j]).start <= max by {
                assert(!r.before(ks[j]));
            }
            assert forall|j: int| c <= j < ks.len() implies max < (#[trigger] ks[j]).start by {
                assert(r.before(ks[j]));
            }
            let w = seg_at(ks, c - 1);
        }
        if c == 0 {
            None
        } else {
            Some(self.seg_from(c - 1))
        }
    }

    pub fn next_segment_of_seg(&self, seg: &Seg) -> (s: Option<Seg>)
        requires
            self.wf(),
        ensures
            s == seg_after(self.ranges(), seg.range),
    {
        let c = self.rank_through(seg.range);
        let n = self.keys.len();
        if c < n {
            Some(
                Seg {
                    range: self.keys[c],
                    prev_key: Some(seg.range),
                    next_key: self.key_from(c + 1),
                },
            )
        } else {
            None
        }
    }

    pub fn prev_segment_of_seg(&self, seg: &Seg) -> (s: Option<Seg>)
        requires
            self.wf(),
        ensures
            s == seg_before(self.ranges(), seg.range),
    {
        let c = self.rank_before(seg.range);
        if c > 0 {
            Some(
                Seg {
                    range: self.keys[c - 1],
                    prev_key: self.key_below(c - 1),
                    next_key: Some(seg.range),
                },
            )
        } else {
            None
        }
    }

    pub fn next_segment_of_gap(&self, gap: &Gap) -> (s: Option<Seg>)
        requires
            self.wf(),
        ensures
            s == seg_after_gap(self.ranges(), *gap),
    {
        let gap_end = match gap.range.end {
            Some(e) => e,
            None => return None,
        };
        let prev_key = match gap.range.start {
            Some(k) => {
                let c = self.rank_before(Range { start: k, end: k });
                self.key_below(c)
            },
            None => None,
        };
        let c = self.rank_before(Range { start: gap_end, end: gap_end });
        let n = self.keys.len();
        if c < n {
            Some(Seg { range: self.keys[c], prev_key, next_key: self.key_from(c + 1) })
        } else {
            Some(
                Seg { range: Range { start: gap_end, end: u64::MAX }, prev_key, next_key: None },
            )
        }
    }

    pub fn prev_segment_of_gap(&self, gap: &Gap) -> (s: Option<Seg>)
        requires
            self.wf(),
        ensures
            s == seg_before_gap(self.ranges(), *gap),
    {
        let c = self.rank_before(gap.range());
        if c > 0 {
            Some(
                Seg {
                    range: self.keys[c - 1],
                    prev_key: self.key_below(c - 1),
                    next_key: self.key_from(c),
                },
            )
        } else {
            None
        }
    }

    pub fn next_gap_of_seg(&self, seg: &Seg) -> (g: Option<Gap>)
        requires
            self.wf(),
        ensures
            g == gap_after(self.ranges(), seg.range),
    {
        let gap_start = seg.end();
        if gap_start == u64::MAX {
            return None;
        }
        let c = self.rank_through(seg.range);
        let gap_end = match self.key_from(c) {
            Some(k) => Some(k.start),
            None => None,
        };
        Some(
            Gap {
                range: MaybeRange { start: Some(gap_start), end: gap_end },
                prev_key: Some(seg.range),
            },
        )
    }

    pub fn prev_gap_of_seg(&self, seg: &Seg) -> (g: Option<Gap>)
        requires
            self.wf(),
        ensures
            g == gap_before(self.ranges(), seg.range),
    {
        let end = seg.range.start;
        if end == 0 {
            return None;
        }
        let c = self.rank_before(seg.range);
        let prev_key = self.key_below(c);
        let start = match prev_key {
            Some(k) => Some(k.end),
            None => None,
        };
        Some(Gap { range: MaybeRange { start, end: Some(end) }, prev_key })
    }

    /// The gap past the segment that follows `gap`. That segment must exist
    /// where the gap is bounded.
    pub fn next_gap_of_gap(&self, gap: &Gap) -> (g: Option<Gap>)
        requires
            self.wf(),
            gap.range.end matches Some(e) ==> count_before(self.ranges(), at(e))
                < self.ranges().len(),
        ensures
            g == (match gap.range.end {
                None => None,
                Some(e) => Some(
                    gap_at(self.ranges(), count_before(self.ranges(), at(e)) as int + 1),
                ),
            }),
    {
        match gap.range.end {
            None => None,
            Some(e) => {
                let c = self.rank_before(Range { start: e, end: e });
                let n = self.keys.len();
                Some(self.gap_from(c + 1))
            },
        }
    }

    /// The gap before the segment that comes before `gap`.
    pub fn prev_gap_of_gap(&self, gap: &Gap) -> (g: Option<Gap>)
        requires
            self.wf(),
        ensures
            g == (if count_before(self.ranges(), gap.span()) == 0 {
                None
            } else {
                Some(gap_at(self.ranges(), count_before(self.ranges(), gap.span()) - 1))
            }),
    {
        let c = self.rank_before(gap.range());
        if c == 0 {
            None
        } else {
            Some(self.gap_from(c - 1))
        }
    }

    pub fn next_non_empty(&self, seg: &Seg) -> (x: Option<SegOrGap>)
        requires
            self.wf(),
        ensures
            x == item_after(self.ranges(), seg.range),
    {
        if let Some(gap) = self.next_gap_of_seg(seg) {
            if gap.end() > gap.start() {
                return Some(SegOrGap::Gap(gap));
            }
        }
        match self.next_segment_of_seg(seg) {
            Some(s) => Some(SegOrGap::Segment(s)),
            None => None,
        }
    }

    pub fn prev_non_empty(&self, seg: &Seg) -> (x: Option<SegOrGap>)
        requires
            self.wf(),
        ensures
            x == item_before(self.ranges(), seg.range),
    {
        if let Some(gap) = self.prev_gap_of_seg(seg) {
            if gap.end() > gap.start() {
                return Some(SegOrGap::Gap(gap));
            }
        }
        match self.prev_segment_of_seg(seg) {
            Some(s) => Some(SegOrGap::Segment(s)),
            None => None,
        }
    }

    /// The number of keys that segments hold.
    pub fn span(&self) -> (n: u64)
        requires
            self.wf(),
        ensures
            n == total_length(self.ranges()),
    {
        let mut sz: u64 = 0;
        let mut i: usize = 0;
        let n = self.keys.len();
        proof {
            assert(self.ranges().take(0) =~= Seq::<Range>::empty());
        }
        while i < n
            invariant
                i <= n,
                n == self.keys@.len(),
                sorted(self.keys@),
                sz == total_length(self.keys@.take(i as int)),
            decreases n - i,
        {
            proof {
                let ks = self.keys@;
                lemma_total_length_take(ks, i as int);
                lemma_total_length_bound(ks.take(i + 1));
            }
            sz = sz + self.keys[i].len();
            i = i + 1;
        }
        assert(self.keys@.take(n as int) =~= self.keys@);
        sz
    }

    /// The number of keys of `r` that segments hold.
    pub fn span_range(&self, r: Range) -> (n: u64)
        requires
            self.wf(),
            r.start <= r.end,
        ensures
            n == total_common(self.ranges(), r),
    {
        let n = self.keys.len();
        let mut i = self.rank_before(Range { start: r.start, end: r.start });
        if i > 0 && self.keys[i - 1].end > r.start {
            i = i - 1;
        }
        let mut sz: u64 = 0;
        proof {
            let ks = self.ranges();
            let c = count_before(ks, at(r.start)) as int;
            assert(ks.take(0) =~= Seq::<Range>::empty());
            assert forall|j: int| 0 <= j < i implies !(#[trigger] ks[j]).meets(r) by {
                if j < c - 1 {
                    assert(ks[j].end <= ks[c - 1].start);
                    assert(ks[c - 1].before(at(r.start)));
                }
            }
            lemma_total_common_none(ks, r, 0, i as int);
        }
        while i < n && self.keys[i].start < r.end
            invariant
                i <= n,
                n == self.keys@.len(),
                sorted(self.keys@),
                r.start <= r.end,
                sz == total_common(self.keys@.take(i as int), r),
            decreases n - i,
        {
            proof {
                let ks = self.keys@;
                lemma_total_common_take(ks, r, i as int);
                lemma_total_common_bound(ks.take(i + 1), r);
                lemma_total_length_bound(ks.take(i + 1));
            }
            sz = sz + self.keys[i].intersect(&r).len();
            i = i + 1;
        }
        proof {
            let ks = self.keys@;
            assert forall|j: int| i <= j < n implies !(#[trigger] ks[j]).meets(r) by {
                if i < j {
                    assert(ks[i as int].end <= ks[j].start);
                }
            }
            lemma_total_common_none(ks, r, i as int, n as int);
            assert(ks.take(n as int) =~= ks);
        }
        sz
    }
}

} // verus!
