use vstd::prelude::*;

use crate::range::Range;
use crate::segment::keys::{
    between, count_before, count_through, free, gap_at, held_at, holder_is_unique, key_at, lemma_between,
    lemma_count_before_unique, lemma_count_through_unique, parts_before, parts_through, range_free,
    seg_at, sorted, Gap, MaybeRange, Seg,
};
use crate::segment::model::{
    cut, cut_start_at, holder, inserted, inserted_at, isolated, join_value, joined, joined_outside,
    joined_run, lemma_holder, lemma_place, lemma_sorted_insert, lemma_sorted_update, lemma_wf_cut,
    lemma_wf_joined, lemma_wf_set, lemma_wf_with, lemma_wf_without, place,
};
use crate::segment::nav::{first_from, seg_after};
use crate::segment::ops::SetOperations;
use crate::segment::set::SegmentSet;

verus! {

impl<O: SetOperations> SegmentSet<O> {
    /// Puts a segment at index `i`.
    pub(crate) fn raw_insert(&mut self, i: usize, r: Range, v: O::V)
        requires
            old(self).ranges().len() == old(self).values().len(),
            i <= old(self).ranges().len(),
        ensures
            final(self).model() == old(self).model().with(i as int, r, v@),
    {
        let ghost m = self.model();
        self.keys.insert(i, r);
        self.vals.insert(i, v);
        assert(self.values() =~= m.vs.insert(i as int, v@));
    }

    /// Takes the segment at index `i` out.
    pub(crate) fn raw_remove(&mut self, i: usize) -> (v: O::V)
        requires
            old(self).ranges().len() == old(self).values().len(),
            i < old(self).ranges().len(),
        ensures
            final(self).model() == old(self).model().without(i as int),
            v@ == old(self).values()[i as int],
    {
        let ghost m = self.model();
        self.keys.remove(i);
        let v = self.vals.remove(i);
        assert(self.values() =~= m.vs.remove(i as int));
        v
    }

    /// Replaces the segment at index `i`.
    pub(crate) fn raw_set(&mut self, i: usize, r: Range, v: O::V)
        requires
            old(self).ranges().len() == old(self).values().len(),
            i < old(self).ranges().len(),
        ensures
            final(self).model() == old(self).model().set(i as int, r, v@),
    {
        let ghost m = self.model();
        self.keys.set(i, r);
        self.vals.set(i, v);
        assert(self.values() =~= m.vs.update(i as int, v@));
    }

    /// Puts a segment on `range` into the set, joined to its neighbours where
    /// they merge.
    pub fn insert(&mut self, range: Range, val: O::V) -> (s: Seg)
        requires
            old(self).wf(),
            range.well_formed(),
            range_free(old(self).ranges(), range),
            O::fits(range, val@),
        ensures
            final(self).model() == inserted::<O>(old(self).model(), range, val@),
            range.start < range.end ==> final(self).wf(),
            s == seg_at(
                final(self).ranges(),
                inserted_at::<O>(old(self).model(), range, val@),
            ),
    {
        let ghost m = self.model();
        let i = self.rank_before(Range { start: range.start, end: range.start });
        let n = self.keys.len();
        proof {
            lemma_place(self.ranges(), range);
            assert(i == place(m.ks, range));
        }
        if i > 0 && self.keys[i - 1].end == range.start {
            let prev = self.keys[i - 1];
            assert(O::fits(m.ks[i - 1], m.vs[i - 1]));
            if let Some(v1) = self.operations.merge(prev, &self.vals[i - 1], range, &val) {
                let r1 = Range { start: prev.start, end: range.end };
                if i < n && self.keys[i].start == range.end {
                    let next = self.keys[i];
                    assert(O::fits(m.ks[i as int], m.vs[i as int]));
                    if let Some(v2) = self.operations.merge(r1, &v1, next, &self.vals[i]) {
                        let r2 = Range { start: prev.start, end: next.end };
                        proof {
                            lemma_wf_without::<O>(m, i as int);
                            let w = m.without(i as int);
                            assert(w.ks[i - 1] == m.ks[i - 1]);
                            if i > 1 {
                                assert(w.ks[i - 2] == m.ks[i - 2]);
                            }
                            if i < w.ks.len() {
                                assert(w.ks[i as int] == m.ks[i + 1]);
                            }
                            lemma_wf_set::<O>(w, i - 1, r2, v2@);
                        }
                        let _ = self.raw_remove(i);
                        self.raw_set(i - 1, r2, v2);
                        return self.seg_from(i - 1);
                    }
                }
                proof {
                    if range.start < range.end {
                        lemma_wf_set::<O>(m, i - 1, r1, v1@);
                    }
                }
                self.raw_set(i - 1, r1, v1);
                return self.seg_from(i - 1);
            }
        }
        if i < n && self.keys[i].start == range.end {
            let next = self.keys[i];
            assert(O::fits(m.ks[i as int], m.vs[i as int]));
            if let Some(v2) = self.operations.merge(range, &val, next, &self.vals[i]) {
                let r2 = Range { start: range.start, end: next.end };
                proof {
                    if i > 0 {
                        assert(m.ks[i - 1].end <= range.start);
                    }
                    lemma_wf_set::<O>(m, i as int, r2, v2@);
                }
                self.raw_set(i, r2, v2);
                return self.seg_from(i);
            }
        }
        proof {
            if range.start < range.end {
                lemma_wf_with::<O>(m, i as int, range, val@);
            }
        }
        self.raw_insert(i, range, val);
        self.seg_from(i)
    }

    /// Puts a segment on `range` into the set as it is.
    pub fn insert_without_merging(&mut self, gap: &Gap, range: Range, val: O::V) -> (s: Seg)
        requires
            old(self).wf(),
            range.start < range.end,
            gap.span().covers(range),
            range_free(old(self).ranges(), range),
            O::fits(range, val@),
        ensures
            final(self).model() == old(self).model().with(
                place(old(self).ranges(), range),
                range,
                val@,
            ),
            final(self).wf(),
            s == seg_at(final(self).ranges(), place(old(self).ranges(), range)),
    {
        let i = self.rank_before(Range { start: range.start, end: range.start });
        proof {
            lemma_place(self.ranges(), range);
            lemma_wf_with::<O>(self.model(), i as int, range, val@);
        }
        self.raw_insert(i, range, val);
        self.seg_from(i)
    }

    /// Puts a segment on `range` into the set as [`SegmentSet::insert`] does,
    /// unless a segment meets it.
    pub fn add(&mut self, range: Range, val: O::V) -> (ok: bool)
        requires
            old(self).wf(),
            range.start < range.end,
            O::fits(range, val@),
        ensures
            final(self).wf(),
            ok == range_free(old(self).ranges(), range),
            final(self).model() == (if ok {
                inserted::<O>(old(self).model(), range, val@)
            } else {
                old(self).model()
            }),
    {
        let gap = match self.find_gap(range.start) {
            Some(gap) => gap,
            None => {
                proof {
                    let i = choose|i: int| held_at(self.ranges(), range.start as int, i);
                    assert(self.ranges()[i].meets(range));
                }
                return false;
            },
        };
        let ghost ks = self.ranges();
        let ghost i = choose|i: int| between(ks, range.start as int, i) && gap == gap_at(ks, i);
        proof {
            lemma_between(ks, range.start, i);
        }
        if range.end > gap.end() {
            assert(ks[i].meets(range));
            false
        } else {
            assert forall|j: int| 0 <= j < ks.len() implies !(#[trigger] ks[j]).meets(range) by {
                if i < j {
                    assert(ks[i].end <= ks[j].start);
                    assert(ks[i].start < ks[i].end);
                }
            }
            self.insert(range, val);
            true
        }
    }

    /// Puts a segment on `range` into the set as it is, unless a segment meets
    /// it.
    pub fn add_without_merging(&mut self, range: Range, val: O::V) -> (ok: bool)
        requires
            old(self).wf(),
            range.start < range.end,
            O::fits(range, val@),
        ensures
            final(self).wf(),
            ok == range_free(old(self).ranges(), range),
            final(self).model() == (if ok {
                old(self).model().with(place(old(self).ranges(), range), range, val@)
            } else {
                old(self).model()
            }),
    {
        let gap = match self.find_gap(range.start) {
            Some(gap) => gap,
            None => {
                proof {
                    let i = choose|i: int| held_at(self.ranges(), range.start as int, i);
                    assert(self.ranges()[i].meets(range));
                }
                return false;
            },
        };
        let ghost ks = self.ranges();
        let ghost i = choose|i: int| between(ks, range.start as int, i) && gap == gap_at(ks, i);
        proof {
            lemma_between(ks, range.start, i);
        }
        if range.end > gap.end() {
            assert(ks[i].meets(range));
            false
        } else {
            assert forall|j: int| 0 <= j < ks.len() implies !(#[trigger] ks[j]).meets(range) by {
                if i < j {
                    assert(ks[i].end <= ks[j].start);
                    assert(ks[i].start < ks[i].end);
                }
            }
            self.insert_without_merging(&gap, range, val);
            true
        }
    }

    /// Takes the segment on `seg` out of the set and tells the gap that it
    /// leaves behind.
    pub fn remove(&mut self, seg: Range) -> (g: Gap)
        requires
            old(self).wf(),
            old(self).ranges().contains(seg),
        ensures
            ({
                let i = count_before(old(self).ranges(), seg) as int;
                &&& 0 <= i < old(self).ranges().len()
                &&& old(self).ranges()[i] == seg
                &&& final(self).model() == old(self).model().without(i)
                &&& g == (Gap {
                    range: MaybeRange { start: Some(seg.start), end: Some(seg.end) },
                    prev_key: key_at(old(self).ranges(), i - 1),
                })
            }),
            final(self).wf(),
    {
        let i = match self.position(seg) {
            Some(i) => i,
            None => 0,
        };
        proof {
            lemma_wf_without::<O>(self.model(), i as int);
        }
        let prev_key = self.key_below(i);
        let _ = self.raw_remove(i);
        Gap { range: MaybeRange { start: Some(seg.start), end: Some(seg.end) }, prev_key }
    }

    /// The value of the segment `seg`.
    pub fn value(&self, seg: &Seg) -> (v: &O::V)
        requires
            self.wf(),
            self.ranges().contains(seg.range),
        ensures
            ({
                let i = count_before(self.ranges(), seg.range) as int;
                0 <= i < self.ranges().len() && self.ranges()[i] == seg.range && v@
                    == self.values()[i]
            }),
    {
        let i = match self.position(seg.range) {
            Some(i) => i,
            None => 0,
        };
        &self.vals[i]
    }

    /// The value of the segment `seg`, to be changed.
    pub fn value_mut(&mut self, seg: &Seg) -> (v: &mut O::V)
        requires
            old(self).wf(),
            old(self).ranges().contains(seg.range),
        ensures
            ({
                let i = count_before(old(self).ranges(), seg.range) as int;
                &&& 0 <= i < old(self).ranges().len()
                &&& old(self).ranges()[i] == seg.range
                &&& v@ == old(self).values()[i]
                &&& final(self).ranges() == old(self).ranges()
                &&& final(self).values() == old(self).values().update(i, final(v)@)
            }),
    {
        let i = match self.position(seg.range) {
            Some(i) => i,
            None => 0,
        };
        &mut self.vals[i]
    }

    /// Joins the segments at `i` and `i + 1` where they merge.
    pub(crate) fn join_at(&mut self, i: usize) -> (done: bool)
        requires
            old(self).wf(),
            i + 1 < old(self).ranges().len(),
        ensures
            final(self).wf(),
            final(self).model() == joined::<O>(old(self).model(), i as int),
            done == (join_value::<O>(old(self).model(), i as int) is Some),
    {
        let ghost m = self.model();
        let n = self.keys.len();
        let r1 = self.keys[i];
        let r2 = self.keys[i + 1];
        if r1.end != r2.start {
            return false;
        }
        assert(O::fits(m.ks[i as int], m.vs[i as int]));
        assert(O::fits(m.ks[i + 1], m.vs[i + 1]));
        match self.operations.merge(r1, &self.vals[i], r2, &self.vals[i + 1]) {
            Some(v) => {
                proof {
                    lemma_wf_joined::<O>(m, i as int, v@);
                }
                let _ = self.raw_remove(i + 1);
                self.raw_set(i, Range { start: r1.start, end: r2.end }, v);
                true
            },
            None => false,
        }
    }

    /// Joins two neighbouring segments where they merge.
    pub fn merge_unchecked(&mut self, first: Seg, second: Seg) -> (s: Option<Seg>)
        requires
            old(self).wf(),
            first.range.end == second.range.start ==> old(self).ranges().contains(first.range)
                && old(self).ranges().contains(second.range),
        ensures
            final(self).wf(),
            first.range.end != second.range.start ==> s is None && final(self).model() == old(
                self,
            ).model(),
            first.range.end == second.range.start ==> {
                let i = count_before(old(self).ranges(), first.range) as int;
                &&& 0 <= i
                &&& i + 1 < old(self).ranges().len()
                &&& old(self).ranges()[i] == first.range
                &&& old(self).ranges()[i + 1] == second.range
                &&& final(self).model() == joined::<O>(old(self).model(), i)
                &&& s == (if join_value::<O>(old(self).model(), i) is Some {
                    Some(seg_at(final(self).ranges(), i))
                } else {
                    None
                })
            },
    {
        if first.end() == second.start() {
            let i = match self.position(first.range) {
                Some(i) => i,
                None => 0,
            };
            proof {
                let ks = self.ranges();
                let j = choose|j: int| 0 <= j < ks.len() && ks[j] == second.range;
                if j <= i {
                    if j < i {
                        assert(ks[j].end <= ks[i as int].start);
                    }
                } else if i + 1 < j {
                    assert(ks[i as int].end <= ks[i + 1].start);
                    assert(ks[i + 1].end <= ks[j].start);
                }
                assert(j == i + 1);
            }
            if self.join_at(i) {
                return Some(self.seg_from(i));
            }
        }
        None
    }

    /// Joins the segment `first` and the one that follows it where they merge.
    pub fn merge(&mut self, first: Seg, second: Seg) -> (s: Option<Seg>)
        requires
            old(self).wf(),
            old(self).ranges().contains(first.range),
            seg_after(old(self).ranges(), first.range) matches Some(n) && n.range == second.range,
        ensures
            final(self).wf(),
            ({
                let i = count_before(old(self).ranges(), first.range) as int;
                &&& 0 <= i
                &&& i + 1 < old(self).ranges().len()
                &&& old(self).ranges()[i] == first.range
                &&& old(self).ranges()[i + 1] == second.range
                &&& final(self).model() == joined::<O>(old(self).model(), i)
                &&& s == (if join_value::<O>(old(self).model(), i) is Some {
                    Some(seg_at(final(self).ranges(), i))
                } else {
                    None
                })
            }),
    {
        proof {
            let ks = self.ranges();
            let i = choose|i: int| 0 <= i < ks.len() && ks[i] == first.range;
            lemma_index_of_key(ks, i);
            assert(ks.contains(ks[i + 1]));
        }
        self.merge_unchecked(first, second)
    }

    /// Joins what merges among the segments that hold keys of `r`.
    pub fn merge_range(&mut self, r: Range)
        requires
            old(self).wf(),
        ensures
            final(self).wf(),
            exists|i: int| #[trigger]
                first_from(old(self).ranges(), r.start as int, i) && final(self).model() == (if i
                    < old(self).ranges().len() {
                    joined_run::<O>(old(self).model(), i, r.end)
                } else {
                    old(self).model()
                }),
    {
        let ghost m = self.model();
        let mut i = self.index_past(r.start);
        if i >= self.keys.len() {
            return;
        }
        let ghost i0 = i as int;
        while i < self.keys.len() - 1 && self.keys[i + 1].start < r.end
            invariant
                self.wf(),
                i < self.ranges().len(),
                joined_run::<O>(self.model(), i as int, r.end) == joined_run::<O>(m, i0, r.end),
            decreases self.keys.len() - i,
        {
            let ghost before = self.model();
            if !self.join_at(i) {
                i = i + 1;
            }
        }
    }

    /// Joins the outermost segments of `r` to the ones outside it where they
    /// merge.
    pub fn merge_adjacant(&mut self, r: Range)
        requires
            old(self).wf(),
            0 < r.end,
        ensures
            final(self).wf(),
            final(self).model() == joined_outside::<O>(old(self).model(), r),
    {
        let ghost m = self.model();
        if let Some(i) = self.index_holding(r.start) {
            if i > 0 {
                self.join_at(i - 1);
            }
        }
        let ghost m1 = self.model();
        if let Some(j) = self.index_holding(r.end - 1) {
            if j < self.keys.len() - 1 {
                self.join_at(j);
            }
        }
    }

    /// The index of the segment that holds `key`.
    pub(crate) fn index_holding(&self, key: u64) -> (i: Option<usize>)
        requires
            self.wf(),
        ensures
            match i {
                Some(i) => held_at(self.ranges(), key as int, i as int) && i == holder(
                    self.ranges(),
                    key as int,
                ),
                None => free(self.ranges(), key as int) && holder(self.ranges(), key as int)
                    == self.ranges().len(),
            },
    {
        let ghost ks = self.ranges();
        match self.find_segment(key) {
            Some(s) => {
                let p = self.position(s.range);
                proof {
                    let h = choose|h: int| held_at(ks, key as int, h) && s == seg_at(ks, h);
                    assert(ks.contains(ks[h]));
                    holder_is_unique(ks, key as int, h, p.unwrap() as int);
                    lemma_holder(ks, key as int, h);
                }
                p
            },
            None => None,
        }
    }

    /// Cuts the segment at index `i`.
    pub(crate) fn cut_at(&mut self, i: usize, k: u64)
        requires
            old(self).wf(),
            i < old(self).ranges().len(),
            old(self).ranges()[i as int].cuttable(k as int),
        ensures
            final(self).wf(),
            final(self).model() == cut::<O>(old(self).model(), i as int, k),
    {
        let ghost m = self.model();
        let n = self.keys.len();
        let r = self.keys[i];
        assert(O::fits(m.ks[i as int], m.vs[i as int]));
        let (v1, v2) = self.operations.split(r, &self.vals[i], k);
        proof {
            lemma_wf_cut::<O>(m, i as int, k);
        }
        self.raw_set(i, Range { start: r.start, end: k }, v1);
        self.raw_insert(i + 1, Range { start: k, end: r.end }, v2);
    }

    /// Cuts the segment `seg` at `split`, which lies strictly inside it.
    pub fn split_unchecked(&mut self, seg: &Seg, split: u64) -> (s: (Seg, Seg))
        requires
            old(self).wf(),
            old(self).ranges().contains(seg.range),
            seg.range.cuttable(split as int),
        ensures
            final(self).wf(),
            ({
                let i = count_before(old(self).ranges(), seg.range) as int;
                &&& 0 <= i < old(self).ranges().len()
                &&& old(self).ranges()[i] == seg.range
                &&& final(self).model() == cut::<O>(old(self).model(), i, split)
                &&& s.0 == seg_at(final(self).ranges(), i)
                &&& s.1 == seg_at(final(self).ranges(), i + 1)
            }),
    {
        let i = match self.position(seg.range) {
            Some(i) => i,
            None => 0,
        };
        self.cut_at(i, split);
        let n = self.keys.len();
        (self.seg_from(i), self.seg_from(i + 1))
    }

    /// Cuts the segment `seg` at the bounds of `range` that lie inside it, and
    /// tells the part that lies within `range`.
    pub fn isolate(&mut self, seg: &Seg, range: Range) -> (s: Seg)
        requires
            old(self).wf(),
            seg.range.cuttable(range.start as int) || seg.range.cuttable(range.end as int) ==> old(
                self,
            ).ranges().contains(seg.range),
        ensures
            final(self).wf(),
            !seg.range.cuttable(range.start as int) && !seg.range.cuttable(range.end as int) ==> s
                == *seg && final(self).model() == old(self).model(),
            seg.range.cuttable(range.start as int) || seg.range.cuttable(range.end as int) ==> {
                let i = count_before(old(self).ranges(), seg.range) as int;
                let j = cut_start_at(old(self).model(), i, range);
                &&& 0 <= i < old(self).ranges().len()
                &&& old(self).ranges()[i] == seg.range
                &&& final(self).model() == isolated::<O>(old(self).model(), i, range)
                &&& 0 <= j < final(self).ranges().len()
                &&& s == seg_at(final(self).ranges(), j)
            },
            s.range == isolated_range(seg.range, range),
    {
        let mut seg = *seg;
        let ghost m = self.model();
        let ghost ks = self.ranges();
        let ghost i = count_before(ks, seg.range) as int;
        proof {
            if ks.contains(seg.range) {
                let h = choose|h: int| 0 <= h < ks.len() && ks[h] == seg.range;
                lemma_index_of_key(ks, h);
            }
        }
        if seg.range.can_split_at(range.start) {
            let (_, upper) = self.split_unchecked(&seg, range.start);
            seg = upper;
        }
        let ghost m1 = self.model();
        let ghost j = cut_start_at(m, i, range);
        if seg.range.can_split_at(range.end) {
            proof {
                if ks.contains(m.ks[i]) {
                    assert(m1.ks[j] == seg.range);
                    assert(m1.ks.contains(m1.ks[j]));
                    lemma_index_of_key(m1.ks, j);
                }
            }
            let (lower, _) = self.split_unchecked(&seg, range.end);
            seg = lower;
        }
        seg
    }
}

/// The part of `s` that lies within the bounds of `r`.
pub open spec fn isolated_range(s: Range, r: Range) -> Range {
    let lo = if s.cuttable(r.start as int) {
        r.start
    } else {
        s.start
    };
    let s1 = Range { start: lo, end: s.end };
    if s1.cuttable(r.end as int) {
        Range { start: lo, end: r.end }
    } else {
        s1
    }
}

/// In sorted keys a key's index is the number of keys before it.
pub proof fn lemma_index_of_key(ks: Seq<Range>, i: int)
    requires
        sorted(ks),
        0 <= i < ks.len(),
    ensures
        count_before(ks, ks[i]) == i,
        count_through(ks, ks[i]) == i + 1,
{
    let r = ks[i];
    assert forall|j: int| 0 <= j < i implies (#[trigger] ks[j]).before(r) by {
        assert(ks[j].end <= ks[i].start);
    }
    assert forall|j: int| i <= j < ks.len() implies !(#[trigger] ks[j]).before(r) by {
        if i < j {
            assert(ks[i].end <= ks[j].start);
        }
    }
    assert(parts_before(ks, r, i));
    lemma_count_before_unique(ks, r, i);
    assert forall|j: int| i + 1 <= j < ks.len() implies r.before(#[trigger] ks[j]) by {
        assert(ks[i].end <= ks[j].start);
    }
    assert(parts_through(ks, r, i + 1));
    lemma_count_through_unique(ks, r, i + 1);
}

/// The copies that `Clone` makes of a value show what the value shows.
pub open spec fn clone_keeps_view<V: View + Clone>() -> bool {
    forall|a: V, b: V| #[trigger] cloned(a, b) ==> b@ == a@
}

impl<O: SetOperations> SegmentSet<O> where O::V: Clone {
    /// Cuts the segment that holds `split` there, with its value on both sides.
    /// Nothing is done where `split` lies strictly inside no segment.
    pub fn split_at(&mut self, split: u64) -> (done: bool)
        requires
            old(self).wf(),
            clone_keeps_view::<O::V>(),
        ensures
            done == exists|i: int|
                0 <= i < old(self).ranges().len() && (#[trigger] old(self).ranges()[i]).cuttable(
                    split as int,
                ),
            !done ==> final(self).model() == old(self).model(),
            done ==> {
                let m = old(self).model();
                let i = holder(m.ks, split as int);
                let lower = Range { start: m.ks[i].start, end: split };
                let upper = Range { start: split, end: m.ks[i].end };
                &&& 0 <= i < m.ks.len()
                &&& m.ks[i].cuttable(split as int)
                &&& final(self).model() == m.set(i, lower, m.vs[i]).with(i + 1, upper, m.vs[i])
                &&& sorted(final(self).ranges())
                &&& O::fits(lower, m.vs[i]) && O::fits(upper, m.vs[i]) ==> final(self).wf()
            },
    {
        let ghost m = self.model();
        let ghost ks = m.ks;
        let i = match self.index_holding(split) {
            Some(i) => i,
            None => {
                assert forall|j: int| 0 <= j < ks.len() implies !(#[trigger] ks[j]).cuttable(
                    split as int,
                ) by {
                    assert(!ks[j].has(split as int));
                }
                return false;
            },
        };
        let n = self.keys.len();
        let r = self.keys[i];
        if !r.can_split_at(split) {
            assert forall|j: int| 0 <= j < ks.len() implies !(#[trigger] ks[j]).cuttable(
                split as int,
            ) by {
                if ks[j].cuttable(split as int) {
                    holder_is_unique(ks, split as int, i as int, j);
                }
            }
            return false;
        }
        let lower = Range { start: r.start, end: split };
        let upper = Range { start: split, end: r.end };
        let v = self.vals[i].clone();
        proof {
            assert(cloned(self.vals@[i as int], v));
            assert(v@ == m.vs[i as int]);
            lemma_sorted_update(ks, i as int, lower);
            let n = ks.update(i as int, lower);
            if i + 1 < n.len() {
                assert(n[i + 1] == ks[i + 1]);
            }
            lemma_sorted_insert(n, i + 1, upper);
            if O::fits(lower, m.vs[i as int]) && O::fits(upper, m.vs[i as int]) {
                lemma_wf_set::<O>(m, i as int, lower, m.vs[i as int]);
                lemma_wf_with::<O>(
                    m.set(i as int, lower, m.vs[i as int]),
                    i + 1,
                    upper,
                    m.vs[i as int],
                );
            }
        }
        let v0 = self.raw_remove(i);
        self.raw_insert(i, lower, v);
        self.raw_insert(i + 1, upper, v0);
        assert(self.model() =~= m.set(i as int, lower, m.vs[i as int]).with(
            i + 1,
            upper,
            m.vs[i as int],
        ));
        true
    }
}

} // verus!
