use vstd::prelude::*;

use crate::range::Range;
use crate::segment::keys::{
    count_before, count_through, gap_at, key_at, lemma_count_before_unique,
    lemma_count_through_unique, parts_before, parts_through, seg_at, sorted, Gap, MaybeRange, Seg,
};
use crate::segment::model::{wf_segments, Segments};
use crate::segment::ops::SetOperations;

verus! {

/// A map from disjoint ranges of keys to values. Neighbouring segments are
/// joined, and a segment is cut, as the operations `O` say.
pub struct SegmentSet<O: SetOperations> {
    pub(crate) keys: Vec<Range>,
    pub(crate) vals: Vec<O::V>,
    pub(crate) operations: O,
}

impl<O: SetOperations> SegmentSet<O> {
    /// The ranges of the segments, in ascending order.
    pub open(crate) spec fn ranges(&self) -> Seq<Range> {
        self.keys@
    }

    /// The values of the segments, in the order of their ranges.
    pub open(crate) spec fn values(&self) -> Seq<<O::V as View>::V> {
        self.vals@.map_values(|v: O::V| v@)
    }

    /// The segments, as a sequence of ranges beside a sequence of values.
    pub open spec fn model(&self) -> Segments<<O::V as View>::V> {
        Segments { ks: self.ranges(), vs: self.values() }
    }

    /// The ranges are sorted, and each segment has a value that fits it.
    pub open spec fn wf(&self) -> bool {
        wf_segments::<O>(self.model())
    }

    pub fn new(operations: O) -> (s: Self)
        ensures
            s.wf(),
            s.ranges() == Seq::<Range>::empty(),
            s.values() == Seq::<<O::V as View>::V>::empty(),
    {
        let s = SegmentSet { keys: Vec::new(), vals: Vec::new(), operations };
        assert(s.values() =~= Seq::<<O::V as View>::V>::empty());
        s
    }

    /// The ranges of the segments, in ascending order.
    pub fn inner_keys(&self) -> (ks: &Vec<Range>)
        ensures
            ks@ == self.ranges(),
    {
        &self.keys
    }

    /// The values of the segments, in the order of their ranges.
    pub fn inner_values(&self) -> (vs: &Vec<O::V>)
        ensures
            vs@.map_values(|v: O::V| v@) == self.values(),
    {
        &self.vals
    }

    pub fn is_empty(&self) -> (b: bool)
        ensures
            b == (self.ranges().len() == 0),
    {
        self.keys.len() == 0
    }

    pub fn count_segments(&self) -> (n: usize)
        ensures
            n == self.ranges().len(),
    {
        self.keys.len()
    }

    /// The number of segments that are ordered before `r`.
    pub(crate) fn rank_before(&self, r: Range) -> (c: usize)
        requires
            sorted(self.ranges()),
        ensures
            c == count_before(self.ranges(), r),
            parts_before(self.ranges(), r, c as int),
    {
        let mut lo: usize = 0;
        let mut hi: usize = self.keys.len();
        while lo < hi
            invariant
                lo <= hi <= self.keys@.len(),
                sorted(self.keys@),
                forall|i: int| 0 <= i < lo ==> (#[trigger] self.keys@[i]).before(r),
                forall|i: int| hi <= i < self.keys@.len() ==> !(#[trigger] self.keys@[i]).before(r),
            decreases hi - lo,
        {
            let mid: usize = lo + (hi - lo) / 2;
            if self.keys[mid].precedes(&r) {
                assert forall|i: int| 0 <= i < mid + 1 implies (#[trigger] self.keys@[i]).before(
                    r,
                ) by {
                    if i < mid {
                        assert(self.keys@[i].end <= self.keys@[mid as int].start);
                    }
                }
                lo = mid + 1;
            } else {
                assert forall|i: int| mid <= i < self.keys@.len() implies !(
                #[trigger] self.keys@[i]).before(r) by {
                    if mid < i {
                        assert(self.keys@[mid as int].end <= self.keys@[i].start);
                    }
                }
                hi = mid;
            }
        }
        proof {
            lemma_count_before_unique(self.ranges(), r, lo as int);
        }
        lo
    }

    /// The number of segments that are ordered before `r` or equal it.
    pub(crate) fn rank_through(&self, r: Range) -> (c: usize)
        requires
            sorted(self.ranges()),
        ensures
            c == count_through(self.ranges(), r),
            parts_through(self.ranges(), r, c as int),
    {
        let c = self.rank_before(r);
        if c < self.keys.len() && self.keys[c] == r {
            assert forall|i: int| c + 1 <= i < self.keys@.len() implies r.before(
                #[trigger] self.keys@[i],
            ) by {
                assert(self.keys@[c as int].end <= self.keys@[i].start);
            }
            proof {
                lemma_count_through_unique(self.ranges(), r, c + 1);
            }
            c + 1
        } else {
            assert forall|i: int| c <= i < self.keys@.len() implies r.before(
                #[trigger] self.keys@[i],
            ) by {
                if c < i {
                    assert(self.keys@[c as int].end <= self.keys@[i].start);
                    assert(!self.keys@[c as int].before(r));
                }
            }
            proof {
                lemma_count_through_unique(self.ranges(), r, c as int);
            }
            c
        }
    }

    /// The key just below index `i`.
    pub(crate) fn key_below(&self, i: usize) -> (k: Option<Range>)
        requires
            i <= self.ranges().len(),
        ensures
            k == key_at(self.ranges(), i - 1),
    {
        if i == 0 {
            None
        } else {
            Some(self.keys[i - 1])
        }
    }

    /// The key at index `i`.
    pub(crate) fn key_from(&self, i: usize) -> (k: Option<Range>)
        ensures
            k == key_at(self.ranges(), i as int),
    {
        if i < self.keys.len() {
            Some(self.keys[i])
        } else {
            None
        }
    }

    /// The segment at index `i`.
    pub(crate) fn seg_from(&self, i: usize) -> (s: Seg)
        requires
            i < self.ranges().len(),
        ensures
            s == seg_at(self.ranges(), i as int),
    {
        let n = self.keys.len();
        let next_key = if i + 1 < n {
            Some(self.keys[i + 1])
        } else {
            None
        };
        Seg { range: self.keys[i], prev_key: self.key_below(i), next_key }
    }

    /// The gap below index `i`.
    pub(crate) fn gap_from(&self, i: usize) -> (g: Gap)
        requires
            i <= self.ranges().len(),
        ensures
            g == gap_at(self.ranges(), i as int),
    {
        let start = if i == 0 {
            None
        } else {
            Some(self.keys[i - 1].end)
        };
        let end = if i < self.keys.len() {
            Some(self.keys[i].start)
        } else {
            None
        };
        Gap { range: MaybeRange { start, end }, prev_key: self.key_below(i) }
    }

    /// The index of the segment whose range is `r`.
    pub(crate) fn position(&self, r: Range) -> (i: Option<usize>)
        requires
            sorted(self.ranges()),
        ensures
            match i {
                Some(i) => i < self.ranges().len() && self.ranges()[i as int] == r && i
                    == count_before(self.ranges(), r),
                None => !self.ranges().contains(r),
            },
    {
        let c = self.rank_before(r);
        if c < self.keys.len() && self.keys[c] == r {
            Some(c)
        } else {
            assert forall|i: int| 0 <= i < self.keys@.len() implies self.keys@[i] != r by {
                if c < i {
                    assert(self.keys@[c as int].end <= self.keys@[i].start);
                    assert(!self.keys@[c as int].before(r));
                } else if i < c {
                    assert(self.keys@[i].before(r));
                }
            }
            None
        }
    }
}

} // verus!
