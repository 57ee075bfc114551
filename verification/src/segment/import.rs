use vstd::prelude::*;

use crate::range::Range;
use crate::segment::keys::{gap_at, lemma_between, Gap};
use crate::segment::model::{place, Segments};
use crate::segment::ops::{SegmentDataSlices, SetOperations};
use crate::segment::set::SegmentSet;

verus! {

/// Why segments could not be taken over.
#[derive(Debug, Clone, Copy, PartialEq, Eq, Structural)]
pub enum ImportError {
    /// The set already holds segments.
    NotEmpty,
    /// A segment meets an earlier one or comes before it.
    Unsorted { start: u64, end: u64 },
}

impl<V> SegmentDataSlices<V> {
    /// The range of the `i`-th segment.
    pub open spec fn key(&self, i: int) -> Range {
        Range { start: self.start@[i], end: self.end@[i] }
    }

    /// The columns are of one length, no segment is empty, and only the last
    /// may reach the greatest key.
    pub open spec fn complete(&self) -> bool {
        let n = self.start@.len() as int;
        &&& n <= self.end@.len()
        &&& n <= self.values@.len()
        &&& forall|i: int| 0 <= i < n ==> (#[trigger] self.key(i)).start < self.key(i).end
        &&& forall|i: int| 0 <= i < n - 1 ==> (#[trigger] self.key(i)).end < u64::MAX
    }

    /// The first `n` segments come one after the other.
    pub open spec fn ascends(&self, n: int) -> bool {
        forall|i: int| 0 < i < n ==> self.key(i - 1).end <= (#[trigger] self.key(i)).start
    }
}

impl<O: SetOperations> SegmentSet<O> where O::V: Copy {
    /// Takes the given segments over into an empty set. Where one of them is
    /// out of order, the ones before it stay in the set.
    pub fn import_sorted_slices(&mut self, slices: &SegmentDataSlices<O::V>) -> (res: Result<
        (),
        ImportError,
    >)
        requires
            old(self).wf(),
            slices.complete(),
            forall|i: int|
                0 <= i < slices.start@.len() ==> O::fits(
                    #[trigger] slices.key(i),
                    slices.values@[i]@,
                ),
        ensures
            final(self).wf(),
            match res {
                Err(ImportError::NotEmpty) => old(self).ranges().len() > 0 && final(self).model()
                    == old(self).model(),
                Err(ImportError::Unsorted { start, end }) => {
                    &&& old(self).ranges().len() == 0
                    &&& exists|n: int|
                        {
                            &&& 0 < n < slices.start@.len()
                            &&& slices.ascends(n)
                            &&& slices.key(n).start < slices.key(n - 1).end
                            &&& slices.key(n) == (Range { start, end })
                            &&& final(self).model() == #[trigger] imported::<O>(*slices, n)
                        }
                },
                Ok(()) => {
                    &&& old(self).ranges().len() == 0
                    &&& slices.ascends(slices.start@.len() as int)
                    &&& final(self).model() == imported::<O>(*slices, slices.start@.len() as int)
                },
            },
    {
        if !self.is_empty() {
            return Err(ImportError::NotEmpty);
        }
        let n = slices.start.len();
        let mut i: usize = 0;
        let mut gap_maybe = self.first_gap();
        assert(self.model() =~= imported::<O>(*slices, 0));
        while i < n
            invariant
                n == slices.start@.len(),
                i <= n,
                slices.complete(),
                forall|i: int|
                    0 <= i < slices.start@.len() ==> O::fits(
                        #[trigger] slices.key(i),
                        slices.values@[i]@,
                    ),
                old(self).ranges().len() == 0,
                self.wf(),
                slices.ascends(i as int),
                self.model() == imported::<O>(*slices, i as int),
                i < n ==> (gap_maybe matches Some(g) && g.lo() == gap_at(
                    self.ranges(),
                    i as int,
                ).lo() && g.hi() == u64::MAX),
            decreases n - i,
        {
            let gap = match gap_maybe {
                Some(g) => g,
                None => Gap::minimum(),
            };
            let r = Range { start: slices.start[i], end: slices.end[i] };
            assert(slices.key(i as int) == r);
            if !gap.range().is_superset_of(&r) {
                if i > 0 {
                    assert(self.ranges()[i - 1] == slices.key(i - 1));
                }
                return Err(ImportError::Unsorted { start: r.start, end: r.end });
            }
            let ghost ks = self.ranges();
            proof {
                crate::segment::search::lemma_in_gap_is_free(ks, i as int, r);
                if i > 0 {
                    assert(ks[i - 1] == slices.key(i - 1));
                    assert(crate::segment::keys::between(ks, r.start as int, i as int));
                }
                lemma_between(ks, r.start, i as int);
                assert(place(ks, r) == i);
            }
            let v = slices.values[i];
            let ghost m = self.model();
            let seg = self.insert_without_merging(&gap, r, v);
            assert(self.model() =~= imported::<O>(*slices, i + 1));
            gap_maybe = self.next_gap_of_seg(&seg);
            proof {
                crate::segment::edit::lemma_index_of_key(self.ranges(), i as int);
            }
            i = i + 1;
        }
        Ok(())
    }
}

/// The first `n` of the given segments.
pub open spec fn imported<O: SetOperations>(
    slices: SegmentDataSlices<O::V>,
    n: int,
) -> Segments<<O::V as View>::V> {
    Segments {
        ks: Seq::new(n as nat, |i: int| slices.key(i)),
        vs: Seq::new(n as nat, |i: int| slices.values@[i]@),
    }
}

} // verus!
