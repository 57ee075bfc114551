use vstd::prelude::*;

use crate::range::Range;

verus! {

/// How the values of neighbouring segments are joined, and how a segment's
/// value is shared out when the segment is cut.
pub trait SetOperations {
    type V: View;

    /// What must hold of a value for it to stand on range `r`.
    spec fn fits(r: Range, v: <Self::V as View>::V) -> bool;

    /// The value of the joined segment, or nothing where the two are to stay
    /// apart.
    spec fn merged(
        r1: Range,
        v1: <Self::V as View>::V,
        r2: Range,
        v2: <Self::V as View>::V,
    ) -> Option<<Self::V as View>::V>;

    /// The value of the part of `r` that lies below `split`.
    spec fn lower(r: Range, v: <Self::V as View>::V, split: u64) -> <Self::V as View>::V;

    /// The value of the part of `r` that starts at `split`.
    spec fn upper(r: Range, v: <Self::V as View>::V, split: u64) -> <Self::V as View>::V;

    fn merge(&self, r1: Range, v1: &Self::V, r2: Range, v2: &Self::V) -> (res: Option<Self::V>)
        requires
            r1.well_formed(),
            r2.well_formed(),
            r1.end == r2.start,
            Self::fits(r1, v1@),
            Self::fits(r2, v2@),
        ensures
            match res {
                Some(m) => {
                    &&& Self::merged(r1, v1@, r2, v2@) == Some(m@)
                    &&& Self::fits(Range { start: r1.start, end: r2.end }, m@)
                },
                None => Self::merged(r1, v1@, r2, v2@) is None,
            },
    ;

    fn split(&self, r: Range, v: &Self::V, split: u64) -> (res: (Self::V, Self::V))
        requires
            r.cuttable(split as int),
            Self::fits(r, v@),
        ensures
            res.0@ == Self::lower(r, v@, split),
            res.1@ == Self::upper(r, v@, split),
            Self::fits(Range { start: r.start, end: split }, res.0@),
            Self::fits(Range { start: split, end: r.end }, res.1@),
    ;
}

/// Segments given column by column, in ascending order.
pub struct SegmentDataSlices<V> {
    pub start: Vec<u64>,
    pub end: Vec<u64>,
    pub values: Vec<V>,
}

impl<V> Default for SegmentDataSlices<V> {
    fn default() -> (s: Self)
        ensures
            s.start@.len() == 0,
            s.end@.len() == 0,
            s.values@.len() == 0,
    {
        SegmentDataSlices { start: Vec::new(), end: Vec::new(), values: Vec::new() }
    }
}

} // verus!
