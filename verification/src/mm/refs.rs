use vstd::prelude::*;

use crate::range::Range;
use crate::segment::point::PointOperations;
use crate::segment::{SegmentSet, SetOperations};

verus! {

/// How often a part of a file is referred to.
#[derive(Debug, Clone, Copy, PartialEq, Eq, Structural)]
pub struct Refcount(pub i32);

impl View for Refcount {
    type V = i32;

    open spec fn view(&self) -> i32 {
        self.0
    }
}

/// Neighbouring parts that are referred to equally often are one.
pub struct FileRefcountSetOperations;

impl SetOperations for FileRefcountSetOperations {
    type V = Refcount;

    open spec fn fits(r: Range, v: i32) -> bool {
        true
    }

    open spec fn merged(r1: Range, v1: i32, r2: Range, v2: i32) -> Option<i32> {
        if v1 == v2 {
            Some(v1)
        } else {
            None
        }
    }

    open spec fn lower(r: Range, v: i32, split: u64) -> i32 {
        v
    }

    open spec fn upper(r: Range, v: i32, split: u64) -> i32 {
        v
    }

    fn merge(&self, r1: Range, v1: &Refcount, r2: Range, v2: &Refcount) -> (res: Option<Refcount>) {
        proof {
            assert(Self::fits(r1, v1@) && Self::fits(r2, v2@));
            let m = Self::merged(r1, v1@, r2, v2@);
        }
        if v1.0 == v2.0 {
            Some(*v1)
        } else {
            None
        }
    }

    fn split(&self, r: Range, v: &Refcount, split: u64) -> (res: (Refcount, Refcount)) {
        proof {
            assert(Self::fits(r, v@));
            let parts = (Self::lower(r, v@, split), Self::upper(r, v@, split));
        }
        (*v, *v)
    }
}

impl PointOperations for FileRefcountSetOperations {
    type P = i32;

    open spec fn at(r: Range, v: i32, k: int) -> i32 {
        v
    }

    proof fn merge_keeps(r1: Range, v1: i32, r2: Range, v2: i32, v: i32, k: int) {
    }

    proof fn split_keeps(r: Range, v: i32, split: u64, k: int) {
    }
}

pub type FileRefcountSet = SegmentSet<FileRefcountSetOperations>;

/// The private memory that memory managers share.
pub struct PrivateRefs {
    pub refs: FileRefcountSet,
}

impl PrivateRefs {
    pub fn new() -> (p: Self)
        ensures
            p.refs.wf(),
            p.refs.ranges() == Seq::<Range>::empty(),
    {
        PrivateRefs { refs: SegmentSet::new(FileRefcountSetOperations) }
    }
}

} // verus!
