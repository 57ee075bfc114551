use vstd::prelude::*;

use crate::access::AccessType;
use crate::block::{flat, BlockSeq};
use crate::range::Range;
use crate::segment::point::PointOperations;
use crate::segment::total::lasting;
use crate::segment::{SegmentSet, SetOperations};

verus! {

/// A platform mapping area: where the memory behind a range of addresses lies.
/// The file goes by its number.
#[derive(Debug)]
pub struct Pma {
    pub file: u64,
    pub off: u64,
    pub translate_perms: AccessType,
    pub effective_perms: AccessType,
    pub max_perms: AccessType,
    pub internal_mappings: BlockSeq,
    pub private: bool,
    pub need_cow: bool,
}

/// A platform mapping area, with the host address of each of its bytes once
/// they are mapped.
#[verifier::ext_equal]
pub ghost struct PmaView {
    pub file: u64,
    pub off: u64,
    pub translate_perms: AccessType,
    pub effective_perms: AccessType,
    pub max_perms: AccessType,
    pub host: Seq<int>,
    pub private: bool,
    pub need_cow: bool,
}

/// The memory behind one address.
pub ghost struct PmaPoint {
    pub file: u64,
    pub off: int,
    pub translate_perms: AccessType,
    pub effective_perms: AccessType,
    pub max_perms: AccessType,
    pub private: bool,
    pub need_cow: bool,
}

impl View for Pma {
    type V = PmaView;

    open spec fn view(&self) -> PmaView {
        PmaView {
            file: self.file,
            off: self.off,
            translate_perms: self.translate_perms,
            effective_perms: self.effective_perms,
            max_perms: self.max_perms,
            host: flat(self.internal_mappings@),
            private: self.private,
            need_cow: self.need_cow,
        }
    }
}

impl Pma {
    pub fn duplicate(&self) -> (p: Self)
        ensures
            p@ == self@,
            p.internal_mappings@ == self.internal_mappings@,
    {
        Pma {
            file: self.file,
            off: self.off,
            translate_perms: self.translate_perms,
            effective_perms: self.effective_perms,
            max_perms: self.max_perms,
            internal_mappings: self.internal_mappings.duplicate(),
            private: self.private,
            need_cow: self.need_cow,
        }
    }
}

impl PmaView {
    /// The area at address `k`, for an area that starts at `start`.
    pub open spec fn at(self, start: u64, k: int) -> PmaPoint {
        PmaPoint {
            file: self.file,
            off: self.off + (k - start),
            translate_perms: self.translate_perms,
            effective_perms: self.effective_perms,
            max_perms: self.max_perms,
            private: self.private,
            need_cow: self.need_cow,
        }
    }
}

/// Neighbouring areas that look alike and lie next to each other in a file are
/// one.
pub struct PmaSetOperations;

impl SetOperations for PmaSetOperations {
    type V = Pma;

    open spec fn fits(r: Range, v: PmaView) -> bool {
        &&& v.off + r.length() <= u64::MAX
        &&& v.host.len() == 0 || v.host.len() == r.length()
    }

    open spec fn merged(r1: Range, v1: PmaView, r2: Range, v2: PmaView) -> Option<PmaView> {
        if v1.file != v2.file || v1.off + r1.length() != v2.off || v1.translate_perms
            != v2.translate_perms || v1.effective_perms != v2.effective_perms || v1.max_perms
            != v2.max_perms || v1.need_cow != v2.need_cow || v1.private != v2.private {
            None
        } else {
            Some(PmaView { host: Seq::empty(), ..v1 })
        }
    }

    open spec fn lower(r: Range, v: PmaView, split: u64) -> PmaView {
        PmaView {
            host: if v.host.len() == 0 {
                v.host
            } else {
                v.host.take(split - r.start)
            },
            ..v
        }
    }

    open spec fn upper(r: Range, v: PmaView, split: u64) -> PmaView {
        PmaView {
            off: (v.off + (split - r.start)) as u64,
            host: if v.host.len() == 0 {
                v.host
            } else {
                v.host.skip(split - r.start)
            },
            ..v
        }
    }

    fn merge(&self, r1: Range, v1: &Pma, r2: Range, v2: &Pma) -> (res: Option<Pma>) {
        proof {
            assert(Self::fits(r1, v1@) && Self::fits(r2, v2@));
            let m = Self::merged(r1, v1@, r2, v2@);
        }
        if v1.file != v2.file || v1.off + (r1.end - r1.start) != v2.off || v1.translate_perms
            != v2.translate_perms || v1.effective_perms != v2.effective_perms || v1.max_perms
            != v2.max_perms || v1.need_cow != v2.need_cow || v1.private != v2.private {
            None
        } else {
            Some(
                Pma {
                    file: v1.file,
                    off: v1.off,
                    translate_perms: v1.translate_perms,
                    effective_perms: v1.effective_perms,
                    max_perms: v1.max_perms,
                    internal_mappings: BlockSeq::new(),
                    private: v1.private,
                    need_cow: v1.need_cow,
                },
            )
        }
    }

    fn split(&self, r: Range, v: &Pma, split: u64) -> (res: (Pma, Pma)) {
        proof {
            assert(Self::fits(r, v@));
            let parts = (Self::lower(r, v@, split), Self::upper(r, v@, split));
        }
        let newlen1 = split - r.start;
        let mut v1 = v.duplicate();
        let mut v2 = v.duplicate();
        v2.off = v2.off + newlen1;
        if !v.internal_mappings.is_empty() {
            v1.internal_mappings = v.internal_mappings.take_first64(newlen1);
            v2.internal_mappings = v.internal_mappings.cut_first(newlen1);
        }
        (v1, v2)
    }
}

impl PointOperations for PmaSetOperations {
    type P = PmaPoint;

    open spec fn at(r: Range, v: PmaView, k: int) -> PmaPoint {
        v.at(r.start, k)
    }

    proof fn merge_keeps(
        r1: Range,
        v1: PmaView,
        r2: Range,
        v2: PmaView,
        v: PmaView,
        k: int,
    ) {
    }

    proof fn split_keeps(r: Range, v: PmaView, split: u64, k: int) {
    }
}

pub type PmaSet = SegmentSet<PmaSetOperations>;

/// Every area counts.
pub open spec fn any_pma() -> spec_fn(PmaView) -> bool {
    |v: PmaView| true
}

pub proof fn lemma_pma_properties_last()
    ensures
        lasting::<PmaSetOperations>(any_pma()),
{
}

} // verus!
