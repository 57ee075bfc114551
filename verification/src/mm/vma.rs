use vstd::prelude::*;

use crate::access::AccessType;
use crate::memmap::MLockMode;
use crate::range::Range;
use crate::segment::point::PointOperations;
use crate::segment::total::lasting;
use crate::segment::{SegmentSet, SetOperations};

verus! {

/// How memory is placed on the nodes of a machine.
#[derive(Debug, Clone, Copy, PartialEq, Eq, Structural, Default)]
pub struct NumaPolicy(pub i32);

/// A virtual memory area: what an application sees at a range of addresses.
/// The object that is mapped there, if any, goes by its number.
#[derive(Debug, Clone, Copy, PartialEq, Eq, Structural)]
pub struct Vma {
    pub mappable: Option<u64>,
    pub off: u64,
    pub real_perms: AccessType,
    pub effective_perms: AccessType,
    pub max_perms: AccessType,
    pub private: bool,
    pub grows_down: bool,
    pub mlock_mode: MLockMode,
    pub numa_policy: NumaPolicy,
    pub numa_nodemask: u64,
}

impl View for Vma {
    type V = Vma;

    open spec fn view(&self) -> Vma {
        *self
    }
}

impl Vma {
    /// A write to the area reaches the mapped object.
    pub open spec fn writes_through(self) -> bool {
        !self.private && self.max_perms.write
    }

    /// The area counts as data of the application.
    pub open spec fn private_data(self) -> bool {
        self.real_perms.write && self.private && !self.grows_down
    }

    pub open spec fn locked(self) -> bool {
        self.mlock_mode != MLockMode::None_
    }

    /// The area at address `k`, for an area that starts at `start`: the offset
    /// is that of the address.
    pub open spec fn at(self, start: u64, k: int) -> VmaPoint {
        VmaPoint {
            mappable: self.mappable,
            off: if self.mappable is Some {
                self.off + (k - start)
            } else {
                0
            },
            real_perms: self.real_perms,
            max_perms: self.max_perms,
            private: self.private,
            grows_down: self.grows_down,
            mlock_mode: self.mlock_mode,
            numa_policy: self.numa_policy,
            numa_nodemask: self.numa_nodemask,
        }
    }

    pub fn can_write_mappable(&self) -> (b: bool)
        ensures
            b == self.writes_through(),
    {
        !self.private && self.max_perms.write
    }

    pub fn is_private_data(&self) -> (b: bool)
        ensures
            b == self.private_data(),
    {
        self.real_perms.write && self.private && !self.grows_down
    }

    pub fn is_locked(&self) -> (b: bool)
        ensures
            b == self.locked(),
    {
        self.mlock_mode != MLockMode::None_
    }
}

/// What an application sees at one address.
pub ghost struct VmaPoint {
    pub mappable: Option<u64>,
    pub off: int,
    pub real_perms: AccessType,
    pub max_perms: AccessType,
    pub private: bool,
    pub grows_down: bool,
    pub mlock_mode: MLockMode,
    pub numa_policy: NumaPolicy,
    pub numa_nodemask: u64,
}

impl VmaPoint {
    pub open spec fn effective_perms(self) -> AccessType {
        self.real_perms.granted()
    }

    pub open spec fn private_data(self) -> bool {
        self.real_perms.write && self.private && !self.grows_down
    }
}

/// Neighbouring areas that look alike are one.
pub struct VmaSetOperations;

impl SetOperations for VmaSetOperations {
    type V = Vma;

    open spec fn fits(r: Range, v: Vma) -> bool {
        &&& v.effective_perms == v.real_perms.granted()
        &&& v.max_perms == v.max_perms.granted()
        &&& v.mappable is Some ==> v.off + r.length() <= u64::MAX
    }

    open spec fn merged(r1: Range, v1: Vma, r2: Range, v2: Vma) -> Option<Vma> {
        if v1.mappable != v2.mappable || (v1.mappable is Some && v1.off + r1.length() != v2.off)
            || v1.real_perms != v2.real_perms || v1.max_perms != v2.max_perms || v1.private
            != v2.private || v1.grows_down != v2.grows_down || v1.mlock_mode != v2.mlock_mode
            || v1.numa_policy != v2.numa_policy || v1.numa_nodemask != v2.numa_nodemask {
            None
        } else {
            Some(v1)
        }
    }

    open spec fn lower(r: Range, v: Vma, split: u64) -> Vma {
        v
    }

    open spec fn upper(r: Range, v: Vma, split: u64) -> Vma {
        if v.mappable is Some {
            Vma { off: (v.off + (split - r.start)) as u64, ..v }
        } else {
            v
        }
    }

    fn merge(&self, r1: Range, v1: &Vma, r2: Range, v2: &Vma) -> (res: Option<Vma>) {
        proof {
            assert(Self::fits(r1, v1@) && Self::fits(r2, v2@));
            let m = Self::merged(r1, v1@, r2, v2@);
        }
        if v1.mappable != v2.mappable || (v1.mappable.is_some() && v1.off + (r1.end - r1.start)
            != v2.off) || v1.real_perms != v2.real_perms || v1.max_perms != v2.max_perms
            || v1.private != v2.private || v1.grows_down != v2.grows_down || v1.mlock_mode
            != v2.mlock_mode || v1.numa_policy != v2.numa_policy || v1.numa_nodemask
            != v2.numa_nodemask {
            None
        } else {
            Some(*v1)
        }
    }

    fn split(&self, r: Range, v: &Vma, split: u64) -> (res: (Vma, Vma)) {
        proof {
            assert(Self::fits(r, v@));
            let parts = (Self::lower(r, v@, split), Self::upper(r, v@, split));
        }
        let mut v2 = *v;
        if v2.mappable.is_some() {
            v2.off = v2.off + (split - r.start);
        }
        (*v, v2)
    }
}

impl PointOperations for VmaSetOperations {
    type P = VmaPoint;

    open spec fn at(r: Range, v: Vma, k: int) -> VmaPoint {
        v.at(r.start, k)
    }

    proof fn merge_keeps(r1: Range, v1: Vma, r2: Range, v2: Vma, v: Vma, k: int) {
    }

    proof fn split_keeps(r: Range, v: Vma, split: u64, k: int) {
    }
}

pub type VmaSet = SegmentSet<VmaSetOperations>;

/// Every area counts.
pub open spec fn any_vma() -> spec_fn(Vma) -> bool {
    |v: Vma| true
}

/// The areas that count as data of the application.
pub open spec fn data_vma() -> spec_fn(Vma) -> bool {
    |v: Vma| v.private_data()
}

/// The areas that are locked in memory.
pub open spec fn locked_vma() -> spec_fn(Vma) -> bool {
    |v: Vma| v.locked()
}

/// These properties outlast cuts and joins.
pub proof fn lemma_vma_properties_last()
    ensures
        lasting::<VmaSetOperations>(any_vma()),
        lasting::<VmaSetOperations>(data_vma()),
        lasting::<VmaSetOperations>(locked_vma()),
{
}

} // verus!
