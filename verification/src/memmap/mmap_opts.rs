use vstd::prelude::*;

use crate::access::AccessType;
use crate::addr::Addr;

verus! {

/// How the pages of a mapping are locked in memory.
#[derive(Debug, Clone, Copy, PartialEq, Eq, PartialOrd, Structural)]
pub enum MLockMode {
    None_,
    Eager,
    Lazy,
}

impl Default for MLockMode {
    fn default() -> (m: MLockMode)
        ensures
            m == MLockMode::None_,
    {
        MLockMode::None_
    }
}

impl MLockMode {
    /// The place of the mode in the order of modes.
    pub open spec fn rank(self) -> int {
        match self {
            MLockMode::None_ => 0,
            MLockMode::Eager => 1,
            MLockMode::Lazy => 2,
        }
    }

    /// Whether the mode comes before `other`.
    pub fn precedes(&self, other: &MLockMode) -> (b: bool)
        ensures
            b == (self.rank() < other.rank()),
    {
        match (self, other) {
            (MLockMode::None_, MLockMode::Eager) => true,
            (MLockMode::None_, MLockMode::Lazy) => true,
            (MLockMode::Eager, MLockMode::Lazy) => true,
            _ => false,
        }
    }
}

/// What is asked of a new mapping. The object that is mapped, if any, goes by
/// its number.
#[derive(Debug, Clone, Copy, PartialEq, Eq, Structural)]
pub struct MmapOpts {
    pub length: u64,
    pub mappable: Option<u64>,
    pub offset: u64,
    pub addr: Addr,
    pub private: bool,
    pub fixed: bool,
    pub unmap: bool,
    pub map32bit: bool,
    pub grows_down: bool,
    pub precommit: bool,
    pub perms: AccessType,
    pub max_perms: AccessType,
    pub mlock_mode: MLockMode,
    pub force: bool,
}

impl Default for MmapOpts {
    fn default() -> (o: MmapOpts)
        ensures
            o == (MmapOpts {
                length: 0,
                mappable: None,
                offset: 0,
                addr: Addr(0),
                private: false,
                fixed: false,
                unmap: false,
                map32bit: false,
                grows_down: false,
                precommit: false,
                perms: AccessType::none(),
                max_perms: AccessType::none(),
                mlock_mode: MLockMode::None_,
                force: false,
            }),
    {
        MmapOpts {
            length: 0,
            mappable: None,
            offset: 0,
            addr: Addr(0),
            private: false,
            fixed: false,
            unmap: false,
            map32bit: false,
            grows_down: false,
            precommit: false,
            perms: AccessType::no_access(),
            max_perms: AccessType::no_access(),
            mlock_mode: MLockMode::None_,
            force: false,
        }
    }
}

} // verus!
