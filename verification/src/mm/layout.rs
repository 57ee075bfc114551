use vstd::prelude::*;

use crate::addr::Addr;
use crate::range::{AddrRange, Range};

verus! {

/// Which way new mappings are placed.
#[derive(Debug, Clone, Copy, PartialEq, Eq, Structural)]
pub enum MmapDirection {
    MmapBottomUp,
    MmapTopDown,
}

/// Where the mappings of an application may lie.
#[derive(Debug, Clone, Copy, PartialEq, Eq, Structural)]
pub struct MmapLayout {
    pub min_addr: Addr,
    pub max_addr: Addr,
    pub bottom_up_base: Addr,
    pub top_down_base: Addr,
    pub default_direction: MmapDirection,
    pub max_stack_rand: u64,
}

impl Default for MmapLayout {
    fn default() -> (l: MmapLayout)
        ensures
            l == (MmapLayout {
                min_addr: Addr(0),
                max_addr: Addr(0),
                bottom_up_base: Addr(0),
                top_down_base: Addr(0),
                default_direction: MmapDirection::MmapBottomUp,
                max_stack_rand: 0,
            }),
    {
        MmapLayout {
            min_addr: Addr(0),
            max_addr: Addr(0),
            bottom_up_base: Addr(0),
            top_down_base: Addr(0),
            default_direction: MmapDirection::MmapBottomUp,
            max_stack_rand: 0,
        }
    }
}

impl MmapLayout {
    /// All bounds are page bounds, and the addresses do not end before they
    /// start.
    pub open spec fn wf(self) -> bool {
        &&& self.min_addr.page_aligned()
        &&& self.max_addr.page_aligned()
        &&& self.bottom_up_base.page_aligned()
        &&& self.top_down_base.page_aligned()
        &&& self.min_addr.0 <= self.max_addr.0
    }

    /// The addresses that an application may use.
    pub open spec fn application(self) -> AddrRange {
        Range { start: self.min_addr.0, end: self.max_addr.0 }
    }
}

} // verus!
