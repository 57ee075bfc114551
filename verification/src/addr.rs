use vstd::prelude::*;

use crate::range::{AddrRange, Range};

verus! {

/// The size of a page.
pub const PAGE_SIZE: u64 = 4096;

/// The size of a huge page.
pub const HUGE_PAGE_SIZE: u64 = 0x200000;

/// `x` brought down to a multiple of `m`.
pub open spec fn down_to(x: int, m: int) -> int {
    x - x % m
}

/// `x` brought up to a multiple of `m`.
pub open spec fn up_to(x: int, m: int) -> int {
    down_to(x + m - 1, m)
}

/// A user virtual address.
#[derive(Debug, Clone, Copy, PartialEq, Eq, Structural, Hash, Default)]
pub struct Addr(pub u64);

impl Addr {
    /// The start of the page that holds the address.
    pub open spec fn page(self) -> int {
        down_to(self.0 as int, PAGE_SIZE as int)
    }

    /// The start of the first page at or after the address.
    pub open spec fn page_above(self) -> int {
        up_to(self.0 as int, PAGE_SIZE as int)
    }

    pub open spec fn page_aligned(self) -> bool {
        self.0 as int % PAGE_SIZE as int == 0
    }

    pub fn round_down(&self) -> (a: Addr)
        ensures
            a.0 == self.page(),
    {
        Addr(self.0 - self.0 % PAGE_SIZE)
    }

    pub fn round_up(&self) -> (a: Option<Addr>)
        ensures
            match a {
                Some(a) => a.0 == self.page_above(),
                None => self.page_above() > u64::MAX,
            },
    {
        let off = self.0 % PAGE_SIZE;
        if off == 0 {
            Some(*self)
        } else {
            match self.0.checked_add(PAGE_SIZE - off) {
                Some(x) => Some(Addr(x)),
                None => None,
            }
        }
    }

    pub fn page_offset(&self) -> (o: u64)
        ensures
            o == self.0 as int % PAGE_SIZE as int,
    {
        self.0 % PAGE_SIZE
    }

    pub fn add_length(&self, length: u64) -> (a: Option<Addr>)
        ensures
            match a {
                Some(a) => a.0 == self.0 + length,
                None => self.0 + length > u64::MAX,
            },
    {
        match self.0.checked_add(length) {
            Some(x) => Some(Addr(x)),
            None => None,
        }
    }

    pub fn to_range(&self, length: u64) -> (r: Option<AddrRange>)
        ensures
            match r {
                Some(r) => r.start == self.0 && r.end == self.0 + length,
                None => self.0 + length > u64::MAX,
            },
    {
        match self.0.checked_add(length) {
            Some(end) => Some(Range { start: self.0, end }),
            None => None,
        }
    }
}

} // verus!
