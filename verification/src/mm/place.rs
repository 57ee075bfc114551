use vstd::prelude::*;

use crate::access::AccessType;
use crate::addr::{Addr, PAGE_SIZE};
use crate::errno::{sys, SysError, SysResult, EFAULT};
use crate::mm::io::{access_end, access_result, lemma_vma_held};
use crate::mm::manager::{page_bound, vma_at, MemoryManager};
use crate::mm::pma::{PmaSetOperations, PmaView};
use crate::mm::protect::{may_have, reaches};
use crate::mm::transfer::way_to;
use crate::mm::vma::VmaSetOperations;
use crate::mm::walk::PmaWalk;
use crate::range::{AddrRange, FileRange, Range};
use crate::segment::keys::held_at;
use crate::segment::model::{lemma_holder, Segments};
use crate::segment::point::lemma_point_held;
use crate::segment::search::{align_down, lemma_mask_down, mask_down, MAX_PAGE};
use crate::segment::SetOperations;

verus! {

/// Part of a file that is to be mapped into the address space.
#[derive(Debug, Clone, Copy, PartialEq, Eq, Structural)]
pub struct Placement {
    pub addr: Addr,
    pub file: u64,
    pub range: FileRange,
    pub perms: AccessType,
    pub precommit: bool,
}

/// The access that the address space gives to memory. What has to be copied
/// before it is written to is not writable there.
pub open spec fn placed_perms(p: PmaView) -> AccessType {
    AccessType { write: p.effective_perms.write && !p.need_cow, ..p.effective_perms }
}

/// How the part of memory `p` at `r` that lies in `map_ar` is mapped into the
/// address space.
pub open spec fn placement(
    r: AddrRange,
    p: PmaView,
    map_ar: AddrRange,
    precommit: bool,
) -> Placement {
    let part = r.common(map_ar);
    Placement {
        addr: Addr(part.start),
        file: p.file,
        range: Range {
            start: (p.off + (part.start - r.start)) as u64,
            end: (p.off + (part.end - r.start)) as u64,
        },
        perms: placed_perms(p),
        precommit,
    }
}

/// How the memory from index `i` on is mapped into the address space, as far as
/// it starts before `end` and can be accessed at all.
pub open spec fn placements(
    m: Segments<PmaView>,
    i: int,
    end: u64,
    map_ar: AddrRange,
    precommit: bool,
) -> Seq<Placement>
    decreases m.ks.len() - i,
{
    if i < 0 || i >= m.ks.len() || m.ks[i].start >= end {
        Seq::empty()
    } else {
        let rest = placements(m, i + 1, end, map_ar, precommit);
        if placed_perms(m.vs[i]).some() {
            seq![placement(m.ks[i], m.vs[i], map_ar, precommit)] + rest
        } else {
            rest
        }
    }
}

/// The addresses that are mapped along with `ar`, in units of `map_unit`
/// addresses. With no unit they are all.
pub open spec fn mapped_along(ar: AddrRange, precommit: bool, map_unit: u64) -> AddrRange {
    if precommit {
        ar
    } else if map_unit != 0 {
        Range {
            start: mask_down(ar.start, map_unit),
            end: if ar.end + (map_unit - 1) <= u64::MAX && mask_down(
                (ar.end + (map_unit - 1)) as u64,
                map_unit,
            ) >= ar.end {
                mask_down((ar.end + (map_unit - 1)) as u64, map_unit)
            } else {
                MAX_PAGE
            },
        }
    } else {
        Range { start: 0, end: MAX_PAGE }
    }
}

fn along(ar: AddrRange, precommit: bool, map_unit: u64) -> (r: AddrRange)
    ensures
        r == mapped_along(ar, precommit, map_unit),
{
    if precommit {
        return ar;
    }
    if map_unit == 0 {
        return Range { start: 0, end: MAX_PAGE };
    }
    let end = match ar.end.checked_add(map_unit - 1) {
        Some(e) => {
            let e = align_down(e, map_unit);
            if e >= ar.end {
                e
            } else {
                MAX_PAGE
            }
        },
        None => MAX_PAGE,
    };
    Range { start: align_down(ar.start, map_unit), end }
}

impl MemoryManager {
    /// How the memory behind `ar` is mapped into the address space.
    pub fn map_address_space(&self, ar: AddrRange, precommit: bool, map_unit: u64) -> (ps: Vec<
        Placement,
    >)
        requires
            self.wf(),
            self.outbox.active,
            ar.start < ar.end,
            !self.no_memory(ar.start),
        ensures
            ps@ == placements(
                self.pmas.model(),
                self.memory(ar.start),
                ar.end,
                mapped_along(ar, precommit, map_unit),
                precommit,
            ),
    {
        let ghost m = self.pmas.model();
        let map_ar = along(ar, precommit, map_unit);
        let mut ps: Vec<Placement> = Vec::new();
        let n = self.pmas.count_segments();
        let first = self.index_of_memory(ar.start);
        let mut i = first;
        proof {
            if map_unit != 0 {
                lemma_mask_down(ar.start, map_unit);
            }
        }
        let ghost all = placements(m, i as int, ar.end, map_ar, precommit);
        assert(ps@ + all =~= all);
        while i < n && self.pmas.range_of(i).start < ar.end
            invariant
                self.wf(),
                m == self.pmas.model(),
                n == m.ks.len(),
                first <= i <= n,
                ar.start < ar.end,
                held_at(m.ks, ar.start as int, first as int),
                map_ar == mapped_along(ar, precommit, map_unit),
                map_ar.start <= ar.start,
                all == ps@ + placements(m, i as int, ar.end, map_ar, precommit),
            decreases n - i,
        {
            let r = self.pmas.range_of(i);
            let p = self.pmas.value_of(i);
            let ghost rest = placements(m, i + 1, ar.end, map_ar, precommit);
            proof {
                assert(PmaSetOperations::fits(m.ks[i as int], m.vs[i as int]));
                assert(m.ks[i as int].start < m.ks[i as int].end);
                assert(page_bound()(m.ks[i as int].start) && page_bound()(m.ks[i as int].end));
                if first < i {
                    assert(m.ks[first as int].end <= m.ks[i as int].start);
                }
            }
            let part = r.intersect(&map_ar);
            let mut perms = p.effective_perms;
            if p.need_cow {
                perms.write = false;
            }
            if perms.any() {
                let ghost before = ps@;
                let x = Placement {
                    addr: Addr(part.start),
                    file: p.file,
                    range: Range {
                        start: p.off + (part.start - r.start),
                        end: p.off + (part.end - r.start),
                    },
                    perms,
                    precommit,
                };
                ps.push(x);
                proof {
                    assert(x == placement(m.ks[i as int], m.vs[i as int], map_ar, precommit));
                    assert(ps@ + rest =~= before + (seq![x] + rest));
                }
            }
            i = i + 1;
        }
        assert(ps@ + placements(m, i as int, ar.end, map_ar, precommit) =~= ps@);
        ps
    }
}

/// The page of an address.
pub open spec fn page_of(addr: Addr) -> AddrRange {
    Range { start: addr.page() as u64, end: (addr.page() + PAGE_SIZE) as u64 }
}

impl MemoryManager {
    /// Starts on the way to the memory that a fault at `addr` asks for.
    pub fn handle_user_fault(&self, addr: Addr, at: AccessType) -> (r: SysResult<(
        AddrRange,
        PmaWalk,
    )>)
        requires
            self.wf(),
        ensures
            ({
                if addr.page() + PAGE_SIZE > u64::MAX {
                    r == Err::<(AddrRange, PmaWalk), SysError>(sys(EFAULT))
                } else {
                    let ar = page_of(addr);
                    exists|x: u64|
                        {
                            &&& #[trigger] reaches(self.vmas.model(), ar, at, false, x)
                            &&& match access_result(self.vmas.model(), ar, x) {
                                Ok(_) => r == Ok::<(AddrRange, PmaWalk), SysError>(
                                    (ar, way_to(ar, at)),
                                ),
                                Err(e) => r == Err::<(AddrRange, PmaWalk), SysError>(e),
                            }
                        }
                }
            }),
            r matches Ok((_, w)) ==> self.on_way(w) && self.passed(w),
    {
        let ghost m = self.vmas.model();
        let ar = match addr.round_down().to_range(PAGE_SIZE) {
            Some(ar) => ar,
            None => return Err(SysError::new(EFAULT)),
        };
        assert(ar == page_of(addr));
        let (end, res) = self.get_vmas(ar, at, false);
        let ghost x = choose|x: u64|
            {
                &&& #[trigger] reaches(m, ar, at, false, x)
                &&& end == access_end(m.ks, ar, x)
                &&& res == access_result(m, ar, x)
            };
        assert(reaches(m, ar, at, false, x) && res == access_result(m, ar, x));
        match res {
            Ok(_) => {
                assert forall|k: int| ar.has(k) implies #[trigger] vma_at(m, k) is Some by {
                    assert(may_have(vma_at(m, k), at, false));
                }
                let w = self.begin_walk(ar, at);
                assert(w == way_to(ar, at));
                Ok((ar, w))
            },
            Err(e) => Err(e),
        }
    }

    /// Starts on the way to the memory behind a mapping that is to be populated.
    /// What cannot be accessed at all is not, nor is anything without an address
    /// space.
    pub fn populate_vma(&self, ar: AddrRange) -> (w: Option<PmaWalk>)
        requires
            self.wf(),
            ar.start < ar.end,
            forall|k: int| ar.has(k) ==> #[trigger] vma_at(self.vmas.model(), k) is Some,
        ensures
            w == (if self.outbox.active && vma_at(
                self.vmas.model(),
                ar.start as int,
            )->Some_0.effective_perms().some() {
                Some(way_to(ar, AccessType::none()))
            } else {
                None
            }),
            w matches Some(w) ==> self.on_way(w) && self.passed(w),
    {
        let ghost m = self.vmas.model();
        proof {
            assert(vma_at(m, ar.start as int) is Some);
            lemma_vma_held(m, ar.start);
        }
        match self.vmas.index_holding(ar.start) {
            Some(i) => {
                proof {
                    lemma_holder(m.ks, ar.start as int, i as int);
                    lemma_point_held::<VmaSetOperations>(m, ar.start as int, i as int);
                    assert(VmaSetOperations::fits(m.ks[i as int], m.vs[i as int]));
                }
                if !self.vmas.value_of(i).effective_perms.any() || !self.outbox.active {
                    return None;
                }
                Some(self.begin_walk(ar, AccessType::no_access()))
            },
            None => None,
        }
    }
}

} // verus!
