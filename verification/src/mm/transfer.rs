use vstd::prelude::*;

use crate::access::AccessType;
use crate::addr::Addr;
use crate::block::{flat, BlockSeq};
use crate::errno::{sys, SysError, SysResult, EFAULT};
use crate::mm::fill::mapped_internally;
use crate::mm::io::{
    access_end, access_result, hosts, known, lemma_vma_held, limit_io, limited, ready, IoLimit,
};
use crate::mm::manager::{page_bound, vma_at, whole_pages, MemoryManager};
use crate::mm::pma::PmaView;
use crate::mm::protect::{may_have, reaches};
use crate::mm::vma::VmaSetOperations;
use crate::mm::walk::{file_part, PmaWalk};
use crate::range::{AddrRange, FileRange, Range};
use crate::segment::keys::{free, held_at};
use crate::segment::model::{holder, lemma_holder, Segments};
use crate::segment::point::lemma_point_held;
use crate::segment::SetOperations;

verus! {

/// How the access to memory starts.
#[derive(Debug)]
pub enum IoStart {
    /// All memory is at hand, at these places of the host.
    Ready(BlockSeq),
    /// There is nothing to be done.
    Stop(SysResult<usize>),
    /// Memory has to be had along the way first. Only `ar` is left of what was
    /// asked for, for the reason `res`.
    Walk { ar: AddrRange, walk: PmaWalk, res: SysResult<()> },
}

/// The pages that hold `ar`, or, where the last of them is past the end of all
/// addresses, those before it.
pub open spec fn pages_of(ar: AddrRange) -> (AddrRange, SysResult<()>) {
    let start = Addr(ar.start).page() as u64;
    if Addr(ar.end).page_above() <= u64::MAX {
        (Range { start, end: Addr(ar.end).page_above() as u64 }, Ok(()))
    } else {
        (Range { start, end: Addr(ar.end).page() as u64 }, Err(sys(EFAULT)))
    }
}

/// Rounds a range to whole pages.
pub fn page_range(ar: AddrRange) -> (r: (AddrRange, SysResult<()>))
    ensures
        r == pages_of(ar),
        whole_pages(r.0),
{
    let start = Addr(ar.start).round_down().0;
    match Addr(ar.end).round_up() {
        Some(e) => (Range { start, end: e.0 }, Ok(())),
        None => (Range { start, end: Addr(ar.end).round_down().0 }, Err(SysError::new(EFAULT))),
    }
}

/// What is mapped in part of a page is mapped in all of it.
proof fn lemma_pages_mapped(mm: MemoryManager, ar: AddrRange)
    requires
        mm.wf(),
        ar.start < ar.end,
        forall|k: int| ar.has(k) ==> #[trigger] vma_at(mm.vmas.model(), k) is Some,
    ensures
        pages_of(ar).1 is Ok,
        pages_of(ar).0.start < pages_of(ar).0.end,
        pages_of(ar).0.covers(ar),
        forall|k: int|
            pages_of(ar).0.has(k) ==> #[trigger] vma_at(mm.vmas.model(), k) is Some,
{
    let m = mm.vmas.model();
    let last = (ar.end - 1) as u64;
    assert(vma_at(m, last as int) is Some);
    lemma_vma_held(m, last);
    let h = holder(m.ks, last as int);
    assert(page_bound()(m.ks[h].end));
    assert forall|k: int| pages_of(ar).0.has(k) implies #[trigger] vma_at(m, k) is Some by {
        let x = if k < ar.start {
            ar.start
        } else if k >= ar.end {
            last
        } else {
            k as u64
        };
        assert(vma_at(m, x as int) is Some);
        lemma_vma_held(m, x);
        let i = holder(m.ks, x as int);
        assert(page_bound()(m.ks[i].start) && page_bound()(m.ks[i].end));
        assert(held_at(m.ks, k, i));
        lemma_point_held::<VmaSetOperations>(m, k, i);
    }
}

/// Memory for the access is at hand behind all of `ar`.
pub open spec fn all_ready(
    m: Segments<PmaView>,
    ar: AddrRange,
    need: AccessType,
    max: bool,
) -> bool {
    forall|k: int| ar.has(k) ==> #[trigger] ready(m, k, need, max, true)
}

/// The way to the memory for the access `need` to `ar`.
pub open spec fn way_to(ar: AddrRange, need: AccessType) -> PmaWalk {
    let pages = pages_of(ar).0;
    PmaWalk { ar: pages, at: need, pos: pages.start, did_unmap_as: false }
}

impl MemoryManager {
    /// How an access to `ar` starts.
    pub open spec fn starts(
        &self,
        ar: AddrRange,
        need: AccessType,
        max: bool,
        s: IoStart,
    ) -> bool {
        if all_ready(self.pmas.model(), ar, need, max) {
            match s {
                IoStart::Ready(b) => flat(b@) == hosts(self.pmas.model(), ar),
                _ => false,
            }
        } else {
            exists|x: u64|
                {
                    let end = access_end(self.vmas.ranges(), ar, x);
                    let res = access_result(self.vmas.model(), ar, x);
                    &&& #[trigger] reaches(self.vmas.model(), ar, need, max, x)
                    &&& match limited(ar, end, res) {
                        IoLimit::Stop(r) => s == IoStart::Stop(r),
                        IoLimit::Go(part) => s == (IoStart::Walk {
                            ar: part,
                            walk: way_to(part, need),
                            res,
                        }),
                    }
                }
        }
    }

    /// Starts on the way to the memory for an access to `ar`.
    pub fn begin_walk(&self, ar: AddrRange, at: AccessType) -> (w: PmaWalk)
        requires
            self.wf(),
            ar.start < ar.end,
            forall|k: int| ar.has(k) ==> #[trigger] vma_at(self.vmas.model(), k) is Some,
        ensures
            w == way_to(ar, at),
            self.on_way(w),
            self.passed(w),
    {
        proof {
            lemma_pages_mapped(*self, ar);
        }
        let pages = page_range(ar).0;
        PmaWalk { ar: pages, at, pos: pages.start, did_unmap_as: false }
    }

    /// Starts an access to `ar`.
    pub fn begin_access(&self, ar: AddrRange, at: AccessType, ignore_permissions: bool) -> (s:
        IoStart)
        requires
            self.wf(),
            ar.start < ar.end,
        ensures
            self.starts(ar, at, ignore_permissions, s),
            s matches IoStart::Walk { walk, .. } ==> self.on_way(walk) && self.passed(walk),
    {
        let ghost pm = self.pmas.model();
        let ghost vm = self.vmas.model();
        if self.existing_pmas(ar, at, ignore_permissions, true).is_some() {
            assert forall|k: int| ar.has(k) implies #[trigger] known(pm, k) by {
                assert(ready(pm, k, at, ignore_permissions, true));
            }
            return IoStart::Ready(self.internal_mappings(ar));
        }
        let (end, res) = self.get_vmas(ar, at, ignore_permissions);
        let ghost x = choose|x: u64|
            {
                &&& #[trigger] reaches(vm, ar, at, ignore_permissions, x)
                &&& end == access_end(vm.ks, ar, x)
                &&& res == access_result(vm, ar, x)
            };
        proof {
            self.lemma_access_end(ar, at, ignore_permissions, x);
        }
        match limit_io(ar, end, res) {
            IoLimit::Stop(r) => IoStart::Stop(r),
            IoLimit::Go(part) => {
                assert forall|k: int| part.has(k) implies #[trigger] vma_at(vm, k) is Some by {
                    assert(may_have(vma_at(vm, k), at, ignore_permissions));
                }
                IoStart::Walk { ar: part, walk: self.begin_walk(part, at), res }
            },
        }
    }

    /// The access can go as far as it reaches.
    pub(crate) proof fn lemma_access_end(&self, ar: AddrRange, at: AccessType, max: bool, x: u64)
        requires
            self.wf(),
            ar.start < ar.end,
            reaches(self.vmas.model(), ar, at, max, x),
        ensures
            ({
                let end = access_end(self.vmas.ranges(), ar, x);
                &&& x == ar.end ==> end >= ar.end
                &&& ar.start < x < ar.end ==> end == x
                &&& x == ar.start ==> end <= ar.start
            }),
    {
        let m = self.vmas.model();
        lemma_vma_held(m, x);
        if x > ar.start {
            assert(may_have(vma_at(m, x - 1), at, max));
            lemma_vma_held(m, (x - 1) as u64);
            let i = holder(m.ks, x - 1);
            if x < ar.end && m.ks[i].end > x {
                assert(VmaSetOperations::fits(m.ks[i], m.vs[i]));
                assert(held_at(m.ks, x as int, i));
                lemma_point_held::<VmaSetOperations>(m, x as int, i);
                lemma_point_held::<VmaSetOperations>(m, x - 1, i);
            }
        } else if free(m.ks, x as int) {
            crate::segment::keys::lemma_free_is_between(m.ks, x);
        } else {
            let i = holder(m.ks, x as int);
            if i > 0 {
                assert(m.ks[i - 1].end <= m.ks[i].start);
            }
        }
    }

    /// Starts an access to `length` bytes at `addr`.
    pub fn begin_io(&self, addr: Addr, length: i64, at: AccessType, ignore_permissions: bool) -> (s:
        IoStart)
        requires
            self.wf(),
        ensures
            ({
                let end = addr.0 + (length as u64);
                if end > u64::MAX || end > self.layout.max_addr.0 {
                    s == IoStart::Stop(Err(sys(EFAULT)))
                } else if length == 0 {
                    s == IoStart::Stop(Ok(0))
                } else {
                    self.starts(
                        Range { start: addr.0, end: end as u64 },
                        at,
                        ignore_permissions,
                        s,
                    )
                }
            }),
            s matches IoStart::Walk { walk, .. } ==> self.on_way(walk) && self.passed(walk),
    {
        match self.check_io_range(addr, length) {
            None => IoStart::Stop(Err(SysError::new(EFAULT))),
            Some(ar) => if length == 0 {
                IoStart::Stop(Ok(0))
            } else {
                assert(length != 0 ==> length as u64 > 0) by (bit_vector);
                self.begin_access(ar, at, ignore_permissions)
            },
        }
    }
}

/// What has to be done next to find where memory is mapped.
#[derive(Debug, Clone, Copy, PartialEq, Eq)]
pub enum MappingStep {
    /// Map part of a file.
    MapInternal { file: u64, range: FileRange, perms: AccessType },
    /// It is known up to here where the memory is mapped.
    Next(u64),
    /// The end is reached.
    End { end: u64, res: SysResult<()> },
}

impl MemoryManager {
    /// What has to be done at `pos` to find where the memory behind `ar` is mapped.
    pub open spec fn mapping_next(&self, ar: AddrRange, pos: u64) -> MappingStep {
        let i = self.memory(pos);
        let r = self.pmas.ranges()[i];
        let p = self.pmas.values()[i];
        if self.no_memory(pos) {
            MappingStep::End { end: 0, res: Ok(()) }
        } else if p.host.len() == 0 {
            MappingStep::MapInternal {
                file: p.file,
                range: file_part(r, p),
                perms: AccessType { execute: false, ..p.max_perms },
            }
        } else if ar.end <= r.end {
            MappingStep::End { end: r.end, res: Ok(()) }
        } else {
            MappingStep::Next(r.end)
        }
    }

    /// Sees what has to be done at `pos` to find where the memory behind `ar` is
    /// mapped.
    pub fn mapping_step(&self, ar: AddrRange, pos: u64) -> (s: MappingStep)
        requires
            self.wf(),
        ensures
            s == self.mapping_next(ar, pos),
            s matches MappingStep::Next(next) ==> pos < next < ar.end && forall|k: int|
                pos <= k < next ==> #[trigger] known(self.pmas.model(), k),
            s matches MappingStep::End { end, .. } ==> end == 0 || (pos < end && ar.end <= end
                && forall|k: int| pos <= k < end ==> #[trigger] known(self.pmas.model(), k)),
    {
        let ghost m = self.pmas.model();
        match self.pmas.index_holding(pos) {
            None => MappingStep::End { end: 0, res: Ok(()) },
            Some(i) => {
                proof {
                    lemma_holder(m.ks, pos as int, i as int);
                    assert(m.ks[i as int].has(pos as int));
                    assert forall|k: int|
                        pos <= k < m.ks[i as int].end && m.vs[i as int].host.len()
                            > 0 implies #[trigger] known(m, k) by {
                        assert(held_at(m.ks, k, i as int));
                        lemma_holder(m.ks, k, i as int);
                    }
                }
                let r = self.pmas.range_of(i);
                let p = self.pmas.value_of(i);
                if p.internal_mappings.is_empty() {
                    let mut perms = p.max_perms;
                    perms.execute = false;
                    MappingStep::MapInternal { file: p.file, range: self.file_range(i), perms }
                } else if ar.end <= r.end {
                    MappingStep::End { end: r.end, res: Ok(()) }
                } else {
                    MappingStep::Next(r.end)
                }
            },
        }
    }

    /// Notes where the memory at `pos` was mapped, or gives up.
    pub fn mapped(&mut self, pos: u64, ims: SysResult<BlockSeq>) -> (s: Option<MappingStep>)
        requires
            old(self).wf(),
            !old(self).no_memory(pos),
            ims matches Ok(b) ==> flat(b@).len() == old(self).pmas.ranges()[old(self).memory(
                pos,
            )].length(),
        ensures
            final(self).wf(),
            *final(self) == (MemoryManager { pmas: final(self).pmas, ..*old(self) }),
            match ims {
                Ok(b) => s is None && mapped_internally(
                    old(self).pmas.model(),
                    final(self).pmas.model(),
                    old(self).memory(pos),
                    flat(b@),
                ),
                Err(e) => final(self).pmas == old(self).pmas && s == Some(
                    MappingStep::End {
                        end: crate::mm::fill::end_before(
                            old(self).pmas.ranges(),
                            old(self).memory(pos),
                        ),
                        res: Err(e),
                    },
                ),
            },
    {
        let i = self.index_of_memory(pos);
        match ims {
            Ok(b) => {
                self.set_internal_mappings(i, b);
                None
            },
            Err(e) => Some(MappingStep::End { end: self.end_of_prev(i), res: Err(e) }),
        }
    }
}

} // verus!
