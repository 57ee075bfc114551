use vstd::prelude::*;

use crate::access::AccessType;
use crate::block::{flat, lemma_flat_add, wf_blocks, Block, BlockSeq};
use crate::errno::{sys, SysError, SysResult, EFAULT, EPERM};
use crate::mm::fill::end_before;
use crate::mm::manager::{vma_at, MemoryManager};
use crate::mm::pma::{PmaSetOperations, PmaView};
use crate::mm::protect::{may_have, reaches};
use crate::mm::vma::{Vma, VmaSetOperations};
use crate::range::{AddrRange, Range};
use crate::segment::keys::{
    count_before, free, gap_at, held_at, lemma_free_is_between, seg_at, sorted, Seg,
};
use crate::segment::model::{holder, lemma_holder, Segments};
use crate::segment::nav::at;
use crate::segment::point::{lemma_point_free, lemma_point_held};
use crate::segment::SetOperations;

verus! {

/// What the access to `ar` comes to when it is possible up to `x`.
pub open spec fn access_result(m: Segments<Vma>, ar: AddrRange, x: u64) -> SysResult<()> {
    if x == ar.end {
        Ok(())
    } else if vma_at(m, x as int) is None {
        Err(sys(EFAULT))
    } else {
        Err(sys(EPERM))
    }
}

/// Up to where areas can be accessed: the end of the last of them, or, where
/// the very first cannot be, the end of the one before.
pub open spec fn access_end(ks: Seq<Range>, ar: AddrRange, x: u64) -> u64 {
    if x > ar.start {
        ks[holder(ks, x - 1)].end
    } else if free(ks, x as int) {
        gap_at(ks, count_before(ks, at(x)) as int).lo()
    } else {
        end_before(ks, holder(ks, x as int))
    }
}

/// What went wrong with an access shows as a bad address.
pub fn translate_io_error(err: SysError) -> (e: SysError)
    ensures
        e == sys(EFAULT),
{
    SysError::new(EFAULT)
}

/// Whether an access goes on with a range, or is over.
#[derive(Debug, Clone, Copy, PartialEq, Eq)]
pub enum IoLimit {
    Go(AddrRange),
    Stop(SysResult<usize>),
}

/// An access to `ar` that is possible up to `end` only.
pub open spec fn limited(ar: AddrRange, end: u64, res: SysResult<()>) -> IoLimit {
    if end >= ar.end {
        IoLimit::Go(ar)
    } else if end > ar.start {
        IoLimit::Go(Range { start: ar.start, end })
    } else if res is Ok {
        IoLimit::Stop(Ok(0))
    } else {
        IoLimit::Stop(Err(sys(EFAULT)))
    }
}

/// Limits an access to what is possible.
pub fn limit_io(ar: AddrRange, end: u64, res: SysResult<()>) -> (l: IoLimit)
    ensures
        l == limited(ar, end, res),
{
    if end < ar.end {
        if end <= ar.start {
            return match res {
                Ok(_) => IoLimit::Stop(Ok(0)),
                Err(e) => IoLimit::Stop(Err(translate_io_error(e))),
            };
        }
        IoLimit::Go(Range { start: ar.start, end })
    } else {
        IoLimit::Go(ar)
    }
}

/// What an access comes to that handled `n` bytes: if any of the steps before
/// was cut short by an error, an error.
pub fn io_result(
    n: SysResult<usize>,
    imres: SysResult<()>,
    pres: SysResult<()>,
    vres: SysResult<()>,
) -> (r: SysResult<usize>)
    ensures
        r == (if n is Err {
            n
        } else if imres is Err || pres is Err || vres is Err {
            Err::<usize, SysError>(sys(EFAULT))
        } else {
            n
        }),
{
    let n = match n {
        Ok(n) => n,
        Err(e) => return Err(e),
    };
    if let Err(e) = imres {
        return Err(translate_io_error(e));
    }
    if let Err(e) = pres {
        return Err(translate_io_error(e));
    }
    if let Err(e) = vres {
        return Err(translate_io_error(e));
    }
    Ok(n)
}

/// Memory for the access `need` is there at address `k`. With `max` it is enough
/// that it may have the access, with `mapped` it has to be mapped.
pub open spec fn ready(
    m: Segments<PmaView>,
    k: int,
    need: AccessType,
    max: bool,
    mapped: bool,
) -> bool {
    let i = holder(m.ks, k);
    &&& held_at(m.ks, k, i)
    &&& if max {
        m.vs[i].max_perms.includes(need)
    } else {
        m.vs[i].effective_perms.includes(need)
    }
    &&& mapped ==> m.vs[i].host.len() > 0
}

/// It is known where the memory at address `k` is mapped.
pub open spec fn known(m: Segments<PmaView>, k: int) -> bool {
    let i = holder(m.ks, k);
    held_at(m.ks, k, i) && m.vs[i].host.len() > 0
}

/// The host address of the memory at address `k`.
pub open spec fn host_at(m: Segments<PmaView>, k: int) -> int {
    let i = holder(m.ks, k);
    m.vs[i].host[k - m.ks[i].start]
}

/// The host addresses of the memory behind `ar`.
pub open spec fn hosts(m: Segments<PmaView>, ar: AddrRange) -> Seq<int> {
    Seq::new(ar.length() as nat, |j: int| host_at(m, ar.start + j))
}

/// The host addresses of the memory behind several ranges.
pub open spec fn all_hosts(m: Segments<PmaView>, ars: Seq<AddrRange>) -> Seq<int>
    decreases ars.len(),
{
    if ars.len() == 0 {
        Seq::empty()
    } else {
        all_hosts(m, ars.drop_last()) + hosts(m, ars.last())
    }
}

impl MemoryManager {
    /// Sees how much of `ar` is mapped for the access `at`, or, with
    /// `ignore_permissions`, may be.
    pub fn get_vmas(&self, ar: AddrRange, at: AccessType, ignore_permissions: bool) -> (r: (
        u64,
        SysResult<()>,
    ))
        requires
            self.wf(),
            ar.start < ar.end,
        ensures
            exists|x: u64|
                {
                    &&& #[trigger] reaches(self.vmas.model(), ar, at, ignore_permissions, x)
                    &&& r.0 == access_end(self.vmas.ranges(), ar, x)
                    &&& r.1 == access_result(self.vmas.model(), ar, x)
                },
    {
        let ghost m = self.vmas.model();
        let x = self.reach(ar, at, ignore_permissions);
        let held = self.vmas.index_holding(x);
        proof {
            lemma_vma_held(m, x);
            if x > ar.start {
                assert(may_have(vma_at(m, x - 1), at, ignore_permissions));
                lemma_vma_held(m, (x - 1) as u64);
            }
        }
        let end = if x > ar.start {
            match self.vmas.index_holding(x - 1) {
                Some(i) => self.vmas.range_of(i).end,
                None => 0,
            }
        } else {
            match held {
                None => {
                    proof {
                        lemma_free_is_between(m.ks, x);
                    }
                    let c = self.vmas.rank_before(Range { start: x, end: x });
                    self.vmas.gap_from(c).start()
                },
                Some(i) => if i > 0 {
                    self.vmas.range_of(i - 1).end
                } else {
                    0
                },
            }
        };
        let res = if x >= ar.end {
            Ok(())
        } else if held.is_none() {
            Err(SysError::new(EFAULT))
        } else {
            Err(SysError::new(EPERM))
        };
        (end, res)
    }

    /// Whether memory for the access is there behind all of `ar`.
    pub fn existing_pmas(
        &self,
        ar: AddrRange,
        at: AccessType,
        ignore_permissions: bool,
        need_internal_mappings: bool,
    ) -> (s: Option<Seg>)
        requires
            self.wf(),
            ar.start < ar.end,
        ensures
            s is Some == forall|k: int|
                ar.has(k) ==> #[trigger] ready(
                    self.pmas.model(),
                    k,
                    at,
                    ignore_permissions,
                    need_internal_mappings,
                ),
            s is Some ==> s == Some(
                seg_at(self.pmas.ranges(), self.memory(ar.start)),
            ),
    {
        let ghost m = self.pmas.model();
        let first = match self.pmas.index_holding(ar.start) {
            Some(i) => i,
            None => {
                assert(!ready(
                    m,
                    ar.start as int,
                    at,
                    ignore_permissions,
                    need_internal_mappings,
                ));
                return None;
            },
        };
        let n = self.pmas.count_segments();
        let mut i = first;
        let mut pos = ar.start;
        loop
            invariant
                self.wf(),
                m == self.pmas.model(),
                n == m.ks.len(),
                ar.start < ar.end,
                first == self.memory(ar.start),
                first < n,
                i < n,
                ar.start <= pos < ar.end,
                held_at(m.ks, pos as int, i as int),
                forall|k: int|
                    ar.start <= k < pos ==> #[trigger] ready(
                        m,
                        k,
                        at,
                        ignore_permissions,
                        need_internal_mappings,
                    ),
            decreases n - i,
        {
            let r = self.pmas.range_of(i);
            let pma = self.pmas.value_of(i);
            proof {
                lemma_holder(m.ks, pos as int, i as int);
            }
            let perms = if ignore_permissions {
                pma.max_perms
            } else {
                pma.effective_perms
            };
            if !perms.is_superset_of(at) || (need_internal_mappings
                && pma.internal_mappings.is_empty()) {
                assert(!ready(m, pos as int, at, ignore_permissions, need_internal_mappings));
                return None;
            }
            assert forall|k: int| pos <= k < r.end implies #[trigger] ready(
                m,
                k,
                at,
                ignore_permissions,
                need_internal_mappings,
            ) by {
                assert(held_at(m.ks, k, i as int));
                lemma_holder(m.ks, k, i as int);
            }
            if ar.end <= r.end {
                return Some(self.pmas.seg_from(first));
            }
            if i + 1 >= n || self.pmas.range_of(i + 1).start > r.end {
                proof {
                    assert forall|h: int| !#[trigger] held_at(m.ks, r.end as int, h) by {
                        if held_at(m.ks, r.end as int, h) {
                            if h < i {
                                assert(m.ks[h].end <= m.ks[i as int].start);
                            } else if h > i {
                                if h > i + 1 {
                                    assert(m.ks[i + 1].end <= m.ks[h].start);
                                    assert(m.ks[i + 1].start < m.ks[i + 1].end);
                                }
                            }
                        }
                    }
                    assert(!ready(
                        m,
                        r.end as int,
                        at,
                        ignore_permissions,
                        need_internal_mappings,
                    ));
                }
                return None;
            }
            proof {
                assert(m.ks[i as int].end <= m.ks[i + 1].start);
                assert(m.ks[i + 1].start < m.ks[i + 1].end);
            }
            pos = r.end;
            i = i + 1;
        }
    }
}

impl MemoryManager {
    /// Adds where the memory behind `ar` is mapped to the blocks.
    fn collect_blocks(&self, ar: AddrRange, blocks: &mut Vec<Block>)
        requires
            self.wf(),
            ar.start < ar.end,
            wf_blocks(old(blocks)@),
            forall|k: int| ar.has(k) ==> #[trigger] known(self.pmas.model(), k),
        ensures
            wf_blocks(final(blocks)@),
            flat(final(blocks)@) == flat(old(blocks)@) + hosts(self.pmas.model(), ar),
    {
        let ghost m = self.pmas.model();
        let ghost had = flat(blocks@);
        let mut pos = ar.start;
        assert(had + hosts(m, Range { start: ar.start, end: pos }) =~= had);
        while pos < ar.end
            invariant
                self.wf(),
                m == self.pmas.model(),
                ar.start <= pos <= ar.end,
                wf_blocks(blocks@),
                forall|k: int| ar.has(k) ==> #[trigger] known(m, k),
                flat(blocks@) == had + hosts(m, Range { start: ar.start, end: pos }),
            decreases ar.end - pos,
        {
            assert(known(m, pos as int));
            proof {
                assert(m.ks[holder(m.ks, pos as int)].has(pos as int));
            }
            let i = match self.pmas.index_holding(pos) {
                Some(i) => i,
                None => 0,
            };
            let r = self.pmas.range_of(i);
            proof {
                lemma_holder(m.ks, pos as int, i as int);
                assert(PmaSetOperations::fits(m.ks[i as int], m.vs[i as int]));
            }
            let end = if ar.end <= r.end {
                ar.end
            } else {
                r.end
            };
            let part = self.pmas.value_of(i).internal_mappings.cut_first(
                pos - r.start,
            ).take_first64(end - pos);
            let ghost host = m.vs[i as int].host;
            assert(flat(part@) =~= host.subrange(pos - r.start, end - r.start));
            let ghost before = blocks@;
            let n = part.len();
            let mut j: usize = 0;
            assert(before + part@.take(0) =~= before);
            while j < n
                invariant
                    j <= n,
                    n == part@.len(),
                    wf_blocks(part@),
                    wf_blocks(blocks@),
                    blocks@ == before + part@.take(j as int),
                decreases n - j,
            {
                blocks.push(part.block(j));
                assert(part@.take(j + 1) =~= part@.take(j as int).push(part@[j as int]));
                assert(blocks@ =~= before + part@.take(j + 1));
                j = j + 1;
            }
            proof {
                assert(part@.take(n as int) =~= part@);
                lemma_flat_add(before, part@);
                let now = hosts(m, Range { start: ar.start, end });
                assert forall|x: int| 0 <= x < now.len() implies #[trigger] now[x] == (hosts(
                    m,
                    Range { start: ar.start, end: pos },
                ) + flat(part@))[x] by {
                    if x >= pos - ar.start {
                        assert(held_at(m.ks, ar.start + x, i as int));
                        lemma_holder(m.ks, ar.start + x, i as int);
                    }
                }
                assert(now =~= hosts(m, Range { start: ar.start, end: pos }) + flat(part@));
                assert(flat(blocks@) =~= had + now);
            }
            pos = end;
        }
    }

    /// Where the memory behind `ar` is mapped.
    pub fn internal_mappings(&self, ar: AddrRange) -> (b: BlockSeq)
        requires
            self.wf(),
            ar.start < ar.end,
            forall|k: int| ar.has(k) ==> #[trigger] known(self.pmas.model(), k),
        ensures
            flat(b@) == hosts(self.pmas.model(), ar),
    {
        let mut blocks: Vec<Block> = Vec::new();
        self.collect_blocks(ar, &mut blocks);
        assert(flat(Seq::<Block>::empty()) + hosts(self.pmas.model(), ar) =~= hosts(
            self.pmas.model(),
            ar,
        ));
        BlockSeq::from_blocks(blocks)
    }

    /// Where the memory behind several ranges is mapped.
    pub fn vec_internal_mappings(&self, ars: &Vec<AddrRange>) -> (b: BlockSeq)
        requires
            self.wf(),
            forall|i: int| 0 <= i < ars@.len() ==> (#[trigger] ars@[i]).start < ars@[i].end,
            forall|i: int, k: int|
                #![trigger ars@[i], known(self.pmas.model(), k)]
                0 <= i < ars@.len() && ars@[i].has(k) ==> known(self.pmas.model(), k),
        ensures
            flat(b@) == all_hosts(self.pmas.model(), ars@),
    {
        let ghost m = self.pmas.model();
        let mut blocks: Vec<Block> = Vec::new();
        let mut i: usize = 0;
        while i < ars.len()
            invariant
                self.wf(),
                m == self.pmas.model(),
                i <= ars@.len(),
                forall|i: int| 0 <= i < ars@.len() ==> (#[trigger] ars@[i]).start < ars@[i].end,
                forall|i: int, k: int|
                    #![trigger ars@[i], known(m, k)]
                    0 <= i < ars@.len() && ars@[i].has(k) ==> known(m, k),
                wf_blocks(blocks@),
                flat(blocks@) == all_hosts(m, ars@.take(i as int)),
            decreases ars@.len() - i,
        {
            let ghost done = ars@.take(i as int);
            let ghost ar = ars@[i as int];
            self.collect_blocks(ars[i], &mut blocks);
            assert(ars@.take(i + 1).drop_last() =~= done);
            i = i + 1;
        }
        assert(ars@.take(i as int) =~= ars@);
        BlockSeq::from_blocks(blocks)
    }
}

/// An area holds an address exactly where something is mapped.
pub(crate) proof fn lemma_vma_held(m: Segments<Vma>, x: u64)
    requires
        sorted(m.ks),
    ensures
        (vma_at(m, x as int) is Some) == !free(m.ks, x as int),
        vma_at(m, x as int) is Some ==> held_at(m.ks, x as int, holder(m.ks, x as int)),
{
    if exists|i: int| held_at(m.ks, x as int, i) {
        let i = choose|i: int| held_at(m.ks, x as int, i);
        lemma_point_held::<VmaSetOperations>(m, x as int, i);
        lemma_holder(m.ks, x as int, i);
        assert(m.ks[i].has(x as int));
    } else {
        lemma_point_free::<VmaSetOperations>(m, x as int);
        assert forall|i: int| 0 <= i < m.ks.len() implies !(#[trigger] m.ks[i]).has(x as int) by {
            assert(!held_at(m.ks, x as int, i));
        }
    }
}

} // verus!
