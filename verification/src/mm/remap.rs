use vstd::prelude::*;

use crate::addr::Addr;
use crate::errno::{sys, SysError, SysResult, EAGAIN, EFAULT, EINVAL, ENOMEM};
use crate::memmap::{MLockMode, MmapOpts};
use crate::mm::find::{as_asked, found, found_is_free, FindAvailableOpts};
use crate::mm::hosts::places_moved;
use crate::mm::manager::{
    backed, backs, page_bound, pma_at, vma_at, whole_pages, word, Effect, Env, MemoryManager,
};
use crate::mm::mmap::{
    askable, lemma_free_is_silent, lemma_free_total, lemma_silent_is_free, mapped, mid_created, new_vma, span_at,
};
use crate::mm::pma::PmaView;
use crate::mm::shift::{shift_pmas, shifted, shifted_memory};
use crate::mm::unmap::unmapped;
use crate::mm::vma::{
    any_vma, data_vma, lemma_vma_properties_last, locked_vma, Vma, VmaPoint, VmaSet,
    VmaSetOperations,
};
use crate::range::{AddrRange, Range};
use crate::segment::bounds::{bounded, lemma_bounded_inserted, lemma_bounded_without};
use crate::segment::keys::{free, held_at, range_free, sorted};
use crate::segment::model::{
    cut_start_at, holder, inserted, isolated, lemma_holder, lemma_wf_without, wf_segments, Segments,
};
use crate::segment::point::{insertion_speaks, lemma_point_free, lemma_point_held, without_is_silent};
use crate::segment::total::{
    lemma_total_bound, lemma_total_inserted, lemma_total_is_length, lemma_total_outside,
    lemma_total_without, share, total,
};
use crate::segment::SetOperations;

verus! {

/// Whether a mapping may move to other addresses.
#[derive(Debug, Clone, Copy, PartialEq, Eq, Structural)]
pub enum MremapMoveMode {
    No,
    May,
    Must,
}

#[derive(Debug, Clone, Copy, PartialEq, Eq, Structural)]
pub struct MremapOpts {
    pub mov: MremapMoveMode,
    pub new_addr: Addr,
}

/// An object is to be told that what is mapped at `src` is mapped at `dst` too.
#[derive(Debug, Clone, Copy, PartialEq, Eq, Structural)]
pub struct CopyMapping {
    pub mappable: u64,
    pub src: AddrRange,
    pub dst: AddrRange,
    pub off: u64,
    pub writable: bool,
}

/// A move that can be made once the mapped object, if any, knows of it.
#[derive(Debug, Clone, Copy, PartialEq, Eq, Structural)]
pub struct MovePlan {
    pub old_ar: AddrRange,
    pub new_ar: AddrRange,
    pub copy: Option<CopyMapping>,
}

/// What a change of size comes to.
#[derive(Debug, Clone, Copy, PartialEq, Eq, Structural)]
pub enum MremapStep {
    /// It is done, and the mapping is at `addr`. The memory at `populate` is to
    /// be looked up and committed at once.
    Done { addr: Addr, populate: Option<AddrRange> },
    /// There is room at `ar` for what `opts` asks for. The object that is to be
    /// mapped there, if any, has to be told first.
    Grow { opts: MmapOpts, ar: AddrRange },
    /// The mapping can move.
    Move(MovePlan),
}

/// The offset of address `addr` in what the area at index `i` maps.
pub open spec fn offset_at(m: Segments<Vma>, i: int, addr: u64) -> int {
    m.vs[i].off + (addr - m.ks[i].start)
}

/// What is asked for when the area at index `i` is to grow by `length` bytes
/// at `addr`.
pub open spec fn grow_opts(m: Segments<Vma>, i: int, addr: u64, length: u64) -> MmapOpts {
    let v = m.vs[i];
    MmapOpts {
        length,
        mappable: v.mappable,
        offset: if v.mappable is Some {
            offset_at(m, i, m.ks[i].end) as u64
        } else {
            0
        },
        addr: Addr(addr),
        private: v.private,
        fixed: true,
        unmap: false,
        map32bit: false,
        grows_down: v.grows_down,
        precommit: false,
        perms: v.real_perms,
        max_perms: v.max_perms,
        mlock_mode: v.mlock_mode,
        force: false,
    }
}

/// What is asked of the addresses that a mapping must move to.
pub open spec fn must_opts(addr: Addr) -> FindAvailableOpts {
    FindAvailableOpts { addr, fixed: true, unmap: true, map32bit: false }
}

/// What is asked of the addresses that a mapping may move to.
pub open spec fn may_opts() -> FindAvailableOpts {
    FindAvailableOpts { addr: Addr(0), fixed: false, unmap: false, map32bit: false }
}

impl MemoryManager {
    /// Where a mapping moves to.
    pub open spec fn move_target(
        &self,
        old_ar: AddrRange,
        new_size: u64,
        opts: MremapOpts,
        t: SysResult<AddrRange>,
    ) -> bool {
        let new_ar = span_at(opts.new_addr, new_size);
        if opts.mov == MremapMoveMode::Must {
            t == (if !opts.new_addr.page_aligned() || opts.new_addr.0 + new_size > u64::MAX
                || old_ar.meets(new_ar) {
                Err::<AddrRange, SysError>(sys(EINVAL))
            } else if as_asked(
                self.layout,
                self.vmas.model(),
                new_size,
                must_opts(opts.new_addr),
            ) {
                Ok(new_ar)
            } else {
                Err(sys(ENOMEM))
            })
        } else {
            match t {
                Ok(ar) => {
                    &&& ar == span_at(Addr(ar.start), new_size)
                    &&& found(
                        self.layout,
                        self.vmas.model(),
                        new_size,
                        may_opts(),
                        Ok(Addr(ar.start)),
                    )
                },
                Err(e) => found(self.layout, self.vmas.model(), new_size, may_opts(), Err(e)),
            }
        }
    }

    /// A mapping of which nothing is to be moved has to move to where it is.
    pub open spec fn lands_on_itself(
        &self,
        old_ar: AddrRange,
        new_size: u64,
        opts: MremapOpts,
    ) -> bool {
        &&& opts.mov == MremapMoveMode::Must
        &&& old_ar.start == old_ar.end
        &&& opts.new_addr.0 == old_ar.start
        &&& opts.new_addr.0 + new_size <= u64::MAX
        &&& as_asked(self.layout, self.vmas.model(), new_size, must_opts(opts.new_addr))
    }

    /// Why a mapping cannot move after all, or what its object has to be told.
    pub open spec fn move_check(&self, old_ar: AddrRange, new_ar: AddrRange, env: Env) -> Result<
        Option<CopyMapping>,
        i32,
    > {
        let m = self.vmas.model();
        let i = holder(m.ks, old_ar.start as int);
        let off = offset_at(m, i, old_ar.start);
        if m.ks[i].end < old_ar.end {
            Err(EFAULT)
        } else if self.usage_address_space - old_ar.length() + new_ar.length() > env.limit_as {
            Err(ENOMEM)
        } else {
            match m.vs[i].mappable {
                None => Ok(None),
                Some(mappable) => if off + new_ar.length() > u64::MAX {
                    Err(EINVAL)
                } else {
                    Ok(
                        Some(
                            CopyMapping {
                                mappable,
                                src: old_ar,
                                dst: new_ar,
                                off: off as u64,
                                writable: m.vs[i].writes_through(),
                            },
                        ),
                    )
                },
            }
        }
    }

    /// The move that is planned can be made.
    pub open spec fn can_move(&self, p: MovePlan) -> bool {
        let m = self.vmas.model();
        let i = holder(m.ks, p.old_ar.start as int);
        &&& whole_pages(p.old_ar)
        &&& whole_pages(p.new_ar)
        &&& p.old_ar.start <= p.old_ar.end
        &&& p.new_ar.start < p.new_ar.end
        &&& p.old_ar.length() <= p.new_ar.length()
        &&& !p.old_ar.meets(p.new_ar)
        &&& range_free(m.ks, p.new_ar)
        &&& held_at(m.ks, p.old_ar.start as int, i)
        &&& p.old_ar.end <= m.ks[i].end
        &&& p.copy is Some == m.vs[i].mappable is Some
        &&& m.vs[i].mappable is Some ==> {
            &&& offset_at(m, i, p.old_ar.start) + p.new_ar.length() <= u64::MAX
            &&& p.copy == Some(
                CopyMapping {
                    mappable: m.vs[i].mappable->Some_0,
                    src: p.old_ar,
                    dst: p.new_ar,
                    off: offset_at(m, i, p.old_ar.start) as u64,
                    writable: m.vs[i].writes_through(),
                },
            )
        }
    }
}

/// The part of the mapping that stays when it gets smaller.
pub open spec fn kept(old_ar: AddrRange, new_size: u64) -> AddrRange {
    if new_size < old_ar.length() {
        Range { start: old_ar.start, end: (old_ar.start + new_size) as u64 }
    } else {
        old_ar
    }
}

/// Room was made at `new_ar`: nothing has changed where the mapping may move
/// to free addresses. Where it must move, what was there is gone, and so is the
/// part of the mapping that does not stay.
pub open spec fn made_room(
    a: MemoryManager,
    b: MemoryManager,
    old_ar: AddrRange,
    new_ar: AddrRange,
    opts: MremapOpts,
) -> bool {
    let new_size = new_ar.length() as u64;
    if opts.mov == MremapMoveMode::Must {
        if new_size < old_ar.length() {
            exists|mid: MemoryManager|
                {
                    &&& #[trigger] unmapped(a, mid, new_ar)
                    &&& mid.layout == a.layout
                    &&& unmapped(
                        mid,
                        b,
                        Range { start: kept(old_ar, new_size).end, end: old_ar.end },
                    )
                }
        } else {
            unmapped(a, b, new_ar)
        }
    } else {
        b == a
    }
}

/// What comes of planning a move.
pub open spec fn planned(
    a: MemoryManager,
    b: MemoryManager,
    old_ar: AddrRange,
    new_size: u64,
    opts: MremapOpts,
    env: Env,
    res: SysResult<MovePlan>,
) -> bool {
    exists|t: SysResult<AddrRange>|
        {
            &&& #[trigger] a.move_target(old_ar, new_size, opts, t)
            &&& match t {
                Err(e) => b == a && res == Err::<MovePlan, SysError>(e),
                Ok(new_ar) => {
                    let k = kept(old_ar, new_size);
                    &&& made_room(a, b, old_ar, new_ar, opts)
                    &&& match b.move_check(k, new_ar, env) {
                        Err(code) => res == Err::<MovePlan, SysError>(sys(code)),
                        Ok(copy) => res == Ok::<MovePlan, SysError>(
                            MovePlan { old_ar: k, new_ar, copy },
                        ),
                    }
                },
            }
        }
}

/// What is mapped at an address that nothing touched is still mapped there.
pub proof fn lemma_still_held(m: Segments<Vma>, k: u64)
    requires
        sorted(m.ks),
        vma_at(m, k as int) is Some,
    ensures
        held_at(m.ks, k as int, holder(m.ks, k as int)),
{
    if forall|i: int| !held_at(m.ks, k as int, i) {
        lemma_point_free::<VmaSetOperations>(m, k as int);
    }
    let i = choose|i: int| held_at(m.ks, k as int, i);
    lemma_holder(m.ks, k as int, i);
}

impl MemoryManager {
    /// Makes room at `new_ar` for what is mapped at `old_ar`, as far as it is to
    /// stay.
    #[verifier::rlimit(40)]
    #[verifier::spinoff_prover]
    fn clear_target(&mut self, old_ar: AddrRange, new_ar: AddrRange, opts: &MremapOpts)
        requires
            old(self).wf(),
            whole_pages(old_ar),
            whole_pages(new_ar),
            old_ar.start <= old_ar.end,
            new_ar.start < new_ar.end,
            !old_ar.meets(new_ar),
            !new_ar.has(old_ar.start as int),
            vma_at(old(self).vmas.model(), old_ar.start as int) is Some,
            opts.mov == MremapMoveMode::Must,
        ensures
            final(self).wf(),
            final(self).same_settings(old(self)),
            final(self).brk == old(self).brk,
            final(self).max_rss == old(self).max_rss,
            final(self).locked_drift() == old(self).locked_drift(),
            made_room(*old(self), *final(self), old_ar, new_ar, *opts),
            range_free(final(self).vmas.ranges(), new_ar),
            vma_at(final(self).vmas.model(), old_ar.start as int) is Some,
    {
        let ghost mm0 = *self;
        self.unmap(new_ar);
        let ghost mid = *self;
        let new_size = new_ar.end - new_ar.start;
        if new_size < old_ar.end - old_ar.start {
            let cut = old_ar.start + new_size;
            self.unmap(Range { start: cut, end: old_ar.end });
            assert(unmapped(mm0, mid, new_ar));
        }
        proof {
            let k = old_ar.start as int;
            assert(vma_at(mid.vmas.model(), k) == vma_at(mm0.vmas.model(), k));
            assert(vma_at(self.vmas.model(), k) == vma_at(mid.vmas.model(), k));
            assert forall|k: int| new_ar.has(k) implies #[trigger] vma_at(
                self.vmas.model(),
                k,
            ) is None by {
                assert(vma_at(mid.vmas.model(), k) is None);
            }
            lemma_silent_is_free(*self, new_ar);
        }
    }

    /// Finds the addresses that what is mapped at `old_ar` moves to.
    fn find_target(&self, old_ar: AddrRange, new_size: u64, opts: &MremapOpts) -> (t: SysResult<
        AddrRange,
    >)
        requires
            self.wf(),
            new_size > 0,
            Addr(new_size).page_aligned(),
        ensures
            self.move_target(old_ar, new_size, *opts, t),
            t is Ok ==> {
                &&& t->Ok_0.end == t->Ok_0.start + new_size
                &&& whole_pages(t->Ok_0)
                &&& opts.mov == MremapMoveMode::Must ==> !old_ar.meets(t->Ok_0)
                    && t->Ok_0.start == opts.new_addr.0
                &&& opts.mov != MremapMoveMode::Must ==> range_free(self.vmas.ranges(), t->Ok_0)
            },
    {
        if opts.mov == MremapMoveMode::Must {
            let new_addr = opts.new_addr;
            if new_addr.page_offset() != 0 {
                return Err(SysError::new(EINVAL));
            }
            let new_ar = match new_addr.to_range(new_size) {
                Some(r) => r,
                None => return Err(SysError::new(EINVAL)),
            };
            if old_ar.overlaps(&new_ar) {
                return Err(SysError::new(EINVAL));
            }
            let f = FindAvailableOpts { addr: new_addr, fixed: true, unmap: true, map32bit: false };
            match self.find_available(new_size, f) {
                Ok(_) => Ok(new_ar),
                Err(e) => Err(e),
            }
        } else {
            let f = FindAvailableOpts::default();
            match self.find_available(new_size, f) {
                Ok(a) => {
                    proof {
                        found_is_free(self.layout, self.vmas.model(), new_size, f, a);
                    }
                    Ok(Range { start: a.0, end: a.0 + new_size })
                },
                Err(e) => Err(e),
            }
        }
    }

    /// Plans to move what is mapped at `old_ar` to where there is room for
    /// `new_size` bytes.
    fn begin_move(
        &mut self,
        old_ar: AddrRange,
        new_size: u64,
        opts: &MremapOpts,
        env: &Env,
    ) -> (res: SysResult<MovePlan>)
        requires
            old(self).wf(),
            whole_pages(old_ar),
            old_ar.start <= old_ar.end,
            new_size > 0,
            Addr(new_size).page_aligned(),
            vma_at(old(self).vmas.model(), old_ar.start as int) is Some,
            opts.mov == MremapMoveMode::Must || new_size > old_ar.length(),
            !old(self).lands_on_itself(old_ar, new_size, *opts),
        ensures
            final(self).wf(),
            final(self).same_settings(old(self)),
            final(self).brk == old(self).brk,
            final(self).max_rss == old(self).max_rss,
            final(self).locked_drift() == old(self).locked_drift(),
            planned(*old(self), *final(self), old_ar, new_size, *opts, *env, res),
            res is Ok ==> final(self).can_move(res->Ok_0),
    {
        let ghost mm0 = *self;
        let new_ar = match self.find_target(old_ar, new_size, opts) {
            Ok(r) => r,
            Err(e) => {
                assert(mm0.move_target(old_ar, new_size, *opts, Err(e)));
                return Err(e);
            },
        };
        assert(mm0.move_target(old_ar, new_size, *opts, Ok(new_ar)));
        if opts.mov == MremapMoveMode::Must {
            self.clear_target(old_ar, new_ar, opts);
        }
        assert(made_room(mm0, *self, old_ar, new_ar, *opts));
        let mut kept_ar = old_ar;
        if new_size < old_ar.end - old_ar.start {
            kept_ar.end = old_ar.start + new_size;
        }
        assert(kept_ar == kept(old_ar, new_size));
        self.check_move(kept_ar, new_ar, env)
    }

    /// Whether what is mapped at `old_ar` can move to `new_ar`.
    fn check_move(&self, old_ar: AddrRange, new_ar: AddrRange, env: &Env) -> (res: SysResult<
        MovePlan,
    >)
        requires
            self.wf(),
            whole_pages(old_ar),
            whole_pages(new_ar),
            old_ar.start <= old_ar.end,
            new_ar.start < new_ar.end,
            old_ar.length() <= new_ar.length(),
            range_free(self.vmas.ranges(), new_ar),
            vma_at(self.vmas.model(), old_ar.start as int) is Some,
        ensures
            match self.move_check(old_ar, new_ar, *env) {
                Err(code) => res == Err::<MovePlan, SysError>(sys(code)),
                Ok(copy) => {
                    &&& res == Ok::<MovePlan, SysError>(MovePlan { old_ar, new_ar, copy })
                    &&& self.can_move(res->Ok_0)
                },
            },
    {
        let ghost m = self.vmas.model();
        proof {
            lemma_still_held(m, old_ar.start);
        }
        let i = match self.vmas.index_holding(old_ar.start) {
            Some(i) => i,
            None => return Err(SysError::new(EFAULT)),
        };
        let r = self.vmas.range_of(i);
        if r.end < old_ar.end {
            return Err(SysError::new(EFAULT));
        }
        let ghost v = m.vs[i as int];
        proof {
            lemma_room_to_move(m, i as int, old_ar, new_ar);
        }
        let usage = self.usage_address_space - (old_ar.end - old_ar.start) + (new_ar.end
            - new_ar.start);
        if usage > env.limit_as {
            return Err(SysError::new(ENOMEM));
        }
        let v = *self.vmas.value_of(i);
        proof {
            assert(VmaSetOperations::fits(m.ks[i as int], m.vs[i as int]));
        }
        let copy = match v.mappable {
            None => None,
            Some(mappable) => {
                let off = v.off + (old_ar.start - r.start);
                if off.checked_add(new_ar.end - new_ar.start).is_none() {
                    return Err(SysError::new(EINVAL));
                }
                Some(
                    CopyMapping {
                        mappable,
                        src: old_ar,
                        dst: new_ar,
                        off,
                        writable: v.can_write_mappable(),
                    },
                )
            },
        };
        Ok(MovePlan { old_ar, new_ar, copy })
    }
}

/// There is enough room for a mapping to leave `old_ar` for `new_ar`.
proof fn lemma_room_to_move(m: Segments<Vma>, i: int, old_ar: AddrRange, new_ar: AddrRange)
    requires
        wf_segments::<VmaSetOperations>(m),
        held_at(m.ks, old_ar.start as int, i),
        old_ar.start <= old_ar.end <= m.ks[i].end,
        new_ar.start < new_ar.end,
        range_free(m.ks, new_ar),
    ensures
        old_ar.length() <= total(m, any_vma()),
        total(m, any_vma()) + new_ar.length() <= u64::MAX,
        !old_ar.meets(new_ar),
{
    assert(!m.ks[i].meets(new_ar));
    lemma_total_without(m, i, any_vma());
    lemma_wf_without::<VmaSetOperations>(m, i);
    lemma_total_bound(m.without(i), any_vma());
    lemma_total_outside(m, new_ar, any_vma());
    lemma_total_is_length(m, new_ar, any_vma());
    lemma_free_total(m, new_ar);
}

/// What is mapped at an address after the area at `old_ar`, as the area `v`, has
/// moved to `new_ar`.
pub open spec fn after_move(
    m: Segments<Vma>,
    old_ar: AddrRange,
    new_ar: AddrRange,
    v: Vma,
    k: int,
) -> Option<VmaPoint> {
    if old_ar.has(k) {
        None
    } else if new_ar.has(k) {
        Some(v.at(new_ar.start, k))
    } else {
        vma_at(m, k)
    }
}

/// Moves the area at `old_ar` to `new_ar`, and tells what it is.
fn move_vma(vmas: &mut VmaSet, old_ar: AddrRange, new_ar: AddrRange) -> (v: Vma)
    requires
        old(vmas).wf(),
        bounded(old(vmas).ranges(), page_bound()),
        whole_pages(old_ar),
        whole_pages(new_ar),
        old_ar.start < old_ar.end,
        new_ar.start < new_ar.end,
        range_free(old(vmas).ranges(), new_ar),
        ({
            let m = old(vmas).model();
            let i = holder(m.ks, old_ar.start as int);
            &&& held_at(m.ks, old_ar.start as int, i)
            &&& old_ar.end <= m.ks[i].end
            &&& m.vs[i].mappable is Some ==> offset_at(m, i, old_ar.start) + new_ar.length()
                <= u64::MAX
        }),
    ensures
        final(vmas).wf(),
        bounded(final(vmas).ranges(), page_bound()),
        v.effective_perms == v.real_perms.granted(),
        final(vmas).model() == moved_areas(old(vmas).model(), old_ar, new_ar, v),
        forall|k: int| old_ar.has(k) ==> #[trigger] vma_at(old(vmas).model(), k) == Some(
            v.at(old_ar.start, k),
        ),
        forall|k: int| #[trigger]
            vma_at(final(vmas).model(), k) == after_move(
                old(vmas).model(),
                old_ar,
                new_ar,
                v,
                k,
            ),
        total(final(vmas).model(), any_vma()) == total(old(vmas).model(), any_vma())
            - old_ar.length() + new_ar.length(),
        total(final(vmas).model(), data_vma()) == total(old(vmas).model(), data_vma()) - share(
            old_ar,
            v,
            data_vma(),
        ) + share(new_ar, v, data_vma()),
        total(final(vmas).model(), locked_vma()) == total(old(vmas).model(), locked_vma())
            - share(old_ar, v, locked_vma()) + share(new_ar, v, locked_vma()),
{
    let ghost m0 = vmas.model();
    let ghost h = holder(m0.ks, old_ar.start as int);
    proof {
        lemma_vma_properties_last();
    }
    let i = match vmas.index_holding(old_ar.start) {
        Some(i) => i,
        None => 0,
    };
    let j = vmas.isolate_index(i, old_ar);
    let ghost c = vmas.model();
    let v = *vmas.value_of(j);
    proof {
        assert(c.ks[j as int] == old_ar);
        assert(bounded(c.ks, page_bound()));
        assert(total(c, any_vma()) == total(m0, any_vma()));
        assert(total(c, data_vma()) == total(m0, data_vma()));
        assert(total(c, locked_vma()) == total(m0, locked_vma()));
        assert(VmaSetOperations::fits(c.ks[j as int], c.vs[j as int]));
        assert forall|k: int| old_ar.has(k) implies #[trigger] vma_at(m0, k) == Some(
            v.at(old_ar.start, k),
        ) by {
            assert(held_at(c.ks, k, j as int));
            lemma_point_held::<VmaSetOperations>(c, k, j as int);
            assert(vma_at(c, k) == vma_at(m0, k));
        }
        lemma_offset_of_part(m0, h, old_ar, v);
        lemma_wf_without::<VmaSetOperations>(c, j as int);
        lemma_bounded_without(c, j as int, page_bound());
        lemma_total_without(c, j as int, any_vma());
        lemma_total_without(c, j as int, data_vma());
        lemma_total_without(c, j as int, locked_vma());
    }
    let _ = vmas.raw_remove(j);
    let ghost n = vmas.model();
    proof {
        assert forall|k: int| #[trigger]
            vma_at(n, k) == (if old_ar.has(k) {
                None
            } else {
                vma_at(m0, k)
            }) by {
            without_is_silent::<VmaSetOperations>(c, j as int, k);
            assert(vma_at(c, k) == vma_at(m0, k));
        }
        lemma_free_after_removal(m0, n, new_ar);
        lemma_total_inserted::<VmaSetOperations>(n, new_ar, v, any_vma());
        lemma_total_inserted::<VmaSetOperations>(n, new_ar, v, data_vma());
        lemma_total_inserted::<VmaSetOperations>(n, new_ar, v, locked_vma());
        lemma_bounded_inserted::<VmaSetOperations>(n, new_ar, v, page_bound());
    }
    let _ = vmas.insert(new_ar, v);
    proof {
        assert forall|k: int| #[trigger]
            vma_at(vmas.model(), k) == after_move(m0, old_ar, new_ar, v, k) by {
            insertion_speaks::<VmaSetOperations>(n, new_ar, v, k);
            assert(vma_at(n, k) == (if old_ar.has(k) {
                None
            } else {
                vma_at(m0, k)
            }));
            if old_ar.has(k) {
                lemma_apart_from_free(m0, h, old_ar, new_ar);
            }
        }
    }
    v
}

/// What lies in an area has nothing in common with free addresses.
proof fn lemma_apart_from_free(m: Segments<Vma>, h: int, old_ar: AddrRange, new_ar: AddrRange)
    requires
        held_at(m.ks, old_ar.start as int, h),
        old_ar.end <= m.ks[h].end,
        old_ar.start < old_ar.end,
        new_ar.start < new_ar.end,
        range_free(m.ks, new_ar),
    ensures
        !old_ar.meets(new_ar),
{
    assert(!m.ks[h].meets(new_ar));
}

/// A part of an area maps what the area maps there.
proof fn lemma_offset_of_part(m: Segments<Vma>, h: int, old_ar: AddrRange, v: Vma)
    requires
        sorted(m.ks),
        held_at(m.ks, old_ar.start as int, h),
        old_ar.start < old_ar.end,
        vma_at(m, old_ar.start as int) == Some(v.at(old_ar.start, old_ar.start as int)),
    ensures
        v.mappable == m.vs[h].mappable,
        v.mappable is Some ==> v.off == offset_at(m, h, old_ar.start),
        v.mlock_mode == m.vs[h].mlock_mode,
        v.private_data() == m.vs[h].private_data(),
        v.writes_through() == m.vs[h].writes_through(),
{
    lemma_point_held::<VmaSetOperations>(m, old_ar.start as int, h);
}

/// Free addresses stay free when less is mapped.
proof fn lemma_free_after_removal(m: Segments<Vma>, n: Segments<Vma>, r: AddrRange)
    requires
        sorted(n.ks),
        r.start < r.end,
        range_free(m.ks, r),
        forall|k: int| #[trigger] vma_at(n, k) is None || vma_at(n, k) == vma_at(m, k),
    ensures
        range_free(n.ks, r),
{
    assert forall|i: int| 0 <= i < n.ks.len() implies !(#[trigger] n.ks[i]).meets(r) by {
        if n.ks[i].meets(r) {
            assert(n.ks[i].start < n.ks[i].end);
            let k = if n.ks[i].start >= r.start {
                n.ks[i].start as int
            } else {
                r.start as int
            };
            assert(held_at(n.ks, k, i));
            lemma_point_held::<VmaSetOperations>(n, k, i);
            lemma_free_is_silent(m, r, k);
            assert(vma_at(n, k) is None || vma_at(n, k) == vma_at(m, k));
        }
    }
}

/// The area that starts, or is cut, at `addr`.
pub open spec fn area_at(m: Segments<Vma>, addr: u64, v: Vma) -> bool {
    vma_at(m, addr as int) == Some(v.at(addr, addr as int))
}

/// The object that is no longer mapped at `ar`, if any, is to be told so.
pub open spec fn removal(v: Vma, ar: AddrRange) -> Seq<Effect> {
    match v.mappable {
        Some(mappable) => seq![
            Effect::RemoveMapping { mappable, ar, off: v.off, writable: v.writes_through() },
        ],
        None => Seq::empty(),
    }
}

/// The areas after the one at `old_ar` was cut out, and put at `new_ar`.
pub open spec fn moved_areas(
    m: Segments<Vma>,
    old_ar: AddrRange,
    new_ar: AddrRange,
    v: Vma,
) -> Segments<Vma> {
    let i = holder(m.ks, old_ar.start as int);
    let rest = isolated::<VmaSetOperations>(m, i, old_ar).without(cut_start_at(m, i, old_ar));
    inserted::<VmaSetOperations>(rest, new_ar, v)
}

/// What was mapped at the old addresses, and the memory behind it, has moved to
/// the new ones.
pub open spec fn moved(a: MemoryManager, b: MemoryManager, p: MovePlan, v: Vma) -> bool {
    &&& forall|k: int| #[trigger]
        vma_at(b.vmas.model(), k) == after_move(a.vmas.model(), p.old_ar, p.new_ar, v, k)
    &&& b.vmas.model() == moved_areas(a.vmas.model(), p.old_ar, p.new_ar, v)
    &&& b.pmas.model() == shifted_memory(a.pmas.model(), p.old_ar, p.new_ar.start)
    &&& places_moved(a.pmas.model(), b.pmas.model(), p.old_ar, p.new_ar.start)
    &&& forall|k: int| #[trigger]
        pma_at(b.pmas.model(), k) == (if p.old_ar.has(k) {
            None
        } else if shifted(p.old_ar, p.old_ar.start, p.new_ar.start).has(k) {
            pma_at(a.pmas.model(), k - p.new_ar.start + p.old_ar.start)
        } else {
            pma_at(a.pmas.model(), k)
        })
    &&& b.outbox@ == a.outbox@.unmapping(p.old_ar.common(a.layout.application())).followed_by(
        removal(v, p.old_ar),
    )
    &&& b.locked_drift() == a.locked_drift()
}

/// What is mapped at the old address is mapped at the new ones too. The length
/// is added to the count of locked memory if the memory is not locked.
pub open spec fn duplicated(a: MemoryManager, b: MemoryManager, p: MovePlan, v: Vma) -> bool {
    &&& mapped(a, b, p.new_ar, v)
    &&& b.pmas == a.pmas
    &&& b.outbox == a.outbox
    &&& b.locked_as == (if v.locked() {
        a.locked_as as int
    } else {
        (a.locked_as + p.new_ar.length()) % word()
    })
}

/// The memory that is to be looked up after a move.
pub open spec fn to_populate_moved(active: bool, v: Vma, p: MovePlan) -> Option<AddrRange> {
    let mode = if p.old_ar.start == p.old_ar.end {
        MLockMode::None_
    } else {
        MLockMode::Eager
    };
    if v.mlock_mode == mode && v.real_perms.granted().some() && active {
        Some(p.new_ar)
    } else {
        None
    }
}

impl MemoryManager {
    /// Makes a planned move. Where an object is mapped, `copied` tells whether
    /// it took note of the new addresses.
    pub fn mremap_move(&mut self, p: &MovePlan, copied: SysResult<()>) -> (res: SysResult<
        MremapStep,
    >)
        requires
            old(self).wf(),
            old(self).can_move(*p),
        ensures
            final(self).wf(),
            final(self).same_settings(old(self)),
            final(self).brk == old(self).brk,
            final(self).max_rss == old(self).max_rss,
            moves(*old(self), *final(self), *p, copied, res),
    {
        if p.copy.is_some() {
            if let Err(e) = copied {
                return Err(e);
            }
        }
        if p.old_ar.is_empty() {
            Ok(self.duplicate_vma(p))
        } else {
            Ok(self.move_all(p))
        }
    }

    fn duplicate_vma(&mut self, p: &MovePlan) -> (step: MremapStep)
        requires
            old(self).wf(),
            old(self).can_move(*p),
            p.old_ar.start == p.old_ar.end,
        ensures
            final(self).wf(),
            final(self).same_settings(old(self)),
            final(self).brk == old(self).brk,
            final(self).max_rss == old(self).max_rss,
            exists|v: Vma|
                {
                    &&& #[trigger] area_at(old(self).vmas.model(), p.old_ar.start, v)
                    &&& duplicated(*old(self), *final(self), *p, v)
                    &&& step == (MremapStep::Done {
                        addr: Addr(p.new_ar.start),
                        populate: to_populate_moved(old(self).outbox.active, v, *p),
                    })
                },
    {
        let ghost mm0 = *self;
        let ghost m = self.vmas.model();
        let i = match self.vmas.index_holding(p.old_ar.start) {
            Some(i) => i,
            None => 0,
        };
        proof {
            assert(VmaSetOperations::fits(m.ks[i as int], m.vs[i as int]));
            lemma_point_held::<VmaSetOperations>(m, p.old_ar.start as int, i as int);
        }
        let mut v = *self.vmas.value_of(i);
        if v.mappable.is_some() {
            v.off = v.off + (p.old_ar.start - self.vmas.range_of(i).start);
        }
        assert(area_at(m, p.old_ar.start, v));
        self.put_vma(p.new_ar, v);
        let active = self.outbox.active;
        if !v.is_locked() {
            self.locked_as = self.locked_as.wrapping_add(p.new_ar.end - p.new_ar.start);
        }
        let populate = if !v.is_locked() && v.effective_perms.any() && active {
            Some(p.new_ar)
        } else {
            None
        };
        assert(duplicated(mm0, *self, *p, v));
        MremapStep::Done { addr: Addr(p.new_ar.start), populate }
    }

    #[verifier::rlimit(60)]
    #[verifier::spinoff_prover]
    fn move_all(&mut self, p: &MovePlan) -> (step: MremapStep)
        requires
            old(self).wf(),
            old(self).can_move(*p),
            p.old_ar.start < p.old_ar.end,
        ensures
            final(self).wf(),
            final(self).same_settings(old(self)),
            final(self).brk == old(self).brk,
            final(self).max_rss == old(self).max_rss,
            exists|v: Vma|
                {
                    &&& #[trigger] area_at(old(self).vmas.model(), p.old_ar.start, v)
                    &&& moved(*old(self), *final(self), *p, v)
                    &&& step == (MremapStep::Done {
                        addr: Addr(p.new_ar.start),
                        populate: to_populate_moved(old(self).outbox.active, v, *p),
                    })
                },
    {
        let ghost mm0 = *self;
        let ghost vm0 = self.vmas.model();
        let ghost pm0 = self.pmas.model();
        let v = move_vma(&mut self.vmas, p.old_ar, p.new_ar);
        let old_len = p.old_ar.end - p.old_ar.start;
        let new_len = p.new_ar.end - p.new_ar.start;
        proof {
            assert(vma_at(vm0, p.old_ar.start as int) == Some(
                v.at(p.old_ar.start, p.old_ar.start as int),
            ));
            assert(area_at(vm0, p.old_ar.start, v));
            lemma_offset_of_part(
                vm0,
                holder(vm0.ks, p.old_ar.start as int),
                p.old_ar,
                v,
            );
            lemma_total_bound(self.vmas.model(), any_vma());
            lemma_total_bound(self.vmas.model(), data_vma());
            assert forall|k: int| p.new_ar.has(k) implies #[trigger] pma_at(pm0, k) is None by {
                lemma_free_is_silent(vm0, p.new_ar, k);
                assert(backs(vma_at(vm0, k), pma_at(pm0, k)));
            }
        }
        self.usage_address_space = self.usage_address_space + (new_len - old_len);
        if v.is_private_data() {
            self.data_address_space = self.data_address_space + (new_len - old_len);
        }
        if v.is_locked() {
            self.locked_as = self.locked_as.wrapping_add(new_len - old_len);
        }
        shift_pmas(&mut self.pmas, p.old_ar, p.new_ar.start);
        proof {
            let vm = self.vmas.model();
            let pm = self.pmas.model();
            assert forall|k: int| backs(vma_at(vm, k), #[trigger] pma_at(pm, k)) by {
                lemma_moved_backs(vm0, pm0, p.old_ar, p.new_ar, v, k);
                assert(vma_at(vm, k) == after_move(vm0, p.old_ar, p.new_ar, v, k));
            }
        }
        let ghost out0 = self.outbox@;
        self.unmap_address_space(p.old_ar);
        let ghost out1 = self.outbox@;
        if let Some(mappable) = v.mappable {
            self.outbox.effects.push(
                Effect::RemoveMapping {
                    mappable,
                    ar: p.old_ar,
                    off: v.off,
                    writable: v.can_write_mappable(),
                },
            );
        }
        assert(self.outbox@ =~= out1.followed_by(removal(v, p.old_ar)));
        let populate = if v.mlock_mode == MLockMode::Eager && v.effective_perms.any()
            && self.outbox.active {
            Some(p.new_ar)
        } else {
            None
        };
        assert(moved(mm0, *self, *p, v));
        MremapStep::Done { addr: Addr(p.new_ar.start), populate }
    }
}

/// The memory that has moved fits what the application sees at the new
/// addresses.
proof fn lemma_moved_backs(
    vm: Segments<Vma>,
    pm: Segments<PmaView>,
    old_ar: AddrRange,
    new_ar: AddrRange,
    v: Vma,
    k: int,
)
    requires
        backed(vm, pm),
        old_ar.start < old_ar.end,
        old_ar.length() <= new_ar.length(),
        !old_ar.meets(new_ar),
        new_ar.start < new_ar.end,
        forall|k: int| old_ar.has(k) ==> #[trigger] vma_at(vm, k) == Some(v.at(old_ar.start, k)),
        forall|k: int| new_ar.has(k) ==> #[trigger] pma_at(pm, k) is None,
    ensures
        backs(
            after_move(vm, old_ar, new_ar, v, k),
            if old_ar.has(k) {
                None
            } else if shifted(old_ar, old_ar.start, new_ar.start).has(k) {
                pma_at(pm, k - new_ar.start + old_ar.start)
            } else {
                pma_at(pm, k)
            },
        ),
{
    let k2 = k - new_ar.start + old_ar.start;
    assert(backs(vma_at(vm, k), pma_at(pm, k)));
    assert(backs(vma_at(vm, k2), pma_at(pm, k2)));
    if old_ar.has(k2) {
        assert(vma_at(vm, k2) == Some(v.at(old_ar.start, k2)));
    }
}

/// Why the size of a mapping cannot be changed in any way.
pub open spec fn refused(
    mm: MemoryManager,
    old_addr: Addr,
    old_size: u64,
    new_size: u64,
    env: Env,
) -> Option<i32> {
    let m = mm.vmas.model();
    let old_len = Addr(old_size).page_above();
    let new_len = Addr(new_size).page_above();
    let here = vma_at(m, old_addr.0 as int);
    if !old_addr.page_aligned() || new_size == 0 || new_len > u64::MAX || old_addr.0 + old_len
        > u64::MAX {
        Some(EINVAL)
    } else if here is None {
        Some(EFAULT)
    } else if new_len > old_len && here->Some_0.mlock_mode != MLockMode::None_ && !env.ipc_lock
        && mm.locked_as + (new_len - old_len) > env.limit_mlock {
        Some(EAGAIN)
    } else {
        None
    }
}

/// What is mapped would be taken away before it is mapped anew.
pub open spec fn overwrites_itself(
    mm: MemoryManager,
    old_addr: Addr,
    old_size: u64,
    new_size: u64,
    opts: MremapOpts,
    env: Env,
) -> bool {
    &&& refused(mm, old_addr, old_size, new_size, env) is None
    &&& mm.lands_on_itself(
        Range { start: old_addr.0, end: (old_addr.0 + Addr(old_size).page_above()) as u64 },
        Addr(new_size).page_above() as u64,
        opts,
    )
}

/// Whether there is room for the area that `opts` asks for.
pub open spec fn room_for(
    mm: MemoryManager,
    opts: MmapOpts,
    env: Env,
    r: SysResult<AddrRange>,
) -> bool {
    match r {
        Ok(ar) => mid_created(mm, mm, opts, env, ar),
        Err(e) => {
            ||| mm.places(opts, Err(e))
            ||| exists|x: Addr|
                #![trigger span_at(x, opts.length)]
                {
                    &&& mm.places(opts, Ok(x))
                    &&& mm.over_limit(opts, env, span_at(x, opts.length)) == Some(e.code)
                    &&& e == sys(e.code)
                }
        },
    }
}

/// Whether a mapping can grow where it is.
pub open spec fn grows(
    mm: MemoryManager,
    old_ar: AddrRange,
    new_size: u64,
    env: Env,
    r: SysResult<AddrRange>,
) -> bool {
    let m = mm.vmas.model();
    let i = holder(m.ks, old_ar.start as int);
    let o = grow_opts(m, i, old_ar.end, (new_size - old_ar.length()) as u64);
    if m.vs[i].mappable is Some && offset_at(m, i, m.ks[i].end) + o.length > u64::MAX {
        r == Err::<AddrRange, SysError>(sys(EINVAL))
    } else {
        room_for(mm, o, env, r)
    }
}

/// A move as a step.
pub open spec fn move_step(r: SysResult<MovePlan>) -> SysResult<MremapStep> {
    match r {
        Ok(p) => Ok(MremapStep::Move(p)),
        Err(e) => Err(e),
    }
}

/// How the size of the mapping at `old_ar` is changed.
pub open spec fn resizing(
    a: MemoryManager,
    b: MemoryManager,
    old_ar: AddrRange,
    new_size: u64,
    opts: MremapOpts,
    env: Env,
    res: SysResult<MremapStep>,
) -> bool {
    let m = a.vmas.model();
    let i = holder(m.ks, old_ar.start as int);
    let o = grow_opts(m, i, old_ar.end, (new_size - old_ar.length()) as u64);
    if opts.mov == MremapMoveMode::Must {
        exists|r: SysResult<MovePlan>|
            #[trigger] planned(a, b, old_ar, new_size, opts, env, r) && res == move_step(r)
    } else if new_size <= old_ar.length() {
        &&& res == Ok::<MremapStep, SysError>(
            MremapStep::Done { addr: Addr(old_ar.start), populate: None },
        )
        &&& new_size < old_ar.length() ==> unmapped(
            a,
            b,
            Range { start: (old_ar.start + new_size) as u64, end: old_ar.end },
        )
        &&& new_size == old_ar.length() ==> b == a
    } else if m.ks[i].end < old_ar.end {
        res == Err::<MremapStep, SysError>(sys(EFAULT)) && b == a
    } else {
        exists|r: SysResult<AddrRange>|
            {
                &&& #[trigger] grows(a, old_ar, new_size, env, r)
                &&& match r {
                    Ok(ar) => b == a && res == Ok::<MremapStep, SysError>(
                        MremapStep::Grow { opts: o, ar },
                    ),
                    Err(e) => if opts.mov == MremapMoveMode::No {
                        b == a && res == Err::<MremapStep, SysError>(e)
                    } else {
                        exists|r: SysResult<MovePlan>|
                            #[trigger] planned(a, b, old_ar, new_size, opts, env, r) && res
                                == move_step(r)
                    },
                }
            }
    }
}

/// What comes of asking for another size of the mapping at `old_addr`.
pub open spec fn mremaps(
    a: MemoryManager,
    b: MemoryManager,
    old_addr: Addr,
    old_size: u64,
    new_size: u64,
    opts: MremapOpts,
    env: Env,
    res: SysResult<MremapStep>,
) -> bool {
    match refused(a, old_addr, old_size, new_size, env) {
        Some(code) => res == Err::<MremapStep, SysError>(sys(code)) && b == a,
        None => resizing(
            a,
            b,
            Range { start: old_addr.0, end: (old_addr.0 + Addr(old_size).page_above()) as u64 },
            Addr(new_size).page_above() as u64,
            opts,
            env,
            res,
        ),
    }
}

/// What comes of a move that was planned.
pub open spec fn moves(
    a: MemoryManager,
    b: MemoryManager,
    p: MovePlan,
    copied: SysResult<()>,
    res: SysResult<MremapStep>,
) -> bool {
    match res {
        Err(e) => p.copy is Some && copied == Err::<(), SysError>(e) && b == a,
        Ok(step) => {
            &&& p.copy is Some ==> copied is Ok
            &&& exists|v: Vma|
                {
                    &&& #[trigger] area_at(a.vmas.model(), p.old_ar.start, v)
                    &&& if p.old_ar.start == p.old_ar.end {
                        duplicated(a, b, p, v)
                    } else {
                        moved(a, b, p, v)
                    }
                    &&& step == (MremapStep::Done {
                        addr: Addr(p.new_ar.start),
                        populate: to_populate_moved(a.outbox.active, v, p),
                    })
                }
        },
    }
}

/// What comes of growing where there is room at `ar` for what `o` asks for.
pub open spec fn grown(
    a: MemoryManager,
    b: MemoryManager,
    old_ar: AddrRange,
    new_size: u64,
    opts: MremapOpts,
    env: Env,
    o: MmapOpts,
    ar: AddrRange,
    added: SysResult<()>,
    res: SysResult<MremapStep>,
) -> bool {
    if o.mappable is None || added is Ok {
        &&& mapped(a, b, ar, new_vma(o))
        &&& b.pmas == a.pmas
        &&& b.outbox == a.outbox
        &&& res == Ok::<MremapStep, SysError>(
            MremapStep::Done {
                addr: Addr(old_ar.start),
                populate: if o.mlock_mode == MLockMode::Eager && o.perms.granted().some()
                    && a.outbox.active {
                    Some(ar)
                } else {
                    None
                },
            },
        )
    } else if opts.mov == MremapMoveMode::No {
        b == a && res == Err::<MremapStep, SysError>(added->Err_0)
    } else {
        exists|r: SysResult<MovePlan>| #[trigger]
            planned(a, b, old_ar, new_size, opts, env, r) && res == move_step(r)
    }
}

/// A step that is left to be made can be made.
pub open spec fn feasible(mm: MemoryManager, res: SysResult<MremapStep>) -> bool {
    match res {
        Ok(MremapStep::Grow { opts, ar }) => {
            &&& askable(opts)
            &&& ar.end == ar.start + opts.length
            &&& whole_pages(ar)
            &&& range_free(mm.vmas.ranges(), ar)
        },
        Ok(MremapStep::Move(p)) => mm.can_move(p),
        _ => true,
    }
}

impl MemoryManager {
    /// Changes the size of the mapping at `old_addr`, and moves it where that is
    /// needed and allowed. What is left to be done is told as a step.
    pub fn mremap(
        &mut self,
        old_addr: Addr,
        old_size: u64,
        new_size: u64,
        opts: &MremapOpts,
        env: &Env,
    ) -> (res: SysResult<MremapStep>)
        requires
            old(self).wf(),
            old_addr.page_aligned() ==> Addr(old_size).page_above() <= u64::MAX,
            !overwrites_itself(*old(self), old_addr, old_size, new_size, *opts, *env),
        ensures
            final(self).wf(),
            final(self).same_settings(old(self)),
            final(self).brk == old(self).brk,
            final(self).max_rss == old(self).max_rss,
            final(self).locked_drift() == old(self).locked_drift(),
            mremaps(*old(self), *final(self), old_addr, old_size, new_size, *opts, *env, res),
            feasible(*final(self), res),
    {
        let ghost mm0 = *self;
        let (old_ar, new_len, i) = match self.check_remap(old_addr, old_size, new_size, env) {
            Ok(x) => x,
            Err(e) => return Err(e),
        };
        let old_len = old_ar.end - old_ar.start;
        if opts.mov != MremapMoveMode::Must {
            if new_len <= old_len {
                if new_len < old_len {
                    self.unmap(Range { start: old_addr.0 + new_len, end: old_ar.end });
                }
                return Ok(MremapStep::Done { addr: old_addr, populate: None });
            }
            if self.vmas.range_of(i).end < old_ar.end {
                return Err(SysError::new(EFAULT));
            }
            match self.begin_grow(i, old_ar, new_len, env) {
                Ok((o, ar)) => {
                    assert(grows(mm0, old_ar, new_len, *env, Ok(ar)));
                    return Ok(MremapStep::Grow { opts: o, ar });
                },
                Err(e) => {
                    assert(grows(mm0, old_ar, new_len, *env, Err(e)));
                    if opts.mov == MremapMoveMode::No {
                        return Err(e);
                    }
                },
            }
        }
        let r = self.begin_move(old_ar, new_len, opts, env);
        assert(planned(mm0, *self, old_ar, new_len, *opts, *env, r));
        match r {
            Ok(p) => Ok(MremapStep::Move(p)),
            Err(e) => Err(e),
        }
    }

    /// Whether a mapping would be taken away before it is mapped anew, which cannot be
    /// asked for.
    pub fn is_overwritten(
        &self,
        old_addr: Addr,
        old_size: u64,
        new_size: u64,
        opts: &MremapOpts,
        env: &Env,
    ) -> (b: bool)
        requires
            self.wf(),
        ensures
            b == overwrites_itself(*self, old_addr, old_size, new_size, *opts, *env),
    {
        if old_size != 0 {
            return false;
        }
        let (old_ar, new_len, _) = match self.check_remap(old_addr, old_size, new_size, env) {
            Ok(x) => x,
            Err(_) => return false,
        };
        if opts.mov != MremapMoveMode::Must || opts.new_addr.0 != old_addr.0 {
            return false;
        }
        self.find_target(old_ar, new_len, opts).is_ok()
    }

    /// Whether the size of a mapping can be changed in some way: its addresses, the
    /// new size, both in whole pages, and the index of the area.
    fn check_remap(&self, old_addr: Addr, old_size: u64, new_size: u64, env: &Env) -> (r: SysResult<
        (AddrRange, u64, usize),
    >)
        requires
            self.wf(),
            old_addr.page_aligned() ==> Addr(old_size).page_above() <= u64::MAX,
        ensures
            match r {
                Ok((old_ar, new_len, i)) => {
                    &&& refused(*self, old_addr, old_size, new_size, *env) is None
                    &&& old_ar.start == old_addr.0
                    &&& old_ar.end == old_addr.0 + Addr(old_size).page_above()
                    &&& new_len == Addr(new_size).page_above()
                    &&& new_len > 0
                    &&& Addr(new_len).page_aligned()
                    &&& whole_pages(old_ar)
                    &&& held_at(self.vmas.ranges(), old_addr.0 as int, i as int)
                    &&& i == holder(self.vmas.ranges(), old_addr.0 as int)
                },
                Err(e) => e == sys(e.code) && refused(*self, old_addr, old_size, new_size, *env)
                    == Some(e.code),
            },
    {
        let ghost m = self.vmas.model();
        if old_addr.page_offset() != 0 {
            return Err(SysError::new(EINVAL));
        }
        let old_len = match Addr(old_size).round_up() {
            Some(l) => l.0,
            None => return Err(SysError::new(EINVAL)),
        };
        let new_len = match Addr(new_size).round_up() {
            Some(l) => l.0,
            None => return Err(SysError::new(EINVAL)),
        };
        if new_len == 0 {
            return Err(SysError::new(EINVAL));
        }
        let old_ar = match old_addr.to_range(old_len) {
            Some(r) => r,
            None => return Err(SysError::new(EINVAL)),
        };
        let i = match self.vmas.index_holding(old_addr.0) {
            Some(i) => i,
            None => {
                proof {
                    lemma_free_point(m, old_addr.0);
                }
                return Err(SysError::new(EFAULT));
            },
        };
        proof {
            lemma_point_held::<VmaSetOperations>(m, old_addr.0 as int, i as int);
        }
        if new_len > old_len && self.vmas.value_of(i).is_locked() && !env.ipc_lock {
            let new_locked_as = self.locked_as as u128 + (new_len - old_len) as u128;
            if new_locked_as > env.limit_mlock as u128 {
                return Err(SysError::new(EAGAIN));
            }
        }
        Ok((old_ar, new_len, i))
    }

    /// Looks for room for the area at index `i` to grow where it is.
    fn begin_grow(&self, i: usize, old_ar: AddrRange, new_size: u64, env: &Env) -> (res: SysResult<
        (MmapOpts, AddrRange),
    >)
        requires
            self.wf(),
            i < self.vmas.ranges().len(),
            i == holder(self.vmas.ranges(), old_ar.start as int),
            whole_pages(old_ar),
            old_ar.start <= old_ar.end,
            Addr(new_size).page_aligned(),
            new_size > old_ar.length(),
        ensures
            match res {
                Ok((o, ar)) => {
                    &&& o == grow_opts(
                        self.vmas.model(),
                        i as int,
                        old_ar.end,
                        (new_size - old_ar.length()) as u64,
                    )
                    &&& grows(*self, old_ar, new_size, *env, Ok(ar))
                    &&& feasible(*self, Ok(MremapStep::Grow { opts: o, ar }))
                },
                Err(e) => grows(*self, old_ar, new_size, *env, Err(e)),
            },
    {
        let ghost m = self.vmas.model();
        let v = *self.vmas.value_of(i);
        let r = self.vmas.range_of(i);
        let length = new_size - (old_ar.end - old_ar.start);
        proof {
            assert(VmaSetOperations::fits(m.ks[i as int], m.vs[i as int]));
        }
        let offset = if v.mappable.is_some() {
            let end = v.off + (r.end - r.start);
            if end.checked_add(length).is_none() {
                return Err(SysError::new(EINVAL));
            }
            end
        } else {
            0
        };
        let mut o = MmapOpts::default();
        o.length = length;
        o.mappable = v.mappable;
        o.offset = offset;
        o.addr = Addr(old_ar.end);
        o.fixed = true;
        o.perms = v.real_perms;
        o.max_perms = v.max_perms;
        o.private = v.private;
        o.grows_down = v.grows_down;
        o.mlock_mode = v.mlock_mode;
        match self.find_room(&o, env) {
            Ok(ar) => Ok((o, ar)),
            Err(e) => Err(e),
        }
    }

    /// Makes a mapping grow where it is. Where an object is mapped, `added`
    /// tells whether it took note of the new addresses. If it did not, the
    /// mapping moves if it may.
    pub fn mremap_grow(
        &mut self,
        old_ar: AddrRange,
        new_size: u64,
        opts: &MremapOpts,
        env: &Env,
        o: &MmapOpts,
        ar: AddrRange,
        added: SysResult<()>,
    ) -> (res: SysResult<MremapStep>)
        requires
            old(self).wf(),
            feasible(*old(self), Ok(MremapStep::Grow { opts: *o, ar })),
            whole_pages(old_ar),
            old_ar.start <= old_ar.end,
            Addr(new_size).page_aligned(),
            new_size > old_ar.length(),
            vma_at(old(self).vmas.model(), old_ar.start as int) is Some,
            opts.mov != MremapMoveMode::Must,
        ensures
            final(self).wf(),
            final(self).same_settings(old(self)),
            final(self).brk == old(self).brk,
            final(self).max_rss == old(self).max_rss,
            final(self).locked_drift() == old(self).locked_drift(),
            feasible(*final(self), res),
            grown(*old(self), *final(self), old_ar, new_size, *opts, *env, *o, ar, added, res),
    {
        let ghost mm0 = *self;
        if o.mappable.is_some() {
            if let Err(e) = added {
                if opts.mov == MremapMoveMode::No {
                    return Err(e);
                }
                let r = self.begin_move(old_ar, new_size, opts, env);
                assert(planned(mm0, *self, old_ar, new_size, *opts, *env, r));
                return match r {
                    Ok(p) => Ok(MremapStep::Move(p)),
                    Err(e) => Err(e),
                };
            }
        }
        self.finish_vma(o, ar);
        let populate = if o.mlock_mode == MLockMode::Eager && o.perms.effective().any()
            && self.outbox.active {
            Some(ar)
        } else {
            None
        };
        Ok(MremapStep::Done { addr: Addr(old_ar.start), populate })
    }
}

/// Nothing is said of a free address.
proof fn lemma_free_point(m: Segments<Vma>, k: u64)
    requires
        free(m.ks, k as int),
    ensures
        vma_at(m, k as int) is None,
{
    assert forall|i: int| !#[trigger] held_at(m.ks, k as int, i) by {
        if held_at(m.ks, k as int, i) {
            assert(m.ks[i].has(k as int));
        }
    }
    lemma_point_free::<VmaSetOperations>(m, k as int);
}

} // verus!
