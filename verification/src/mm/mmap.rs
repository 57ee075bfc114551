use vstd::prelude::*;

use crate::access::AccessType;
use crate::addr::{Addr, HUGE_PAGE_SIZE};
use crate::errno::{sys, SysError, SysResult, EACCES, EAGAIN, EINVAL, ENOMEM, EPERM};
use crate::memmap::{MLockMode, MmapOpts};
use crate::mm::find::{found, found_is_free, FindAvailableOpts};
use crate::mm::manager::{backs, page_bound, pma_at, vma_at, whole_pages, Env, MemoryManager};
use crate::mm::unmap::unmapped;
use crate::random::random_below;
use crate::mm::vma::{
    any_vma, data_vma, lemma_vma_properties_last, locked_vma, NumaPolicy, Vma, VmaSetOperations,
};
use crate::range::{AddrRange, Range};
use crate::segment::bounds::lemma_bounded_inserted;
use crate::segment::keys::{held_at, range_free, sorted};
use crate::segment::model::{inserted, Segments};
use crate::segment::nav::total_common;
use crate::segment::point::{insertion_speaks, lemma_point_free, lemma_point_held};
use crate::segment::total::{
    first, lemma_total_bound, lemma_total_in_first, lemma_total_inserted, lemma_total_is_length,
    lemma_total_outside, share, total, total_in,
};

verus! {

/// Anonymous memory is allocated in units of this size.
pub const PRIVATE_ALLOC_UNIT: u64 = HUGE_PAGE_SIZE;

/// What `opts` asks of the addresses.
pub open spec fn find_opts(opts: MmapOpts) -> FindAvailableOpts {
    FindAvailableOpts {
        addr: opts.addr,
        fixed: opts.fixed,
        unmap: opts.unmap,
        map32bit: opts.map32bit,
    }
}

/// What is asked takes precedence over what can be had.
pub open spec fn forced(opts: MmapOpts) -> bool {
    opts.force && opts.unmap && opts.fixed
}

/// What can be asked of a new area.
pub open spec fn askable(opts: MmapOpts) -> bool {
    &&& opts.length > 0
    &&& Addr(opts.length).page_aligned()
    &&& opts.addr.page_aligned()
    &&& opts.max_perms == opts.max_perms.granted()
    &&& opts.unmap ==> opts.fixed
    &&& opts.mappable is Some ==> opts.offset + opts.length <= u64::MAX
    &&& forced(opts) ==> opts.addr.0 + opts.length <= u64::MAX
}

/// The area that `opts` asks for.
pub open spec fn new_vma(opts: MmapOpts) -> Vma {
    Vma {
        mappable: opts.mappable,
        off: opts.offset,
        real_perms: opts.perms,
        effective_perms: opts.perms.granted(),
        max_perms: opts.max_perms,
        private: opts.private,
        grows_down: opts.grows_down,
        mlock_mode: opts.mlock_mode,
        numa_policy: NumaPolicy(0),
        numa_nodemask: 0,
    }
}

/// The range of the new area at `a`.
pub open spec fn span_at(a: Addr, length: u64) -> AddrRange {
    Range { start: a.0, end: (a.0 + length) as u64 }
}

impl MemoryManager {
    /// Where the area that `opts` asks for goes.
    pub open spec fn places(&self, opts: MmapOpts, a: SysResult<Addr>) -> bool {
        if forced(opts) {
            a == Ok::<Addr, SysError>(opts.addr)
        } else {
            found(self.layout, self.vmas.model(), opts.length, find_opts(opts), a)
        }
    }

    /// The limit that an area at `ar` would exceed, as the error that tells it.
    pub open spec fn over_limit(&self, opts: MmapOpts, env: Env, ar: AddrRange) -> Option<i32> {
        let m = self.vmas.model();
        let usage = self.usage_address_space + opts.length - if opts.unmap {
            total_common(m.ks, ar)
        } else {
            0
        };
        let locked = self.locked_as + opts.length - if opts.unmap {
            total_in(m, ar, locked_vma())
        } else {
            0
        };
        if usage > env.limit_as {
            Some(ENOMEM)
        } else if opts.mlock_mode == MLockMode::None_ || env.ipc_lock {
            None
        } else if env.limit_mlock == 0 {
            Some(EPERM)
        } else if locked > env.limit_mlock {
            Some(EAGAIN)
        } else {
            None
        }
    }

    /// How much of `ar` is locked in memory.
    pub fn mlocked_bytes_range(&self, ar: AddrRange) -> (n: u64)
        requires
            self.wf(),
            ar.well_formed(),
        ensures
            n == total_in(self.vmas.model(), ar, locked_vma()),
    {
        let ghost m = self.vmas.model();
        let n = self.vmas.count_segments();
        let mut sum: u64 = 0;
        let mut i: usize = 0;
        while i < n
            invariant
                self.wf(),
                ar.well_formed(),
                m == self.vmas.model(),
                n == m.ks.len(),
                m.ks.len() == m.vs.len(),
                i <= n,
                sum == total_in(first(m, i as int), ar, locked_vma()),
            decreases n - i,
        {
            let ghost f = first(m, i + 1);
            proof {
                lemma_total_in_first(m, ar, locked_vma(), i as int);
                assert(sorted(f.ks));
                lemma_total_outside(f, ar, locked_vma());
                lemma_total_bound(f, locked_vma());
            }
            if self.vmas.value_of(i).is_locked() {
                let c = self.vmas.range_of(i).intersect(&ar);
                sum = sum + (c.end - c.start);
            }
            i = i + 1;
        }
        assert(first(m, n as int) =~= m);
        sum
    }

    /// Finds the addresses for the area that `opts` asks for.
    pub fn find_room(&self, opts: &MmapOpts, env: &Env) -> (res: SysResult<AddrRange>)
        requires
            self.wf(),
            askable(*opts),
        ensures
            match res {
                Ok(ar) => {
                    &&& self.places(*opts, Ok(Addr(ar.start)))
                    &&& ar.end == ar.start + opts.length
                    &&& self.over_limit(*opts, *env, ar) is None
                    &&& whole_pages(ar)
                    &&& !opts.unmap ==> range_free(self.vmas.ranges(), ar)
                },
                Err(e) => self.places(*opts, Err(e)) || exists|a: Addr|
                    #![trigger span_at(a, opts.length)]
                    {
                        &&& self.places(*opts, Ok(a))
                        &&& self.over_limit(*opts, *env, span_at(a, opts.length)) == Some(e.code)
                        &&& e == sys(e.code)
                    },
            },
    {
        let ghost m = self.vmas.model();
        let f = FindAvailableOpts {
            addr: opts.addr,
            fixed: opts.fixed,
            unmap: opts.unmap,
            map32bit: opts.map32bit,
        };
        let addr = if opts.force && opts.unmap && opts.fixed {
            opts.addr
        } else {
            match self.find_available(opts.length, f) {
                Ok(a) => {
                    proof {
                        found_is_free(self.layout, m, opts.length, f, a);
                    }
                    a
                },
                Err(e) => return Err(e),
            }
        };
        let ar = Range { start: addr.0, end: addr.0 + opts.length };
        assert(self.places(*opts, Ok(addr)));
        assert(ar == span_at(addr, opts.length));
        proof {
            lemma_total_outside(m, ar, any_vma());
            lemma_total_is_length(m, ar, any_vma());
            lemma_free_total(m, ar);
        }
        let mut usage = self.usage_address_space;
        if opts.unmap {
            usage = usage - self.vmas.span_range(ar);
        }
        if usage + opts.length > env.limit_as {
            return Err(SysError::new(ENOMEM));
        }
        if opts.mlock_mode != MLockMode::None_ && !env.ipc_lock {
            if env.limit_mlock == 0 {
                return Err(SysError::new(EPERM));
            }
            let mut locked = self.locked_as as i128 + opts.length as i128;
            if opts.unmap {
                locked = locked - self.mlocked_bytes_range(ar) as i128;
            }
            if locked > env.limit_mlock as i128 {
                return Err(SysError::new(EAGAIN));
            }
        }
        Ok(ar)
    }

    /// Makes room for the area that `opts` asks for. What is mapped there is
    /// taken away where that was asked.
    pub fn begin_vma(&mut self, opts: &MmapOpts, env: &Env) -> (res: SysResult<AddrRange>)
        requires
            old(self).wf(),
            askable(*opts),
        ensures
            final(self).wf(),
            final(self).same_settings(old(self)),
            final(self).brk == old(self).brk,
            final(self).max_rss == old(self).max_rss,
            match res {
                Ok(ar) => mid_created(*old(self), *final(self), *opts, *env, ar),
                Err(e) => {
                    &&& *final(self) == *old(self)
                    &&& old(self).places(*opts, Err(e)) || exists|a: Addr|
                        #![trigger span_at(a, opts.length)]
                        {
                            &&& old(self).places(*opts, Ok(a))
                            &&& old(self).over_limit(*opts, *env, span_at(a, opts.length))
                                == Some(e.code)
                            &&& e == sys(e.code)
                        }
                },
            },
    {
        let ar = match self.find_room(opts, env) {
            Ok(ar) => ar,
            Err(e) => return Err(e),
        };
        if opts.unmap {
            self.unmap(ar);
            proof {
                lemma_silent_is_free(*self, ar);
            }
        }
        Ok(ar)
    }

    /// Puts the area that `opts` asks for at `ar`, where there is room.
    pub fn finish_vma(&mut self, opts: &MmapOpts, ar: AddrRange)
        requires
            old(self).wf(),
            askable(*opts),
            ar.end == ar.start + opts.length,
            whole_pages(ar),
            range_free(old(self).vmas.ranges(), ar),
        ensures
            final(self).wf(),
            final(self).same_settings(old(self)),
            final(self).brk == old(self).brk,
            final(self).pmas == old(self).pmas,
            final(self).cur_rss == old(self).cur_rss,
            final(self).max_rss == old(self).max_rss,
            final(self).outbox == old(self).outbox,
            mapped(*old(self), *final(self), ar, new_vma(*opts)),
            final(self).locked_drift() == old(self).locked_drift(),
    {
        let v = Vma {
            mappable: opts.mappable,
            off: opts.offset,
            real_perms: opts.perms,
            effective_perms: opts.perms.effective(),
            max_perms: opts.max_perms,
            private: opts.private,
            grows_down: opts.grows_down,
            mlock_mode: opts.mlock_mode,
            numa_policy: NumaPolicy(0),
            numa_nodemask: 0,
        };
        self.put_vma(ar, v);
        if v.is_locked() {
            self.locked_as = self.locked_as.wrapping_add(opts.length);
        }
    }

    /// Puts an area at `ar`, where nothing is mapped. The count of locked
    /// memory is left alone.
    pub(crate) fn put_vma(&mut self, ar: AddrRange, v: Vma)
        requires
            old(self).wf(),
            ar.start < ar.end,
            whole_pages(ar),
            range_free(old(self).vmas.ranges(), ar),
            v.effective_perms == v.real_perms.granted(),
            v.max_perms == v.max_perms.granted(),
            v.mappable is Some ==> v.off + ar.length() <= u64::MAX,
        ensures
            final(self).wf(),
            final(self).same_settings(old(self)),
            final(self).brk == old(self).brk,
            final(self).pmas == old(self).pmas,
            final(self).cur_rss == old(self).cur_rss,
            final(self).max_rss == old(self).max_rss,
            final(self).outbox == old(self).outbox,
            final(self).locked_as == old(self).locked_as,
            mapped(*old(self), *final(self), ar, v),
            total(final(self).vmas.model(), locked_vma()) == total(
                old(self).vmas.model(),
                locked_vma(),
            ) + share(ar, v, locked_vma()),
    {
        let ghost m0 = self.vmas.model();
        let ghost pm = self.pmas.model();
        proof {
            lemma_vma_properties_last();
            lemma_total_inserted::<VmaSetOperations>(m0, ar, v, any_vma());
            lemma_total_inserted::<VmaSetOperations>(m0, ar, v, data_vma());
            lemma_total_inserted::<VmaSetOperations>(m0, ar, v, locked_vma());
            lemma_bounded_inserted::<VmaSetOperations>(m0, ar, v, page_bound());
        }
        let _ = self.vmas.insert(ar, v);
        proof {
            let m = self.vmas.model();
            lemma_total_bound(m, any_vma());
            lemma_total_bound(m, data_vma());
            assert forall|k: int| #[trigger]
                vma_at(m, k) == (if ar.has(k) {
                    Some(v.at(ar.start, k))
                } else {
                    vma_at(m0, k)
                }) by {
                insertion_speaks::<VmaSetOperations>(m0, ar, v, k);
            }
            assert forall|k: int| backs(vma_at(m, k), #[trigger] pma_at(pm, k)) by {
                assert(backs(vma_at(m0, k), pma_at(pm, k)));
                if ar.has(k) {
                    lemma_free_is_silent(m0, ar, k);
                }
                assert(vma_at(m, k) == (if ar.has(k) {
                    Some(v.at(ar.start, k))
                } else {
                    vma_at(m0, k)
                }));
            }
        }
        let n = ar.end - ar.start;
        self.usage_address_space = self.usage_address_space + n;
        if v.is_private_data() {
            self.data_address_space = self.data_address_space + n;
        }
    }

    /// Creates the area that `opts` asks for. Where an object is to be mapped,
    /// `added` tells whether it took note of the mapping.
    pub fn create_vma(&mut self, opts: &MmapOpts, env: &Env, added: SysResult<()>) -> (res:
        SysResult<AddrRange>)
        requires
            old(self).wf(),
            askable(*opts),
        ensures
            final(self).wf(),
            final(self).same_settings(old(self)),
            final(self).brk == old(self).brk,
            final(self).max_rss == old(self).max_rss,
            created(*old(self), *final(self), *opts, *env, added, res),
    {
        let ar = match self.begin_vma(opts, env) {
            Ok(ar) => ar,
            Err(e) => return Err(e),
        };
        let ghost mid = *self;
        if opts.mappable.is_some() {
            if let Err(e) = added {
                assert(mid_created(*old(self), mid, *opts, *env, ar));
                return Err(e);
            }
        }
        self.finish_vma(opts, ar);
        assert(mid_created(*old(self), mid, *opts, *env, ar));
        Ok(ar)
    }
}

/// There is room for the new area at `ar`, and nothing else has changed.
pub open spec fn mid_created(
    a: MemoryManager,
    mid: MemoryManager,
    opts: MmapOpts,
    env: Env,
    ar: AddrRange,
) -> bool {
    &&& a.places(opts, Ok(Addr(ar.start)))
    &&& ar.end == ar.start + opts.length
    &&& whole_pages(ar)
    &&& a.over_limit(opts, env, ar) is None
    &&& range_free(mid.vmas.ranges(), ar)
    &&& if opts.unmap {
        unmapped(a, mid, ar)
    } else {
        mid == a
    }
}

/// The area is at `ar`, and nothing else has changed of what is mapped.
pub open spec fn mapped(a: MemoryManager, b: MemoryManager, ar: AddrRange, v: Vma) -> bool {
    &&& b.vmas.model() == inserted::<VmaSetOperations>(a.vmas.model(), ar, v)
    &&& forall|k: int| #[trigger]
        vma_at(b.vmas.model(), k) == (if ar.has(k) {
            Some(v.at(ar.start, k))
        } else {
            vma_at(a.vmas.model(), k)
        })
}

/// What comes of asking for a new area.
pub open spec fn created(
    a: MemoryManager,
    b: MemoryManager,
    opts: MmapOpts,
    env: Env,
    added: SysResult<()>,
    res: SysResult<AddrRange>,
) -> bool {
    &&& b.locked_drift() == a.locked_drift()
    &&& match res {
        Ok(ar) => (opts.mappable is Some ==> added is Ok) && exists|mid: MemoryManager|
            {
                &&& #[trigger] mid_created(a, mid, opts, env, ar)
                &&& mapped(mid, b, ar, new_vma(opts))
                &&& b.pmas == mid.pmas
                &&& b.outbox == mid.outbox
            },
        Err(e) => {
            ||| b == a && a.places(opts, Err(e))
            ||| b == a && exists|x: Addr|
                #![trigger span_at(x, opts.length)]
                {
                    &&& a.places(opts, Ok(x))
                    &&& a.over_limit(opts, env, span_at(x, opts.length)) == Some(e.code)
                    &&& e == sys(e.code)
                }
            ||| opts.mappable is Some && added == Err::<(), SysError>(e) && exists|ar: AddrRange|
                #[trigger] mid_created(a, b, opts, env, ar)
        },
    }
}


/// Nothing is mapped at addresses of which nothing is said.
pub proof fn lemma_silent_is_free(mm: MemoryManager, ar: AddrRange)
    requires
        mm.vmas.wf(),
        ar.start < ar.end,
        forall|k: int| ar.has(k) ==> #[trigger] vma_at(mm.vmas.model(), k) is None,
    ensures
        range_free(mm.vmas.ranges(), ar),
{
    let m = mm.vmas.model();
    assert forall|i: int| 0 <= i < m.ks.len() implies !(#[trigger] m.ks[i]).meets(ar) by {
        if m.ks[i].meets(ar) {
            let k = if m.ks[i].start >= ar.start {
                m.ks[i].start as int
            } else {
                ar.start as int
            };
            assert(held_at(m.ks, k, i));
            lemma_point_held::<VmaSetOperations>(m, k, i);
            assert(vma_at(m, k) is None);
        }
    }
}

/// Nothing is said of free addresses.
pub proof fn lemma_free_is_silent(m: Segments<Vma>, ar: AddrRange, k: int)
    requires
        range_free(m.ks, ar),
        ar.has(k),
    ensures
        vma_at(m, k) is None,
{
    assert forall|i: int| !#[trigger] held_at(m.ks, k, i) by {
        if held_at(m.ks, k, i) {
            assert(m.ks[i].meets(ar));
        }
    }
    lemma_point_free::<VmaSetOperations>(m, k);
}

/// Free addresses have nothing in common with any area.
pub proof fn lemma_free_total(m: Segments<Vma>, ar: AddrRange)
    requires
        m.ks.len() == m.vs.len(),
        ar.well_formed(),
    ensures
        range_free(m.ks, ar) ==> total_common(m.ks, ar) == 0,
    decreases m.ks.len(),
{
    if m.ks.len() > 0 && range_free(m.ks, ar) {
        let n = Segments { ks: m.ks.drop_last(), vs: m.vs.drop_last() };
        assert forall|i: int| 0 <= i < n.ks.len() implies !(#[trigger] n.ks[i]).meets(ar) by {
            assert(n.ks[i] == m.ks[i]);
        }
        lemma_free_total(n, ar);
        assert(!m.ks[m.ks.len() - 1].meets(ar));
    }
}

/// What an application asks for, brought into the form that areas have, or the
/// error that tells why it cannot be had.
pub open spec fn normal(opts: MmapOpts, def_mlock_mode: MLockMode) -> Result<MmapOpts, i32> {
    let length = Addr(opts.length).page_above();
    if opts.length == 0 {
        Err(EINVAL)
    } else if length > u64::MAX {
        Err(ENOMEM)
    } else if opts.mappable is Some && !Addr(opts.offset).page_aligned() {
        Err(ENOMEM)
    } else if opts.mappable is Some && opts.offset + length > u64::MAX {
        Err(ENOMEM)
    } else if !opts.addr.page_aligned() && opts.fixed {
        Err(EINVAL)
    } else if !opts.max_perms.includes(opts.perms) {
        Err(EACCES)
    } else if opts.unmap && !opts.fixed {
        Err(EINVAL)
    } else if opts.grows_down && opts.mappable is Some {
        Err(EINVAL)
    } else {
        Ok(
            MmapOpts {
                length: length as u64,
                offset: if opts.mappable is Some {
                    opts.offset
                } else {
                    0
                },
                addr: Addr(opts.addr.page() as u64),
                mlock_mode: if opts.mlock_mode.rank() < def_mlock_mode.rank() {
                    def_mlock_mode
                } else {
                    opts.mlock_mode
                },
                ..opts
            },
        )
    }
}

/// What comes of asking for memory or an object to be mapped.
pub open spec fn mmaps(
    a: MemoryManager,
    b: MemoryManager,
    opts: MmapOpts,
    env: Env,
    added: SysResult<()>,
    res: SysResult<(Addr, Option<bool>)>,
) -> bool {
    match normal(opts, a.def_mlock_mode) {
        Err(code) => res == Err::<(Addr, Option<bool>), SysError>(sys(code)) && b == a,
        Ok(o) => match res {
            Ok((x, p)) => created(a, b, o, env, added, Ok(span_at(x, o.length))) && p
                == to_populate(a.outbox.active, o),
            Err(e) => created(a, b, o, env, added, Err(e)),
        },
    }
}

/// Whether the memory of a new area is to be looked up at once, and if so,
/// whether it is to be committed too.
pub open spec fn to_populate(active: bool, opts: MmapOpts) -> Option<bool> {
    if !opts.perms.granted().some() || !active {
        None
    } else if opts.precommit || opts.mlock_mode == MLockMode::Eager {
        Some(true)
    } else if opts.mappable is None && opts.length <= PRIVATE_ALLOC_UNIT {
        Some(false)
    } else {
        None
    }
}

impl MemoryManager {
    /// Brings what an application asks for into the form that areas have.
    pub fn check_mmap(&self, opts: MmapOpts) -> (res: SysResult<MmapOpts>)
        ensures
            match res {
                Ok(o) => normal(opts, self.def_mlock_mode) == Ok::<MmapOpts, i32>(o),
                Err(e) => normal(opts, self.def_mlock_mode) == Err::<MmapOpts, i32>(e.code) && e
                    == sys(e.code),
            },
    {
        let mut opts = opts;
        if opts.length == 0 {
            return Err(SysError::new(EINVAL));
        }
        let length = match Addr(opts.length).round_up() {
            Some(length) => length,
            None => return Err(SysError::new(ENOMEM)),
        };
        opts.length = length.0;
        if opts.mappable.is_some() {
            if Addr(opts.offset).page_offset() != 0 {
                return Err(SysError::new(ENOMEM));
            }
            if opts.offset.checked_add(opts.length).is_none() {
                return Err(SysError::new(ENOMEM));
            }
        } else {
            opts.offset = 0;
        }
        if opts.addr.page_offset() != 0 {
            if opts.fixed {
                return Err(SysError::new(EINVAL));
            }
            opts.addr = opts.addr.round_down();
        }
        if !opts.max_perms.is_superset_of(opts.perms) {
            return Err(SysError::new(EACCES));
        }
        if opts.unmap && !opts.fixed {
            return Err(SysError::new(EINVAL));
        }
        if opts.grows_down && opts.mappable.is_some() {
            return Err(SysError::new(EINVAL));
        }
        if opts.mlock_mode.precedes(&self.def_mlock_mode) {
            opts.mlock_mode = self.def_mlock_mode;
        }
        Ok(opts)
    }

    /// Whether the memory of the new area that `opts` asked for is to be looked
    /// up at once.
    pub fn populates(&self, opts: &MmapOpts) -> (p: Option<bool>)
        ensures
            p == to_populate(self.outbox.active, *opts),
    {
        if !opts.perms.effective().any() || !self.outbox.active {
            return None;
        }
        if opts.precommit || opts.mlock_mode == MLockMode::Eager {
            Some(true)
        } else if opts.mappable.is_none() && opts.length <= PRIVATE_ALLOC_UNIT {
            Some(false)
        } else {
            None
        }
    }

    /// Maps memory or an object. Where an object is to be mapped, `added` tells
    /// whether it took note of the mapping. Besides the address it is told
    /// whether the memory is to be looked up at once, and if so, whether it is
    /// to be committed too.
    pub fn mmap(&mut self, opts: MmapOpts, env: &Env, added: SysResult<()>) -> (res: SysResult<
        (Addr, Option<bool>),
    >)
        requires
            old(self).wf(),
            normal(opts, old(self).def_mlock_mode) is Ok ==> {
                &&& opts.max_perms == opts.max_perms.granted()
                &&& forced(opts) ==> opts.addr.0 + Addr(opts.length).page_above() <= u64::MAX
            },
        ensures
            final(self).wf(),
            final(self).same_settings(old(self)),
            final(self).brk == old(self).brk,
            final(self).max_rss == old(self).max_rss,
            mmaps(*old(self), *final(self), opts, *env, added, res),
    {
        let o = match self.check_mmap(opts) {
            Ok(o) => o,
            Err(e) => return Err(e),
        };
        match self.create_vma(&o, env, added) {
            Ok(ar) => {
                assert(ar == span_at(Addr(ar.start), o.length));
                Ok((Addr(ar.start), self.populates(&o)))
            },
            Err(e) => Err(e),
        }
    }

    /// Moves the break to `addr`, with nothing below it. Where the break was not at a
    /// page bound, what is left mapped does not end at one.
    pub fn brk_setup(&mut self, addr: Addr)
        requires
            old(self).wf(),
            addr.page_above() <= u64::MAX,
        ensures
            final(self).accounted(),
            old(self).brk.start == old(self).brk.end || whole_pages(old(self).brk)
                ==> final(self).wf(),
            final(self).same_settings(old(self)),
            final(self).brk == (Range { start: addr.0, end: addr.0 }),
            final(self).max_rss == old(self).max_rss,
            old(self).brk.start < old(self).brk.end ==> unmapped(
                *old(self),
                *final(self),
                old(self).brk,
            ),
            old(self).brk.start == old(self).brk.end ==> *final(self) == (MemoryManager {
                brk: final(self).brk,
                ..*old(self)
            }),
    {
        if !self.brk.is_empty() {
            let ar = self.brk;
            self.unmap(ar);
        }
        self.brk = Range { start: addr.0, end: addr.0 };
    }

    /// Moves the break to `addr` if it may be there, and tells where the break
    /// is now. Where memory came to it that is to be looked up at once, its
    /// addresses are told too.
    #[verifier::spinoff_prover]
    #[verifier::rlimit(60)]
    pub fn brk(&mut self, addr: Addr, env: &Env) -> (res: (Addr, Option<AddrRange>))
        requires
            old(self).wf(),
        ensures
            final(self).wf(),
            final(self).same_settings(old(self)),
            final(self).max_rss == old(self).max_rss,
            brks(*old(self), *final(self), addr, *env, res),
    {
        let b = self.brk;
        if addr.0 < b.start {
            return (Addr(b.end), None);
        }
        if addr.0 - b.start > env.limit_data {
            return (Addr(b.end), None);
        }
        let old_brkpg = match Addr(b.end).round_up() {
            Some(a) => a,
            None => return (Addr(b.end), None),
        };
        let new_brkpg = match addr.round_up() {
            Some(a) => a,
            None => return (Addr(b.end), None),
        };
        if old_brkpg.0 < new_brkpg.0 {
            let ghost mm0 = *self;
            let mut opts = MmapOpts::default();
            opts.length = new_brkpg.0 - old_brkpg.0;
            opts.addr = old_brkpg;
            opts.fixed = true;
            opts.perms = AccessType::read_write();
            opts.max_perms = AccessType::any_access();
            opts.private = true;
            opts.mlock_mode = self.def_mlock_mode;
            assert(opts == brk_opts(mm0, old_brkpg.0, opts.length));
            let ar = match self.create_vma(&opts, env, Ok(())) {
                Ok(ar) => ar,
                Err(e) => {
                    assert(created(mm0, mm0, opts, *env, Ok(()), Err(e)));
                    return (Addr(b.end), None);
                },
            };
            let ghost mm1 = *self;
            self.brk.end = addr.0;
            assert(MemoryManager { brk: b, ..*self } == mm1);
            if self.def_mlock_mode == MLockMode::Eager && self.outbox.active {
                (addr, Some(ar))
            } else {
                (addr, None)
            }
        } else {
            if new_brkpg.0 < old_brkpg.0 {
                self.unmap(Range { start: new_brkpg.0, end: old_brkpg.0 });
            }
            self.brk.end = addr.0;
            (addr, None)
        }
    }

    /// Maps a stack whose end lies `rand` bytes, in whole pages, below the
    /// highest address.
    pub fn map_stack_below(&mut self, env: &Env, rand: u64) -> (res: SysResult<AddrRange>)
        requires
            old(self).wf(),
            rand <= old(self).layout.max_addr.0,
        ensures
            final(self).wf(),
            final(self).same_settings(old(self)),
            final(self).brk == old(self).brk,
            final(self).max_rss == old(self).max_rss,
            maps_stack(*old(self), *final(self), *env, rand, res),
    {
        let sz = match Addr(env.limit_stack).round_up() {
            Some(sz) => if sz.0 == 0 {
                return Err(SysError::new(ENOMEM));
            } else if sz.0 < MAX_STACK_SIZE {
                sz.0
            } else {
                MAX_STACK_SIZE
            },
            None => DEFAULT_STACK_SOFT_LIMIT,
        };
        let stack_end = self.layout.max_addr.0 - Addr(rand).round_down().0;
        if stack_end < sz {
            return Err(SysError::new(ENOMEM));
        }
        let mut opts = MmapOpts::default();
        opts.length = sz;
        opts.addr = Addr(stack_end - sz);
        opts.perms = AccessType::read_write();
        opts.max_perms = AccessType::any_access();
        opts.private = true;
        opts.grows_down = true;
        assert(opts == stack_opts((stack_end - sz) as u64, sz));
        self.create_vma(&opts, env, Ok(()))
    }

    /// Maps a stack at a place that is left to chance.
    pub fn map_stack(&mut self, env: &Env) -> (res: SysResult<AddrRange>)
        requires
            old(self).wf(),
            0 < old(self).layout.max_stack_rand <= old(self).layout.max_addr.0,
        ensures
            final(self).wf(),
            final(self).same_settings(old(self)),
            final(self).brk == old(self).brk,
            final(self).max_rss == old(self).max_rss,
            exists|rand: u64|
                rand < old(self).layout.max_stack_rand && #[trigger] maps_stack(
                    *old(self),
                    *final(self),
                    *env,
                    rand,
                    res,
                ),
    {
        let rand = random_below(self.layout.max_stack_rand);
        self.map_stack_below(env, rand)
    }
}

/// The size that a stack has at most.
pub const MAX_STACK_SIZE: u64 = 0x8000000;

/// The size that a stack has where no limit is set.
pub const DEFAULT_STACK_SOFT_LIMIT: u64 = 0x800000;

/// The size of the stack under a limit, unless there can be none.
pub open spec fn stack_size(limit: u64) -> Option<u64> {
    let sz = Addr(limit).page_above();
    if sz > u64::MAX {
        Some(DEFAULT_STACK_SOFT_LIMIT)
    } else if sz == 0 {
        None
    } else if sz < MAX_STACK_SIZE {
        Some(sz as u64)
    } else {
        Some(MAX_STACK_SIZE)
    }
}

/// What comes of moving the break to `addr`.
pub open spec fn brks(
    a: MemoryManager,
    b: MemoryManager,
    addr: Addr,
    env: Env,
    res: (Addr, Option<AddrRange>),
) -> bool {
    let lo = Addr(a.brk.end).page_above();
    let hi = addr.page_above();
    let o = brk_opts(a, lo as u64, (hi - lo) as u64);
    let kept = res == (Addr(a.brk.end), None::<AddrRange>) && b == a;
    if addr.0 < a.brk.start || addr.0 - a.brk.start > env.limit_data || hi > u64::MAX {
        kept
    } else if lo < hi {
        if res.0 == addr && b.brk.end == addr.0 {
            let ar = Range { start: lo as u64, end: hi as u64 };
            &&& b.brk.start == a.brk.start
            &&& created(a, MemoryManager { brk: a.brk, ..b }, o, env, Ok(()), Ok(ar))
            &&& res.1 == (if a.def_mlock_mode == MLockMode::Eager && a.outbox.active {
                Some(ar)
            } else {
                None
            })
        } else {
            kept && exists|e: SysError| created(a, a, o, env, Ok(()), Err(e))
        }
    } else {
        &&& res == (addr, None::<AddrRange>)
        &&& b.brk == (Range { start: a.brk.start, end: addr.0 })
        &&& hi < lo ==> unmapped(a, b, Range { start: hi as u64, end: lo as u64 })
        &&& hi == lo ==> b == (MemoryManager { brk: b.brk, ..a })
    }
}

/// What comes of mapping a stack whose end lies `rand` bytes, in whole pages, below the
/// highest address.
pub open spec fn maps_stack(
    a: MemoryManager,
    b: MemoryManager,
    env: Env,
    rand: u64,
    res: SysResult<AddrRange>,
) -> bool {
    match stack_size(env.limit_stack) {
        None => res == Err::<AddrRange, SysError>(sys(ENOMEM)) && b == a,
        Some(size) => {
            let end = a.layout.max_addr.0 - Addr(rand).page();
            if end < size {
                res == Err::<AddrRange, SysError>(sys(ENOMEM)) && b == a
            } else {
                created(a, b, stack_opts((end - size) as u64, size), env, Ok(()), res)
            }
        },
    }
}

/// Anonymous memory of the application's own.
pub open spec fn plain_opts(addr: u64, length: u64) -> MmapOpts {
    MmapOpts {
        length,
        mappable: None,
        offset: 0,
        addr: Addr(addr),
        private: true,
        fixed: false,
        unmap: false,
        map32bit: false,
        grows_down: false,
        precommit: false,
        perms: AccessType { read: true, write: true, execute: false },
        max_perms: AccessType::all(),
        mlock_mode: MLockMode::None_,
        force: false,
    }
}

/// What is asked for when the break is raised.
pub open spec fn brk_opts(mm: MemoryManager, addr: u64, length: u64) -> MmapOpts {
    MmapOpts { fixed: true, mlock_mode: mm.def_mlock_mode, ..plain_opts(addr, length) }
}

/// What is asked for when a stack is mapped.
pub open spec fn stack_opts(addr: u64, length: u64) -> MmapOpts {
    MmapOpts { grows_down: true, ..plain_opts(addr, length) }
}

} // verus!
