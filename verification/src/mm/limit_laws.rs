use vstd::prelude::*;

use crate::addr::Addr;
use crate::errno::{sys, SysError, SysResult};
use crate::memmap::MmapOpts;
use crate::mm::area_laws::malformed;
use crate::mm::find_laws::{asked_place_is_had, has_place};
use crate::mm::manager::{Env, MemoryManager};
use crate::mm::mmap::{
    brk_opts, brks, created, find_opts, forced, mapped, mid_created, mmaps, new_vma, normal,
    span_at,
};
use crate::mm::vma::{any_vma, data_vma, VmaSetOperations};
use crate::range::AddrRange;
use crate::segment::total::{lemma_total_inserted, lemma_total_is_length, lemma_total_outside};

verus! {

/// A new area that takes nothing away leaves no more mapped than the limit on addresses
/// allows. What is mapped grows by the pages that were asked for, and so does what counts
/// as data and as locked, if the area is that. Nothing is locked beyond the limit on that,
/// unless locking is not limited.
pub proof fn limits_hold(
    a: MemoryManager,
    b: MemoryManager,
    opts: MmapOpts,
    env: Env,
    added: SysResult<()>,
    x: Addr,
    populate: Option<bool>,
)
    requires
        a.wf(),
        b.wf(),
        mmaps(a, b, opts, env, added, Ok((x, populate))),
        !opts.unmap,
    ensures
        ({
            let n = (opts.length + 4095) / 4096 * 4096;
            let lock = !(opts.mlock_mode is None_) || !(a.def_mlock_mode is None_);
            &&& b.usage_address_space == a.usage_address_space + n
            &&& b.usage_address_space <= env.limit_as
            &&& b.data_address_space == a.data_address_space + (if opts.private
                && opts.perms.write && !opts.grows_down {
                n
            } else {
                0
            })
            &&& lock && !env.ipc_lock ==> env.limit_mlock > 0 && a.locked_as + n <= env.limit_mlock
        }),
{
    let o = normal(opts, a.def_mlock_mode)->Ok_0;
    let ar = span_at(x, o.length);
    let mid = choose|mid: MemoryManager|
        {
            &&& #[trigger] mid_created(a, mid, o, env, ar)
            &&& mapped(mid, b, ar, new_vma(o))
            &&& b.pmas == mid.pmas
            &&& b.outbox == mid.outbox
        };
    let m = a.vmas.model();
    lemma_total_inserted::<VmaSetOperations>(m, ar, new_vma(o), any_vma());
    lemma_total_inserted::<VmaSetOperations>(m, ar, new_vma(o), data_vma());
}

/// A new area that exceeds no limit is not refused for one.
proof fn lemma_within_limits(a: MemoryManager, o: MmapOpts, env: Env, ar: AddrRange)
    requires
        a.wf(),
        ar.well_formed(),
        a.usage_address_space + o.length <= env.limit_as,
        o.mlock_mode is None_ || env.ipc_lock,
    ensures
        a.over_limit(o, env, ar) is None,
{
    let m = a.vmas.model();
    lemma_total_outside(m, ar, any_vma());
    lemma_total_is_length(m, ar, any_vma());
}

/// An area that may be had is had: pages that are the application's, that are free or may
/// be taken, within the limit on addresses, and not to be locked or free to be.
pub proof fn mapping_within_limits_is_made(
    a: MemoryManager,
    b: MemoryManager,
    opts: MmapOpts,
    env: Env,
    added: SysResult<()>,
    res: SysResult<(Addr, Option<bool>)>,
)
    requires
        a.wf(),
        mmaps(a, b, opts, env, added, res),
        !malformed(opts),
        opts.mappable is Some ==> added is Ok,
        opts.mappable is Some ==> opts.offset + (opts.length + 4095) / 4096 * 4096 <= u64::MAX,
        !opts.map32bit,
        opts.addr.0 % 4096 == 0,
        a.layout.min_addr.0 <= opts.addr.0,
        opts.addr.0 + (opts.length + 4095) / 4096 * 4096 <= a.layout.max_addr.0,
        opts.unmap || has_place(
            a.vmas.model(),
            opts.addr.0,
            ((opts.length + 4095) / 4096 * 4096) as u64,
        ),
        a.usage_address_space + (opts.length + 4095) / 4096 * 4096 <= env.limit_as,
        env.ipc_lock || opts.mlock_mode is None_ && a.def_mlock_mode is None_,
    ensures
        res matches Ok(x) && x.0 == opts.addr,
{
    let o = normal(opts, a.def_mlock_mode)->Ok_0;
    match res {
        Ok((x, _)) => {
            lemma_asked(a, o, Ok(x));
        },
        Err(e) => {
            lemma_not_refused(a, b, o, env, added, e);
        },
    }
}

/// The place that was asked for is had.
proof fn lemma_asked(a: MemoryManager, o: MmapOpts, r: SysResult<Addr>)
    requires
        a.wf(),
        o.length > 0,
        !o.map32bit,
        a.places(o, r),
        a.layout.min_addr.0 <= o.addr.0,
        o.addr.0 + o.length <= a.layout.max_addr.0,
        o.unmap || has_place(a.vmas.model(), o.addr.0, o.length),
    ensures
        r == Ok::<Addr, SysError>(o.addr),
{
    if !forced(o) {
        asked_place_is_had(a, o.length, find_opts(o), r);
    }
}

proof fn lemma_not_refused(
    a: MemoryManager,
    b: MemoryManager,
    o: MmapOpts,
    env: Env,
    added: SysResult<()>,
    e: SysError,
)
    requires
        a.wf(),
        o.length > 0,
        !o.map32bit,
        o.mappable is Some ==> added is Ok,
        a.layout.min_addr.0 <= o.addr.0,
        o.addr.0 + o.length <= a.layout.max_addr.0,
        o.unmap || has_place(a.vmas.model(), o.addr.0, o.length),
        a.usage_address_space + o.length <= env.limit_as,
        o.mlock_mode is None_ || env.ipc_lock,
    ensures
        !created(a, b, o, env, added, Err(e)),
{
    lemma_within_limits(a, o, env, span_at(o.addr, o.length));
    if a.places(o, Err(e)) {
        lemma_asked(a, o, Err(e));
    }
    if created(a, b, o, env, added, Err(e)) {
        let x = choose|x: Addr|
            #![trigger span_at(x, o.length)]
            {
                &&& a.places(o, Ok(x))
                &&& a.over_limit(o, env, span_at(x, o.length)) == Some(e.code)
                &&& e == sys(e.code)
            };
        lemma_asked(a, o, Ok(x));
    }
}

/// The break is raised where the pages up to it are free and the application's, and no
/// limit is in the way.
pub proof fn break_within_limits_is_raised(
    a: MemoryManager,
    b: MemoryManager,
    addr: Addr,
    env: Env,
    res: (Addr, Option<AddrRange>),
)
    requires
        a.wf(),
        brks(a, b, addr, env, res),
        addr.0 > a.brk.end,
        addr.0 - a.brk.start <= env.limit_data,
        a.layout.min_addr.0 <= (a.brk.end + 4095) / 4096 * 4096,
        (addr.0 + 4095) / 4096 * 4096 <= a.layout.max_addr.0,
        (a.brk.end + 4095) / 4096 < (addr.0 + 4095) / 4096 ==> has_place(
            a.vmas.model(),
            ((a.brk.end + 4095) / 4096 * 4096) as u64,
            ((addr.0 + 4095) / 4096 * 4096 - (a.brk.end + 4095) / 4096 * 4096) as u64,
        ),
        a.usage_address_space + ((addr.0 + 4095) / 4096 * 4096 - (a.brk.end + 4095) / 4096 * 4096)
            <= env.limit_as,
        env.ipc_lock || a.def_mlock_mode is None_,
    ensures
        res.0 == addr,
        b.brk.end == addr.0,
{
    let lo = Addr(a.brk.end).page_above();
    let hi = addr.page_above();
    let o = brk_opts(a, lo as u64, (hi - lo) as u64);
    if lo < hi && !(res.0 == addr && b.brk.end == addr.0) {
        let e = choose|e: SysError| created(a, a, o, env, Ok(()), Err(e));
        lemma_not_refused(a, a, o, env, Ok(()), e);
    }
}

} // verus!
