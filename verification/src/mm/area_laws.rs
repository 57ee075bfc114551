use vstd::prelude::*;

use crate::access::AccessType;
use crate::addr::Addr;
use crate::errno::SysResult;
use crate::memmap::MmapOpts;
use crate::mm::laws::lemma_granted;
use crate::mm::manager::{backs, pma_at, vma_at, Env, MemoryManager};
use crate::mm::mmap::{
    brk_opts, brks, created, lemma_free_is_silent, mapped, maps_stack, mid_created, mmaps, new_vma,
    normal, span_at, stack_opts,
};
use crate::mm::transfer::IoStart;
use crate::mm::unmap::unmapped;
use crate::range::{AddrRange, Range};

verus! {

/// An access to all of `ar` can start.
pub open spec fn can_start(ar: AddrRange, s: IoStart) -> bool {
    match s {
        IoStart::Ready(_) => true,
        IoStart::Walk { ar: part, res, .. } => part == ar && res is Ok,
        IoStart::Stop(_) => false,
    }
}

/// There is an area at `ar` as `o` asks for it, without memory yet, and outside of `ar`
/// all is as it was.
pub open spec fn stands(a: MemoryManager, b: MemoryManager, o: MmapOpts, ar: AddrRange) -> bool {
    &&& ar.end == ar.start + o.length
    &&& ar.start % 4096 == 0 && ar.end % 4096 == 0
    &&& forall|k: int|
        ar.start <= k < ar.end ==> (#[trigger] vma_at(b.vmas.model(), k) matches Some(v) && {
            &&& v.mappable == o.mappable
            &&& v.mappable is Some ==> v.off == o.offset + (k - ar.start)
            &&& v.real_perms == o.perms
            &&& v.max_perms == o.max_perms
            &&& v.private == o.private
            &&& v.grows_down == o.grows_down
            &&& v.mlock_mode == o.mlock_mode
        })
    &&& forall|k: int|
        ar.start <= k < ar.end ==> #[trigger] pma_at(b.pmas.model(), k) is None
    &&& forall|k: int|
        !(ar.start <= k < ar.end) ==> #[trigger] vma_at(b.vmas.model(), k) == vma_at(
            a.vmas.model(),
            k,
        )
    &&& forall|k: int|
        !(ar.start <= k < ar.end) ==> #[trigger] pma_at(b.pmas.model(), k) == pma_at(
            a.pmas.model(),
            k,
        )
    &&& !o.unmap ==> forall|k: int|
        ar.start <= k < ar.end ==> #[trigger] vma_at(a.vmas.model(), k) is None
    &&& o.fixed ==> ar.start == o.addr.0
}

proof fn lemma_created(
    a: MemoryManager,
    b: MemoryManager,
    o: MmapOpts,
    env: Env,
    added: SysResult<()>,
    ar: AddrRange,
)
    requires
        a.wf(),
        created(a, b, o, env, added, Ok(ar)),
    ensures
        stands(a, b, o, ar),
{
    let mid = choose|mid: MemoryManager|
        {
            &&& #[trigger] mid_created(a, mid, o, env, ar)
            &&& mapped(mid, b, ar, new_vma(o))
            &&& b.pmas == mid.pmas
            &&& b.outbox == mid.outbox
        };
    assert forall|k: int|
        !o.unmap && ar.start <= k < ar.end implies #[trigger] vma_at(
        a.vmas.model(),
        k,
    ) is None by {
        lemma_free_is_silent(a.vmas.model(), ar, k);
    }
    assert forall|k: int| ar.start <= k < ar.end implies #[trigger] pma_at(
        b.pmas.model(),
        k,
    ) is None by {
        if !o.unmap {
            assert(backs(vma_at(a.vmas.model(), k), pma_at(a.pmas.model(), k)));
            assert(vma_at(a.vmas.model(), k) is None);
        } else {
            assert(unmapped(a, mid, ar));
        }
    }
    assert forall|k: int| ar.start <= k < ar.end implies (#[trigger] vma_at(
        b.vmas.model(),
        k,
    ) == Some(new_vma(o).at(ar.start, k))) by {
        assert(ar.has(k));
    }
}

/// What is mapped is mapped as it was asked for: whole pages that were free unless they
/// could be taken, at the address that was insisted on, with the object, its offset and
/// the access that were asked for, and locked at least as firmly as asked. All else is
/// as it was.
pub proof fn mapping_is_as_asked(
    a: MemoryManager,
    b: MemoryManager,
    opts: MmapOpts,
    env: Env,
    added: SysResult<()>,
    x: Addr,
    populate: Option<bool>,
)
    requires
        a.wf(),
        mmaps(a, b, opts, env, added, Ok((x, populate))),
    ensures
        x.0 % 4096 == 0,
        opts.fixed ==> x == opts.addr,
        opts.length > 0,
        x.0 + (opts.length + 4095) / 4096 * 4096 <= u64::MAX,
        ({
            let end = x.0 + (opts.length + 4095) / 4096 * 4096;
            &&& forall|k: int|
                x.0 <= k < end ==> (#[trigger] vma_at(b.vmas.model(), k) matches Some(v) && {
                    &&& v.mappable == opts.mappable
                    &&& v.mappable is Some ==> v.off == opts.offset + (k - x.0)
                    &&& v.real_perms == opts.perms
                    &&& v.max_perms == opts.max_perms
                    &&& opts.max_perms.includes(v.real_perms)
                    &&& v.private == opts.private
                    &&& v.grows_down == opts.grows_down
                    &&& v.mlock_mode == opts.mlock_mode || v.mlock_mode == a.def_mlock_mode
                    &&& v.mlock_mode is None_ ==> opts.mlock_mode is None_
                        && a.def_mlock_mode is None_
                    &&& v.mlock_mode is Eager ==> !(opts.mlock_mode is Lazy)
                        && !(a.def_mlock_mode is Lazy)
                })
            &&& forall|k: int| x.0 <= k < end ==> #[trigger] pma_at(b.pmas.model(), k) is None
            &&& forall|k: int|
                !(x.0 <= k < end) ==> #[trigger] vma_at(b.vmas.model(), k) == vma_at(
                    a.vmas.model(),
                    k,
                )
            &&& forall|k: int|
                !(x.0 <= k < end) ==> #[trigger] pma_at(b.pmas.model(), k) == pma_at(
                    a.pmas.model(),
                    k,
                )
            &&& !opts.unmap ==> forall|k: int|
                x.0 <= k < end ==> #[trigger] vma_at(a.vmas.model(), k) is None
        }),
        opts.mappable is Some ==> added is Ok && opts.offset % 4096 == 0,
        populate is Some ==> a.outbox.active && (opts.perms.read || opts.perms.write
            || opts.perms.execute),
        a.outbox.active && opts.precommit && opts.perms.read ==> populate == Some(true),
{
    let o = normal(opts, a.def_mlock_mode)->Ok_0;
    let ar = span_at(x, o.length);
    lemma_created(a, b, o, env, added, ar);
}

/// The memory of a new mapping is looked up at once if it is to be committed or is locked
/// eagerly, and then it is committed. That of a small mapping of no object is looked up
/// too, up to 2 MB. Nothing is looked up that cannot be accessed, or where there is no
/// address space.
pub proof fn memory_is_looked_up_at_once(
    a: MemoryManager,
    b: MemoryManager,
    opts: MmapOpts,
    env: Env,
    added: SysResult<()>,
    x: Addr,
    populate: Option<bool>,
)
    requires
        mmaps(a, b, opts, env, added, Ok((x, populate))),
    ensures
        ({
            let usable = a.outbox.active && (opts.perms.read || opts.perms.write
                || opts.perms.execute);
            let eager = (opts.mlock_mode is Eager && !(a.def_mlock_mode is Lazy)) || (
            a.def_mlock_mode is Eager && !(opts.mlock_mode is Lazy));
            let small = opts.mappable is None && opts.length <= 2 * 1024 * 1024;
            populate == (if usable && (opts.precommit || eager) {
                Some(true)
            } else if usable && small {
                Some(false)
            } else {
                None::<bool>
            })
        }),
{
}

/// A request for a mapping is malformed: it is for nothing, or for what lies past the
/// addresses or between pages, or it is at odds with itself.
pub open spec fn malformed(opts: MmapOpts) -> bool {
    ||| opts.length == 0
    ||| opts.length > 0xffff_ffff_ffff_f000
    ||| opts.mappable is Some && (opts.offset % 4096 != 0 || opts.offset + opts.length
        > 0xffff_ffff_ffff_f000 || opts.grows_down)
    ||| opts.fixed && opts.addr.0 % 4096 != 0
    ||| opts.perms.read && !opts.max_perms.read
    ||| opts.perms.write && !opts.max_perms.write
    ||| opts.perms.execute && !opts.max_perms.execute
    ||| opts.unmap && !opts.fixed
}

/// A malformed request for a mapping is refused without any change. The error is that
/// the argument is not valid, that there is no memory for it, or that access is denied.
pub proof fn malformed_mapping_is_refused(
    a: MemoryManager,
    b: MemoryManager,
    opts: MmapOpts,
    env: Env,
    added: SysResult<()>,
    res: SysResult<(Addr, Option<bool>)>,
)
    requires
        mmaps(a, b, opts, env, added, res),
        malformed(opts),
    ensures
        b == a,
        res matches Err(e) && (e.code == 22 || e.code == 12 || e.code == 13),
        opts.length == 0 ==> res->Err_0.code == 22,
        opts.length > 0xffff_ffff_ffff_f000 ==> res->Err_0.code == 12,
        res->Err_0.code == 13 ==> !opts.max_perms.includes(opts.perms),
{
}

/// Where the break was raised, memory of the application's own is mapped that can be
/// read and written, from the page after the old break to the end of the page of the new
/// one. All else is as it was, and the break is where it was asked to be.
pub proof fn raised_break_is_memory(
    a: MemoryManager,
    b: MemoryManager,
    addr: Addr,
    env: Env,
    res: (Addr, Option<AddrRange>),
)
    requires
        a.wf(),
        b.wf(),
        brks(a, b, addr, env, res),
        res.0 == addr,
        addr.0 > a.brk.end,
    ensures
        b.brk.start == a.brk.start,
        b.brk.end == addr.0,
        addr.0 - a.brk.start <= env.limit_data,
        ({
            let lo = (a.brk.end + 4095) / 4096 * 4096;
            let hi = (addr.0 + 4095) / 4096 * 4096;
            &&& forall|k: int|
                lo <= k < hi ==> (#[trigger] vma_at(b.vmas.model(), k) matches Some(v) && {
                    &&& v.mappable is None
                    &&& v.private
                    &&& v.real_perms.read && v.real_perms.write && !v.real_perms.execute
                    &&& v.max_perms.read && v.max_perms.write && v.max_perms.execute
                    &&& !v.grows_down
                    &&& v.mlock_mode == a.def_mlock_mode
                })
            &&& forall|k: int|
                lo <= k < hi ==> #[trigger] vma_at(a.vmas.model(), k) is None && pma_at(
                    b.pmas.model(),
                    k,
                ) is None
            &&& forall|k: int|
                !(lo <= k < hi) ==> #[trigger] vma_at(b.vmas.model(), k) == vma_at(
                    a.vmas.model(),
                    k,
                )
            &&& forall|k: int|
                !(lo <= k < hi) ==> #[trigger] pma_at(b.pmas.model(), k) == pma_at(
                    a.pmas.model(),
                    k,
                )
            &&& res.1 matches Some(ar) ==> ar.start == lo && ar.end == hi && a.outbox.active
                && a.def_mlock_mode is Eager
            &&& lo < hi && a.outbox.active && a.def_mlock_mode is Eager ==> res.1 is Some
        }),
{
    let lo = Addr(a.brk.end).page_above();
    let hi = addr.page_above();
    let ar = Range { start: lo as u64, end: hi as u64 };
    if lo < hi {
        let o = brk_opts(a, lo as u64, (hi - lo) as u64);
        if b.brk.end == addr.0 {
            lemma_created(a, MemoryManager { brk: a.brk, ..b }, o, env, Ok(()), ar);
        }
    }
}

/// What came to an application when its break was raised it can read and write.
pub proof fn raised_break_can_be_used(
    a: MemoryManager,
    b: MemoryManager,
    addr: Addr,
    env: Env,
    res: (Addr, Option<AddrRange>),
    ar: AddrRange,
    need: AccessType,
    s: IoStart,
)
    requires
        a.wf(),
        b.wf(),
        brks(a, b, addr, env, res),
        res.0 == addr,
        addr.0 > a.brk.end,
        ar.start < ar.end,
        (a.brk.end + 4095) / 4096 * 4096 <= ar.start,
        ar.end <= (addr.0 + 4095) / 4096 * 4096,
        !need.execute,
        b.starts(ar, need, false, s),
    ensures
        can_start(ar, s),
{
    raised_break_is_memory(a, b, addr, env, res);
    lemma_granted(b, ar, need, false, s);
}

/// Where the break was lowered, nothing is mapped any more from the end of the page of
/// the new break on, up to where the old one was. All else is as it was.
pub proof fn lowered_break_is_gone(
    a: MemoryManager,
    b: MemoryManager,
    addr: Addr,
    env: Env,
    res: (Addr, Option<AddrRange>),
)
    requires
        a.wf(),
        brks(a, b, addr, env, res),
        a.brk.start <= addr.0 <= a.brk.end,
        addr.0 - a.brk.start <= env.limit_data,
    ensures
        res == (addr, None::<AddrRange>),
        b.brk.start == a.brk.start,
        b.brk.end == addr.0,
        ({
            let lo = (addr.0 + 4095) / 4096 * 4096;
            let hi = (a.brk.end + 4095) / 4096 * 4096;
            &&& forall|k: int|
                lo <= k < hi ==> #[trigger] vma_at(b.vmas.model(), k) is None
            &&& forall|k: int|
                lo <= k < hi ==> #[trigger] pma_at(b.pmas.model(), k) is None
            &&& forall|k: int|
                !(lo <= k < hi) ==> #[trigger] vma_at(b.vmas.model(), k) == vma_at(
                    a.vmas.model(),
                    k,
                )
            &&& forall|k: int|
                !(lo <= k < hi) ==> #[trigger] pma_at(b.pmas.model(), k) == pma_at(
                    a.pmas.model(),
                    k,
                )
        }),
{
}

/// A break that may not be where it was asked to be stays where it was, and nothing
/// changes: one below its start, or further up than the limit on data allows.
pub proof fn refused_break_stays(
    a: MemoryManager,
    b: MemoryManager,
    addr: Addr,
    env: Env,
    res: (Addr, Option<AddrRange>),
)
    requires
        a.wf(),
        brks(a, b, addr, env, res),
        addr.0 < a.brk.start || addr.0 - a.brk.start > env.limit_data || res.0 != addr,
    ensures
        b == a,
        res.0.0 == a.brk.end,
        res.1 is None,
{
}

/// A stack is memory of the application's own that can be read and written, and that
/// may grow downwards. It is as large as its limit in whole pages, but no larger than
/// 128 MB, and 8 MB where there is no limit.
pub proof fn stack_is_memory(
    a: MemoryManager,
    b: MemoryManager,
    env: Env,
    rand: u64,
    ar: AddrRange,
)
    requires
        a.wf(),
        maps_stack(a, b, env, rand, Ok(ar)),
    ensures
        ar.start % 4096 == 0,
        env.limit_stack > 0,
        env.limit_stack > 0xffff_ffff_ffff_f000 ==> ar.end - ar.start == 8 * 1024 * 1024,
        128 * 1024 * 1024 <= env.limit_stack <= 0xffff_ffff_ffff_f000 ==> ar.end - ar.start == 128
            * 1024 * 1024,
        env.limit_stack < 128 * 1024 * 1024 ==> env.limit_stack <= ar.end - ar.start
            < env.limit_stack + 4096 && ar.end % 4096 == 0,
        forall|k: int|
            ar.start <= k < ar.end ==> (#[trigger] vma_at(b.vmas.model(), k) matches Some(v) && {
                &&& v.mappable is None
                &&& v.private
                &&& v.grows_down
                &&& v.real_perms.read && v.real_perms.write && !v.real_perms.execute
                &&& v.max_perms.read && v.max_perms.write && v.max_perms.execute
                &&& v.mlock_mode is None_
            }),
        forall|k: int| ar.start <= k < ar.end ==> #[trigger] vma_at(a.vmas.model(), k) is None,
        forall|k: int| ar.start <= k < ar.end ==> #[trigger] pma_at(b.pmas.model(), k) is None,
        forall|k: int|
            !(ar.start <= k < ar.end) ==> #[trigger] vma_at(b.vmas.model(), k) == vma_at(
                a.vmas.model(),
                k,
            ),
        forall|k: int|
            !(ar.start <= k < ar.end) ==> #[trigger] pma_at(b.pmas.model(), k) == pma_at(
                a.pmas.model(),
                k,
            ),
{
    let size = (ar.end - ar.start) as u64;
    let end = a.layout.max_addr.0 - Addr(rand).page();
    let n = crate::mm::mmap::stack_size(env.limit_stack)->Some_0;
    lemma_created(a, b, stack_opts((end - n) as u64, n), env, Ok(()), ar);
}

/// A stack can be read and written.
pub proof fn stack_can_be_used(
    a: MemoryManager,
    b: MemoryManager,
    env: Env,
    rand: u64,
    stack: AddrRange,
    ar: AddrRange,
    need: AccessType,
    s: IoStart,
)
    requires
        a.wf(),
        b.wf(),
        maps_stack(a, b, env, rand, Ok(stack)),
        stack.start <= ar.start < ar.end <= stack.end,
        !need.execute,
        b.starts(ar, need, false, s),
    ensures
        can_start(ar, s),
{
    stack_is_memory(a, b, env, rand, stack);
    lemma_granted(b, ar, need, false, s);
}

} // verus!
