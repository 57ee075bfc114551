use vstd::prelude::*;

use crate::access::AccessType;
use crate::addr::Addr;
use crate::errno::SysResult;
use crate::mm::io::lemma_vma_held;
use crate::mm::manager::{pma_at, vma_at, Effect, MemoryManager};
use crate::mm::pma::PmaPoint;
use crate::mm::protect::{
    any_exceeds, exceeds, mprotects, protect_result, protect_start, protected, reaches, sets_numa,
    with_numa,
};
use crate::mm::unmap::{
    any_doomed, doomed, invalidates, munmaps, removals, removals_in, spared, unmapped,
};
use crate::mm::vma::{NumaPolicy, Vma, VmaPoint, VmaSetOperations};
use crate::memmap::InvalidateOpts;
use crate::range::{AddrRange, Range};
use crate::segment::keys::{free, held_at, sorted};
use crate::segment::model::{holder, Segments};
use crate::segment::nav::lemma_first_past;
use crate::segment::point::{lemma_point_free, lemma_point_held};
use crate::segment::span::{below, carved, carving_keeps, lemma_carved_parts};

verus! {

/// The effect tells an object that it is no longer mapped at address `k`, where it was
/// mapped as `p` says.
pub open spec fn tells_removal(e: Effect, k: int, p: Option<VmaPoint>) -> bool {
    match (e, p) {
        (Effect::RemoveMapping { mappable, ar, off, writable }, Some(p)) => {
            &&& ar.start <= k < ar.end
            &&& p.mappable == Some(mappable)
            &&& p.off == off + (k - ar.start)
            &&& writable == (!p.private && p.max_perms.write)
        },
        _ => false,
    }
}

proof fn lemma_removals(m: Segments<Vma>, a: int, b: int)
    requires
        0 <= a <= b <= m.ks.len(),
        m.ks.len() == m.vs.len(),
    ensures
        forall|x: int|
            0 <= x < removals(m, a, b).len() ==> exists|j: int|
                a <= j < b && m.vs[j].mappable is Some && #[trigger] removals(m, a, b)[x] == (
                Effect::RemoveMapping {
                    mappable: m.vs[j].mappable->Some_0,
                    ar: #[trigger] m.ks[j],
                    off: m.vs[j].off,
                    writable: m.vs[j].writes_through(),
                }),
        forall|j: int|
            a <= j < b && (#[trigger] m.vs[j]).mappable is Some ==> removals(m, a, b).contains(
                Effect::RemoveMapping {
                    mappable: m.vs[j].mappable->Some_0,
                    ar: m.ks[j],
                    off: m.vs[j].off,
                    writable: m.vs[j].writes_through(),
                },
            ),
    decreases b - a,
{
    if a < b {
        let rest = removals(m, a, b - 1);
        let all = removals(m, a, b);
        lemma_removals(m, a, b - 1);
        assert forall|x: int| 0 <= x < all.len() implies exists|j: int|
            a <= j < b && m.vs[j].mappable is Some && #[trigger] all[x] == (
            Effect::RemoveMapping {
                mappable: m.vs[j].mappable->Some_0,
                ar: #[trigger] m.ks[j],
                off: m.vs[j].off,
                writable: m.vs[j].writes_through(),
            }) by {
            if x < rest.len() {
                assert(all[x] == rest[x]);
            } else {
                assert(m.ks[b - 1] == m.ks[b - 1]);
            }
        }
        assert forall|j: int| a <= j < b && (#[trigger] m.vs[j]).mappable is Some implies all.contains(
            Effect::RemoveMapping {
                mappable: m.vs[j].mappable->Some_0,
                ar: m.ks[j],
                off: m.vs[j].off,
                writable: m.vs[j].writes_through(),
            },
        ) by {
            let e = Effect::RemoveMapping {
                mappable: m.vs[j].mappable->Some_0,
                ar: m.ks[j],
                off: m.vs[j].off,
                writable: m.vs[j].writes_through(),
            };
            if j < b - 1 {
                let x = rest.index_of(e);
                assert(rest.contains(e));
                assert(all[x] == e);
            } else {
                assert(all[rest.len() as int] == e);
            }
        }
    }
}

proof fn lemma_carved_vmas(a: MemoryManager, ar: AddrRange, k: int)
    requires
        a.wf(),
        ar.start < ar.end,
    ensures
        ({
            let c = carved::<VmaSetOperations>(a.vmas.model(), ar);
            let lo = below(c.ks, ar.start);
            let hi = below(c.ks, ar.end);
            &&& sorted(c.ks)
            &&& c.ks.len() == c.vs.len()
            &&& 0 <= lo <= hi <= c.ks.len()
            &&& forall|j: int| lo <= j < hi ==> ar.covers(#[trigger] c.ks[j])
            &&& vma_at(c, k) == vma_at(a.vmas.model(), k)
            &&& ar.has(k) && vma_at(c, k) is Some ==> exists|j: int|
                lo <= j < hi && held_at(c.ks, k, j)
        }),
{
    let m = a.vmas.model();
    let c = carved::<VmaSetOperations>(m, ar);
    crate::segment::span::cutting_at_key_keeps::<VmaSetOperations>(m, ar.start, k);
    carving_keeps::<VmaSetOperations>(m, ar, k);
    lemma_carved_parts::<VmaSetOperations>(m, ar);
    if ar.has(k) && vma_at(c, k) is Some {
        if forall|j: int| !held_at(c.ks, k, j) {
            lemma_point_free::<VmaSetOperations>(c, k);
        }
        let j = choose|j: int| held_at(c.ks, k, j);
        let lo = below(c.ks, ar.start);
        let hi = below(c.ks, ar.end);
        assert(lo <= j < hi) by {
            if j < lo {
                assert(c.ks[j].end <= ar.start);
            } else if j >= hi {
                assert(ar.end <= c.ks[j].start);
            }
        }
    }
}

/// An object that was mapped at an address that is unmapped is told so, with the offset
/// that was mapped there.
pub proof fn unmapping_is_told(a: MemoryManager, b: MemoryManager, ar: AddrRange, k: int)
    requires
        a.wf(),
        ar.start < ar.end,
        unmapped(a, b, ar),
        ar.start <= k < ar.end,
        vma_at(a.vmas.model(), k) matches Some(p) && p.mappable is Some,
    ensures
        exists|x: int|
            a.outbox.effects@.len() <= x < b.outbox.effects@.len() && tells_removal(
                #[trigger] b.outbox@.effects[x],
                k,
                vma_at(a.vmas.model(), k),
            ),
{
    let m = a.vmas.model();
    let c = carved::<VmaSetOperations>(m, ar);
    let lo = below(c.ks, ar.start);
    let hi = below(c.ks, ar.end);
    lemma_carved_vmas(a, ar, k);
    lemma_removals(c, lo, hi);
    let j = choose|j: int| lo <= j < hi && held_at(c.ks, k, j);
    lemma_point_held::<VmaSetOperations>(c, k, j);
    let e = Effect::RemoveMapping {
        mappable: c.vs[j].mappable->Some_0,
        ar: c.ks[j],
        off: c.vs[j].off,
        writable: c.vs[j].writes_through(),
    };
    let rs = removals_in(m, ar);
    assert(rs.contains(e));
    let y = rs.index_of(e);
    let x = b.outbox@.effects.len() - rs.len() + y;
    assert(b.outbox@.effects[x] == rs[y]);
    assert(tells_removal(b.outbox@.effects[x], k, vma_at(m, k)));
}

/// No object is told of more than was unmapped. What else is to be done outside is to
/// unmap the addresses themselves, before any object is told.
pub proof fn only_unmapping_is_told(a: MemoryManager, b: MemoryManager, ar: AddrRange, x: int)
    requires
        a.wf(),
        ar.start < ar.end,
        unmapped(a, b, ar),
        a.outbox.effects@.len() <= x < b.outbox.effects@.len(),
    ensures
        match b.outbox@.effects[x] {
            Effect::Unmap(r) => x == a.outbox.effects@.len() && (r.start == r.end || (ar.start
                <= r.start && r.end <= ar.end)),
            Effect::RemoveMapping { ar: r, .. } => ar.start <= r.start < r.end <= ar.end && forall|
                k: int,
            |
                r.start <= k < r.end ==> tells_removal(
                    b.outbox@.effects[x],
                    k,
                    #[trigger] vma_at(a.vmas.model(), k),
                ),
        },
        forall|y: int|
            0 <= y < a.outbox.effects@.len() ==> #[trigger] b.outbox@.effects[y]
                == a.outbox@.effects[y],
{
    let rs = removals_in(a.vmas.model(), ar);
    let n0 = lemma_effects(a, b, ar);
    if x >= n0 {
        lemma_removal_at(a, ar, x - n0);
        assert(b.outbox@.effects[x] == rs[x - n0]);
    }
}

/// The effects of unmapping, in order.
proof fn lemma_effects(a: MemoryManager, b: MemoryManager, ar: AddrRange) -> (n: int)
    requires
        unmapped(a, b, ar),
    ensures
        ({
            let rs = removals_in(a.vmas.model(), ar);
            let e0 = a.outbox@.effects;
            let e = b.outbox@.effects;
            &&& n == e0.len() || n == e0.len() + 1
            &&& e.len() == n + rs.len()
            &&& forall|y: int| 0 <= y < e0.len() ==> #[trigger] e[y] == e0[y]
            &&& n == e0.len() + 1 ==> e[e0.len() as int] == Effect::Unmap(
                ar.common(a.layout.application()),
            )
            &&& forall|y: int| n <= y < e.len() ==> #[trigger] e[y] == rs[y - n]
        }),
{
    b.outbox@.effects.len() - removals_in(a.vmas.model(), ar).len()
}

proof fn lemma_removal_at(a: MemoryManager, ar: AddrRange, x: int)
    requires
        a.wf(),
        ar.start < ar.end,
        0 <= x < removals_in(a.vmas.model(), ar).len(),
    ensures
        match removals_in(a.vmas.model(), ar)[x] {
            Effect::Unmap(r) => false,
            Effect::RemoveMapping { ar: r, .. } => ar.start <= r.start < r.end <= ar.end && forall|
                k: int,
            |
                r.start <= k < r.end ==> tells_removal(
                    removals_in(a.vmas.model(), ar)[x],
                    k,
                    #[trigger] vma_at(a.vmas.model(), k),
                ),
        },
{
    let m = a.vmas.model();
    let c = carved::<VmaSetOperations>(m, ar);
    let lo = below(c.ks, ar.start);
    let hi = below(c.ks, ar.end);
    lemma_carved_vmas(a, ar, ar.start as int);
    lemma_removals(c, lo, hi);
    let e = removals_in(m, ar)[x];
    let j = choose|j: int|
        lo <= j < hi && c.vs[j].mappable is Some && e == (Effect::RemoveMapping {
            mappable: c.vs[j].mappable->Some_0,
            ar: #[trigger] c.ks[j],
            off: c.vs[j].off,
            writable: c.vs[j].writes_through(),
        });
    assert(ar.covers(c.ks[j]));
    assert(c.ks[j].start < c.ks[j].end);
    assert forall|k: int| c.ks[j].start <= k < c.ks[j].end implies tells_removal(
        e,
        k,
        #[trigger] vma_at(m, k),
    ) by {
        lemma_carved_vmas(a, ar, k);
        assert(held_at(c.ks, k, j));
        lemma_point_held::<VmaSetOperations>(c, k, j);
    }
}

/// Where there is memory behind an address that is unmapped, the address space gives the
/// address up, or once there is one has to give up all.
pub proof fn memory_is_given_up(a: MemoryManager, b: MemoryManager, ar: AddrRange, k: int)
    requires
        unmapped(a, b, ar),
        ar.start <= k < ar.end,
        a.layout.min_addr.0 <= k < a.layout.max_addr.0,
        pma_at(a.pmas.model(), k) is Some,
    ensures
        a.outbox.active ==> exists|x: int|
            a.outbox.effects@.len() <= x < b.outbox.effects@.len() && (
            #[trigger] b.outbox@.effects[x] matches Effect::Unmap(r) && r.start <= k < r.end),
        !a.outbox.active ==> b.outbox.unmap_all_on_active,
{
    let opts = InvalidateOpts { invalidate_private: true };
    assert(doomed(pma_at(a.pmas.model(), k), opts));
    assert(any_doomed(a.pmas.model(), ar, opts));
    if a.outbox.active {
        let x = a.outbox@.effects.len() as int;
        let r = ar.common(a.layout.application());
        assert(b.outbox@.effects[x] == Effect::Unmap(r));
        assert(r.start <= k < r.end);
    }
}

/// The pages of a request to unmap are unmapped, and nothing else is. It is refused only
/// if it is for nothing or lies between pages or past the addresses.
pub proof fn unmapping_takes_the_pages(
    a: MemoryManager,
    b: MemoryManager,
    addr: Addr,
    length: u64,
    res: SysResult<()>,
)
    requires
        munmaps(a, b, addr, length, res),
    ensures
        res is Ok == (addr.0 % 4096 == 0 && length > 0 && addr.0 + (length + 4095) / 4096 * 4096
            <= u64::MAX),
        match res {
            Ok(_) => {
                let end = addr.0 + (length + 4095) / 4096 * 4096;
                &&& forall|k: int|
                    addr.0 <= k < end ==> #[trigger] vma_at(b.vmas.model(), k) is None
                &&& forall|k: int|
                    addr.0 <= k < end ==> #[trigger] pma_at(b.pmas.model(), k) is None
                &&& forall|k: int|
                    !(addr.0 <= k < end) ==> #[trigger] vma_at(b.vmas.model(), k) == vma_at(
                        a.vmas.model(),
                        k,
                    )
                &&& forall|k: int|
                    !(addr.0 <= k < end) ==> #[trigger] pma_at(b.pmas.model(), k) == pma_at(
                        a.pmas.model(),
                        k,
                    )
            },
            Err(e) => e.code == 22 && b == a,
        },
{
}

/// Only the access to an address has changed.
pub open spec fn same_but_access(p: Option<VmaPoint>, q: Option<VmaPoint>, now: AccessType) -> bool {
    match (p, q) {
        (Some(p), Some(q)) => {
            &&& q.real_perms == now
            &&& q.max_perms == p.max_perms
            &&& q.mappable == p.mappable
            &&& q.off == p.off
            &&& q.private == p.private
            &&& q.grows_down == p.grows_down
            &&& q.mlock_mode == p.mlock_mode
        },
        _ => false,
    }
}

/// The memory behind an address is the same, and can be used as the address may be, as
/// far as its object allows. What is to be copied before it is written to stays open to
/// writing.
pub open spec fn follows_access(p: Option<PmaPoint>, q: Option<PmaPoint>, now: AccessType) -> bool {
    match (p, q) {
        (Some(p), Some(q)) => {
            let read = now.read || now.write || now.execute;
            &&& q.file == p.file
            &&& q.off == p.off
            &&& q.private == p.private
            &&& q.need_cow == p.need_cow
            &&& q.translate_perms == p.translate_perms
            &&& q.max_perms == p.max_perms
            &&& q.effective_perms.read == (read && p.translate_perms.read)
            &&& q.effective_perms.write == (p.need_cow || now.write && p.translate_perms.write)
            &&& q.effective_perms.execute == (now.execute && p.translate_perms.execute)
        },
        (None, None) => true,
        _ => false,
    }
}

/// Pages whose permissions were changed have the permissions that were asked for, which
/// they may have. All else of them is as it was, and so are all other pages.
pub proof fn protecting_changes_access_only(
    a: MemoryManager,
    b: MemoryManager,
    addr: Addr,
    length: u64,
    perms: AccessType,
)
    requires
        a.wf(),
        mprotects(a, b, addr, length, perms, false, Ok(())),
    ensures
        addr.0 % 4096 == 0,
        ({
            let end = addr.0 + (length + 4095) / 4096 * 4096;
            &&& forall|k: int|
                addr.0 <= k < end ==> same_but_access(
                    vma_at(a.vmas.model(), k),
                    #[trigger] vma_at(b.vmas.model(), k),
                    perms,
                ) && vma_at(a.vmas.model(), k)->Some_0.max_perms.includes(perms)
            &&& forall|k: int|
                addr.0 <= k < end ==> follows_access(
                    pma_at(a.pmas.model(), k),
                    #[trigger] pma_at(b.pmas.model(), k),
                    perms,
                )
            &&& forall|k: int|
                !(addr.0 <= k < end) ==> #[trigger] vma_at(b.vmas.model(), k) == vma_at(
                    a.vmas.model(),
                    k,
                )
            &&& forall|k: int|
                !(addr.0 <= k < end) ==> #[trigger] pma_at(b.pmas.model(), k) == pma_at(
                    a.pmas.model(),
                    k,
                )
        }),
{
    if length > 0 {
        let m = a.vmas.model();
        let whole = Range { start: addr.0, end: (addr.0 + Addr(length).page_above()) as u64 };
        let start = protect_start(m, whole, false)->Ok_0;
        assert(start == addr.0);
        let r = Range { start, end: whole.end };
        let x = choose|x: u64|
            {
                &&& #[trigger] reaches(m, r, perms.granted(), true, x)
                &&& protected(a, b, r, x, perms)
                &&& protect_result(m, r, x) is Ok
            };
        assert(x == r.end);
        assert forall|k: int| addr.0 <= k < r.end implies same_but_access(
            vma_at(m, k),
            #[trigger] vma_at(b.vmas.model(), k),
            perms,
        ) && vma_at(m, k)->Some_0.max_perms.includes(perms) by {
            assert(crate::mm::protect::may_have(vma_at(m, k), perms.granted(), true));
        }
    }
}

/// Where memory could be used in a way that it may not be any more, the address space
/// gives the address up, or once there is one has to give up all.
pub proof fn protected_memory_is_given_up(
    a: MemoryManager,
    b: MemoryManager,
    addr: Addr,
    length: u64,
    perms: AccessType,
    k: int,
)
    requires
        a.wf(),
        mprotects(a, b, addr, length, perms, false, Ok(())),
        addr.0 <= k < addr.0 + (length + 4095) / 4096 * 4096,
        a.layout.min_addr.0 <= k < a.layout.max_addr.0,
        pma_at(a.pmas.model(), k) matches Some(p) && !perms.granted().includes(p.effective_perms),
    ensures
        a.outbox.active ==> exists|x: int|
            a.outbox.effects@.len() <= x < b.outbox.effects@.len() && (
            #[trigger] b.outbox@.effects[x] matches Effect::Unmap(r) && r.start <= k < r.end),
        !a.outbox.active ==> b.outbox.unmap_all_on_active,
{
    let m = a.vmas.model();
    let whole = Range { start: addr.0, end: (addr.0 + Addr(length).page_above()) as u64 };
    let start = protect_start(m, whole, false)->Ok_0;
    let r = Range { start, end: whole.end };
    let x = choose|x: u64|
        {
            &&& #[trigger] reaches(m, r, perms.granted(), true, x)
            &&& protected(a, b, r, x, perms)
            &&& protect_result(m, r, x) is Ok
        };
    assert(x == r.end);
    assert(exceeds(pma_at(a.pmas.model(), k), perms.granted()));
    let c = Range { start: r.start, end: x };
    assert(c.has(k));
    assert(any_exceeds(a.pmas.model(), c, perms.granted()));
    if a.outbox.active {
        let y = a.outbox@.effects.len() as int;
        assert(b.outbox@.effects[y] == Effect::Unmap(r.common(a.layout.application())));
    }
}

/// A change of permissions is refused only if it lies between pages or past the addresses,
/// or if some of the pages are not mapped or may not have the permissions.
pub proof fn refused_protection_has_a_reason(
    a: MemoryManager,
    b: MemoryManager,
    addr: Addr,
    length: u64,
    perms: AccessType,
    res: SysResult<()>,
)
    requires
        a.wf(),
        mprotects(a, b, addr, length, perms, false, res),
        addr.0 % 4096 == 0,
        addr.0 + (length + 4095) / 4096 * 4096 <= u64::MAX,
        forall|k: int|
            addr.0 <= k < addr.0 + (length + 4095) / 4096 * 4096 ==> (#[trigger] vma_at(
                a.vmas.model(),
                k,
            ) matches Some(p) && p.max_perms.includes(perms.granted())),
    ensures
        res is Ok,
{
    if length > 0 {
        let m = a.vmas.model();
        let ar = Range { start: addr.0, end: (addr.0 + Addr(length).page_above()) as u64 };
        assert(vma_at(m, addr.0 as int) is Some);
        lemma_vma_held(m, addr.0);
        let h = holder(m.ks, addr.0 as int);
        if free(m.ks, addr.0 as int) {
            assert forall|i: int| !#[trigger] held_at(m.ks, addr.0 as int, i) by {}
            lemma_point_free::<VmaSetOperations>(m, addr.0 as int);
        }
        assert(held_at(m.ks, addr.0 as int, h));
        let i = crate::mm::laws::lemma_first_exists(m.ks, addr.0 as int, 0);
        lemma_first_past(m.ks, addr.0 as int, i);
        assert(i <= h);
        if i < h {
            assert(m.ks[i].end <= m.ks[h].start);
        }
        let x = choose|x: u64|
            {
                &&& #[trigger] reaches(m, ar, perms.granted(), true, x)
                &&& protected(a, b, ar, x, perms)
                &&& res == protect_result(m, ar, x)
            };
        if x < ar.end {
            assert(vma_at(m, x as int) is Some);
        }
    }
}

/// Memory that is shared with an object is gone once that part is invalidated, and private
/// memory too if it is to go. The address space gives it up, or once there is one has to
/// give up all. Private memory that is not to go stays, and so does all other memory.
pub proof fn invalidated_memory_is_gone(
    a: MemoryManager,
    b: MemoryManager,
    ar: AddrRange,
    opts: InvalidateOpts,
    k: int,
)
    requires
        invalidates(a, b, ar, opts),
    ensures
        ({
            let p = pma_at(a.pmas.model(), k);
            let q = pma_at(b.pmas.model(), k);
            if ar.start <= k < ar.end && p is Some && (opts.invalidate_private
                || !p->Some_0.private) {
                &&& q is None
                &&& a.outbox.active && a.layout.min_addr.0 <= k < a.layout.max_addr.0 ==> exists|
                    x: int,
                |
                    a.outbox.effects@.len() <= x < b.outbox.effects@.len() && (
                    #[trigger] b.outbox@.effects[x] matches Effect::Unmap(r) && r.start <= k
                        < r.end)
                &&& !a.outbox.active ==> b.outbox.unmap_all_on_active
            } else {
                q == p
            }
        }),
{
    let p = pma_at(a.pmas.model(), k);
    assert(pma_at(b.pmas.model(), k) == spared(p, ar, opts, k));
    if ar.has(k) && doomed(p, opts) {
        assert(any_doomed(a.pmas.model(), ar, opts));
        if a.outbox.active {
            let x = a.outbox@.effects.len() as int;
            assert(b.outbox@.effects[x] == Effect::Unmap(ar.common(a.layout.application())));
        }
    }
}

/// Pages whose memory is to be placed otherwise have the policy and the nodes that were
/// asked for. All else of them is as it was, and so are all other pages. The request is
/// refused if it lies between pages or past the addresses, or if some of them are not
/// mapped.
pub proof fn placing_changes_policy_only(
    a: MemoryManager,
    b: MemoryManager,
    addr: Addr,
    length: u64,
    policy: NumaPolicy,
    nodemask: u64,
    res: SysResult<()>,
    k: int,
)
    requires
        a.wf(),
        sets_numa(a, b, addr, length, policy, nodemask, res),
    ensures
        res is Ok ==> addr.0 % 4096 == 0,
        ({
            let end = addr.0 + (length + 4095) / 4096 * 4096;
            let p = vma_at(a.vmas.model(), k);
            let q = vma_at(b.vmas.model(), k);
            &&& !(addr.0 <= k < end) ==> q == p
            &&& res is Ok && addr.0 <= k < end ==> p is Some && q == Some(
                VmaPoint { numa_policy: policy, numa_nodemask: nodemask, ..p->Some_0 },
            )
            &&& addr.0 % 4096 == 0 && end <= u64::MAX && addr.0 <= k < end && p is None ==> res is Err
        }),
        res matches Err(e) ==> e.code == 22 || e.code == 14,
{
    let len = Addr(length).page_above();
    let m = a.vmas.model();
    if addr.page_aligned() && addr.0 + len <= u64::MAX && length > 0 {
        let ar = Range { start: addr.0, end: (addr.0 + len) as u64 };
        let x = choose|x: u64|
            {
                &&& #[trigger] reaches(m, ar, AccessType::none(), true, x)
                &&& forall|k: int| #[trigger]
                    vma_at(b.vmas.model(), k) == (if ar.start <= k < x {
                        with_numa(vma_at(m, k), policy, nodemask)
                    } else {
                        vma_at(m, k)
                    })
                &&& res is Ok == (x == ar.end)
                &&& res matches Err(e) ==> e.code == 22 || e.code == 14
            };
        assert(vma_at(b.vmas.model(), k) == vma_at(b.vmas.model(), k));
        if addr.0 <= k < x {
            assert(crate::mm::protect::may_have(vma_at(m, k), AccessType::none(), true));
        }
    }
}

} // verus!
