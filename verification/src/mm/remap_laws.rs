use vstd::prelude::*;

use crate::access::AccessType;
use crate::addr::Addr;
use crate::errno::{SysError, SysResult};
use crate::memmap::MmapOpts;
use crate::mm::area_laws::can_start;
use crate::mm::laws::lemma_granted;
use crate::mm::manager::{pma_at, vma_at, Env, MemoryManager};
use crate::mm::mmap::lemma_free_is_silent;
use crate::mm::protect::may_have;
use crate::mm::remap::{
    area_at, duplicated, feasible, grown, grows, kept, lemma_still_held, made_room, moved, moves,
    mremaps, planned, to_populate_moved, MovePlan, MremapMoveMode, MremapOpts, MremapStep,
};
use crate::mm::shift::shifted;
use crate::mm::transfer::IoStart;
use crate::mm::unmap::unmapped;
use crate::mm::vma::{Vma, VmaPoint, VmaSetOperations};
use crate::range::{AddrRange, Range};
use crate::segment::keys::held_at;
use crate::segment::model::holder;
use crate::segment::point::lemma_point_held;

verus! {

/// A size in whole pages.
pub open spec fn pages_of(size: u64) -> int {
    (size + 4095) / 4096 * 4096
}

/// Two addresses belong to the same mapping, `n` bytes apart in what is mapped.
pub open spec fn continues(p: Option<VmaPoint>, q: Option<VmaPoint>, n: int) -> bool {
    match (p, q) {
        (Some(p), Some(q)) => {
            &&& q.mappable == p.mappable
            &&& p.mappable is Some ==> q.off == p.off + n
            &&& q.real_perms == p.real_perms
            &&& q.max_perms == p.max_perms
            &&& q.private == p.private
            &&& q.grows_down == p.grows_down
            &&& q.mlock_mode == p.mlock_mode
        },
        _ => false,
    }
}

/// The area that holds an address goes on to its end.
proof fn lemma_goes_on(m: MemoryManager, start: u64, k: int)
    requires
        m.wf(),
        held_at(m.vmas.ranges(), start as int, holder(m.vmas.ranges(), start as int)),
        start <= k < m.vmas.ranges()[holder(m.vmas.ranges(), start as int)].end,
    ensures
        continues(vma_at(m.vmas.model(), start as int), vma_at(m.vmas.model(), k), k - start),
{
    let n = m.vmas.model();
    let i = holder(n.ks, start as int);
    assert(held_at(n.ks, k, i));
    lemma_point_held::<VmaSetOperations>(n, start as int, i);
    lemma_point_held::<VmaSetOperations>(n, k, i);
}

/// A mapping that has grown where it is goes on as it started: the same access, the same
/// object at offsets that follow each other. Nothing else has changed, and the part by
/// which it has grown was free.
pub proof fn grown_mapping_goes_on(
    a: MemoryManager,
    m: MemoryManager,
    b: MemoryManager,
    old_addr: Addr,
    old_size: u64,
    new_size: u64,
    opts: MremapOpts,
    env: Env,
    o: MmapOpts,
    ar: AddrRange,
    added: SysResult<()>,
    addr: Addr,
    populate: Option<AddrRange>,
)
    requires
        a.wf(),
        mremaps(a, m, old_addr, old_size, new_size, opts, env, Ok(MremapStep::Grow { opts: o, ar })),
        o.mappable is Some ==> added is Ok,
        grown(
            m,
            b,
            Range { start: old_addr.0, end: (old_addr.0 + Addr(old_size).page_above()) as u64 },
            Addr(new_size).page_above() as u64,
            opts,
            env,
            o,
            ar,
            added,
            Ok(MremapStep::Done { addr, populate }),
        ),
    ensures
        m == a,
        addr == old_addr,
        0 < old_size,
        pages_of(old_size) < pages_of(new_size),
        o.mappable == vma_at(a.vmas.model(), old_addr.0 as int)->Some_0.mappable,
        forall|k: int|
            old_addr.0 <= k < old_addr.0 + pages_of(new_size) ==> continues(
                vma_at(a.vmas.model(), old_addr.0 as int),
                #[trigger] vma_at(b.vmas.model(), k),
                k - old_addr.0,
            ),
        forall|k: int|
            old_addr.0 + pages_of(old_size) <= k < old_addr.0 + pages_of(new_size)
                ==> #[trigger] vma_at(a.vmas.model(), k) is None,
        forall|k: int|
            !(old_addr.0 + pages_of(old_size) <= k < old_addr.0 + pages_of(new_size))
                ==> #[trigger] vma_at(b.vmas.model(), k) == vma_at(a.vmas.model(), k),
        forall|k: int| #[trigger] pma_at(b.pmas.model(), k) == pma_at(a.pmas.model(), k),
        populate matches Some(r) ==> r.start == old_addr.0 + pages_of(old_size) && r.end
            == old_addr.0 + pages_of(new_size) && a.outbox.active && vma_at(
            a.vmas.model(),
            old_addr.0 as int,
        )->Some_0.mlock_mode is Eager,
        a.outbox.active && ({
            let v = vma_at(a.vmas.model(), old_addr.0 as int)->Some_0;
            v.mlock_mode is Eager && (v.real_perms.read || v.real_perms.write
                || v.real_perms.execute)
        }) ==> populate is Some,
{
    let n = a.vmas.model();
    let old_ar = Range {
        start: old_addr.0,
        end: (old_addr.0 + Addr(old_size).page_above()) as u64,
    };
    let new_len = Addr(new_size).page_above() as u64;
    let i = holder(n.ks, old_ar.start as int);
    lemma_still_held(n, old_addr.0);
    let r = choose|r: SysResult<AddrRange>|
        {
            &&& #[trigger] grows(a, old_ar, new_len, env, r)
            &&& match r {
                Ok(x) => m == a && x == ar,
                Err(e) => false,
            }
        };
    assert(ar.start == old_ar.end);
    assert(n.ks[i].end == old_ar.end) by {
        if n.ks[i].end > old_ar.end {
            assert(n.ks[i].meets(ar));
        }
    }
    assert forall|k: int|
        old_addr.0 <= k < old_addr.0 + pages_of(new_size) implies continues(
        vma_at(n, old_addr.0 as int),
        #[trigger] vma_at(b.vmas.model(), k),
        k - old_addr.0,
    ) by {
        if k < old_ar.end {
            lemma_goes_on(a, old_addr.0, k);
        } else {
            assert(ar.has(k));
            lemma_point_held::<VmaSetOperations>(n, old_addr.0 as int, i);
        }
    }
    assert forall|k: int|
        old_addr.0 + pages_of(old_size) <= k < old_addr.0 + pages_of(
            new_size,
        ) implies #[trigger] vma_at(n, k) is None by {
        lemma_free_is_silent(n, ar, k);
    }
    lemma_point_held::<VmaSetOperations>(n, old_addr.0 as int, i);
}

/// Where all of a mapping may be accessed in some way before it grows, it may be so
/// accessed once it has grown.
pub proof fn grown_mapping_can_be_used(
    a: MemoryManager,
    m: MemoryManager,
    b: MemoryManager,
    old_addr: Addr,
    old_size: u64,
    new_size: u64,
    opts: MremapOpts,
    env: Env,
    o: MmapOpts,
    r: AddrRange,
    added: SysResult<()>,
    addr: Addr,
    populate: Option<AddrRange>,
    ar: AddrRange,
    need: AccessType,
    max: bool,
    s: IoStart,
)
    requires
        a.wf(),
        b.wf(),
        mremaps(
            a,
            m,
            old_addr,
            old_size,
            new_size,
            opts,
            env,
            Ok(MremapStep::Grow { opts: o, ar: r }),
        ),
        o.mappable is Some ==> added is Ok,
        grown(
            m,
            b,
            Range { start: old_addr.0, end: (old_addr.0 + Addr(old_size).page_above()) as u64 },
            Addr(new_size).page_above() as u64,
            opts,
            env,
            o,
            r,
            added,
            Ok(MremapStep::Done { addr, populate }),
        ),
        may_have(vma_at(a.vmas.model(), old_addr.0 as int), need, max),
        old_addr.0 <= ar.start < ar.end <= old_addr.0 + pages_of(new_size),
        b.starts(ar, need, max, s),
    ensures
        can_start(ar, s),
{
    grown_mapping_goes_on(
        a,
        m,
        b,
        old_addr,
        old_size,
        new_size,
        opts,
        env,
        o,
        r,
        added,
        addr,
        populate,
    );
    lemma_granted(b, ar, need, max, s);
}

/// A mapping that gets smaller without having to move stays where it is, and loses its
/// end only. One whose size in pages does not change is left alone.
pub proof fn shrunk_mapping_loses_its_end(
    a: MemoryManager,
    b: MemoryManager,
    old_addr: Addr,
    old_size: u64,
    new_size: u64,
    opts: MremapOpts,
    env: Env,
    res: SysResult<MremapStep>,
)
    requires
        mremaps(a, b, old_addr, old_size, new_size, opts, env, res),
        old_addr.0 % 4096 == 0,
        vma_at(a.vmas.model(), old_addr.0 as int) is Some,
        0 < new_size <= old_size,
        old_addr.0 + pages_of(old_size) <= u64::MAX,
        opts.mov != MremapMoveMode::Must,
    ensures
        res == Ok::<MremapStep, SysError>(MremapStep::Done { addr: old_addr, populate: None }),
        forall|k: int|
            old_addr.0 + pages_of(new_size) <= k < old_addr.0 + pages_of(old_size)
                ==> #[trigger] vma_at(b.vmas.model(), k) is None,
        forall|k: int|
            old_addr.0 + pages_of(new_size) <= k < old_addr.0 + pages_of(old_size)
                ==> #[trigger] pma_at(b.pmas.model(), k) is None,
        forall|k: int|
            !(old_addr.0 + pages_of(new_size) <= k < old_addr.0 + pages_of(old_size))
                ==> #[trigger] vma_at(b.vmas.model(), k) == vma_at(a.vmas.model(), k),
        forall|k: int|
            !(old_addr.0 + pages_of(new_size) <= k < old_addr.0 + pages_of(old_size))
                ==> #[trigger] pma_at(b.pmas.model(), k) == pma_at(a.pmas.model(), k),
{
}

/// What is planned of a move.
proof fn lemma_planned(
    a: MemoryManager,
    m: MemoryManager,
    old_ar: AddrRange,
    new_size: u64,
    opts: MremapOpts,
    env: Env,
    p: MovePlan,
)
    requires
        planned(a, m, old_ar, new_size, opts, env, Ok(p)),
    ensures
        p.old_ar == kept(old_ar, new_size),
        p.new_ar.end == p.new_ar.start + new_size,
        opts.mov == MremapMoveMode::Must ==> p.new_ar.start == opts.new_addr.0,
        made_room(a, m, old_ar, p.new_ar, opts),
{
}

/// What was mapped at an address before room was made for a move is still there unless
/// it is in the way, or belongs to the part that does not stay.
proof fn lemma_made_room(
    a: MemoryManager,
    m: MemoryManager,
    old_ar: AddrRange,
    new_ar: AddrRange,
    opts: MremapOpts,
    k: int,
)
    requires
        made_room(a, m, old_ar, new_ar, opts),
        old_ar.start <= old_ar.end,
        new_ar.start <= new_ar.end,
        !new_ar.has(k),
        !old_ar.has(k) || k < old_ar.start + new_ar.length(),
    ensures
        vma_at(m.vmas.model(), k) == vma_at(a.vmas.model(), k),
        pma_at(m.pmas.model(), k) == pma_at(a.pmas.model(), k),
{
    let new_size = new_ar.length() as u64;
    if opts.mov == MremapMoveMode::Must && new_size < old_ar.length() {
        let cut = Range { start: kept(old_ar, new_size).end, end: old_ar.end };
        let mid = choose|mid: MemoryManager|
            {
                &&& #[trigger] unmapped(a, mid, new_ar)
                &&& mid.layout == a.layout
                &&& unmapped(mid, m, cut)
            };
        assert(vma_at(m.vmas.model(), k) == vma_at(mid.vmas.model(), k));
        assert(pma_at(m.pmas.model(), k) == pma_at(mid.pmas.model(), k));
    }
}

/// What is at an address after a mapping has moved.
#[verifier::spinoff_prover]
#[verifier::rlimit(60)]
proof fn lemma_moved_at(
    a: MemoryManager,
    m: MemoryManager,
    b: MemoryManager,
    old_ar: AddrRange,
    new_size: u64,
    opts: MremapOpts,
    p: MovePlan,
    v: Vma,
    k: int,
)
    requires
        old_ar.start < old_ar.end,
        0 < new_size,
        made_room(a, m, old_ar, p.new_ar, opts),
        p.old_ar == kept(old_ar, new_size),
        p.new_ar.end == p.new_ar.start + new_size,
        !old_ar.meets(p.new_ar),
        opts.mov == MremapMoveMode::Must || new_size >= old_ar.length(),
        area_at(m.vmas.model(), p.old_ar.start, v),
        moved(m, b, p, v),
    ensures
        p.new_ar.has(k) ==> continues(
            vma_at(a.vmas.model(), old_ar.start as int),
            vma_at(b.vmas.model(), k),
            k - p.new_ar.start,
        ),
        p.new_ar.has(k) && k < p.new_ar.start + old_ar.length() ==> pma_at(b.pmas.model(), k)
            == pma_at(a.pmas.model(), k - p.new_ar.start + old_ar.start),
        old_ar.has(k) ==> vma_at(b.vmas.model(), k) is None && pma_at(b.pmas.model(), k) is None,
        !p.new_ar.has(k) && !old_ar.has(k) ==> vma_at(b.vmas.model(), k) == vma_at(
            a.vmas.model(),
            k,
        ) && pma_at(b.pmas.model(), k) == pma_at(a.pmas.model(), k),
{
    let j = k - p.new_ar.start + old_ar.start;
    let s = old_ar.start as int;
    assert(old_ar.has(s));
    assert(!p.new_ar.has(s));
    lemma_made_room(a, m, old_ar, p.new_ar, opts, s);
    if p.new_ar.has(k) {
        assert(!old_ar.has(k));
        if k < p.new_ar.start + old_ar.length() {
            assert(old_ar.has(j));
            assert(!p.new_ar.has(j));
            lemma_made_room(a, m, old_ar, p.new_ar, opts, j);
            assert(shifted(p.old_ar, p.old_ar.start, p.new_ar.start).has(k));
        }
    } else if old_ar.has(k) {
        if !p.old_ar.has(k) {
            let cut = Range { start: kept(old_ar, new_size).end, end: old_ar.end };
            let mid = choose|mid: MemoryManager|
                {
                    &&& #[trigger] unmapped(a, mid, p.new_ar)
                    &&& mid.layout == a.layout
                    &&& unmapped(mid, m, cut)
                };
            assert(cut.has(k));
            assert(vma_at(m.vmas.model(), k) is None);
            assert(pma_at(m.pmas.model(), k) is None);
            assert(!shifted(p.old_ar, p.old_ar.start, p.new_ar.start).has(k));
        }
    } else {
        lemma_made_room(a, m, old_ar, p.new_ar, opts, k);
        assert(!shifted(p.old_ar, p.old_ar.start, p.new_ar.start).has(k));
    }
}

/// A mapping that has moved is at its new addresses what it was at the old ones, with
/// the same memory behind it, and goes on as it started where it has grown on the way.
/// At its old addresses nothing is left, and elsewhere all is as it was.
#[verifier::spinoff_prover]
#[verifier::rlimit(60)]
pub proof fn moved_mapping_goes_on(
    a: MemoryManager,
    m: MemoryManager,
    b: MemoryManager,
    old_addr: Addr,
    old_size: u64,
    new_size: u64,
    opts: MremapOpts,
    env: Env,
    p: MovePlan,
    copied: SysResult<()>,
    addr: Addr,
    populate: Option<AddrRange>,
)
    requires
        a.wf(),
        m.wf(),
        mremaps(a, m, old_addr, old_size, new_size, opts, env, Ok(MremapStep::Move(p))),
        feasible(m, Ok(MremapStep::Move(p))),
        0 < old_size,
        moves(m, b, p, copied, Ok(MremapStep::Done { addr, populate })),
    ensures
        opts.mov == MremapMoveMode::Must ==> addr == opts.new_addr,
        opts.mov != MremapMoveMode::No,
        addr.0 % 4096 == 0,
        populate is Some == (m.outbox.active && ({
            let v = vma_at(a.vmas.model(), old_addr.0 as int)->Some_0;
            v.mlock_mode is Eager && (v.real_perms.read || v.real_perms.write
                || v.real_perms.execute)
        })),
        populate matches Some(r) ==> r.start == addr.0 && r.end == addr.0 + pages_of(new_size),
        forall|k: int|
            addr.0 <= k < addr.0 + pages_of(new_size) ==> continues(
                vma_at(a.vmas.model(), old_addr.0 as int),
                #[trigger] vma_at(b.vmas.model(), k),
                k - addr.0,
            ),
        forall|k: int|
            addr.0 <= k < addr.0 + pages_of(new_size) && k < addr.0 + pages_of(old_size)
                ==> #[trigger] pma_at(b.pmas.model(), k) == pma_at(
                a.pmas.model(),
                k - addr.0 + old_addr.0,
            ),
        forall|k: int|
            old_addr.0 <= k < old_addr.0 + pages_of(old_size) ==> #[trigger] vma_at(
                b.vmas.model(),
                k,
            ) is None,
        forall|k: int|
            old_addr.0 <= k < old_addr.0 + pages_of(old_size) ==> #[trigger] pma_at(
                b.pmas.model(),
                k,
            ) is None,
        forall|k: int|
            !(addr.0 <= k < addr.0 + pages_of(new_size)) && !(old_addr.0 <= k < old_addr.0
                + pages_of(old_size)) ==> #[trigger] vma_at(b.vmas.model(), k) == vma_at(
                a.vmas.model(),
                k,
            ),
        forall|k: int|
            !(addr.0 <= k < addr.0 + pages_of(new_size)) && !(old_addr.0 <= k < old_addr.0
                + pages_of(old_size)) ==> #[trigger] pma_at(b.pmas.model(), k) == pma_at(
                a.pmas.model(),
                k,
            ),
{
    let old_ar = Range {
        start: old_addr.0,
        end: (old_addr.0 + Addr(old_size).page_above()) as u64,
    };
    let new_len = Addr(new_size).page_above() as u64;
    assert(planned(a, m, old_ar, new_len, opts, env, Ok(p)));
    lemma_planned(a, m, old_ar, new_len, opts, env, p);
    let v = choose|v: Vma|
        {
            &&& #[trigger] area_at(m.vmas.model(), p.old_ar.start, v)
            &&& moved(m, b, p, v)
            &&& populate == to_populate_moved(m.outbox.active, v, p)
        };
    lemma_moved_at(a, m, b, old_ar, new_len, opts, p, v, p.new_ar.start as int);
    assert(vma_at(b.vmas.model(), p.new_ar.start as int) is Some);
    assert forall|k: int|
        addr.0 <= k < addr.0 + pages_of(new_size) implies continues(
        vma_at(a.vmas.model(), old_addr.0 as int),
        #[trigger] vma_at(b.vmas.model(), k),
        k - addr.0,
    ) by {
        lemma_moved_at(a, m, b, old_ar, new_len, opts, p, v, k);
    }
    assert forall|k: int|
        addr.0 <= k < addr.0 + pages_of(new_size) && k < addr.0 + pages_of(
            old_size,
        ) implies #[trigger] pma_at(b.pmas.model(), k) == pma_at(
        a.pmas.model(),
        k - addr.0 + old_addr.0,
    ) by {
        lemma_moved_at(a, m, b, old_ar, new_len, opts, p, v, k);
    }
    assert forall|k: int|
        old_addr.0 <= k < old_addr.0 + pages_of(old_size) implies #[trigger] vma_at(
        b.vmas.model(),
        k,
    ) is None by {
        lemma_moved_at(a, m, b, old_ar, new_len, opts, p, v, k);
    }
    assert forall|k: int|
        old_addr.0 <= k < old_addr.0 + pages_of(old_size) implies #[trigger] pma_at(
        b.pmas.model(),
        k,
    ) is None by {
        lemma_moved_at(a, m, b, old_ar, new_len, opts, p, v, k);
    }
    assert forall|k: int|
        !(addr.0 <= k < addr.0 + pages_of(new_size)) && !(old_addr.0 <= k < old_addr.0 + pages_of(
            old_size,
        )) implies #[trigger] vma_at(b.vmas.model(), k) == vma_at(a.vmas.model(), k) by {
        lemma_moved_at(a, m, b, old_ar, new_len, opts, p, v, k);
    }
    assert forall|k: int|
        !(addr.0 <= k < addr.0 + pages_of(new_size)) && !(old_addr.0 <= k < old_addr.0 + pages_of(
            old_size,
        )) implies #[trigger] pma_at(b.pmas.model(), k) == pma_at(a.pmas.model(), k) by {
        lemma_moved_at(a, m, b, old_ar, new_len, opts, p, v, k);
    }
}

/// Where nothing of a mapping is to be moved, what is mapped at its start is mapped at
/// the new addresses as well, and goes on there as it started. All else stays.
pub proof fn doubled_mapping_goes_on(
    a: MemoryManager,
    m: MemoryManager,
    b: MemoryManager,
    old_addr: Addr,
    new_size: u64,
    opts: MremapOpts,
    env: Env,
    p: MovePlan,
    copied: SysResult<()>,
    addr: Addr,
    populate: Option<AddrRange>,
)
    requires
        a.wf(),
        mremaps(a, m, old_addr, 0, new_size, opts, env, Ok(MremapStep::Move(p))),
        feasible(m, Ok(MremapStep::Move(p))),
        moves(m, b, p, copied, Ok(MremapStep::Done { addr, populate })),
    ensures
        opts.mov == MremapMoveMode::Must ==> addr == opts.new_addr,
        forall|k: int|
            addr.0 <= k < addr.0 + pages_of(new_size) ==> continues(
                vma_at(a.vmas.model(), old_addr.0 as int),
                #[trigger] vma_at(b.vmas.model(), k),
                k - addr.0,
            ),
        forall|k: int|
            !(addr.0 <= k < addr.0 + pages_of(new_size)) ==> #[trigger] vma_at(b.vmas.model(), k)
                == vma_at(a.vmas.model(), k),
        forall|k: int|
            !(addr.0 <= k < addr.0 + pages_of(new_size)) ==> #[trigger] pma_at(b.pmas.model(), k)
                == pma_at(a.pmas.model(), k),
{
    let old_ar = Range { start: old_addr.0, end: old_addr.0 };
    let new_len = Addr(new_size).page_above() as u64;
    assert(planned(a, m, old_ar, new_len, opts, env, Ok(p)));
    lemma_planned(a, m, old_ar, new_len, opts, env, p);
    let v = choose|v: Vma|
        {
            &&& #[trigger] area_at(m.vmas.model(), p.old_ar.start, v)
            &&& duplicated(m, b, p, v)
        };
    let s = old_addr.0 as int;
    assert(!p.new_ar.has(s)) by {
        let h = holder(m.vmas.ranges(), s);
        if p.new_ar.has(s) {
            assert(m.vmas.ranges()[h].meets(p.new_ar));
        }
    }
    lemma_made_room(a, m, old_ar, p.new_ar, opts, s);
    assert forall|k: int|
        addr.0 <= k < addr.0 + pages_of(new_size) implies continues(
        vma_at(a.vmas.model(), s),
        #[trigger] vma_at(b.vmas.model(), k),
        k - addr.0,
    ) by {
        assert(p.new_ar.has(k));
    }
    assert forall|k: int|
        !(addr.0 <= k < addr.0 + pages_of(new_size)) implies #[trigger] vma_at(b.vmas.model(), k)
        == vma_at(a.vmas.model(), k) by {
        lemma_made_room(a, m, old_ar, p.new_ar, opts, k);
    }
    assert forall|k: int|
        !(addr.0 <= k < addr.0 + pages_of(new_size)) implies #[trigger] pma_at(b.pmas.model(), k)
        == pma_at(a.pmas.model(), k) by {
        lemma_made_room(a, m, old_ar, p.new_ar, opts, k);
    }
}

} // verus!
