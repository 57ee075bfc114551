use vstd::prelude::*;

use crate::access::AccessType;
use crate::addr::Addr;
use crate::block::{flat, BlockSeq};
use crate::errno::{sys, SysError, SysResult, EFAULT};
use crate::memmap::MmapOpts;
use crate::mm::fill::mapped_internally;
use crate::mm::hosts::{lemma_place_set, mapped_by, place_at, places_kept, places_moved, same_part};
use crate::mm::io::{
    access_end, access_result, host_at, hosts, lemma_vma_held, limited, ready, IoLimit,
};
use crate::mm::manager::{backs, page_bound, pma_at, vma_at, Env, MemoryManager};
use crate::mm::mmap::{mapped, mid_created, mmaps, new_vma, normal, span_at};
use crate::mm::pma::{PmaSetOperations, PmaView};
use crate::mm::protect::{
    may_have, mprotects, protect_result, protect_start, protected, reaches,
};
use crate::mm::remap::{moved, MovePlan};
use crate::mm::shift::shifted;
use crate::mm::transfer::{all_ready, way_to, IoStart};
use crate::mm::unmap::{munmaps, unmapped};
use crate::mm::vma::Vma;
use crate::mm::walk::{lemma_area_at, lemma_copied_part, PmaStep, PmaWalk};
use crate::range::{AddrRange, Range};
use crate::segment::keys::{count_before, free, held_at, lemma_count_before, sorted};
use crate::segment::model::{holder, lemma_holder, wf_segments, Segments};
use crate::segment::nav::{at, first_from, lemma_first_past};
use crate::segment::point::lemma_point_held;
use crate::segment::SetOperations;

verus! {

/// There is a first segment that holds `k` or a key above it, unless all end
/// before.
pub proof fn lemma_first_exists(ks: Seq<Range>, k: int, i: int) -> (r: int)
    requires
        sorted(ks),
        0 <= i <= ks.len(),
        forall|j: int| 0 <= j < i ==> (#[trigger] ks[j]).end <= k,
    ensures
        first_from(ks, k, r),
    decreases ks.len() - i,
{
    if i == ks.len() {
        i
    } else if ks[i].end <= k {
        lemma_first_exists(ks, k, i + 1)
    } else {
        assert forall|j: int| i <= j < ks.len() implies k < (#[trigger] ks[j]).end by {
            if i < j {
                assert(ks[i].end <= ks[j].start && ks[j].start < ks[j].end);
            }
        }
        i
    }
}

/// Memory that is at hand is there.
proof fn lemma_ready_is_there(m: Segments<PmaView>, k: int, need: AccessType, max: bool)
    requires
        sorted(m.ks),
        ready(m, k, need, max, true),
    ensures
        pma_at(m, k) is Some,
        if max {
            pma_at(m, k)->Some_0.max_perms.includes(need)
        } else {
            pma_at(m, k)->Some_0.effective_perms.includes(need)
        },
{
    lemma_point_held::<PmaSetOperations>(m, k, holder(m.ks, k));
}

/// An access that cannot even start ends at once, with a bad address.
pub proof fn lemma_refused(mm: MemoryManager, ar: AddrRange, need: AccessType, max: bool, s: IoStart)
    requires
        mm.wf(),
        ar.start < ar.end,
        !may_have(vma_at(mm.vmas.model(), ar.start as int), need, max),
        !ready(mm.pmas.model(), ar.start as int, need, max, true),
        mm.starts(ar, need, max, s),
    ensures
        s == IoStart::Stop(Err(sys(EFAULT))),
{
    let m = mm.vmas.model();
    assert(ar.has(ar.start as int));
    assert(!all_ready(mm.pmas.model(), ar, need, max));
    let x = choose|x: u64|
        {
            let end = access_end(mm.vmas.ranges(), ar, x);
            let res = access_result(mm.vmas.model(), ar, x);
            &&& #[trigger] reaches(mm.vmas.model(), ar, need, max, x)
            &&& match limited(ar, end, res) {
                IoLimit::Stop(r) => s == IoStart::Stop(r),
                IoLimit::Go(part) => s == (IoStart::Walk {
                    ar: part,
                    walk: way_to(part, need),
                    res,
                }),
            }
        };
    assert(x == ar.start) by {
        if x > ar.start {
            assert(may_have(vma_at(m, ar.start as int), need, max));
        }
    }
    lemma_vma_held(m, x);
    let c = count_before(m.ks, at(x)) as int;
    lemma_count_before(m.ks, at(x));
    if free(m.ks, x as int) {
        if c > 0 {
            assert(m.ks[c - 1].before(at(x)));
            assert(!m.ks[c - 1].has(x as int));
        }
    } else {
        let h = holder(m.ks, x as int);
        assert(held_at(m.ks, x as int, h));
        if h > 0 {
            assert(m.ks[h - 1].end <= m.ks[h].start);
        }
    }
    assert(access_end(m.ks, ar, x) <= ar.start);
}

/// An access that all of `ar` may have starts for all of it.
pub proof fn lemma_granted(mm: MemoryManager, ar: AddrRange, need: AccessType, max: bool, s: IoStart)
    requires
        mm.wf(),
        ar.start < ar.end,
        forall|k: int| ar.has(k) ==> may_have(#[trigger] vma_at(mm.vmas.model(), k), need, max),
        mm.starts(ar, need, max, s),
    ensures
        match s {
            IoStart::Ready(_) => true,
            IoStart::Walk { ar: part, res, .. } => part == ar && res is Ok,
            IoStart::Stop(_) => false,
        },
{
    let m = mm.vmas.model();
    if !all_ready(mm.pmas.model(), ar, need, max) {
        let x = choose|x: u64|
            {
                let end = access_end(mm.vmas.ranges(), ar, x);
                let res = access_result(mm.vmas.model(), ar, x);
                &&& #[trigger] reaches(mm.vmas.model(), ar, need, max, x)
                &&& match limited(ar, end, res) {
                    IoLimit::Stop(r) => s == IoStart::Stop(r),
                    IoLimit::Go(part) => s == (IoStart::Walk {
                        ar: part,
                        walk: way_to(part, need),
                        res,
                    }),
                }
            };
        assert(x == ar.end) by {
            if x < ar.end {
                assert(ar.has(x as int));
                assert(may_have(vma_at(m, x as int), need, max));
            }
        }
        let last = (x - 1) as u64;
        assert(ar.has(last as int));
        assert(may_have(vma_at(m, last as int), need, max));
        lemma_vma_held(m, last);
        assert(m.ks[holder(m.ks, last as int)].has(last as int));
    }
}

/// Once pages are unmapped they can be accessed no more, whether or not
/// permissions are looked at: the answer is that the address is bad.
pub proof fn access_after_unmapping_fails(
    a: MemoryManager,
    b: MemoryManager,
    addr: Addr,
    length: u64,
    ar: AddrRange,
    need: AccessType,
    max: bool,
    s: IoStart,
)
    requires
        b.wf(),
        munmaps(a, b, addr, length, Ok(())),
        ar.start < ar.end,
        addr.0 <= ar.start < addr.0 + Addr(length).page_above(),
        b.starts(ar, need, max, s),
    ensures
        s == IoStart::Stop(Err(sys(EFAULT))),
{
    let k = ar.start as int;
    assert(vma_at(b.vmas.model(), k) is None);
    assert(pma_at(b.pmas.model(), k) is None);
    if ready(b.pmas.model(), k, need, max, true) {
        lemma_ready_is_there(b.pmas.model(), k, need, max);
    }
    lemma_refused(b, ar, need, max, s);
}

/// Once the permissions of pages have changed, an access that they do not have
/// any more is answered with a bad address. Memory that is to be copied before
/// it is written stays open to writing.
pub proof fn access_after_protecting_fails(
    a: MemoryManager,
    b: MemoryManager,
    addr: Addr,
    length: u64,
    perms: AccessType,
    grows_down: bool,
    ar: AddrRange,
    need: AccessType,
    s: IoStart,
)
    requires
        a.wf(),
        b.wf(),
        mprotects(a, b, addr, length, perms, grows_down, Ok(())),
        ar.start < ar.end,
        addr.0 <= ar.start < addr.0 + Addr(length).page_above(),
        !perms.granted().includes(need),
        need.write ==> (pma_at(a.pmas.model(), ar.start as int) matches Some(p) ==> !p.need_cow),
        b.starts(ar, need, false, s),
    ensures
        s == IoStart::Stop(Err(sys(EFAULT))),
{
    let k = ar.start as int;
    let m = a.vmas.model();
    let whole = Range { start: addr.0, end: (addr.0 + Addr(length).page_above()) as u64 };
    let start = protect_start(m, whole, grows_down)->Ok_0;
    let r = Range { start, end: whole.end };
    let x = choose|x: u64|
        {
            &&& #[trigger] reaches(m, r, perms.granted(), true, x)
            &&& protected(a, b, r, x, perms)
            &&& protect_result(m, r, x) == Ok::<(), SysError>(())
        };
    assert(x == r.end);
    if start > ar.start {
        assert(vma_at(m, k) is None) by {
            lemma_vma_held(m, ar.start);
            if !free(m.ks, k) {
                let h = holder(m.ks, k);
                assert(held_at(m.ks, k, h));
                let i = lemma_first_exists(m.ks, addr.0 as int, 0);
                lemma_first_past(m.ks, addr.0 as int, i);
                assert(i <= h);
                if i < h {
                    assert(m.ks[i].end <= m.ks[h].start);
                }
            }
        }
        assert(backs(vma_at(m, k), pma_at(a.pmas.model(), k)));
    }
    let now = vma_at(b.vmas.model(), k);
    assert(!may_have(now, need, false));
    if ready(b.pmas.model(), k, need, false, true) {
        lemma_ready_is_there(b.pmas.model(), k, need, false);
        assert(pma_at(b.pmas.model(), k) is Some);
    }
    lemma_refused(b, ar, need, false, s);
}

/// What was mapped can be accessed as it was asked for.
pub proof fn access_after_mapping_starts(
    a: MemoryManager,
    b: MemoryManager,
    opts: MmapOpts,
    env: Env,
    added: SysResult<()>,
    x: Addr,
    populate: Option<bool>,
    ar: AddrRange,
    need: AccessType,
    s: IoStart,
)
    requires
        a.wf(),
        b.wf(),
        mmaps(a, b, opts, env, added, Ok((x, populate))),
        ar.start < ar.end,
        x.0 <= ar.start,
        ar.end <= x.0 + Addr(opts.length).page_above(),
        opts.perms.granted().includes(need),
        b.starts(ar, need, false, s),
    ensures
        match s {
            IoStart::Ready(_) => true,
            IoStart::Walk { ar: part, res, .. } => part == ar && res is Ok,
            IoStart::Stop(_) => false,
        },
{
    let o = normal(opts, a.def_mlock_mode)->Ok_0;
    let span = span_at(x, o.length);
    let mid = choose|mid: MemoryManager|
        {
            &&& #[trigger] mid_created(a, mid, o, env, span)
            &&& mapped(mid, b, span, new_vma(o))
            &&& b.pmas == mid.pmas
            &&& b.outbox == mid.outbox
        };
    assert forall|k: int| ar.has(k) implies may_have(
        #[trigger] vma_at(b.vmas.model(), k),
        need,
        false,
    ) by {
        assert(span.has(k));
    }
    lemma_granted(b, ar, need, false, s);
}

/// Where permissions are not looked at, changing them keeps no one from an
/// access that the pages may have.
pub proof fn protection_can_be_ignored(
    a: MemoryManager,
    b: MemoryManager,
    addr: Addr,
    length: u64,
    perms: AccessType,
    grows_down: bool,
    res: SysResult<()>,
    ar: AddrRange,
    need: AccessType,
    s: IoStart,
)
    requires
        a.wf(),
        b.wf(),
        mprotects(a, b, addr, length, perms, grows_down, res),
        ar.start < ar.end,
        forall|k: int| ar.has(k) ==> may_have(#[trigger] vma_at(a.vmas.model(), k), need, true),
        b.starts(ar, need, true, s),
    ensures
        match s {
            IoStart::Ready(_) => true,
            IoStart::Walk { ar: part, res, .. } => part == ar && res is Ok,
            IoStart::Stop(_) => false,
        },
{
    assert forall|k: int| ar.has(k) implies may_have(
        #[trigger] vma_at(b.vmas.model(), k),
        need,
        true,
    ) by {
        assert(may_have(vma_at(a.vmas.model(), k), need, true));
    }
    lemma_granted(b, ar, need, true, s);
}

/// Unmapping what was just mapped, where nothing had to give way to it, succeeds
/// and leaves what an application sees and the memory behind it as they were.
pub proof fn unmapping_undoes_mapping(
    a: MemoryManager,
    b: MemoryManager,
    c: MemoryManager,
    opts: MmapOpts,
    env: Env,
    added: SysResult<()>,
    x: Addr,
    populate: Option<bool>,
    res: SysResult<()>,
)
    requires
        a.wf(),
        mmaps(a, b, opts, env, added, Ok((x, populate))),
        !opts.unmap,
        munmaps(b, c, x, opts.length, res),
    ensures
        res is Ok,
        forall|k: int| #[trigger] vma_at(c.vmas.model(), k) == vma_at(a.vmas.model(), k),
        forall|k: int| #[trigger] pma_at(c.pmas.model(), k) == pma_at(a.pmas.model(), k),
        c.locked_drift() == a.locked_drift(),
{
    let o = normal(opts, a.def_mlock_mode)->Ok_0;
    let span = span_at(x, o.length);
    let mid = choose|mid: MemoryManager|
        {
            &&& #[trigger] mid_created(a, mid, o, env, span)
            &&& mapped(mid, b, span, new_vma(o))
            &&& b.pmas == mid.pmas
            &&& b.outbox == mid.outbox
        };
    let m = a.vmas.model();
    assert forall|k: int| span.has(k) implies vma_at(m, k) is None by {
        lemma_vma_held(m, k as u64);
        if !free(m.ks, k) {
            let i = holder(m.ks, k);
            assert(held_at(m.ks, k, i));
            assert(!m.ks[i].meets(span));
        }
    }
    assert forall|k: int| #[trigger] vma_at(c.vmas.model(), k) == vma_at(m, k) by {
        let was = vma_at(b.vmas.model(), k);
    }
    assert forall|k: int| #[trigger] pma_at(c.pmas.model(), k) == pma_at(a.pmas.model(), k) by {
        if span.has(k) {
            assert(vma_at(m, k) is None);
            assert(backs(vma_at(m, k), pma_at(a.pmas.model(), k)));
        }
    }
}

/// An access that reads finds its memory at the very places at which one that
/// writes does, so that what was written is read.
pub proof fn reading_finds_what_was_written(
    mm: MemoryManager,
    ar: AddrRange,
    write: AccessType,
    read: AccessType,
    max_write: bool,
    max_read: bool,
    written: BlockSeq,
    s: IoStart,
)
    requires
        mm.starts(ar, write, max_write, IoStart::Ready(written)),
        mm.starts(ar, read, max_read, s),
        s is Ready,
    ensures
        s matches IoStart::Ready(b) && flat(b@) == flat(written@),
{
}

/// Memory that is at hand is mapped where its part of a file is.
proof fn lemma_ready_place(
    m: Segments<PmaView>,
    k: int,
    need: AccessType,
    max: bool,
    f: spec_fn(u64, int) -> int,
)
    requires
        sorted(m.ks),
        mapped_by(m, f),
        ready(m, k, need, max, true),
    ensures
        pma_at(m, k) is Some,
        host_at(m, k) == f(pma_at(m, k)->Some_0.file, pma_at(m, k)->Some_0.off),
        place_at(m, k) is Some,
{
    let i = holder(m.ks, k);
    lemma_point_held::<PmaSetOperations>(m, k, i);
    assert(place_at(m, k) is Some);
}

/// What was written to `to` is read at `from` at any later time, if the same parts
/// of files are behind both, and these stay mapped where they are.
pub proof fn same_part_is_read(
    a: MemoryManager,
    b: MemoryManager,
    f: spec_fn(u64, int) -> int,
    to: AddrRange,
    from: AddrRange,
    write: AccessType,
    read: AccessType,
    max_write: bool,
    max_read: bool,
    written: BlockSeq,
    got: BlockSeq,
)
    requires
        a.wf(),
        b.wf(),
        mapped_by(a.pmas.model(), f),
        mapped_by(b.pmas.model(), f),
        to.start <= to.end,
        from.length() == to.length(),
        forall|k: int|
            to.has(k) ==> same_part(
                #[trigger] pma_at(a.pmas.model(), k),
                pma_at(b.pmas.model(), k - to.start + from.start),
            ),
        a.starts(to, write, max_write, IoStart::Ready(written)),
        b.starts(from, read, max_read, IoStart::Ready(got)),
    ensures
        flat(got@) == flat(written@),
{
    let am = a.pmas.model();
    let bm = b.pmas.model();
    assert forall|j: int| 0 <= j < to.length() implies #[trigger] hosts(am, to)[j] == hosts(
        bm,
        from,
    )[j] by {
        let k = to.start + j;
        assert(to.has(k) && from.has(from.start + j));
        assert(ready(am, k, write, max_write, true));
        assert(ready(bm, from.start + j, read, max_read, true));
        lemma_ready_place(am, k, write, max_write, f);
        lemma_ready_place(bm, from.start + j, read, max_read, f);
        assert(same_part(pma_at(am, k), pma_at(bm, k - to.start + from.start)));
    }
    assert(hosts(am, to) =~= hosts(bm, from));
}

/// Memory that stays mapped where it was is mapped where its part of a file is.
pub proof fn kept_places_are_right(
    a: Segments<PmaView>,
    b: Segments<PmaView>,
    f: spec_fn(u64, int) -> int,
)
    requires
        mapped_by(a, f),
        places_kept(a, b),
    ensures
        mapped_by(b, f),
{
    assert forall|k: int| #[trigger] place_at(b, k) is Some implies place_at(b, k)->Some_0.host
        == f(place_at(b, k)->Some_0.file, place_at(b, k)->Some_0.off) by {
        assert(place_at(b, k) == place_at(a, k));
    }
}

/// Memory that is mapped where its part of a file is stays right for it.
pub proof fn mapping_memory_is_right(
    a: Segments<PmaView>,
    b: Segments<PmaView>,
    i: int,
    host: Seq<int>,
    f: spec_fn(u64, int) -> int,
)
    requires
        wf_segments::<PmaSetOperations>(a),
        mapped_by(a, f),
        0 <= i < a.ks.len(),
        host.len() == a.ks[i].length(),
        forall|j: int| 0 <= j < host.len() ==> #[trigger] host[j] == f(a.vs[i].file, a.vs[i].off + j),
        mapped_internally(a, b, i, host),
    ensures
        mapped_by(b, f),
{
    let p = PmaView { host, ..a.vs[i] };
    assert(b =~= a.set(i, a.ks[i], p));
    assert forall|k: int| #[trigger] place_at(b, k) is Some implies place_at(b, k)->Some_0.host
        == f(place_at(b, k)->Some_0.file, place_at(b, k)->Some_0.off) by {
        lemma_place_set(a, i, a.ks[i], p, k);
        if a.ks[i].has(k) {
            assert(host[k - a.ks[i].start] == f(a.vs[i].file, a.vs[i].off + (k - a.ks[i].start)));
        } else {
            assert(place_at(a, k) is Some);
        }
    }
}

/// A change of permissions, of whatever addresses, keeps what was written.
pub proof fn protecting_keeps_what_was_written(
    a: MemoryManager,
    b: MemoryManager,
    addr: Addr,
    length: u64,
    perms: AccessType,
    grows_down: bool,
    res: SysResult<()>,
    f: spec_fn(u64, int) -> int,
    ar: AddrRange,
    write: AccessType,
    read: AccessType,
    max_write: bool,
    max_read: bool,
    written: BlockSeq,
    got: BlockSeq,
)
    requires
        a.wf(),
        b.wf(),
        mapped_by(a.pmas.model(), f),
        mprotects(a, b, addr, length, perms, grows_down, res),
        ar.start <= ar.end,
        a.starts(ar, write, max_write, IoStart::Ready(written)),
        b.starts(ar, read, max_read, IoStart::Ready(got)),
    ensures
        mapped_by(b.pmas.model(), f),
        flat(got@) == flat(written@),
{
    let am = a.pmas.model();
    let bm = b.pmas.model();
    if places_kept(am, bm) {
        kept_places_are_right(am, bm, f);
    }
    assert forall|k: int| ar.has(k) implies same_part(
        #[trigger] pma_at(am, k),
        pma_at(bm, k - ar.start + ar.start),
    ) by {
        assert(ready(am, k, write, max_write, true));
        lemma_ready_is_there(am, k, write, max_write);
        assert(pma_at(bm, k) == pma_at(bm, k));
    }
    same_part_is_read(a, b, f, ar, ar, write, read, max_write, max_read, written, got);
}

/// Unmapping addresses keeps what was written to others.
pub proof fn unmapping_keeps_what_was_written(
    a: MemoryManager,
    b: MemoryManager,
    gone: AddrRange,
    f: spec_fn(u64, int) -> int,
    ar: AddrRange,
    write: AccessType,
    read: AccessType,
    max_write: bool,
    max_read: bool,
    written: BlockSeq,
    got: BlockSeq,
)
    requires
        a.wf(),
        b.wf(),
        mapped_by(a.pmas.model(), f),
        unmapped(a, b, gone),
        ar.start <= ar.end,
        !ar.meets(gone),
        a.starts(ar, write, max_write, IoStart::Ready(written)),
        b.starts(ar, read, max_read, IoStart::Ready(got)),
    ensures
        mapped_by(b.pmas.model(), f),
        flat(got@) == flat(written@),
{
    let am = a.pmas.model();
    let bm = b.pmas.model();
    kept_places_are_right(am, bm, f);
    assert forall|k: int| ar.has(k) implies same_part(
        #[trigger] pma_at(am, k),
        pma_at(bm, k - ar.start + ar.start),
    ) by {
        assert(ready(am, k, write, max_write, true));
        lemma_ready_is_there(am, k, write, max_write);
        assert(pma_at(bm, k) == pma_at(am, k));
    }
    same_part_is_read(a, b, f, ar, ar, write, read, max_write, max_read, written, got);
}

/// Memory that moved is mapped where its part of a file is.
proof fn moved_places_are_right(
    a: Segments<PmaView>,
    b: Segments<PmaView>,
    ar: AddrRange,
    to: u64,
    f: spec_fn(u64, int) -> int,
)
    requires
        mapped_by(a, f),
        places_moved(a, b, ar, to),
    ensures
        mapped_by(b, f),
{
    assert forall|k: int| #[trigger] place_at(b, k) is Some implies place_at(b, k)->Some_0.host
        == f(place_at(b, k)->Some_0.file, place_at(b, k)->Some_0.off) by {
        if to <= k < to + ar.length() {
            assert(place_at(a, k - to + ar.start) is Some);
        } else {
            assert(place_at(a, k) is Some);
        }
    }
}

/// The same parts of files are behind addresses before and after they moved.
proof fn lemma_moved_parts(
    a: MemoryManager,
    b: MemoryManager,
    p: MovePlan,
    v: Vma,
    ar: AddrRange,
)
    requires
        a.can_move(p),
        moved(a, b, p, v),
        p.old_ar.covers(ar),
        ar.start <= ar.end,
        forall|k: int| ar.has(k) ==> #[trigger] pma_at(a.pmas.model(), k) is Some,
    ensures
        forall|k: int|
            ar.has(k) ==> same_part(
                #[trigger] pma_at(a.pmas.model(), k),
                pma_at(
                    b.pmas.model(),
                    k - ar.start + shifted(ar, p.old_ar.start, p.new_ar.start).start,
                ),
            ),
        shifted(ar, p.old_ar.start, p.new_ar.start).length() == ar.length(),
{
    let to = shifted(ar, p.old_ar.start, p.new_ar.start);
    assert(p.old_ar.length() <= p.new_ar.length() && p.new_ar.start <= p.new_ar.end);
    assert(to.start == ar.start - p.old_ar.start + p.new_ar.start);
    assert forall|k: int| ar.has(k) implies same_part(
        #[trigger] pma_at(a.pmas.model(), k),
        pma_at(b.pmas.model(), k - ar.start + to.start),
    ) by {
        moving_keeps_memory(a, b, p, v, k);
    }
}

/// What was written before memory was moved is read at the new addresses.
pub proof fn moving_keeps_what_was_written(
    a: MemoryManager,
    b: MemoryManager,
    p: MovePlan,
    v: Vma,
    f: spec_fn(u64, int) -> int,
    ar: AddrRange,
    write: AccessType,
    read: AccessType,
    max_write: bool,
    max_read: bool,
    written: BlockSeq,
    got: BlockSeq,
)
    requires
        a.wf(),
        b.wf(),
        a.can_move(p),
        mapped_by(a.pmas.model(), f),
        moved(a, b, p, v),
        ar.start <= ar.end,
        p.old_ar.covers(ar),
        a.starts(ar, write, max_write, IoStart::Ready(written)),
        b.starts(
            shifted(ar, p.old_ar.start, p.new_ar.start),
            read,
            max_read,
            IoStart::Ready(got),
        ),
    ensures
        mapped_by(b.pmas.model(), f),
        flat(got@) == flat(written@),
{
    let am = a.pmas.model();
    let bm = b.pmas.model();
    moved_places_are_right(am, bm, p.old_ar, p.new_ar.start, f);
    let to = shifted(ar, p.old_ar.start, p.new_ar.start);
    assert forall|k: int| ar.has(k) implies #[trigger] pma_at(am, k) is Some by {
        assert(ready(am, k, write, max_write, true));
        lemma_ready_is_there(am, k, write, max_write);
    }
    lemma_moved_parts(a, b, p, v, ar);
    same_part_is_read(a, b, f, ar, to, write, read, max_write, max_read, written, got);
}

/// What is to be copied before it is written to is taken from where the memory
/// that it replaces is mapped.
pub proof fn copy_is_of_what_was_written(mm: MemoryManager, w: PmaWalk, ar: AddrRange, src: BlockSeq)
    requires
        mm.wf(),
        mm.on_way(w),
        mm.next_step(w, PmaStep::Copy { ar, src }),
    ensures
        flat(src@) == hosts(mm.pmas.model(), ar),
{
    let m = mm.pmas.model();
    let i = mm.memory(w.pos);
    lemma_area_at(mm, w);
    assert(held_at(m.ks, w.pos as int, i)) by {
        let j = choose|j: int| 0 <= j < m.ks.len() && (#[trigger] m.ks[j]).has(w.pos as int);
        assert(held_at(m.ks, w.pos as int, j));
        lemma_holder(m.ks, w.pos as int, j);
    }
    assert(page_bound()(m.ks[i].start) && page_bound()(m.ks[i].end));
    lemma_copied_part(m.ks[i], mm.vmas.values()[mm.area(w.pos)], w.ar, w.pos);
    assert(PmaSetOperations::fits(m.ks[i], m.vs[i]));
    if ar.start < ar.end {
        assert forall|j: int| 0 <= j < ar.length() implies flat(src@)[j] == #[trigger] hosts(
            m,
            ar,
        )[j] by {
            assert(held_at(m.ks, ar.start + j, i));
            lemma_holder(m.ks, ar.start + j, i);
        }
    }
    assert(flat(src@) =~= hosts(m, ar));
}

/// Memory that was moved is behind the new addresses as it was behind the old
/// ones, and no more behind those.
pub proof fn moving_keeps_memory(a: MemoryManager, b: MemoryManager, p: MovePlan, v: Vma, k: int)
    requires
        a.can_move(p),
        moved(a, b, p, v),
        p.old_ar.has(k),
    ensures
        pma_at(b.pmas.model(), k) is None,
        vma_at(b.vmas.model(), k) is None,
        pma_at(b.pmas.model(), k - p.old_ar.start + p.new_ar.start) == pma_at(a.pmas.model(), k),
{
    let j = k - p.old_ar.start + p.new_ar.start;
    assert(shifted(p.old_ar, p.old_ar.start, p.new_ar.start).has(j));
    assert(p.new_ar.has(j));
}

/// Once a way is at its end, and had memory behind all that it passed, there is
/// memory behind every address that it was to lead along.
pub proof fn finished_way_has_memory(mm: MemoryManager, w: PmaWalk, k: int)
    requires
        mm.passed(w),
        mm.next_step(w, PmaStep::Done),
        w.ar.has(k),
    ensures
        pma_at(mm.pmas.model(), k) is Some,
{
}

} // verus!
