use vstd::prelude::*;

use crate::access::AccessType;
use crate::addr::{up_to, Addr, PAGE_SIZE};
use crate::errno::{SysError, SysResult};
use crate::loader::elf::{parsed, ProgramHeader};
use crate::loader::place::flagged;
use crate::loader::vdso::{
    after, gives_access, has_code, has_parameters, loads_code, loads_vdso, maps_part,
    protects_segments, segment_inside, segment_pages, system_memory, vdso_part, vdso_room, Vdso,
    VdsoMemory,
};
use crate::memmap::MmapOpts;
use crate::mm::area_laws::mapping_is_as_asked;
use crate::mm::change_laws::{protecting_changes_access_only, same_but_access};
use crate::mm::manager::{vma_at, Env, MemoryManager};
use crate::mm::vma::VmaPoint;
use crate::pgalloc::{MemoryFile, UsageInfoSetOperations};
use crate::pgalloc_laws::allocated_memory_is_new;
use crate::segment::point::point;

verus! {

/// A segment that is to be loaded takes up the page of address `k`, if address `first` of
/// the file is at `base`.
pub open spec fn takes_up(ph: ProgramHeader, first: u64, base: u64, k: int) -> bool {
    let x = base + (ph.p_vaddr - first);
    &&& ph.p_type == 1
    &&& x / 4096 * 4096 <= k < (x + ph.p_memsz + 4095) / 4096 * 4096
}

/// The same is mapped, though perhaps for other access.
pub open spec fn maps_the_same(p: Option<VmaPoint>, q: Option<VmaPoint>) -> bool {
    match (p, q) {
        (Some(p), Some(q)) => {
            &&& q.mappable == p.mappable
            &&& q.off == p.off
            &&& q.private == p.private
            &&& q.max_perms == p.max_perms
        },
        (None, None) => true,
        _ => false,
    }
}

proof fn lemma_pages(ph: ProgramHeader, first: u64, base: u64, k: int)
    requires
        ph.p_type == 1,
        first <= ph.p_vaddr,
    ensures
        ({
            let (page, size) = segment_pages(ph, first, base);
            &&& takes_up(ph, first, base, k) == (page <= k < page + size)
            &&& page % 4096 == 0
            &&& size % 4096 == 0
            &&& size >= 0
            &&& base % 4096 == 0 ==> page >= base
        }),
{
    let x = base + (ph.p_vaddr - first);
    let off = x % 4096;
    let n = ph.p_memsz + off;
    assert(x == x / 4096 * 4096 + off);
    assert(up_to(n, PAGE_SIZE as int) == (n + 4095) / 4096 * 4096);
    assert((x + ph.p_memsz + 4095) / 4096 == x / 4096 + (n + 4095) / 4096);
}

/// The segments were given the access that they ask for.
#[verifier::opaque]
spec fn given(
    a: MemoryManager,
    steps: Seq<(SysResult<()>, MemoryManager)>,
    phs: Seq<ProgramHeader>,
    f: u64,
    base: u64,
    end: u64,
) -> bool {
    a.wf() && base % 4096 == 0 && protects_segments(a, steps, phs, Some(f), base, end, Ok(()))
}

/// There is one way for a change to succeed.
proof fn lemma_done(r: SysResult<()>)
    requires
        r is Ok,
    ensures
        r == Ok::<(), SysError>(()),
{
    match r {
        Ok(u) => {
            assert(u == ());
        },
        Err(_) => {},
    }
}

/// A segment that may only be read.
spec fn only_read(ph: ProgramHeader) -> bool {
    ph.p_flags & 4 == 4 && ph.p_flags & 2 != 2 && ph.p_flags & 1 != 1
}

/// What becomes of address `k` where a segment is given its access.
spec fn given_one(
    p: Option<VmaPoint>,
    q: Option<VmaPoint>,
    ph: ProgramHeader,
    f: u64,
    base: u64,
    end: u64,
    k: int,
) -> bool {
    &&& maps_the_same(p, q)
    &&& !(base <= k < end) ==> q == p
    &&& !takes_up(ph, f, base, k) ==> q == p
    &&& takes_up(ph, f, base, k) && only_read(ph) ==> q == p
    &&& takes_up(ph, f, base, k) && !only_read(ph) ==> q is Some && q->Some_0.real_perms
        == flagged(ph.p_flags)
}

#[verifier::spinoff_prover]
#[verifier::rlimit(60)]
proof fn lemma_one(
    a: MemoryManager,
    steps: Seq<(SysResult<()>, MemoryManager)>,
    phs: Seq<ProgramHeader>,
    f: u64,
    base: u64,
    end: u64,
    k: int,
) -> (r: (MemoryManager, Seq<(SysResult<()>, MemoryManager)>))
    requires
        given(a, steps, phs, f, base, end),
        phs.len() > 0,
    ensures
        given(r.0, r.1, phs.skip(1), f, base, end),
        after(r.0, r.1) == after(a, steps),
        given_one(
            vma_at(a.vmas.model(), k),
            vma_at(r.0.vmas.model(), k),
            phs[0],
            f,
            base,
            end,
            k,
        ),
{
    reveal(given);
    let ph = phs[0];
    if ph.p_type != 1 {
        (a, steps)
    } else {
        lemma_pages(ph, f, base, k);
        let (page, size) = segment_pages(ph, f, base);
        assert(segment_inside(ph, f, base, end));
        if only_read(ph) {
            assert(flagged(ph.p_flags) == (AccessType { read: true, write: false, execute: false }));
            (a, steps)
        } else {
            let m = steps[0].1;
            let more = steps.skip(1);
            lemma_done(steps[0].0);
            lemma_change(a, m, page, size, flagged(ph.p_flags), k);
            assert(after(m, more) == after(a, steps)) by {
                if more.len() > 0 {
                    assert(more.last() == steps.last());
                }
            }
            (m, more)
        }
    }
}

/// What a change of permissions makes of each address.
spec fn changed(a: MemoryManager, b: MemoryManager, addr: Addr, length: u64, perms: AccessType) -> bool {
    let end = addr.0 + (length + 4095) / 4096 * 4096;
    &&& forall|k: int|
        addr.0 <= k < end ==> same_but_access(
            vma_at(a.vmas.model(), k),
            #[trigger] vma_at(b.vmas.model(), k),
            perms,
        )
    &&& forall|k: int|
        !(addr.0 <= k < end) ==> #[trigger] vma_at(b.vmas.model(), k) == vma_at(a.vmas.model(), k)
}

proof fn lemma_changed(
    a: MemoryManager,
    b: MemoryManager,
    addr: Addr,
    length: u64,
    perms: AccessType,
)
    requires
        a.wf(),
        gives_access(a, b, addr, length, perms, Ok(())),
    ensures
        b.wf(),
        changed(a, b, addr, length, perms),
{
    reveal(gives_access);
    protecting_changes_access_only(a, b, addr, length, perms);
}

proof fn lemma_change(
    a: MemoryManager,
    b: MemoryManager,
    page: int,
    size: int,
    perms: AccessType,
    k: int,
)
    requires
        a.wf(),
        gives_access(a, b, Addr(page as u64), size as u64, perms, Ok(())),
        0 <= page <= u64::MAX,
        0 <= size <= u64::MAX,
        size % 4096 == 0,
    ensures
        b.wf(),
        maps_the_same(vma_at(a.vmas.model(), k), vma_at(b.vmas.model(), k)),
        if page <= k < page + size {
            vma_at(b.vmas.model(), k) is Some && vma_at(b.vmas.model(), k)->Some_0.real_perms
                == perms
        } else {
            vma_at(b.vmas.model(), k) == vma_at(a.vmas.model(), k)
        },
{
    lemma_changed(a, b, Addr(page as u64), size as u64, perms);
    assert((size + 4095) / 4096 * 4096 == size);
}

/// No other segment than that at index `j` takes up the page of address `k`.
spec fn alone(phs: Seq<ProgramHeader>, j: int, f: u64, base: u64, k: int) -> bool {
    forall|i: int| 0 <= i < phs.len() && i != j ==> !takes_up(#[trigger] phs[i], f, base, k)
}

/// What access becomes at address `k`, of whose page segment `j` alone takes up anything, or
/// none does if `j` is past them.
proof fn lemma_segments(
    a: MemoryManager,
    steps: Seq<(SysResult<()>, MemoryManager)>,
    phs: Seq<ProgramHeader>,
    f: u64,
    base: u64,
    end: u64,
    k: int,
    j: int,
)
    requires
        given(a, steps, phs, f, base, end),
    ensures
        ({
            let p = vma_at(a.vmas.model(), k);
            let q = vma_at(after(a, steps).vmas.model(), k);
            &&& maps_the_same(p, q)
            &&& !(base <= k < end) ==> q == p
            &&& alone(phs, j, f, base, k) ==> if 0 <= j < phs.len() && takes_up(
                phs[j],
                f,
                base,
                k,
            ) && !only_read(phs[j]) {
                q is Some && q->Some_0.real_perms == flagged(phs[j].p_flags)
            } else {
                q == p
            }
        }),
    decreases phs.len(),
{
    if phs.len() > 0 {
        let rest = phs.skip(1);
        let (m, more) = lemma_one(a, steps, phs, f, base, end, k);
        lemma_segments(m, more, rest, f, base, end, k, j - 1);
        if alone(phs, j, f, base, k) {
            assert forall|i: int| 0 <= i < rest.len() && i != j - 1 implies !takes_up(
                #[trigger] rest[i],
                f,
                base,
                k,
            ) by {
                assert(rest[i] == phs[i + 1]);
            }
            if j != 0 {
                assert(!takes_up(phs[0], f, base, k));
            }
        }
    } else {
        reveal(given);
    }
}

/// The segments before the first that is to be loaded change nothing.
proof fn lemma_first(
    a: MemoryManager,
    steps: Seq<(SysResult<()>, MemoryManager)>,
    phs: Seq<ProgramHeader>,
    base: u64,
    end: u64,
    n: int,
)
    requires
        a.wf(),
        base % 4096 == 0,
        protects_segments(a, steps, phs, None, base, end, Ok(())),
        0 <= n < phs.len(),
        phs[n].p_type == 1,
        forall|i: int| 0 <= i < n ==> (#[trigger] phs[i]).p_type != 1,
    ensures
        given(a, steps, phs, phs[n].p_vaddr, base, end),
    decreases n,
{
    reveal(given);
    if n > 0 {
        let rest = phs.skip(1);
        assert(phs[0].p_type != 1);
        assert(rest[n - 1] == phs[n]);
        assert forall|i: int| 0 <= i < n - 1 implies (#[trigger] rest[i]).p_type != 1 by {
            assert(rest[i] == phs[i + 1]);
        }
        lemma_first(a, steps, rest, base, end, n - 1);
    }
}

/// Nothing changes if there is no segment to be loaded.
proof fn lemma_none(
    a: MemoryManager,
    steps: Seq<(SysResult<()>, MemoryManager)>,
    phs: Seq<ProgramHeader>,
    base: u64,
    end: u64,
)
    requires
        protects_segments(a, steps, phs, None, base, end, Ok(())),
        forall|i: int| 0 <= i < phs.len() ==> (#[trigger] phs[i]).p_type != 1,
    ensures
        steps.len() == 0,
    decreases phs.len(),
{
    if phs.len() > 0 {
        let rest = phs.skip(1);
        assert(phs[0].p_type != 1);
        assert forall|i: int| 0 <= i < rest.len() implies (#[trigger] rest[i]).p_type != 1 by {
            assert(rest[i] == phs[i + 1]);
        }
        lemma_none(a, steps, rest, base, end);
    }
}

/// What address `k` becomes where something is mapped at `x`.
spec fn mapped_at(a: MemoryManager, b: MemoryManager, opts: MmapOpts, x: Addr, k: int) -> bool {
    let end = x.0 + (opts.length + 4095) / 4096 * 4096;
    let p = vma_at(a.vmas.model(), k);
    let q = vma_at(b.vmas.model(), k);
    if x.0 <= k < end {
        &&& q is Some
        &&& q->Some_0.mappable == opts.mappable
        &&& opts.mappable is Some ==> q->Some_0.off == opts.offset + (k - x.0)
        &&& q->Some_0.real_perms == opts.perms
        &&& q->Some_0.max_perms == opts.max_perms
        &&& q->Some_0.private == opts.private
        &&& !opts.unmap ==> p is None
    } else {
        q == p
    }
}

proof fn lemma_mapped_at(
    a: MemoryManager,
    b: MemoryManager,
    opts: MmapOpts,
    env: Env,
    x: SysResult<(Addr, Option<bool>)>,
    k: int,
)
    requires
        a.wf(),
        maps_part(a, b, opts, env, x),
        x is Ok,
    ensures
        b.wf(),
        x->Ok_0.0.0 % 4096 == 0,
        opts.fixed ==> x->Ok_0.0 == opts.addr,
        opts.length > 0,
        x->Ok_0.0.0 + (opts.length + 4095) / 4096 * 4096 <= u64::MAX,
        mapped_at(a, b, opts, x->Ok_0.0, k),
{
    reveal(maps_part);
    mapping_is_as_asked(a, b, opts, env, Ok(()), x->Ok_0.0, x->Ok_0.1);
    assert(vma_at(b.vmas.model(), k) == vma_at(b.vmas.model(), k));
    assert(vma_at(a.vmas.model(), k) == vma_at(a.vmas.model(), k));
}

/// What was mapped before the segments were given their access, at address `k`.
spec fn both_parts(
    p: Option<VmaPoint>,
    q: Option<VmaPoint>,
    start: int,
    base: int,
    end: int,
    param: u64,
    code: u64,
    k: int,
) -> bool {
    let read = AccessType { read: true, write: false, execute: false };
    if start <= k < base {
        &&& p is None
        &&& q is Some && q->Some_0.private && q->Some_0.real_perms == read
        &&& q->Some_0.max_perms == read
        &&& q->Some_0.mappable == Some(param) && q->Some_0.off == k - start
    } else if base <= k < end {
        &&& p is None
        &&& q is Some && q->Some_0.private && q->Some_0.real_perms == read
        &&& q->Some_0.mappable == Some(code) && q->Some_0.off == k - base
    } else {
        q == p
    }
}

/// The same for the code alone.
proof fn lemma_code(
    a: MemoryManager,
    b: MemoryManager,
    phs: Seq<ProgramHeader>,
    code: u64,
    at: Addr,
    vlen: u64,
    env: Env,
    base: Addr,
    k: int,
) -> (r: (MemoryManager, Seq<(SysResult<()>, MemoryManager)>))
    requires
        a.wf(),
        loads_code(a, b, phs, code, at, vlen, env, Ok(base)),
    ensures
        base == at,
        base.0 % 4096 == 0,
        base.0 + (vlen + 4095) / 4096 * 4096 <= u64::MAX,
        r.0.wf(),
        mapped_at(a, r.0, vdso_part(code, at, vlen, AccessType::all()), at, k),
        protects_segments(r.0, r.1, phs, None, base.0, (base.0 + vlen) as u64, Ok(())),
        b == after(r.0, r.1),
{
    let part = vdso_part(code, at, vlen, AccessType::all());
    let (m, z) = choose|m: MemoryManager, z: SysResult<(Addr, Option<bool>)>|
        {
            &&& #[trigger] maps_part(a, m, part, env, z)
            &&& match z {
                Err(e) => b == m && Ok::<Addr, SysError>(base) == Err::<Addr, SysError>(e),
                Ok(_) => exists|steps: Seq<(SysResult<()>, MemoryManager)>, w: SysResult<()>|
                    {
                        &&& #[trigger] protects_segments(
                            m,
                            steps,
                            phs,
                            None,
                            at.0,
                            (at.0 + vlen) as u64,
                            w,
                        )
                        &&& b == after(m, steps)
                        &&& Ok::<Addr, SysError>(base) == (match w {
                            Ok(_) => Ok(at),
                            Err(e) => Err(e),
                        })
                    },
            }
        };
    let (steps, w) = choose|steps: Seq<(SysResult<()>, MemoryManager)>, w: SysResult<()>|
        {
            &&& #[trigger] protects_segments(
                m,
                steps,
                phs,
                None,
                at.0,
                (at.0 + vlen) as u64,
                w,
            )
            &&& b == after(m, steps)
            &&& Ok::<Addr, SysError>(base) == (match w {
                Ok(_) => Ok(at),
                Err(e) => Err(e),
            })
        };
    lemma_done(w);
    lemma_mapped_at(a, m, part, env, z, k);
    (m, steps)
}

/// The memory once both parts are mapped, and the changes of access that follow.
#[verifier::spinoff_prover]
#[verifier::rlimit(60)]
proof fn lemma_stages(
    a: MemoryManager,
    b: MemoryManager,
    v: Vdso,
    param: u64,
    code: u64,
    env: Env,
    base: Addr,
    k: int,
) -> (r: (MemoryManager, Seq<(SysResult<()>, MemoryManager)>))
    requires
        a.wf(),
        v.wf(),
        v.param_page.file_range.length() + v.vdso.file_range.length() <= u64::MAX,
        loads_vdso(a, b, v, param, code, env, Ok(base)),
    ensures
        ({
            let plen = v.param_page.file_range.length();
            let vlen = v.vdso.file_range.length();
            let end = base.0 + (vlen + 4095) / 4096 * 4096;
            &&& plen <= base.0
            &&& base.0 % 4096 == 0
            &&& end <= u64::MAX
            &&& r.0.wf()
            &&& both_parts(
                vma_at(a.vmas.model(), k),
                vma_at(r.0.vmas.model(), k),
                base.0 - plen,
                base.0 as int,
                end,
                param,
                code,
                k,
            )
            &&& protects_segments(
                r.0,
                r.1,
                v.phdrs@,
                None,
                base.0,
                (base.0 + vlen) as u64,
                Ok(()),
            )
            &&& b == after(r.0, r.1)
        }),
{
    let plen = v.param_page.file_range.length() as u64;
    let vlen = v.vdso.file_range.length() as u64;
    let read = AccessType { read: true, write: false, execute: false };
    let room = vdso_room((plen + vlen) as u64);
    let (m1, x) = choose|m1: MemoryManager, x: SysResult<(Addr, Option<bool>)>|
        {
            &&& #[trigger] maps_part(a, m1, room, env, x)
            &&& match x {
                Err(e) => b == m1 && Ok::<Addr, SysError>(base) == Err::<Addr, SysError>(e),
                Ok((addr, _)) => exists|m2: MemoryManager, y: SysResult<(Addr, Option<bool>)>|
                    {
                        &&& #[trigger] maps_part(
                            m1,
                            m2,
                            vdso_part(param, addr, plen, read),
                            env,
                            y,
                        )
                        &&& match y {
                            Err(e) => b == m2 && Ok::<Addr, SysError>(base) == Err::<Addr, SysError>(
                                e,
                            ),
                            Ok(_) => loads_code(
                                m2,
                                b,
                                v.phdrs@,
                                code,
                                Addr((addr.0 + plen) as u64),
                                vlen,
                                env,
                                Ok(base),
                            ),
                        }
                    },
            }
        };
    let addr = x->Ok_0.0;
    let (m2, y) = choose|m2: MemoryManager, y: SysResult<(Addr, Option<bool>)>|
        {
            &&& #[trigger] maps_part(m1, m2, vdso_part(param, addr, plen, read), env, y)
            &&& match y {
                Err(e) => b == m2 && Ok::<Addr, SysError>(base) == Err::<Addr, SysError>(e),
                Ok(_) => loads_code(
                    m2,
                    b,
                    v.phdrs@,
                    code,
                    Addr((addr.0 + plen) as u64),
                    vlen,
                    env,
                    Ok(base),
                ),
            }
        };
    let at = Addr((addr.0 + plen) as u64);
    lemma_mapped_at(a, m1, room, env, x, k);
    lemma_mapped_at(m1, m2, vdso_part(param, addr, plen, read), env, y, k);
    lemma_code(m2, b, v.phdrs@, code, at, vlen, env, base, k)
}

/// The code that a program is given is mapped where it is told to be, from its start on,
/// with the page of parameters right before it. Nothing was mapped at either place, and
/// nothing else is changed. The parameters can only be read.
pub proof fn code_is_mapped(
    a: MemoryManager,
    b: MemoryManager,
    v: Vdso,
    param: u64,
    code: u64,
    env: Env,
    base: Addr,
    k: int,
)
    requires
        a.wf(),
        v.wf(),
        v.param_page.file_range.length() + v.vdso.file_range.length() <= u64::MAX,
        loads_vdso(a, b, v, param, code, env, Ok(base)),
    ensures
        base.0 % 4096 == 0,
        ({
            let start = base.0 - (v.param_page.file_range.end - v.param_page.file_range.start);
            let end = base.0 + (v.vdso.file_range.end - v.vdso.file_range.start + 4095) / 4096 * 4096;
            let p = vma_at(a.vmas.model(), k);
            let q = vma_at(b.vmas.model(), k);
            &&& 0 <= start <= base.0 <= end <= u64::MAX
            &&& if start <= k < base.0 {
                &&& p is None
                &&& q matches Some(q) && q.mappable == Some(param) && q.off == k - start && q.private
                    && q.real_perms.read && !q.real_perms.write && !q.real_perms.execute
                    && q.max_perms.read && !q.max_perms.write && !q.max_perms.execute
            } else if base.0 <= k < end {
                &&& p is None
                &&& q matches Some(q) && q.mappable == Some(code) && q.off == k - base.0 && q.private
            } else {
                q == p
            }
        }),
{
    let (m, steps) = lemma_stages(a, b, v, param, code, env, base, k);
    let phs = v.phdrs@;
    let end = (base.0 + v.vdso.file_range.length()) as u64;
    if forall|i: int| 0 <= i < phs.len() ==> (#[trigger] phs[i]).p_type != 1 {
        lemma_none(m, steps, phs, base.0, end);
    } else {
        let n = lemma_first_loaded(phs);
        lemma_first(m, steps, phs, base.0, end, n);
        lemma_segments(m, steps, phs, phs[n].p_vaddr, base.0, end, k, -1);
    }
}

proof fn lemma_first_loaded(phs: Seq<ProgramHeader>) -> (n: int)
    requires
        !(forall|i: int| 0 <= i < phs.len() ==> (#[trigger] phs[i]).p_type != 1),
    ensures
        0 <= n < phs.len(),
        phs[n].p_type == 1,
        forall|i: int| 0 <= i < n ==> (#[trigger] phs[i]).p_type != 1,
    decreases phs.len(),
{
    if phs[0].p_type == 1 {
        0
    } else {
        let rest = phs.skip(1);
        let i = choose|i: int| 0 <= i < phs.len() && (#[trigger] phs[i]).p_type == 1;
        assert(rest[i - 1] == phs[i]);
        let n = lemma_first_loaded(rest) + 1;
        assert(rest[n - 1] == phs[n]);
        assert forall|j: int| 0 <= j < n implies (#[trigger] phs[j]).p_type != 1 by {
            if j > 0 {
                assert(rest[j - 1] == phs[j]);
            }
        }
        n
    }
}

/// A page of the code that one segment alone takes up can be accessed as the flags of the
/// segment say. One that none takes up can be read.
pub proof fn code_is_accessed_as_flagged(
    a: MemoryManager,
    b: MemoryManager,
    v: Vdso,
    param: u64,
    code: u64,
    env: Env,
    base: Addr,
    n: int,
    j: int,
    k: int,
)
    requires
        a.wf(),
        v.wf(),
        v.param_page.file_range.length() + v.vdso.file_range.length() <= u64::MAX,
        loads_vdso(a, b, v, param, code, env, Ok(base)),
        base.0 <= k < base.0 + v.vdso.file_range.length(),
        0 <= n < v.phdrs@.len(),
        v.phdrs@[n].p_type == 1,
        forall|i: int| 0 <= i < n ==> (#[trigger] v.phdrs@[i]).p_type != 1,
        forall|i: int|
            0 <= i < v.phdrs@.len() && i != j ==> !takes_up(
                #[trigger] v.phdrs@[i],
                v.phdrs@[n].p_vaddr,
                base.0,
                k,
            ),
    ensures
        vma_at(b.vmas.model(), k) matches Some(p) && if 0 <= j < v.phdrs@.len() && takes_up(
            v.phdrs@[j],
            v.phdrs@[n].p_vaddr,
            base.0,
            k,
        ) {
            &&& p.real_perms.read == (v.phdrs@[j].p_flags & 4 == 4)
            &&& p.real_perms.write == (v.phdrs@[j].p_flags & 2 == 2)
            &&& p.real_perms.execute == (v.phdrs@[j].p_flags & 1 == 1)
        } else {
            p.real_perms.read && !p.real_perms.write && !p.real_perms.execute
        },
{
    let (m, steps) = lemma_stages(a, b, v, param, code, env, base, k);
    let phs = v.phdrs@;
    let end = (base.0 + v.vdso.file_range.length()) as u64;
    lemma_first(m, steps, phs, base.0, end, n);
    assert(alone(phs, j, phs[n].p_vaddr, base.0, k));
    lemma_segments(m, steps, phs, phs[n].p_vaddr, base.0, end, k, j);
}

/// The memory for the code holds all of it in whole pages, and the page of parameters is one
/// page. Neither was in use before, and they share nothing. The code keeps its memory and
/// its segments.
pub proof fn code_has_memory_of_its_own(
    a: MemoryFile,
    b: MemoryFile,
    c: MemoryFile,
    bytes: Seq<u8>,
    grown: SysResult<()>,
    grown2: SysResult<()>,
    memory: VdsoMemory,
    v: Vdso,
)
    requires
        a.wf(),
        b.wf(),
        c.wf(),
        has_code(a, b, bytes, grown, Ok(memory)),
        has_parameters(b, c, memory, grown2, Ok(v)),
    ensures
        v.vdso.file_range == memory.range,
        bytes.len() <= memory.range.end - memory.range.start < bytes.len() + 4096,
        memory.range.start % 4096 == 0,
        v.param_page.file_range.end - v.param_page.file_range.start == 4096,
        v.phdrs@ == parsed(bytes)->Some_0.program_headers,
        forall|k: int|
            memory.range.start <= k < memory.range.end ==> #[trigger] point::<
                UsageInfoSetOperations,
            >(a.usage.model(), k) is None,
        forall|k: int|
            memory.range.start <= k < memory.range.end ==> !(v.param_page.file_range.start <= k
                < v.param_page.file_range.end) && (#[trigger] point::<UsageInfoSetOperations>(
                c.usage.model(),
                k,
            ) matches Some(u) && u.kind is System),
{
    let n = up_to(bytes.len() as int, PAGE_SIZE as int) as u64;
    allocated_memory_is_new(a, b, n, system_memory(), grown, memory.range);
    allocated_memory_is_new(b, c, PAGE_SIZE, system_memory(), grown2, v.param_page.file_range);
    assert forall|k: int| memory.range.start <= k < memory.range.end implies !(
    v.param_page.file_range.start <= k < v.param_page.file_range.end) && (#[trigger] point::<
        UsageInfoSetOperations,
    >(c.usage.model(), k) matches Some(u) && u.kind is System) by {
        assert(point::<UsageInfoSetOperations>(b.usage.model(), k) is Some);
    }
}

} // verus!
