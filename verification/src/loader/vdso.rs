use vstd::prelude::*;

use crate::access::AccessType;
use crate::addr::{up_to, Addr, PAGE_SIZE};
use crate::errno::{sys, SysError, SysResult, ENOEXEC};
use crate::loader::elf::{parse_elf, parsed, ProgramHeader, PT_LOAD};
use crate::loader::place::{flagged, plain_opts};
use crate::memmap::MmapOpts;
use crate::mm::manager::{Env, MemoryManager};
use crate::mm::mmap::mmaps;
use crate::mm::protect::mprotects;
use crate::mm::special::SpecialMappable;
use crate::pgalloc::{AllocOpts, Direction, MemoryFile, MemoryKind};
use crate::range::FileRange;

verus! {

/// The code that every program is given.
#[derive(Debug)]
pub struct Vdso {
    pub param_page: SpecialMappable,
    pub vdso: SpecialMappable,
    pub phdrs: Vec<ProgramHeader>,
}

/// Memory was allocated for the code, into which it has to be copied.
#[derive(Debug)]
pub struct VdsoMemory {
    pub range: FileRange,
    pub phdrs: Vec<ProgramHeader>,
}

/// How memory of the system is allocated.
pub open spec fn system_memory() -> AllocOpts {
    AllocOpts { kind: MemoryKind::System, dir: Direction::BottomUp }
}

/// There is memory for the code, if it is a program.
pub open spec fn has_code(
    a: MemoryFile,
    b: MemoryFile,
    bytes: Seq<u8>,
    grown: SysResult<()>,
    r: SysResult<VdsoMemory>,
) -> bool {
    if parsed(bytes) is None || bytes.len() == 0 || up_to(bytes.len() as int, PAGE_SIZE as int)
        > u64::MAX {
        r is Err && r->Err_0 == sys(ENOEXEC) && b == a
    } else {
        &&& a.allocates(
            b,
            up_to(bytes.len() as int, PAGE_SIZE as int) as u64,
            system_memory(),
            grown,
            match r {
                Ok(m) => Ok(m.range),
                Err(e) => Err(e),
            },
        )
        &&& r matches Ok(m) ==> m.phdrs@ == parsed(bytes)->Some_0.program_headers
    }
}

/// There is memory for the page of parameters too.
pub open spec fn has_parameters(
    a: MemoryFile,
    b: MemoryFile,
    memory: VdsoMemory,
    grown: SysResult<()>,
    r: SysResult<Vdso>,
) -> bool {
    &&& a.allocates(
        b,
        PAGE_SIZE,
        system_memory(),
        grown,
        match r {
            Ok(v) => Ok(v.param_page.file_range),
            Err(e) => Err(e),
        },
    )
    &&& r matches Ok(v) ==> v.vdso.file_range == memory.range && v.phdrs == memory.phdrs
        && v.param_page.name@ == "[vvar]"@ && v.vdso.name@ == ""@
}

impl Vdso {
    pub open spec fn wf(&self) -> bool {
        self.param_page.wf() && self.vdso.wf()
    }

    /// Allocates memory for the code, which is the file `bytes`. `grown` tells
    /// whether the file of memory could be brought to the size that it needs.
    pub fn prepare(mf: &mut MemoryFile, bytes: &[u8], grown: SysResult<()>) -> (r: SysResult<
        VdsoMemory,
    >)
        requires
            old(mf).wf(),
            !old(mf).opts.manual_zeroing,
        ensures
            final(mf).wf(),
            final(mf).opts == old(mf).opts,
            has_code(*old(mf), *final(mf), bytes@, grown, r),
    {
        let elf = match parse_elf(bytes) {
            Some(elf) => elf,
            None => return Err(SysError::new(ENOEXEC)),
        };
        let n = bytes.len();
        if n == 0 {
            return Err(SysError::new(ENOEXEC));
        }
        let size = match Addr(n as u64).round_up() {
            Some(s) => s.0,
            None => return Err(SysError::new(ENOEXEC)),
        };
        let opts = AllocOpts { kind: MemoryKind::System, dir: Direction::BottomUp };
        match mf.allocate(size, opts, grown) {
            Ok(range) => Ok(VdsoMemory { range, phdrs: elf.program_headers }),
            Err(e) => Err(e),
        }
    }

    /// Allocates the page of parameters, once the code was copied.
    pub fn complete(mf: &mut MemoryFile, memory: VdsoMemory, grown: SysResult<()>) -> (r: SysResult<
        Vdso,
    >)
        requires
            old(mf).wf(),
            !old(mf).opts.manual_zeroing,
        ensures
            final(mf).wf(),
            final(mf).opts == old(mf).opts,
            has_parameters(*old(mf), *final(mf), memory, grown, r),
    {
        let opts = AllocOpts { kind: MemoryKind::System, dir: Direction::BottomUp };
        match mf.allocate(PAGE_SIZE, opts, grown) {
            Ok(range) => Ok(
                Vdso {
                    param_page: SpecialMappable::new("[vvar]".to_string(), range),
                    vdso: SpecialMappable::new("".to_string(), memory.range),
                    phdrs: memory.phdrs,
                },
            ),
            Err(e) => Err(e),
        }
    }
}

/// The pages of a segment of the code that is mapped at `base`, whose first
/// segment has the address `first`: where they start and how long they are.
pub open spec fn segment_pages(ph: ProgramHeader, first: u64, base: u64) -> (int, int) {
    let addr = base + (ph.p_vaddr - first);
    let size = ph.p_memsz + addr % PAGE_SIZE as int;
    (addr - addr % PAGE_SIZE as int, up_to(size, PAGE_SIZE as int))
}

/// The segment lies within the code, which ends at `end`.
pub open spec fn segment_inside(ph: ProgramHeader, first: u64, base: u64, end: u64) -> bool {
    let (page, size) = segment_pages(ph, first, base);
    first <= ph.p_vaddr && page + size <= end
}

/// The memory after a number of changes, of each of which it is told how it went
/// and what the memory was then.
pub open spec fn after(a: MemoryManager, steps: Seq<(SysResult<()>, MemoryManager)>) -> MemoryManager {
    if steps.len() == 0 {
        a
    } else {
        steps.last().1
    }
}

/// Pages are given other access, which takes one well-formed memory to another.
#[verifier::opaque]
pub open spec fn gives_access(
    a: MemoryManager,
    b: MemoryManager,
    page: Addr,
    size: u64,
    perms: AccessType,
    r: SysResult<()>,
) -> bool {
    mprotects(a, b, page, size, perms, false, r) && b.wf()
}

/// The segments of the code are given the access that they ask for, one after
/// the other, by `steps`. `first` is the address of the first of them, if one
/// came before.
pub open spec fn protects_segments(
    a: MemoryManager,
    steps: Seq<(SysResult<()>, MemoryManager)>,
    phs: Seq<ProgramHeader>,
    first: Option<u64>,
    base: u64,
    end: u64,
    r: SysResult<()>,
) -> bool
    decreases phs.len(),
{
    if phs.len() == 0 {
        steps.len() == 0 && r == Ok::<(), SysError>(())
    } else if phs[0].p_type != PT_LOAD {
        protects_segments(a, steps, phs.skip(1), first, base, end, r)
    } else {
        let ph = phs[0];
        let f = match first {
            Some(f) => f,
            None => ph.p_vaddr,
        };
        let (page, size) = segment_pages(ph, f, base);
        let perms = flagged(ph.p_flags);
        if !segment_inside(ph, f, base, end) {
            steps.len() == 0 && r == Err::<(), SysError>(sys(ENOEXEC))
        } else if perms == (AccessType { read: true, write: false, execute: false }) {
            protects_segments(a, steps, phs.skip(1), Some(f), base, end, r)
        } else {
            &&& steps.len() > 0
            &&& gives_access(
                a,
                steps[0].1,
                Addr(page as u64),
                size as u64,
                perms,
                steps[0].0,
            )
            &&& match steps[0].0 {
                Ok(_) => protects_segments(
                    steps[0].1,
                    steps.skip(1),
                    phs.skip(1),
                    Some(f),
                    base,
                    end,
                    r,
                ),
                Err(e) => steps.len() == 1 && r == Err::<(), SysError>(e),
            }
        }
    }
}

/// How room for the page of parameters and the code is looked for.
pub open spec fn vdso_room(total: u64) -> MmapOpts {
    MmapOpts { length: total, private: true, ..plain_opts() }
}

/// How a part of it is mapped.
pub open spec fn vdso_part(mappable: u64, addr: Addr, length: u64, max_perms: AccessType) -> MmapOpts {
    MmapOpts {
        length,
        mappable: Some(mappable),
        addr,
        fixed: true,
        unmap: true,
        private: true,
        perms: AccessType { read: true, write: false, execute: false },
        max_perms,
        ..plain_opts()
    }
}

/// A part is mapped as `opts` say, which takes one well-formed memory to another.
#[verifier::opaque]
pub open spec fn maps_part(
    a: MemoryManager,
    b: MemoryManager,
    opts: MmapOpts,
    env: Env,
    r: SysResult<(Addr, Option<bool>)>,
) -> bool {
    mmaps(a, b, opts, env, Ok(()), r) && b.wf()
}

/// Room is found, both parts are mapped there, and the segments of the code are
/// given the access that they ask for.
pub open spec fn loads_vdso(
    a: MemoryManager,
    b: MemoryManager,
    v: Vdso,
    param: u64,
    code: u64,
    env: Env,
    r: SysResult<Addr>,
) -> bool {
    let plen = v.param_page.file_range.length() as u64;
    let vlen = v.vdso.file_range.length() as u64;
    let read = AccessType { read: true, write: false, execute: false };
    exists|m1: MemoryManager, x: SysResult<(Addr, Option<bool>)>|
        {
            &&& #[trigger] maps_part(a, m1, vdso_room((plen + vlen) as u64), env, x)
            &&& match x {
                Err(e) => b == m1 && r == Err::<Addr, SysError>(e),
                Ok((addr, _)) => exists|m2: MemoryManager, y: SysResult<(Addr, Option<bool>)>|
                    {
                        &&& #[trigger] maps_part(
                            m1,
                            m2,
                            vdso_part(param, addr, plen, read),
                            env,
                            y,
                        )
                        &&& match y {
                            Err(e) => b == m2 && r == Err::<Addr, SysError>(e),
                            Ok(_) => loads_code(
                                m2,
                                b,
                                v.phdrs@,
                                code,
                                Addr((addr.0 + plen) as u64),
                                vlen,
                                env,
                                r,
                            ),
                        }
                    },
            }
        }
}

/// The code is mapped at `base`, and its segments are given the access that they
/// ask for.
pub open spec fn loads_code(
    a: MemoryManager,
    b: MemoryManager,
    phs: Seq<ProgramHeader>,
    code: u64,
    base: Addr,
    vlen: u64,
    env: Env,
    r: SysResult<Addr>,
) -> bool {
    exists|m: MemoryManager, x: SysResult<(Addr, Option<bool>)>|
        {
            &&& #[trigger] maps_part(a, m, vdso_part(code, base, vlen, AccessType::all()), env, x)
            &&& match x {
                Err(e) => b == m && r == Err::<Addr, SysError>(e),
                Ok(_) => exists|steps: Seq<(SysResult<()>, MemoryManager)>, y: SysResult<()>|
                    {
                        &&& #[trigger] protects_segments(
                            m,
                            steps,
                            phs,
                            None,
                            base.0,
                            (base.0 + vlen) as u64,
                            y,
                        )
                        &&& b == after(m, steps)
                        &&& r == (match y {
                            Ok(_) => Ok(base),
                            Err(e) => Err(e),
                        })
                    },
            }
        }
}

impl MemoryManager {
    /// Gives the segments of the code from index `i` on the access that they ask
    /// for.
    fn protect_segments(
        &mut self,
        phs: &Vec<ProgramHeader>,
        i: usize,
        first: Option<u64>,
        base: u64,
        end: u64,
    ) -> (r: (SysResult<()>, Ghost<Seq<(SysResult<()>, MemoryManager)>>))
        requires
            old(self).wf(),
            i <= phs@.len(),
        ensures
            final(self).wf(),
            final(self).same_settings(old(self)),
            final(self).brk == old(self).brk,
            protects_segments(
                *old(self),
                r.1@,
                phs@.skip(i as int),
                first,
                base,
                end,
                r.0,
            ),
            *final(self) == after(*old(self), r.1@),
        decreases phs@.len() - i,
    {
        let ghost rest = phs@.skip(i as int);
        let ghost none = Seq::<(SysResult<()>, MemoryManager)>::empty();
        if i == phs.len() {
            return (Ok(()), Ghost(none));
        }
        let ph = phs[i];
        assert(rest[0] == ph);
        assert(rest.skip(1) =~= phs@.skip(i + 1));
        if ph.p_type != PT_LOAD {
            return self.protect_segments(phs, i + 1, first, base, end);
        }
        let f = match first {
            Some(f) => f,
            None => ph.p_vaddr,
        };
        if ph.p_vaddr < f {
            return (Err(SysError::new(ENOEXEC)), Ghost(none));
        }
        let addr = match Addr(base).add_length(ph.p_vaddr - f) {
            Some(a) => a,
            None => return (Err(SysError::new(ENOEXEC)), Ghost(none)),
        };
        let page = addr.round_down();
        let size = match Addr(ph.p_memsz).add_length(addr.page_offset()) {
            Some(s) => s,
            None => return (Err(SysError::new(ENOEXEC)), Ghost(none)),
        };
        let size = match size.round_up() {
            Some(s) => s,
            None => return (Err(SysError::new(ENOEXEC)), Ghost(none)),
        };
        let seg_end = match page.add_length(size.0) {
            Some(e) => e,
            None => return (Err(SysError::new(ENOEXEC)), Ghost(none)),
        };
        if seg_end.0 > end {
            return (Err(SysError::new(ENOEXEC)), Ghost(none));
        }
        let perms = AccessType::from_elf_prog_flags(ph.p_flags);
        assert(perms == flagged(ph.p_flags));
        if perms.read && !perms.write && !perms.execute {
            return self.protect_segments(phs, i + 1, Some(f), base, end);
        }
        let x = self.mprotect(page, size.0, perms, false);
        let ghost mid = *self;
        assert(gives_access(*old(self), mid, page, size.0, perms, x)) by {
            reveal(gives_access);
        }
        if let Err(e) = x {
            let ghost steps = seq![(x, mid)];
            return (Err(e), Ghost(steps));
        }
        let (r, Ghost(more)) = self.protect_segments(phs, i + 1, Some(f), base, end);
        let ghost steps = seq![(x, mid)] + more;
        assert(steps.skip(1) =~= more);
        (r, Ghost(steps))
    }

    /// Maps the code at `base`.
    fn map_code(
        &mut self,
        phs: &Vec<ProgramHeader>,
        code: u64,
        base: Addr,
        vlen: u64,
        env: &Env,
    ) -> (r: SysResult<Addr>)
        requires
            old(self).wf(),
            base.0 + vlen <= u64::MAX,
        ensures
            final(self).wf(),
            final(self).same_settings(old(self)),
            final(self).brk == old(self).brk,
            loads_code(*old(self), *final(self), phs@, code, base, vlen, *env, r),
    {
        let ghost a = *self;
        let mut opts = MmapOpts::default();
        opts.length = vlen;
        opts.mappable = Some(code);
        opts.addr = base;
        opts.fixed = true;
        opts.unmap = true;
        opts.private = true;
        opts.perms = AccessType::read();
        opts.max_perms = AccessType::any_access();
        assert(opts == vdso_part(code, base, vlen, AccessType::all()));
        let x = self.mmap(opts, env, Ok(()));
        let ghost m = *self;
        assert(maps_part(a, m, vdso_part(code, base, vlen, AccessType::all()), *env, x)) by {
            reveal(maps_part);
        }
        if let Err(e) = x {
            return Err(e);
        }
        let (y, Ghost(steps)) = self.protect_segments(phs, 0, None, base.0, base.0 + vlen);
        assert(phs@.skip(0) =~= phs@);
        assert(protects_segments(m, steps, phs@, None, base.0, (base.0 + vlen) as u64, y));
        match y {
            Ok(_) => Ok(base),
            Err(e) => Err(e),
        }
    }

    /// Maps the code that every program is given, with the page of parameters
    /// before it. `param` and `code` are the numbers of the two objects. Tells
    /// where the code is.
    pub fn load_vdso(&mut self, v: &Vdso, param: u64, code: u64, env: &Env) -> (r: SysResult<Addr>)
        requires
            old(self).wf(),
            v.wf(),
            v.param_page.file_range.length() + v.vdso.file_range.length() <= u64::MAX,
        ensures
            final(self).wf(),
            final(self).same_settings(old(self)),
            final(self).brk == old(self).brk,
            loads_vdso(*old(self), *final(self), *v, param, code, *env, r),
    {
        let ghost a = *self;
        let plen = v.param_page.len();
        let vlen = v.vdso.len();
        let ghost read = AccessType { read: true, write: false, execute: false };
        let mut opts = MmapOpts::default();
        opts.length = plen + vlen;
        opts.private = true;
        assert(opts == vdso_room((plen + vlen) as u64));
        let x = self.mmap(opts, env, Ok(()));
        let ghost m1 = *self;
        assert(maps_part(a, m1, vdso_room((plen + vlen) as u64), *env, x)) by {
            reveal(maps_part);
        }
        let addr = match x {
            Ok((addr, _)) => addr,
            Err(e) => return Err(e),
        };
        let mut opts = MmapOpts::default();
        opts.length = plen;
        opts.mappable = Some(param);
        opts.addr = addr;
        opts.fixed = true;
        opts.unmap = true;
        opts.private = true;
        opts.perms = AccessType::read();
        opts.max_perms = AccessType::read();
        assert(opts == vdso_part(param, addr, plen, read));
        let y = self.mmap(opts, env, Ok(()));
        let ghost m2 = *self;
        assert(maps_part(m1, m2, vdso_part(param, addr, plen, read), *env, y)) by {
            reveal(maps_part);
        }
        if let Err(e) = y {
            return Err(e);
        }
        self.map_code(&v.phdrs, code, Addr(addr.0 + plen), vlen, env)
    }
}

} // verus!
