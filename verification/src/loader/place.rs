use vstd::prelude::*;

use crate::access::{AccessType, PF_X};
use crate::addr::{up_to, Addr, PAGE_SIZE};
use crate::errno::{sys, SysError, SysResult, ENOEXEC};
use crate::loader::elf::{
    load_bounds_are_ordered, loadable, parse_elf, parsed, ElfImage, ElfView, ProgramHeader,
    PT_LOAD,
};
use crate::memmap::MmapOpts;
use crate::mm::manager::{Env, MemoryManager};
use crate::mm::mmap::mmaps;
use crate::mm::unmap::munmaps;

verus! {

/// A program that was loaded.
#[derive(Debug)]
pub struct LoadedElf {
    pub entry: u64,
    pub start: Addr,
    pub end: Addr,
    pub interpreter: Option<String>,
    pub phdr_addr: Addr,
    pub phdr_size: u16,
    pub phdr_num: u16,
}

/// Where a program is put: the addresses in its file lie `offset` above those
/// in memory.
#[derive(Debug, Clone, Copy, PartialEq, Eq, Structural)]
pub struct Base {
    pub entry: u64,
    pub start: Addr,
    pub end: Addr,
    pub offset: Addr,
}

/// What has to be done to load a segment.
#[derive(Debug, Clone, Copy, PartialEq, Eq, Structural)]
pub enum LoadStep {
    /// Map part of the file.
    MapFile(MmapOpts),
    /// Fill memory with zeros.
    Zero { addr: Addr, length: u64 },
    /// Map anonymous memory.
    MapAnonymous(MmapOpts),
}

/// Nothing in particular is asked of a mapping.
pub open spec fn plain_opts() -> MmapOpts {
    MmapOpts {
        length: 0,
        mappable: None,
        offset: 0,
        addr: Addr(0),
        private: false,
        fixed: false,
        unmap: false,
        map32bit: false,
        grows_down: false,
        precommit: false,
        perms: AccessType::none(),
        max_perms: AccessType::none(),
        mlock_mode: crate::memmap::MLockMode::None_,
        force: false,
    }
}

/// The access that the flags of a segment ask for.
pub open spec fn flagged(flags: u32) -> AccessType {
    AccessType {
        read: flags & crate::access::PF_R == crate::access::PF_R,
        write: flags & crate::access::PF_W == crate::access::PF_W,
        execute: flags & PF_X == PF_X,
    }
}

/// Where a segment and its parts lie.
pub ghost struct Layout {
    /// The page at which the segment starts.
    pub addr: int,
    /// How far into that page it starts.
    pub adjust: int,
    /// The part of the memory that comes from the file.
    pub file_size: int,
    /// That part in whole pages.
    pub map_size: int,
    /// The size of the memory.
    pub mem_size: int,
    /// The size of what is left, in whole pages.
    pub anon_size: int,
}

pub open spec fn layout_of(ph: ProgramHeader, offset: Addr) -> Layout {
    let adjust = ph.p_vaddr as int % PAGE_SIZE as int;
    let file_size = ph.p_filesz + adjust;
    let map_size = up_to(file_size, PAGE_SIZE as int);
    let mem_size = ph.p_memsz + adjust;
    Layout {
        addr: offset.0 + ph.p_vaddr - adjust,
        adjust,
        file_size,
        map_size,
        mem_size,
        anon_size: up_to(mem_size - map_size, PAGE_SIZE as int),
    }
}

/// The segment and its parts lie within the addresses and the file.
pub open spec fn fits(ph: ProgramHeader, offset: Addr) -> bool {
    let l = layout_of(ph, offset);
    &&& offset.0 + ph.p_vaddr <= u64::MAX
    &&& l.map_size <= u64::MAX
    &&& l.map_size > 0 ==> l.adjust <= ph.p_offset
    &&& l.map_size > l.file_size ==> l.addr + l.file_size <= u64::MAX
    &&& l.mem_size <= u64::MAX
    &&& l.map_size < l.mem_size ==> l.addr + l.map_size <= u64::MAX && l.anon_size <= u64::MAX
}

/// How the part of the segment that comes from the file is mapped.
pub open spec fn file_opts(ph: ProgramHeader, l: Layout) -> MmapOpts {
    MmapOpts {
        length: l.map_size as u64,
        offset: (ph.p_offset - l.adjust) as u64,
        addr: Addr(l.addr as u64),
        fixed: true,
        unmap: true,
        private: true,
        perms: flagged(ph.p_flags),
        max_perms: AccessType::all(),
        ..plain_opts()
    }
}

/// How the rest of the memory of the segment is mapped.
pub open spec fn anon_opts(ph: ProgramHeader, l: Layout) -> MmapOpts {
    MmapOpts {
        length: l.anon_size as u64,
        addr: Addr((l.addr + l.map_size) as u64),
        fixed: true,
        private: true,
        perms: if ph.p_flags & PF_X == PF_X {
            AccessType::all()
        } else {
            AccessType { read: true, write: true, execute: false }
        },
        max_perms: AccessType::all(),
        ..plain_opts()
    }
}

/// What has to be done to load a segment.
pub open spec fn steps_of(ph: ProgramHeader, l: Layout) -> Seq<LoadStep> {
    (if l.map_size > 0 {
        seq![LoadStep::MapFile(file_opts(ph, l))]
    } else {
        Seq::empty()
    }) + (if l.map_size > l.file_size {
        seq![
            LoadStep::Zero {
                addr: Addr((l.addr + l.file_size) as u64),
                length: (l.map_size - l.file_size) as u64,
            },
        ]
    } else {
        Seq::empty()
    }) + (if l.map_size < l.mem_size {
        seq![LoadStep::MapAnonymous(anon_opts(ph, l))]
    } else {
        Seq::empty()
    })
}

/// Finds what has to be done to load a segment.
pub fn map_segment(ph: &ProgramHeader, offset: Addr) -> (r: SysResult<Vec<LoadStep>>)
    ensures
        match r {
            Ok(steps) => fits(*ph, offset) && steps@ == steps_of(*ph, layout_of(*ph, offset)),
            Err(e) => !fits(*ph, offset) && e == sys(ENOEXEC),
        },
{
    let ghost l = layout_of(*ph, offset);
    let adjust = Addr(ph.p_vaddr).page_offset();
    let addr = match offset.add_length(ph.p_vaddr) {
        Some(a) => a.0 - adjust,
        None => return Err(SysError::new(ENOEXEC)),
    };
    let file_size = match ph.p_filesz.checked_add(adjust) {
        Some(s) => s,
        None => return Err(SysError::new(ENOEXEC)),
    };
    let map_size = match Addr(file_size).round_up() {
        Some(s) => s.0,
        None => return Err(SysError::new(ENOEXEC)),
    };
    let mut steps: Vec<LoadStep> = Vec::new();
    if map_size > 0 {
        if ph.p_offset < adjust {
            return Err(SysError::new(ENOEXEC));
        }
        let mut opts = MmapOpts::default();
        opts.length = map_size;
        opts.offset = ph.p_offset - adjust;
        opts.addr = Addr(addr);
        opts.fixed = true;
        opts.unmap = true;
        opts.private = true;
        opts.perms = AccessType::from_elf_prog_flags(ph.p_flags);
        opts.max_perms = AccessType::any_access();
        assert(opts == file_opts(*ph, l));
        steps.push(LoadStep::MapFile(opts));
        if map_size > file_size {
            let zero_addr = match Addr(addr).add_length(file_size) {
                Some(a) => a,
                None => return Err(SysError::new(ENOEXEC)),
            };
            steps.push(LoadStep::Zero { addr: zero_addr, length: map_size - file_size });
        }
    }
    let mem_size = match ph.p_memsz.checked_add(adjust) {
        Some(s) => s,
        None => return Err(SysError::new(ENOEXEC)),
    };
    if map_size < mem_size {
        let anon_addr = match Addr(addr).add_length(map_size) {
            Some(a) => a,
            None => return Err(SysError::new(ENOEXEC)),
        };
        let anon_size = match Addr(mem_size - map_size).round_up() {
            Some(s) => s.0,
            None => return Err(SysError::new(ENOEXEC)),
        };
        let mut opts = MmapOpts::default();
        opts.length = anon_size;
        opts.addr = anon_addr;
        opts.fixed = true;
        opts.private = true;
        opts.perms = if ph.p_flags & PF_X == PF_X {
            AccessType::any_access()
        } else {
            AccessType::read_write()
        };
        opts.max_perms = AccessType::any_access();
        assert(opts == anon_opts(*ph, l));
        steps.push(LoadStep::MapAnonymous(opts));
    }
    assert(steps@ =~= steps_of(*ph, l));
    Ok(steps)
}

/// The parts of a segment follow each other: what comes from the file starts at
/// a page, what is filled with zeros reaches to the end of its last page, and
/// what is left starts there.
pub proof fn parts_of_segment_meet(ph: ProgramHeader, offset: Addr)
    requires
        fits(ph, offset),
        offset.page_aligned(),
    ensures
        ({
            let l = layout_of(ph, offset);
            &&& Addr(l.addr as u64).page_aligned()
            &&& 0 <= l.map_size - l.file_size < PAGE_SIZE
            &&& (l.addr + l.map_size) % PAGE_SIZE as int == 0
            &&& l.addr + l.adjust == offset.0 + ph.p_vaddr
            &&& l.map_size < l.mem_size ==> l.addr + l.map_size + l.anon_size >= offset.0
                + ph.p_vaddr + ph.p_memsz
        }),
{
}

/// How room for a program is looked for that can be loaded anywhere.
pub open spec fn room_opts(total: u64, hint: Addr) -> MmapOpts {
    MmapOpts { length: total, addr: hint, private: true, ..plain_opts() }
}

/// The bounds of a program, moved by `offset`.
pub open spec fn moved_base(entry: u64, start: Addr, end: Addr, offset: Addr) -> SysResult<Base> {
    if start.0 + offset.0 > u64::MAX || end.0 + offset.0 > u64::MAX || entry + offset.0 > u64::MAX {
        Err(sys(ENOEXEC))
    } else {
        Ok(
            Base {
                entry: (entry + offset.0) as u64,
                start: Addr((start.0 + offset.0) as u64),
                end: Addr((end.0 + offset.0) as u64),
                offset,
            },
        )
    }
}

/// Room is found for a program that can be loaded anywhere, and given back so
/// that its segments can be put there.
pub open spec fn finds_room(
    a: MemoryManager,
    b: MemoryManager,
    e: ElfView,
    bounds: (Addr, Addr),
    hint: Addr,
    env: Env,
    r: SysResult<Base>,
) -> bool {
    let total = up_to(bounds.1.0 - bounds.0.0, PAGE_SIZE as int) as u64;
    exists|mid: MemoryManager, x: SysResult<(Addr, Option<bool>)>|
        {
            &&& #[trigger] mmaps(a, mid, room_opts(total, hint), env, Ok(()), x)
            &&& match x {
                Err(err) => b == mid && r == Err::<Base, SysError>(err),
                Ok((offset, _)) => exists|y: SysResult<()>|
                    {
                        &&& #[trigger] munmaps(mid, b, offset, total, y)
                        &&& r == (match y {
                            Ok(_) => moved_base(e.entry, bounds.0, bounds.1, offset),
                            Err(err) => Err(err),
                        })
                    },
            }
        }
}

/// What comes of looking for a place for a program.
pub open spec fn places_program(
    a: MemoryManager,
    b: MemoryManager,
    e: ElfView,
    bounds: (Addr, Addr),
    hint: Addr,
    env: Env,
    r: SysResult<Base>,
) -> bool {
    if !e.is_lib {
        &&& b == a
        &&& r == Ok::<Base, SysError>(
            Base { entry: e.entry, start: bounds.0, end: bounds.1, offset: Addr(0) },
        )
    } else if up_to(bounds.1.0 - bounds.0.0, PAGE_SIZE as int) > u64::MAX {
        b == a && r == Err::<Base, SysError>(sys(ENOEXEC))
    } else {
        finds_room(a, b, e, bounds, hint, env, r)
    }
}

impl MemoryManager {
    /// Finds where to put a program with the given bounds. A program that can be
    /// loaded anywhere is put where there is room, if possible at `hint`.
    pub fn place_program(&mut self, elf: &ElfImage, bounds: (Addr, Addr), hint: Addr, env: &Env) -> (r:
        SysResult<Base>)
        requires
            old(self).wf(),
            loadable(elf@, bounds.0.0, bounds.1.0),
        ensures
            final(self).wf(),
            final(self).same_settings(old(self)),
            final(self).brk == old(self).brk,
            places_program(*old(self), *final(self), elf@, bounds, hint, *env, r),
    {
        let (start, end) = bounds;
        if !elf.is_lib {
            return Ok(Base { entry: elf.entry, start, end, offset: Addr(0) });
        }
        proof {
            load_bounds_are_ordered(elf@.program_headers, 0, end.0);
        }
        let total = match Addr(end.0 - start.0).round_up() {
            Some(t) => t.0,
            None => return Err(SysError::new(ENOEXEC)),
        };
        let ghost mm0 = *self;
        let mut opts = MmapOpts::default();
        opts.length = total;
        opts.addr = hint;
        opts.private = true;
        assert(opts == room_opts(total, hint));
        let x = self.mmap(opts, env, Ok(()));
        let ghost mid = *self;
        assert(mmaps(mm0, mid, room_opts(total, hint), *env, Ok(()), x));
        let offset = match x {
            Ok((a, _)) => a,
            Err(e) => return Err(e),
        };
        let y = self.munmap(offset, total);
        assert(munmaps(mid, *self, offset, total, y));
        if let Err(e) = y {
            return Err(e);
        }
        match (
            start.add_length(offset.0),
            end.add_length(offset.0),
            Addr(elf.entry).add_length(offset.0),
        ) {
            (Some(start), Some(end), Some(entry)) => Ok(
                Base { entry: entry.0, start, end, offset },
            ),
            _ => Err(SysError::new(ENOEXEC)),
        }
    }
}

/// The program was put at `base`.
pub open spec fn loaded_at(l: LoadedElf, elf: ElfImage, base: Base) -> bool {
    &&& l.entry == base.entry
    &&& l.start == base.start
    &&& l.end == base.end
    &&& l.interpreter == elf.interpreter
    &&& l.phdr_addr.0 == (if base.start.0 + elf.phoff <= u64::MAX {
        base.start.0 + elf.phoff
    } else {
        0
    })
    &&& l.phdr_size == elf.phentsize
    &&& l.phdr_num == elf.phnum
}

/// What is known of a program that was put at `base`. Where the place of its
/// program headers lies past the addresses, it is taken to be zero.
pub fn loaded_elf(elf: ElfImage, base: &Base) -> (l: LoadedElf)
    ensures
        loaded_at(l, elf, *base),
{
    let phdr_addr = match base.start.add_length(elf.phoff) {
        Some(a) => a,
        None => Addr(0),
    };
    LoadedElf {
        entry: base.entry,
        start: base.start,
        end: base.end,
        interpreter: elf.interpreter,
        phdr_addr,
        phdr_size: elf.phentsize,
        phdr_num: elf.phnum,
    }
}

/// The segments of a program that have to be loaded, in order.
pub open spec fn loads(phs: Seq<ProgramHeader>) -> Seq<ProgramHeader> {
    phs.filter(|ph: ProgramHeader| ph.p_type == PT_LOAD && ph.p_memsz != 0)
}

/// The segments of a program that have to be loaded, in order.
pub fn segments_to_load(elf: &ElfImage) -> (v: Vec<ProgramHeader>)
    ensures
        v@ == loads(elf@.program_headers),
{
    let ghost phs = elf.program_headers@;
    let mut v: Vec<ProgramHeader> = Vec::new();
    let mut i: usize = 0;
    assert(phs.take(0) =~= Seq::<ProgramHeader>::empty());
    proof {
        reveal(Seq::filter);
    }
    while i < elf.program_headers.len()
        invariant
            phs == elf.program_headers@,
            i <= phs.len(),
            v@ == loads(phs.take(i as int)),
        decreases phs.len() - i,
    {
        let ph = elf.program_headers[i];
        proof {
            reveal(Seq::filter);
            assert(phs.take(i + 1).drop_last() =~= phs.take(i as int));
        }
        if ph.p_type == PT_LOAD && ph.p_memsz != 0 {
            v.push(ph);
        }
        i = i + 1;
    }
    assert(phs.take(i as int) =~= phs);
    v
}

/// Reads a program file and finds the bounds between which it is loaded.
pub fn read_program(bytes: &[u8]) -> (r: SysResult<(ElfImage, Addr, Addr)>)
    ensures
        match (r, parsed(bytes@)) {
            (Ok((elf, start, end)), Some(e)) => elf@ == e && loadable(e, start.0, end.0),
            (Err(err), Some(e)) => err == sys(ENOEXEC) && forall|start: u64, end: u64|
                !#[trigger] loadable(e, start, end),
            (Ok(_), None) => false,
            (Err(err), None) => err == sys(ENOEXEC),
        },
{
    match parse_elf(bytes) {
        Some(elf) => match elf.load_bounds() {
            Ok((start, end)) => Ok((elf, start, end)),
            Err(e) => Err(e),
        },
        None => Err(SysError::new(ENOEXEC)),
    }
}

} // verus!
