use sentinel::access::AccessType;
use sentinel::addr::{Addr, PAGE_SIZE};
use sentinel::errno::{SysError, EACCES, EINVAL, ELOOP, ENOEXEC, ENOTDIR};
use sentinel::loader::auxv::{
    load_elf, Surroundings, AT_BASE, AT_ENTRY, AT_PAGESZ, AT_PHDR, AT_PHENT, AT_PHNUM, AT_UID,
};
use sentinel::loader::elf::{PT_INTERP, PT_LOAD};
use sentinel::loader::path::{
    attempt, check_program_file, file_format, FileFormat, MAX_LOADER_ATTEMPS,
};
use sentinel::loader::place::{loaded_elf, map_segment, read_program, segments_to_load};
use sentinel::loader::script::parse_interpreter_script;
use sentinel::loader::{Auxv, ElfImage, LoadStep, ProgramHeader, Vdso};
use sentinel::mm::{Env, MemoryManager, MmapDirection, MmapLayout};
use sentinel::pgalloc::{MemoryFile, MemoryFileOpts};

const PAGE: u64 = PAGE_SIZE;

const ENV: Env = Env {
    limit_as: u64::MAX,
    limit_mlock: u64::MAX,
    limit_data: u64::MAX,
    limit_stack: u64::MAX,
    ipc_lock: false,
};

fn load(p_vaddr: u64, p_filesz: u64, p_memsz: u64) -> ProgramHeader {
    ProgramHeader {
        p_type: PT_LOAD,
        p_flags: 5,
        p_offset: p_vaddr % PAGE,
        p_vaddr,
        p_filesz,
        p_memsz,
    }
}

/// The bytes of a program file with the given segments, and, where there is one,
/// with the path of an interpreter behind the headers.
fn elf_bytes(e_type: u16, entry: u64, phs: &[ProgramHeader], interp: &str) -> Vec<u8> {
    let mut v = vec![0x7f, 0x45, 0x4c, 0x46, 2, 1, 1, 0, 0, 0, 0, 0, 0, 0, 0, 0];
    v.extend_from_slice(&e_type.to_le_bytes());
    v.extend_from_slice(&62u16.to_le_bytes());
    v.extend_from_slice(&1u32.to_le_bytes());
    v.extend_from_slice(&entry.to_le_bytes());
    v.extend_from_slice(&64u64.to_le_bytes());
    v.extend_from_slice(&0u64.to_le_bytes());
    v.extend_from_slice(&0u32.to_le_bytes());
    v.extend_from_slice(&64u16.to_le_bytes());
    v.extend_from_slice(&56u16.to_le_bytes());
    v.extend_from_slice(&(phs.len() as u16).to_le_bytes());
    v.extend_from_slice(&64u16.to_le_bytes());
    v.extend_from_slice(&[0; 4]);
    let end = 64 + 56 * phs.len() as u64;
    for ph in phs {
        let offset = if ph.p_type == PT_INTERP { end } else { ph.p_offset };
        v.extend_from_slice(&ph.p_type.to_le_bytes());
        v.extend_from_slice(&ph.p_flags.to_le_bytes());
        v.extend_from_slice(&offset.to_le_bytes());
        v.extend_from_slice(&ph.p_vaddr.to_le_bytes());
        v.extend_from_slice(&ph.p_vaddr.to_le_bytes());
        v.extend_from_slice(&ph.p_filesz.to_le_bytes());
        v.extend_from_slice(&ph.p_memsz.to_le_bytes());
        v.extend_from_slice(&PAGE.to_le_bytes());
    }
    v.extend_from_slice(interp.as_bytes());
    if !interp.is_empty() {
        v.push(0);
    }
    v
}

fn image(phs: Vec<ProgramHeader>) -> ElfImage {
    ElfImage {
        is_lib: true,
        entry: 0x100,
        interpreter: None,
        phoff: 64,
        phentsize: 56,
        phnum: phs.len() as u16,
        program_headers: phs,
    }
}

#[test]
fn program_files_are_read() {
    let phs = [load(0x1000, 16, 16), load(0x3000, 0, 0x2000)];
    let bytes = elf_bytes(2, 0x1004, &phs, "");
    let (elf, start, end) = read_program(&bytes).unwrap();
    assert!(!elf.is_lib);
    assert_eq!(elf.entry, 0x1004);
    assert_eq!(elf.interpreter, None);
    assert_eq!((elf.phoff, elf.phentsize, elf.phnum), (64, 56, 2));
    assert_eq!(elf.program_headers, phs.to_vec());
    assert_eq!((start, end), (Addr(0x1000), Addr(0x5000)));
}

#[test]
fn interpreters_are_found() {
    let path = "/lib/ld.so";
    let interp = ProgramHeader {
        p_type: PT_INTERP,
        p_filesz: path.len() as u64 + 1,
        ..load(0, 0, 0)
    };
    let bytes = elf_bytes(3, 0, &[interp, load(0, 16, 16)], path);
    let (elf, _, _) = read_program(&bytes).unwrap();
    assert!(elf.is_lib);
    assert_eq!(elf.interpreter, Some(path.to_string()));
}

#[test]
fn malformed_program_files_are_refused() {
    let e = Some(SysError::new(ENOEXEC));
    assert_eq!(read_program(b"not a program").err(), e);
    assert_eq!(read_program(&elf_bytes(2, 0, &[], "")).err(), e);
    let crossed = [load(0x3000, 0, 16), load(0x1000, 0, 16)];
    assert_eq!(read_program(&elf_bytes(2, 0, &crossed, "")).err(), e);
    let past = [load(u64::MAX - 1, 0, 16)];
    assert_eq!(read_program(&elf_bytes(2, 0, &past, "")).err(), e);
}

#[test]
fn load_bounds_hold_all_segments() {
    let other = ProgramHeader {
        p_type: 7,
        ..load(0x9000, 1, 1)
    };
    let elf = image(vec![other, load(0x1000, 8, 8), load(0x4000, 8, 0x100)]);
    assert_eq!(elf.load_bounds(), Ok((Addr(0x1000), Addr(0x4100))));
    assert_eq!(
        image(vec![other]).load_bounds(),
        Err(SysError::new(ENOEXEC))
    );
    let no_interp = ProgramHeader {
        p_type: PT_INTERP,
        ..load(0, 5, 5)
    };
    assert_eq!(
        image(vec![no_interp, load(0, 1, 1)]).load_bounds(),
        Err(SysError::new(ENOEXEC))
    );
    assert_eq!(segments_to_load(&elf).len(), 2);
    let empty = image(vec![load(0, 0, 0), load(0, 0, 1)]);
    assert_eq!(segments_to_load(&empty), vec![load(0, 0, 1)]);
}

#[test]
fn segments_are_mapped_in_parts() {
    let ph = load(0x1010, 0x100, 0x3000);
    let steps = map_segment(&ph, Addr(0x10000)).unwrap();
    assert_eq!(steps.len(), 3);
    match steps[0] {
        LoadStep::MapFile(o) => {
            assert_eq!((o.addr, o.length, o.offset), (Addr(0x11000), PAGE, 0));
            assert!(o.fixed && o.unmap && o.private);
            assert!(o.perms.read && o.perms.execute && !o.perms.write);
        }
        _ => panic!("the file comes first"),
    }
    assert_eq!(
        steps[1],
        LoadStep::Zero {
            addr: Addr(0x11110),
            length: PAGE - 0x110
        }
    );
    match steps[2] {
        LoadStep::MapAnonymous(o) => {
            assert_eq!((o.addr, o.length), (Addr(0x12000), 3 * PAGE));
            assert_eq!(o.perms, AccessType::any_access());
        }
        _ => panic!("the rest comes last"),
    }
    let whole = map_segment(&load(0x1000, PAGE, PAGE), Addr(0)).unwrap();
    assert_eq!(whole.len(), 1);
    assert_eq!(
        map_segment(&load(u64::MAX, 1, 1), Addr(PAGE)),
        Err(SysError::new(ENOEXEC))
    );
}

fn memory_manager() -> MemoryManager {
    let mut mm = MemoryManager::new();
    mm.set_mmap_layout(MmapLayout {
        min_addr: Addr(65536),
        max_addr: Addr(0x7fff_0000_0000),
        bottom_up_base: Addr(65536),
        top_down_base: Addr(0x7fff_0000_0000),
        default_direction: MmapDirection::MmapBottomUp,
        max_stack_rand: 0,
    });
    mm
}

#[test]
fn programs_are_placed() {
    let mut mm = memory_manager();
    let elf = image(vec![load(0x1000, 8, 8), load(0x4000, 8, 0x100)]);
    let bounds = elf.load_bounds().unwrap();
    let hint = Addr(0x5555_0000);
    let base = mm.place_program(&elf, bounds, hint, &ENV).unwrap();
    assert_eq!(base.offset, hint);
    assert_eq!(base.entry, hint.0 + 0x100);
    assert_eq!((base.start, base.end), (Addr(hint.0 + 0x1000), Addr(hint.0 + 0x4100)));
    assert_eq!(mm.usage_address_space, 0);
    let fixed = ElfImage {
        is_lib: false,
        ..image(vec![load(0x1000, 8, 8)])
    };
    let bounds = fixed.load_bounds().unwrap();
    let base = mm.place_program(&fixed, bounds, hint, &ENV).unwrap();
    assert_eq!((base.offset, base.start), (Addr(0), Addr(0x1000)));
    let l = loaded_elf(fixed, &base);
    assert_eq!((l.phdr_addr, l.phdr_size, l.phdr_num), (Addr(0x1040), 56, 1));
}

#[test]
fn programs_are_told_of_themselves() {
    let mut mm = memory_manager();
    let elf = image(vec![load(0x1000, 8, 8)]);
    let bounds = elf.load_bounds().unwrap();
    let base = mm.place_program(&elf, bounds, Addr(0x100000), &ENV).unwrap();
    let bin = loaded_elf(elf, &base);
    let (entry, auxv) = load_elf(&bin, None);
    assert_eq!(entry, 0x100100);
    assert_eq!(auxv.get(AT_ENTRY), Some(Addr(0x100100)));
    assert_eq!(auxv.get(AT_PHDR), Some(Addr(0x101040)));
    assert_eq!(auxv.get(AT_PHENT), Some(Addr(56)));
    assert_eq!(auxv.get(AT_PHNUM), Some(Addr(1)));
    assert_eq!(auxv.get(AT_BASE), Some(Addr(0)));
    let interp_elf = image(vec![load(0, 8, 8)]);
    let bounds = interp_elf.load_bounds().unwrap();
    let base = mm
        .place_program(&interp_elf, bounds, Addr(0x200000), &ENV)
        .unwrap();
    let interp = loaded_elf(interp_elf, &base);
    let (entry, mut auxv) = load_elf(&bin, Some(&interp));
    assert_eq!(entry, 0x200100);
    assert_eq!(auxv.get(AT_BASE), Some(Addr(0x200000)));
    let s = Surroundings {
        uid: 7,
        euid: 7,
        gid: 8,
        egid: 8,
        execfn: Addr(1),
        random: Addr(2),
        vdso: Addr(3),
    };
    auxv.complete(&s, &vec![(1000, Addr(5))]);
    assert_eq!(auxv.get(AT_UID), Some(Addr(7)));
    assert_eq!(auxv.get(AT_PAGESZ), Some(Addr(PAGE)));
    assert_eq!(auxv.get(1000), Some(Addr(5)));
}

#[test]
fn later_entries_replace_earlier_ones() {
    let mut a = Auxv::new();
    a.insert(1, Addr(2));
    a.insert(3, Addr(4));
    a.insert(1, Addr(5));
    assert_eq!(a.entries.len(), 2);
    assert_eq!(a.get(1), Some(Addr(5)));
    assert_eq!(a.get(2), None);
}

fn strings(v: &[&str]) -> Vec<String> {
    v.iter().map(|s| s.to_string()).collect()
}

#[test]
fn scripts_name_their_interpreter() {
    let (interp, args) = parse_interpreter_script(
        "/s.sh".to_string(),
        b"#! /bin/sh -e\nrest",
        strings(&["./s.sh", "x"]),
    )
    .unwrap();
    assert_eq!(interp, "/bin/sh");
    assert_eq!(args, strings(&["/bin/sh", " -e", "/s.sh", "x"]));
    let (_, args) =
        parse_interpreter_script("/s".to_string(), b"#!/bin/sh\n", vec![]).unwrap();
    assert_eq!(args, strings(&["/bin/sh", "/s"]));
}

#[test]
fn scripts_without_an_interpreter_are_refused() {
    let parse = |head: &[u8]| parse_interpreter_script("/s".to_string(), head, vec![]).err();
    assert_eq!(parse(b"echo"), Some(SysError::new(ENOEXEC)));
    assert_eq!(parse(b"#!  \t\n/bin/sh"), Some(SysError::new(ENOEXEC)));
    assert_eq!(parse(b"#!/bin/\xff\n"), Some(SysError::new(EINVAL)));
    assert_eq!(parse(b"#!/bin/sh \xff\n"), Some(SysError::new(EINVAL)));
}

#[test]
fn files_are_told_apart() {
    assert_eq!(file_format(b"\x7fELF"), FileFormat::Elf);
    assert_eq!(file_format(b"#!/b"), FileFormat::Script);
    assert_eq!(file_format(b"MZ\0\0"), FileFormat::Unknown);
    let mut left = MAX_LOADER_ATTEMPS;
    for _ in 0..6 {
        left = attempt(left).unwrap();
    }
    assert_eq!(attempt(left), Err(SysError::new(ELOOP)));
    assert_eq!(
        check_program_file(true, false, true),
        Err(SysError::new(ENOTDIR))
    );
    assert_eq!(
        check_program_file(false, true, false),
        Err(SysError::new(EACCES))
    );
    assert_eq!(check_program_file(false, false, true), Ok(()));
}

#[test]
fn the_vdso_is_mapped() {
    let mut mf = MemoryFile::new(MemoryFileOpts::default());
    let bytes = elf_bytes(3, 0, &[load(0, 0x100, 0x100)], "");
    assert_eq!(
        Vdso::prepare(&mut mf, b"junk", Ok(())).err(),
        Some(SysError::new(ENOEXEC))
    );
    let memory = Vdso::prepare(&mut mf, &bytes, Ok(())).unwrap();
    assert_eq!(memory.range.len(), PAGE);
    let vdso = Vdso::complete(&mut mf, memory, Ok(())).unwrap();
    assert_eq!(vdso.param_page.name, "[vvar]");
    assert_eq!(vdso.phdrs.len(), 1);
    let mut mm = memory_manager();
    let addr = mm.load_vdso(&vdso, 3, 4, &ENV).unwrap();
    assert_eq!(mm.usage_address_space, 2 * PAGE);
    let keys = mm.vmas.inner_keys();
    assert_eq!(keys.len(), 2);
    assert_eq!(keys[1].start, addr.0);
    assert_eq!(keys[0].end, addr.0);
    assert_eq!(mm.vmas.inner_values()[0].mappable, Some(3));
    assert_eq!(mm.vmas.inner_values()[1].mappable, Some(4));
}
