use std::collections::HashMap;

use sentinel::access::AccessType;
use sentinel::addr::{Addr, HUGE_PAGE_SIZE, PAGE_SIZE};
use sentinel::block::BlockSeq;
use sentinel::errno::{
    SysError, SysResult, EACCES, EAGAIN, EFAULT, EINVAL, ENOMEM, EPERM,
};
use sentinel::memmap::{MLockMode, MmapOpts, Translation};
use sentinel::mm::fill::WalkResult;
use sentinel::mm::find::FindAvailableOpts;
use sentinel::mm::io::{io_result, limit_io, IoLimit};
use sentinel::mm::remap::{MremapMoveMode, MremapOpts, MremapStep};
use sentinel::mm::transfer::{IoStart, MappingStep};
use sentinel::mm::vec_io::{
    mappings_left, pmas_left, truncated_addr_range_seq, vec_io_result, vec_limit, VecIoStart,
};
use sentinel::mm::walk::{private_aligned, PmaStep, PmaWalk, MEMORY_FILE};
use sentinel::mm::{Effect, Env, MemoryManager, MmapDirection, MmapLayout, NumaPolicy, SpecialMappable};
use sentinel::pgalloc::{AllocOpts, Direction, MapStep, MemoryFile, MemoryFileOpts, MemoryKind};
use sentinel::platform::{Platform, STUB_INIT_ADDRESS};
use sentinel::range::Range;
use sentinel::segment::CHUNK_SIZE;

const PAGE: u64 = PAGE_SIZE;
const HOST: u64 = 0x10_0000_0000;

const ENV: Env = Env {
    limit_as: u64::MAX,
    limit_mlock: u64::MAX,
    limit_data: u64::MAX,
    limit_stack: u64::MAX,
    ipc_lock: false,
};

fn memory_manager() -> MemoryManager {
    let platform = Platform::Ptrace;
    let mut mm = MemoryManager::new();
    let min = platform.min_user_address();
    let max = platform.max_user_address(STUB_INIT_ADDRESS);
    mm.set_mmap_layout(MmapLayout {
        min_addr: min,
        max_addr: max,
        bottom_up_base: min,
        top_down_base: max,
        default_direction: MmapDirection::MmapBottomUp,
        max_stack_rand: 0,
    });
    mm
}

fn real_usage_address_space(mm: &MemoryManager) -> u64 {
    mm.vmas.span()
}

fn real_data_address_space(mm: &MemoryManager) -> u64 {
    let keys = mm.vmas.inner_keys();
    let vals = mm.vmas.inner_values();
    let mut sz = 0;
    for i in 0..keys.len() {
        if vals[i].is_private_data() {
            sz += keys[i].len();
        }
    }
    sz
}

fn mmap(mm: &mut MemoryManager, opts: MmapOpts) -> SysResult<Addr> {
    mm.mmap(opts, &ENV, Ok(())).map(|r| r.0)
}

fn mremap(
    mm: &mut MemoryManager,
    addr: Addr,
    old_size: u64,
    new_size: u64,
    opts: &MremapOpts,
) -> SysResult<Addr> {
    let mut step = mm.mremap(addr, old_size, new_size, opts, &ENV)?;
    let old_ar = Range {
        start: addr.0,
        end: addr.0 + Addr(old_size).round_up().unwrap().0,
    };
    loop {
        step = match step {
            MremapStep::Done { addr, .. } => return Ok(addr),
            MremapStep::Grow { opts: o, ar } => {
                let new_size = Addr(new_size).round_up().unwrap().0;
                mm.mremap_grow(old_ar, new_size, opts, &ENV, &o, ar, Ok(()))?
            }
            MremapStep::Move(plan) => mm.mremap_move(&plan, Ok(()))?,
        };
    }
}

/// The memory of an application, beside what the host has behind it.
struct Machine {
    mm: MemoryManager,
    mf: MemoryFile,
    host: HashMap<u64, u8>,
    object: Option<SpecialMappable>,
}

impl Machine {
    fn new() -> Self {
        Machine {
            mm: memory_manager(),
            mf: MemoryFile::new(MemoryFileOpts::default()),
            host: HashMap::new(),
            object: None,
        }
    }

    fn allocate(&mut self, length: u64) -> SysResult<Range> {
        let opts = AllocOpts {
            kind: MemoryKind::Anonymous,
            dir: Direction::BottomUp,
        };
        self.mf.allocate(length, opts, Ok(()))
    }

    fn map_internal(&mut self, range: Range, perms: AccessType) -> SysResult<BlockSeq> {
        loop {
            match self.mf.map_internal(range, perms)? {
                MapStep::NeedChunk(c) => {
                    self.mf.set_chunk_mapping(c, HOST + c * CHUNK_SIZE as u64)
                }
                MapStep::Mapped(b) => return Ok(b),
            }
        }
    }

    fn translate(&self, required: Range, optional: Range) -> (Vec<Translation>, SysResult<()>) {
        self.object.as_ref().unwrap().translate(required, optional)
    }

    fn run(&mut self, mut w: PmaWalk) -> (u64, SysResult<()>) {
        loop {
            let res = match self.mm.step(&mut w) {
                PmaStep::Done => return (w.pos, Ok(())),
                PmaStep::Next => WalkResult::More,
                PmaStep::Allocate { ar } => {
                    let fr = self.allocate(ar.len());
                    self.mm.allocated(&mut w, fr)
                }
                PmaStep::Translate {
                    required, optional, ..
                } => {
                    let (ts, res) = self.translate(required, optional);
                    self.mm.translated(&mut w, &ts, res)
                }
                PmaStep::Retranslate {
                    required, optional, ..
                } => {
                    let (ts, res) = self.translate(required, optional);
                    self.mm.retranslated(&mut w, &ts, res)
                }
                PmaStep::MapInternal { file, range, perms } => {
                    assert_eq!(file, MEMORY_FILE);
                    let ims = self.map_internal(range, perms);
                    self.mm.mapped_for_copy(&mut w, ims)
                }
                PmaStep::Copy { ar, src } => {
                    let fr = self.allocate(ar.len()).unwrap();
                    let dst = self.map_internal(fr, AccessType::read_write()).unwrap();
                    let bytes = self.load(&src, ar.len());
                    self.store(&dst, &bytes);
                    self.mm.copied(&mut w, Ok(fr))
                }
            };
            if let WalkResult::End { end, res } = res {
                return (end, res);
            }
        }
    }

    fn run_mapping(&mut self, ar: Range) -> (u64, SysResult<()>) {
        let mut pos = ar.start;
        loop {
            match self.mm.mapping_step(ar, pos) {
                MappingStep::MapInternal { range, perms, .. } => {
                    let ims = self.map_internal(range, perms);
                    if let Some(MappingStep::End { end, res }) = self.mm.mapped(pos, ims) {
                        return (end, res);
                    }
                }
                MappingStep::Next(next) => pos = next,
                MappingStep::End { end, res } => return (end, res),
            }
        }
    }

    fn load(&self, b: &BlockSeq, n: u64) -> Vec<u8> {
        let mut v = Vec::new();
        for i in 0..b.len() {
            let block = b.block(i);
            for a in block.addr..block.addr + block.len {
                if (v.len() as u64) < n {
                    v.push(*self.host.get(&a).unwrap_or(&0));
                }
            }
        }
        v
    }

    fn store(&mut self, b: &BlockSeq, bytes: &[u8]) -> usize {
        let mut n = 0;
        for i in 0..b.len() {
            let block = b.block(i);
            for a in block.addr..block.addr + block.len {
                if n < bytes.len() {
                    self.host.insert(a, bytes[n]);
                    n += 1;
                }
            }
        }
        n
    }

    /// The places behind which the memory for an access is, with what went wrong
    /// on the way, or what the access comes to at once.
    fn with_mappings(
        &mut self,
        addr: Addr,
        length: u64,
        at: AccessType,
        ignore: bool,
    ) -> Result<(BlockSeq, [SysResult<()>; 3]), SysResult<usize>> {
        match self.mm.begin_io(addr, length as i64, at, ignore) {
            IoStart::Ready(b) => Ok((b, [Ok(()), Ok(()), Ok(())])),
            IoStart::Stop(r) => Err(r),
            IoStart::Walk { ar, walk, res } => {
                let (end, pres) = self.run(walk);
                let ar = match limit_io(ar, end, pres) {
                    IoLimit::Go(ar) => ar,
                    IoLimit::Stop(r) => return Err(r),
                };
                let (end, imres) = self.run_mapping(ar);
                let ar = match limit_io(ar, end, imres) {
                    IoLimit::Go(ar) => ar,
                    IoLimit::Stop(r) => return Err(r),
                };
                Ok((self.mm.internal_mappings(ar), [imres, pres, res]))
            }
        }
    }

    fn copy_in(&mut self, addr: Addr, dst: &mut [u8], ignore: bool) -> SysResult<usize> {
        match self.with_mappings(addr, dst.len() as u64, AccessType::read(), ignore) {
            Ok((b, [imres, pres, vres])) => {
                let bytes = self.load(&b, dst.len() as u64);
                dst[..bytes.len()].copy_from_slice(&bytes);
                io_result(Ok(bytes.len()), imres, pres, vres)
            }
            Err(r) => r,
        }
    }

    fn copy_out(&mut self, addr: Addr, src: &[u8], ignore: bool) -> SysResult<usize> {
        match self.with_mappings(addr, src.len() as u64, AccessType::write(), ignore) {
            Ok((b, [imres, pres, vres])) => {
                let n = self.store(&b, src);
                io_result(Ok(n), imres, pres, vres)
            }
            Err(r) => r,
        }
    }
}

fn private_pages(n: u64, perms: AccessType) -> MmapOpts {
    MmapOpts {
        length: n * PAGE,
        private: true,
        perms,
        max_perms: AccessType::any_access(),
        ..MmapOpts::default()
    }
}

#[test]
fn usage_address_space_updates() {
    let mut mm = memory_manager();

    let addr = mmap(
        &mut mm,
        MmapOpts {
            length: 2 * PAGE,
            private: true,
            ..MmapOpts::default()
        },
    )
    .expect("error occurred in mmap");

    assert_eq!(mm.usage_address_space, real_usage_address_space(&mm));
    mm.munmap(addr, PAGE).expect("error occurred in munmap");
    assert_eq!(mm.usage_address_space, real_usage_address_space(&mm));
}

#[test]
fn data_address_space_updates() {
    let mut mm = memory_manager();

    let addr = mmap(
        &mut mm,
        MmapOpts {
            length: 3 * PAGE,
            private: true,
            perms: AccessType::write(),
            max_perms: AccessType::any_access(),
            ..MmapOpts::default()
        },
    )
    .expect("error occurred in mmap");

    assert_ne!(mm.data_address_space, 0);
    assert_eq!(mm.data_address_space, real_data_address_space(&mm));

    mm.munmap(addr, PAGE).expect("error occurred in munmap");
    assert_eq!(mm.data_address_space, real_data_address_space(&mm));

    mm.mprotect(Addr(addr.0 + PAGE), PAGE, AccessType::read(), false)
        .expect("error occurred in mprotect");
    assert_eq!(mm.data_address_space, real_data_address_space(&mm));

    mremap(
        &mut mm,
        Addr(addr.0 + 2 * PAGE),
        PAGE,
        2 * PAGE,
        &MremapOpts {
            mov: MremapMoveMode::May,
            new_addr: Addr(0),
        },
    )
    .expect("error occurred in mremap");
    assert_eq!(mm.data_address_space, real_data_address_space(&mm));
}

#[test]
fn brk_data_limit_updates() {
    let mut mm = memory_manager();
    let env = Env {
        limit_data: 0,
        ..ENV
    };
    let old_brk = mm.brk(Addr(0), &env).0;
    let new_brk = mm.brk(Addr(old_brk.0 + PAGE), &env).0;
    assert_eq!(old_brk, new_brk);
}

#[test]
fn io_after_unmap() {
    let mut m = Machine::new();
    let addr = mmap(
        &mut m.mm,
        MmapOpts {
            length: PAGE,
            private: true,
            perms: AccessType::read(),
            max_perms: AccessType::any_access(),
            ..MmapOpts::default()
        },
    )
    .expect("error occurred in mmap");

    let mut b = vec![0];
    let n = m.copy_in(addr, &mut b, false);
    assert_eq!(n, Ok(1));

    m.mm.munmap(addr, PAGE).expect("error occurred in munmap");

    let res = m.copy_in(addr, &mut b, false);
    assert_eq!(res, Err(SysError::new(libc::EFAULT)));
}

#[test]
fn io_after_mprotect() {
    let mut m = Machine::new();
    let addr = mmap(
        &mut m.mm,
        MmapOpts {
            length: PAGE,
            private: true,
            perms: AccessType::read_write(),
            max_perms: AccessType::any_access(),
            ..MmapOpts::default()
        },
    )
    .expect("error occurred in mmap");

    let b = vec![0];
    let n = m.copy_out(addr, &b, false);
    assert_eq!(n, Ok(1));

    m.mm.mprotect(addr, PAGE, AccessType::read(), false)
        .expect("error occurred in mprotect");

    let res = m.copy_out(addr, &b, false);
    assert_eq!(res, Err(SysError::new(libc::EFAULT)));

    let n = m.copy_out(addr, &b, true);
    assert_eq!(n, Ok(1));
}

#[test]
fn what_was_written_is_read() {
    let mut m = Machine::new();
    let addr = mmap(&mut m.mm, private_pages(3, AccessType::read_write())).unwrap();
    let src: Vec<u8> = (0..PAGE + 100).map(|i| (i % 251) as u8).collect();
    let at = Addr(addr.0 + 10);
    assert_eq!(m.copy_out(at, &src, false), Ok(src.len()));
    let mut dst = vec![0; src.len()];
    assert_eq!(m.copy_in(at, &mut dst, false), Ok(src.len()));
    assert_eq!(src, dst);
    assert_eq!(m.mm.cur_rss, m.mm.pmas.span());
    assert!(m.mm.max_rss >= m.mm.cur_rss);
}

#[test]
fn finished_way_has_memory() {
    let mut m = Machine::new();
    let addr = mmap(&mut m.mm, private_pages(3, AccessType::read_write())).unwrap();
    let ar = Range {
        start: addr.0 + PAGE,
        end: addr.0 + 3 * PAGE,
    };
    let w = m.mm.begin_walk(ar, AccessType::read_write());
    assert_eq!(w.pos, ar.start);
    let (end, res) = m.run(w);
    assert_eq!(res, Ok(()));
    assert!(end >= ar.end);
    assert!(m.mm.pmas.inner_keys().iter().any(|k| k.start <= ar.start && ar.end <= k.end));
}

#[test]
fn moved_memory_keeps_what_it_held() {
    let mut m = Machine::new();
    let addr = mmap(&mut m.mm, private_pages(2, AccessType::read_write())).unwrap();
    mmap(
        &mut m.mm,
        MmapOpts {
            addr: Addr(addr.0 + 2 * PAGE),
            fixed: true,
            ..private_pages(1, AccessType::read())
        },
    )
    .unwrap();
    assert_eq!(m.copy_out(addr, &[1, 2, 3], false), Ok(3));
    let opts = MremapOpts {
        mov: MremapMoveMode::May,
        new_addr: Addr(0),
    };
    let moved = mremap(&mut m.mm, addr, 2 * PAGE, 4 * PAGE, &opts).unwrap();
    assert_ne!(moved, addr);
    let mut b = [0; 3];
    assert_eq!(m.copy_in(moved, &mut b, false), Ok(3));
    assert_eq!(b, [1, 2, 3]);
    assert_eq!(
        m.copy_in(addr, &mut b, false),
        Err(SysError::new(EFAULT))
    );
    assert_eq!(m.mm.usage_address_space, 5 * PAGE);
}

#[test]
fn shrunk_memory_ends_earlier() {
    let mut mm = memory_manager();
    let addr = mmap(&mut mm, private_pages(4, AccessType::read())).unwrap();
    let opts = MremapOpts {
        mov: MremapMoveMode::No,
        new_addr: Addr(0),
    };
    assert_eq!(mremap(&mut mm, addr, 4 * PAGE, PAGE, &opts), Ok(addr));
    assert_eq!(mm.usage_address_space, PAGE);
    assert_eq!(
        mremap(&mut mm, Addr(addr.0 + 1), PAGE, PAGE, &opts),
        Err(SysError::new(EINVAL))
    );
    assert_eq!(
        mremap(&mut mm, addr, PAGE, 0, &opts),
        Err(SysError::new(EINVAL))
    );
    assert_eq!(
        mremap(&mut mm, Addr(addr.0 + PAGE), PAGE, 2 * PAGE, &opts),
        Err(SysError::new(EFAULT))
    );
}

#[test]
fn mappings_are_refused_for_a_reason() {
    let mut mm = memory_manager();
    let read = private_pages(1, AccessType::read());
    assert_eq!(
        mmap(&mut mm, MmapOpts { length: 0, ..read }),
        Err(SysError::new(EINVAL))
    );
    assert_eq!(
        mmap(
            &mut mm,
            MmapOpts {
                length: u64::MAX,
                ..read
            }
        ),
        Err(SysError::new(ENOMEM))
    );
    assert_eq!(
        mmap(
            &mut mm,
            MmapOpts {
                mappable: Some(1),
                offset: 1,
                ..read
            }
        ),
        Err(SysError::new(ENOMEM))
    );
    assert_eq!(
        mmap(
            &mut mm,
            MmapOpts {
                max_perms: AccessType::write(),
                ..read
            }
        ),
        Err(SysError::new(EACCES))
    );
    let env = Env {
        limit_as: PAGE - 1,
        ..ENV
    };
    assert_eq!(
        mm.mmap(read, &env, Ok(())).map(|r| r.0),
        Err(SysError::new(ENOMEM))
    );
    let env = Env {
        limit_mlock: 0,
        ..ENV
    };
    let locked = MmapOpts {
        mlock_mode: MLockMode::Lazy,
        ..read
    };
    assert_eq!(
        mm.mmap(locked, &env, Ok(())).map(|r| r.0),
        Err(SysError::new(EPERM))
    );
    let env = Env {
        limit_mlock: 1,
        ..ENV
    };
    assert_eq!(
        mm.mmap(locked, &env, Ok(())).map(|r| r.0),
        Err(SysError::new(EAGAIN))
    );
    let env = Env {
        ipc_lock: true,
        ..env
    };
    assert!(mm.mmap(locked, &env, Ok(())).is_ok());
    assert_eq!(mm.locked_as, PAGE);
    let e = SysError::new(EPERM);
    let object = MmapOpts {
        mappable: Some(1),
        ..read
    };
    assert_eq!(
        mm.mmap(object, &ENV, Err(e)).map(|r| r.0),
        Err(e)
    );
    assert_eq!(mm.usage_address_space, PAGE);
}

#[test]
fn found_addresses_are_free() {
    let mut mm = memory_manager();
    let a = mmap(&mut mm, private_pages(2, AccessType::read())).unwrap();
    assert_eq!(a, Addr(65536));
    let b = mmap(&mut mm, private_pages(2, AccessType::read())).unwrap();
    assert_eq!(b, Addr(65536 + 2 * PAGE));
    let opts = FindAvailableOpts {
        addr: a,
        fixed: true,
        ..FindAvailableOpts::default()
    };
    assert_eq!(
        mm.find_available(PAGE, opts),
        Err(SysError::new(ENOMEM))
    );
    let opts = FindAvailableOpts {
        unmap: true,
        ..opts
    };
    assert_eq!(mm.find_available(PAGE, opts), Ok(a));
    let opts = FindAvailableOpts {
        map32bit: true,
        ..FindAvailableOpts::default()
    };
    let low = mm.find_available(PAGE, opts).unwrap();
    assert!(0x40000000 <= low.0 && low.0 + PAGE <= 0x80000000);
}

#[test]
fn unmapping_undoes_mapping() {
    let mut mm = memory_manager();
    mmap(&mut mm, private_pages(2, AccessType::read())).unwrap();
    let before = mm.vmas.inner_keys().clone();
    let addr = mmap(&mut mm, private_pages(3, AccessType::read_write())).unwrap();
    assert_eq!(mm.munmap(addr, 3 * PAGE), Ok(()));
    assert_eq!(mm.vmas.inner_keys(), &before);
    assert_eq!(mm.usage_address_space, 2 * PAGE);
    assert_eq!(mm.data_address_space, 0);
    assert_eq!(mm.munmap(addr, 0), Err(SysError::new(EINVAL)));
    assert_eq!(
        mm.munmap(Addr(addr.0 + 1), PAGE),
        Err(SysError::new(EINVAL))
    );
}

#[test]
fn protection_stops_where_nothing_is_mapped() {
    let mut mm = memory_manager();
    let addr = mmap(&mut mm, private_pages(2, AccessType::read())).unwrap();
    assert_eq!(
        mm.mprotect(addr, 3 * PAGE, AccessType::read_write(), false),
        Err(SysError::new(ENOMEM))
    );
    assert_eq!(mm.data_address_space, 2 * PAGE);
    assert_eq!(
        mm.mprotect(Addr(addr.0 + 1), PAGE, AccessType::read(), false),
        Err(SysError::new(EINVAL))
    );
    assert_eq!(mm.mprotect(addr, 0, AccessType::read(), false), Ok(()));
    let read_only = MmapOpts {
        max_perms: AccessType::read(),
        ..private_pages(1, AccessType::read())
    };
    let addr = mmap(&mut mm, read_only).unwrap();
    assert_eq!(
        mm.mprotect(addr, PAGE, AccessType::write(), false),
        Err(SysError::new(EACCES))
    );
}

#[test]
fn brk_grows_and_shrinks() {
    let mut mm = memory_manager();
    mm.brk_setup(Addr(0x100000));
    assert_eq!(mm.brk(Addr(0), &ENV).0, Addr(0x100000));
    assert_eq!(mm.brk(Addr(0x100000 + PAGE + 1), &ENV).0, Addr(0x100000 + PAGE + 1));
    assert_eq!(mm.usage_address_space, 2 * PAGE);
    assert_eq!(mm.brk(Addr(0x100000 + 1), &ENV).0, Addr(0x100000 + 1));
    assert_eq!(mm.usage_address_space, PAGE);
}

#[test]
fn stacks_grow_down() {
    let mut mm = memory_manager();
    let layout = MmapLayout {
        max_stack_rand: 64 * PAGE,
        ..mm.layout
    };
    mm.set_mmap_layout(layout);
    let env = Env {
        limit_stack: 16 * PAGE,
        ..ENV
    };
    let stack = mm.map_stack(&env).unwrap();
    assert_eq!(stack.len(), 16 * PAGE);
    assert_eq!(mm.usage_address_space, 16 * PAGE);
    assert!(mm.vmas.inner_values()[0].grows_down);
}

#[test]
fn unmapping_an_active_address_space_has_effects() {
    let mut m = Machine::new();
    m.mm.set_address_space(true);
    let addr = mmap(&mut m.mm, private_pages(1, AccessType::read_write())).unwrap();
    assert_eq!(m.copy_out(addr, &[1], false), Ok(1));
    m.mm.take_effects();
    m.mm.munmap(addr, PAGE).unwrap();
    let ar = Range {
        start: addr.0,
        end: addr.0 + PAGE,
    };
    assert_eq!(m.mm.take_effects(), vec![Effect::Unmap(ar)]);
    assert!(m.mm.take_effects().is_empty());
}

#[test]
fn mapped_objects_are_told_when_they_go() {
    let mut m = Machine::new();
    let object = SpecialMappable::new_anon(&mut m.mf, 2 * PAGE, Ok(())).unwrap();
    assert_eq!(object.len(), 2 * PAGE);
    m.object = Some(object);
    let opts = MmapOpts {
        mappable: Some(9),
        offset: 0,
        private: false,
        ..private_pages(2, AccessType::read_write())
    };
    let addr = mmap(&mut m.mm, opts).unwrap();
    assert_eq!(m.copy_out(Addr(addr.0 + PAGE), &[5, 6], false), Ok(2));
    let mut b = [0; 2];
    assert_eq!(m.copy_in(Addr(addr.0 + PAGE), &mut b, false), Ok(2));
    assert_eq!(b, [5, 6]);
    m.mm.munmap(addr, 2 * PAGE).unwrap();
    let told = m.mm.take_effects();
    assert!(told.contains(&Effect::RemoveMapping {
        mappable: 9,
        ar: Range {
            start: addr.0,
            end: addr.0 + 2 * PAGE
        },
        off: 0,
        writable: true
    }));
}

#[test]
fn private_mappings_of_an_object_are_copied_on_writing() {
    let mut m = Machine::new();
    let object = SpecialMappable::new_anon(&mut m.mf, PAGE, Ok(())).unwrap();
    m.object = Some(object);
    let shared = MmapOpts {
        mappable: Some(9),
        private: false,
        ..private_pages(1, AccessType::read_write())
    };
    let private = MmapOpts {
        private: true,
        ..shared
    };
    let a = mmap(&mut m.mm, shared).unwrap();
    let b = mmap(&mut m.mm, private).unwrap();
    assert_eq!(m.copy_out(a, &[1, 2], false), Ok(2));
    let mut got = [0; 2];
    assert_eq!(m.copy_in(b, &mut got, false), Ok(2));
    assert_eq!(got, [1, 2]);
    assert_eq!(m.copy_out(b, &[7], false), Ok(1));
    assert_eq!(m.copy_in(b, &mut got, false), Ok(2));
    assert_eq!(got, [7, 2]);
    assert_eq!(m.copy_in(a, &mut got, false), Ok(2));
    assert_eq!(got, [1, 2]);
}

#[test]
fn special_objects_end() {
    let object = SpecialMappable::new(
        "object".to_string(),
        Range {
            start: 16 * PAGE,
            end: 18 * PAGE,
        },
    );
    let r = |start: u64, end: u64| Range { start, end };
    let (ts, res) = object.translate(r(PAGE, 3 * PAGE), r(PAGE, 3 * PAGE));
    assert_eq!(res, Err(SysError::new_bus_error(EFAULT)));
    assert_eq!(ts.len(), 1);
    assert_eq!(ts[0].source(), r(PAGE, 2 * PAGE));
    assert_eq!(ts[0].file_range(), r(17 * PAGE, 18 * PAGE));
    let (ts, res) = object.translate(r(0, PAGE), r(0, PAGE));
    assert_eq!(res, Ok(()));
    assert_eq!(ts[0].offset(), 16 * PAGE);
}

#[test]
fn faults_are_looked_up() {
    let mut m = Machine::new();
    m.mm.set_address_space(true);
    let addr = mmap(&mut m.mm, private_pages(2, AccessType::read())).unwrap();
    let at = Addr(addr.0 + PAGE + 7);
    let (ar, walk) = m.mm.handle_user_fault(at, AccessType::read()).unwrap();
    assert_eq!(ar.start, addr.0 + PAGE);
    assert_eq!(ar.len(), PAGE);
    m.run(walk);
    let ps = m.mm.map_address_space(ar, true, 0);
    assert_eq!(ps.len(), 1);
    assert_eq!(ps[0].addr, Addr(ar.start));
    assert_eq!(ps[0].range.len(), PAGE);
    assert_eq!(ps[0].file, MEMORY_FILE);
    assert_eq!(
        m.mm.handle_user_fault(at, AccessType::write()).err(),
        Some(SysError::new(EPERM))
    );
    assert_eq!(
        m.mm.handle_user_fault(Addr(0), AccessType::read()).err(),
        Some(SysError::new(EFAULT))
    );
}

#[test]
fn io_is_limited() {
    let ar = Range { start: 10, end: 20 };
    let e = SysError::new(EPERM);
    assert_eq!(limit_io(ar, 25, Ok(())), IoLimit::Go(ar));
    assert_eq!(
        limit_io(ar, 15, Err(e)),
        IoLimit::Go(Range { start: 10, end: 15 })
    );
    assert_eq!(limit_io(ar, 10, Ok(())), IoLimit::Stop(Ok(0)));
    assert_eq!(
        limit_io(ar, 3, Err(e)),
        IoLimit::Stop(Err(SysError::new(EFAULT)))
    );
    assert_eq!(
        io_result(Ok(5), Ok(()), Err(e), Ok(())),
        Err(SysError::new(EFAULT))
    );
    assert_eq!(io_result(Err(e), Ok(()), Ok(()), Ok(())), Err(e));
    assert_eq!(vec_io_result(Ok(5), Ok(()), Ok(()), Ok(())), Ok(5));
}

#[test]
fn vectors_are_cut_short() {
    let r = |start: u64, end: u64| Range { start, end };
    let ars = vec![r(0, 10), r(20, 30), r(40, 50)];
    assert_eq!(truncated_addr_range_seq(&ars, 1, 25), vec![r(0, 10), r(20, 25)]);
    let mut mm = memory_manager();
    let addr = mmap(&mut mm, private_pages(1, AccessType::read())).unwrap();
    let inside = r(addr.0, addr.0 + 8);
    let outside = r(0, 8);
    let one = vec![inside];
    match mm.begin_vec_io(&one, AccessType::read(), false) {
        VecIoStart::Single(ar) => assert_eq!(ar, inside),
        _ => panic!("one range is no vector"),
    }
    let two = vec![inside, outside];
    match mm.begin_vec_io(&two, AccessType::read(), false) {
        VecIoStart::Walk { ars, res } => {
            assert_eq!(ars, vec![inside]);
            assert_eq!(res, Err(SysError::new(EFAULT)));
        }
        _ => panic!("memory has to be looked up"),
    }
}

#[test]
fn units_are_whole() {
    let ar = Range {
        start: HUGE_PAGE_SIZE + PAGE,
        end: HUGE_PAGE_SIZE + 2 * PAGE,
    };
    assert_eq!(
        private_aligned(ar),
        Range {
            start: HUGE_PAGE_SIZE,
            end: 2 * HUGE_PAGE_SIZE
        }
    );
}

#[test]
fn numa_policies_are_noted() {
    let mut mm = memory_manager();
    let addr = mmap(&mut mm, private_pages(2, AccessType::read())).unwrap();
    assert_eq!(mm.set_numa_policy(addr, PAGE, NumaPolicy(2), 1), Ok(()));
    assert_eq!(mm.vmas.count_segments(), 2);
    assert_eq!(mm.vmas.inner_values()[0].numa_policy, NumaPolicy(2));
    assert_eq!(
        mm.set_numa_policy(addr, 3 * PAGE, NumaPolicy(2), 1),
        Err(SysError::new(EINVAL))
    );
    assert_eq!(
        mm.set_numa_policy(Addr(addr.0 - PAGE), PAGE, NumaPolicy(2), 1),
        Err(SysError::new(EFAULT))
    );
}

#[test]
fn addresses_are_rounded() {
    assert_eq!(Addr(4097).round_down(), Addr(4096));
    assert_eq!(Addr(4097).round_up(), Some(Addr(8192)));
    assert_eq!(Addr(u64::MAX).round_up(), None);
    assert_eq!(Addr(4097).page_offset(), 1);
    assert_eq!(Addr(u64::MAX).add_length(1), None);
    assert_eq!(
        Addr(1).to_range(2),
        Some(Range { start: 1, end: 3 })
    );
}

#[test]
fn granted_access_is_granted() {
    let write = AccessType::write().effective();
    assert_eq!(write, AccessType::read_write());
    assert_eq!(write.effective(), write);
    assert_eq!(
        AccessType::any_access().as_prot(),
        libc::PROT_READ | libc::PROT_WRITE | libc::PROT_EXEC
    );
    assert_eq!(
        AccessType::from_elf_prog_flags(5),
        AccessType {
            read: true,
            write: false,
            execute: true
        }
    );
    assert!(!AccessType::no_access().any());
}

#[test]
fn memory_that_is_to_be_copied_stays_open_to_writing() {
    let mut m = Machine::new();
    m.object = Some(SpecialMappable::new_anon(&mut m.mf, PAGE, Ok(())).unwrap());
    let opts = MmapOpts {
        mappable: Some(9),
        ..private_pages(1, AccessType::read_write())
    };
    let addr = mmap(&mut m.mm, opts).unwrap();
    let mut b = [0];
    assert_eq!(m.copy_in(addr, &mut b, false), Ok(1));
    assert_eq!(m.mm.mprotect(addr, PAGE, AccessType::read(), false), Ok(()));
    assert_eq!(m.copy_out(addr, &[1], false), Ok(1));
}

#[test]
fn memory_is_had_in_whole_units() {
    let mut m = Machine::new();
    let h = HUGE_PAGE_SIZE;
    let opts = MmapOpts {
        length: 2 * h,
        addr: Addr(h),
        fixed: true,
        private: true,
        perms: AccessType::read(),
        max_perms: AccessType::any_access(),
        ..MmapOpts::default()
    };
    assert_eq!(mmap(&mut m.mm, opts), Ok(Addr(h)));
    let ar = Range {
        start: h + PAGE,
        end: h + 2 * PAGE,
    };
    let w = m.mm.begin_walk(ar, AccessType::read());
    assert_eq!(m.run(w), (2 * h, Ok(())));
    assert_eq!(m.mm.pmas.inner_keys(), &vec![Range { start: h, end: 2 * h }]);
}

#[test]
fn protecting_keeps_what_was_written() {
    let mut m = Machine::new();
    let addr = mmap(&mut m.mm, private_pages(3, AccessType::read_write())).unwrap();
    let src: Vec<u8> = (0..3 * PAGE).map(|i| (i % 241) as u8).collect();
    assert_eq!(m.copy_out(addr, &src, false), Ok(src.len()));
    let mid = Addr(addr.0 + PAGE);
    assert_eq!(m.mm.mprotect(mid, PAGE, AccessType::read(), false), Ok(()));
    assert_eq!(m.mm.pmas.inner_keys().len(), 3);
    let mut got = vec![0; src.len()];
    assert_eq!(m.copy_in(addr, &mut got, false), Ok(src.len()));
    assert_eq!(got, src);
    assert_eq!(m.mm.mprotect(mid, PAGE, AccessType::read_write(), false), Ok(()));
    assert_eq!(m.mm.pmas.inner_keys().len(), 1);
    let mut again = vec![0; src.len()];
    assert_eq!(m.copy_in(addr, &mut again, false), Ok(src.len()));
    assert_eq!(again, src);
}

#[test]
fn unmapping_keeps_what_was_written() {
    let mut m = Machine::new();
    let addr = mmap(&mut m.mm, private_pages(3, AccessType::read_write())).unwrap();
    let src: Vec<u8> = (0..3 * PAGE).map(|i| (i % 239) as u8).collect();
    assert_eq!(m.copy_out(addr, &src, false), Ok(src.len()));
    assert_eq!(m.mm.munmap(Addr(addr.0 + PAGE), PAGE), Ok(()));
    let mut got = vec![0; PAGE as usize];
    assert_eq!(m.copy_in(Addr(addr.0 + 2 * PAGE), &mut got, false), Ok(got.len()));
    assert_eq!(got[..], src[2 * PAGE as usize..]);
    assert_eq!(m.copy_in(addr, &mut got, false), Ok(got.len()));
    assert_eq!(got[..], src[..PAGE as usize]);
}

fn object_pages(private: bool) -> MmapOpts {
    MmapOpts {
        mappable: Some(9),
        private,
        ..private_pages(4, AccessType::read_write())
    }
}

#[test]
fn way_goes_on_at_the_first_part_told() {
    let mut mm = memory_manager();
    let addr = mmap(&mut mm, object_pages(true)).unwrap();
    let ar = Range {
        start: addr.0 + 2 * PAGE,
        end: addr.0 + 3 * PAGE,
    };
    let mut w = mm.begin_walk(ar, AccessType::write());
    match mm.step(&mut w) {
        PmaStep::Translate {
            mappable,
            required,
            optional,
            perms,
        } => {
            assert_eq!(mappable, 9);
            assert_eq!(required, Range { start: 2 * PAGE, end: 3 * PAGE });
            assert_eq!(optional, Range { start: 0, end: 4 * PAGE });
            assert_eq!(perms, AccessType::read());
        }
        other => panic!("{:?}", other),
    }
    let part = |start: u64, end: u64, file: u64| Translation {
        source: Range { start, end },
        file,
        offset: 0,
        perm: AccessType::read(),
    };
    let ts = vec![part(0, PAGE, 5), part(PAGE, 4 * PAGE, 6)];
    assert_eq!(mm.translated(&mut w, &ts, Ok(())), WalkResult::More);
    assert_eq!(w.pos, addr.0);
    match mm.step(&mut w) {
        PmaStep::MapInternal { file, range, .. } => {
            assert_eq!(file, 5);
            assert_eq!(range, Range { start: 0, end: PAGE });
        }
        other => panic!("{:?}", other),
    }
}

#[test]
fn memory_is_asked_for_anew_as_a_whole() {
    let mut mm = memory_manager();
    let addr = mmap(&mut mm, object_pages(false)).unwrap();
    let all = Range {
        start: addr.0,
        end: addr.0 + 4 * PAGE,
    };
    let t = |perm: AccessType| {
        vec![Translation {
            source: Range { start: 0, end: 4 * PAGE },
            file: 5,
            offset: 0,
            perm,
        }]
    };
    let mut w = mm.begin_walk(all, AccessType::read());
    assert!(matches!(mm.step(&mut w), PmaStep::Translate { .. }));
    assert_eq!(mm.translated(&mut w, &t(AccessType::read()), Ok(())), WalkResult::More);
    assert!(matches!(mm.step(&mut w), PmaStep::Next));
    assert!(matches!(mm.step(&mut w), PmaStep::Done));
    let policy = NumaPolicy(1);
    assert_eq!(mm.set_numa_policy(Addr(addr.0 + 2 * PAGE), 2 * PAGE, policy, 0), Ok(()));
    assert_eq!(mm.vmas.inner_keys().len(), 2);
    assert_eq!(mm.pmas.inner_keys(), &vec![all]);
    let ar = Range {
        start: addr.0 + 2 * PAGE,
        end: addr.0 + 3 * PAGE,
    };
    let mut w = mm.begin_walk(ar, AccessType::write());
    match mm.step(&mut w) {
        PmaStep::Retranslate {
            required,
            optional,
            perms,
            ..
        } => {
            assert_eq!(required, Range { start: 2 * PAGE, end: 3 * PAGE });
            assert_eq!(optional, Range { start: 0, end: 4 * PAGE });
            assert_eq!(perms, AccessType::read_write());
        }
        other => panic!("{:?}", other),
    }
    let ts = t(AccessType::read_write());
    assert_eq!(mm.retranslated(&mut w, &ts, Ok(())), WalkResult::More);
    assert_eq!(mm.pmas.inner_keys(), &vec![all]);
    assert!(matches!(mm.step(&mut w), PmaStep::Done));
}

#[test]
fn ranges_are_left_as_far_as_memory_was_had() {
    let r = |start: u64, end: u64| Range { start, end };
    let ars = vec![r(0, 10), r(100, 130), r(200, 220)];
    let bad = Err(SysError::new(ENOMEM));
    assert_eq!(pmas_left(&ars, 1, 4096, Ok(())), None);
    assert_eq!(pmas_left(&ars, 1, 0, bad), Some((vec![r(0, 10)], bad)));
    assert_eq!(
        pmas_left(&ars, 1, 110, bad),
        Some((vec![r(0, 10), r(100, 110)], bad))
    );
    assert_eq!(
        pmas_left(&ars, 1, 135, bad),
        Some((vec![r(0, 10), r(100, 130), r(200, 205)], bad))
    );
    let last = vec![r(0, 10), r(u64::MAX - 5, u64::MAX)];
    assert_eq!(
        pmas_left(&last, 1, u64::MAX - 2, Ok(())),
        Some((
            vec![r(0, 10), r(u64::MAX - 5, u64::MAX - 2)],
            Err(SysError::new(EFAULT))
        ))
    );
    assert_eq!(mappings_left(&last, 1, u64::MAX - 2, Ok(())), None);
    assert_eq!(
        mappings_left(&ars, 1, 110, bad),
        Some((vec![r(0, 10), r(100, 110)], bad))
    );
}

#[test]
fn accesses_end_when_nothing_is_left() {
    let r = |start: u64, end: u64| Range { start, end };
    let bad = Err(SysError::new(ENOMEM));
    assert_eq!(vec_limit(&vec![], Ok(())), Some(Ok(0)));
    assert_eq!(vec_limit(&vec![], bad), Some(Err(SysError::new(EFAULT))));
    assert_eq!(vec_limit(&vec![r(5, 5)], Ok(())), Some(Ok(0)));
    assert_eq!(vec_limit(&vec![r(5, 5), r(7, 8)], bad), None);
}

#[test]
fn break_is_moved_from_within_a_page() {
    let mut mm = memory_manager();
    mm.brk_setup(Addr(0x100000));
    assert_eq!(mm.brk(Addr(0x100000 + 10), &ENV).0, Addr(0x100000 + 10));
    mm.brk_setup(Addr(0x200000));
    assert_eq!(mm.brk, Range { start: 0x200000, end: 0x200000 });
    assert_eq!(
        mm.vmas.inner_keys(),
        &vec![Range { start: 0x100000 + 10, end: 0x100000 + PAGE }]
    );
    assert_eq!(mm.usage_address_space, PAGE - 10);
}

#[test]
fn memory_is_not_duplicated_over_its_start() {
    let mut mm = memory_manager();
    let opts = MmapOpts {
        private: false,
        ..object_pages(false)
    };
    let addr = mmap(&mut mm, opts).unwrap();
    let must = MremapOpts {
        mov: MremapMoveMode::Must,
        new_addr: Addr(addr.0 - PAGE),
    };
    let res = mremap(&mut mm, addr, 0, 3 * PAGE, &must);
    assert_eq!(res, Err(SysError::new(EINVAL)));
}

#[test]
fn memory_is_not_mapped_over_itself() {
    let mut mm = memory_manager();
    let addr = mmap(&mut mm, object_pages(false)).unwrap();
    let must = |new_addr: Addr| MremapOpts {
        mov: MremapMoveMode::Must,
        new_addr,
    };
    assert!(mm.is_overwritten(addr, 0, PAGE, &must(addr), &ENV));
    assert!(!mm.is_overwritten(addr, PAGE, PAGE, &must(addr), &ENV));
    assert!(!mm.is_overwritten(addr, 0, PAGE, &must(Addr(addr.0 - PAGE)), &ENV));
    assert!(!mm.is_overwritten(addr, 0, 0, &must(addr), &ENV));
    let res = mremap(&mut mm, addr, 0, 0, &must(addr));
    assert_eq!(res, Err(SysError::new(EINVAL)));
    let free = Addr(addr.0 - 0x100000);
    assert!(!mm.is_overwritten(free, 0, PAGE, &must(free), &ENV));
    let res = mremap(&mut mm, free, 0, PAGE, &must(free));
    assert_eq!(res, Err(SysError::new(EFAULT)));
    let res = mremap(&mut mm, addr, 0, u64::MAX / 2 + 1, &must(addr));
    assert_eq!(res, Err(SysError::new(ENOMEM)));
}

#[test]
fn objects_tell_what_they_are_asked_for() {
    let mut mm = memory_manager();
    let addr = mmap(&mut mm, object_pages(false)).unwrap();
    let all = Range {
        start: addr.0,
        end: addr.0 + 4 * PAGE,
    };
    let part = |start: u64, end: u64, perm: AccessType| Translation {
        source: Range { start, end },
        file: 5,
        offset: 0,
        perm,
    };
    let read = |start: u64, end: u64| part(start, end, AccessType::read());
    let mut w = mm.begin_walk(all, AccessType::read());
    let optional = match mm.step(&mut w) {
        PmaStep::Translate { optional, .. } => optional,
        other => panic!("{:?}", other),
    };
    assert!(mm.accepts(&w, optional, &vec![]));
    assert!(mm.accepts(&w, optional, &vec![read(0, PAGE), read(2 * PAGE, 4 * PAGE)]));
    assert!(!mm.accepts(&w, optional, &vec![read(0, 5 * PAGE)]));
    assert!(!mm.accepts(&w, optional, &vec![read(0, PAGE - 1)]));
    assert!(!mm.accepts(&w, optional, &vec![read(PAGE, PAGE)]));
    assert!(!mm.accepts(&w, optional, &vec![read(PAGE, 2 * PAGE), read(0, PAGE)]));
    let far = Translation {
        offset: u64::MAX - PAGE + 1,
        ..read(0, PAGE)
    };
    assert!(!mm.accepts(&w, optional, &vec![far]));
    let whole = vec![read(0, 4 * PAGE)];
    assert_eq!(mm.translated(&mut w, &whole, Ok(())), WalkResult::More);
    let mut w = mm.begin_walk(all, AccessType::write());
    let optional = match mm.step(&mut w) {
        PmaStep::Retranslate { optional, .. } => optional,
        other => panic!("{:?}", other),
    };
    assert!(mm.accepts(&w, optional, &vec![read(0, PAGE), read(PAGE, 4 * PAGE)]));
    assert!(!mm.accepts(&w, optional, &vec![read(0, PAGE), read(2 * PAGE, 4 * PAGE)]));
}
