use sentinel::access::AccessType;
use sentinel::addr::{Addr, PAGE_SIZE};
use sentinel::bytes::{from_be16, from_le, to_be16, to_le};
use sentinel::errno::{
    SysError, EBADF, EFAULT, EINVAL, ENOTTY, EOF, ESPIPE, EWOULDBLOCK,
};
use sentinel::kernel::epoll::{PollEntry, POLL_READABLE_EVENTS};
use sentinel::kernel::iovec::{
    check_iovecs, shorten_iovecs, single_io_sequence, take_iovec, MAX_RW_COUNT, UIO_MAXIOV,
};
use sentinel::kernel::pipe::{
    ATOMIC_IO_BYTES, DEFAULT_PIPE_SIZE, FIONREAD, MAX_PIPE_SIZE, MIN_PIPE_SIZE,
};
use sentinel::kernel::signal::{
    copy_in_sig_set, copy_out_sig_set, SigAction, SignalStack, SIGKILL, SIGNAL_MAXIMUM,
    SIGNAL_STACK_FLAG_DISABLE, SIGNAL_STACK_FLAG_ON_STACK, SIGSTOP,
};
use sentinel::kernel::{
    EventPoll, ExitStatus, FdFlags, KernelVersion, Pipe, Task, TaskImage, UtsNameSpace,
};
use sentinel::mm::{MemoryManager, MmapDirection, MmapLayout};
use sentinel::notify::NotifySender;
use sentinel::platform::{
    create_syscall_regs, on_stop, on_stop_unmapping, stub_step, Platform, PtraceAddressSpace, StopReaction, StubStep,
    UserRegs, MAP_FIXED, MAP_POPULATE, MAP_SHARED, MAX_USER_ADDRESS, STUB_INIT_ADDRESS, SYS_MMAP,
    SYS_MUNMAP,
};
use sentinel::range::Range;

const MAX_FD: u64 = 2048;

fn task() -> Task {
    Task::new(UserRegs::default())
}

#[test]
fn pipes_give_back_what_was_written() {
    let mut p = Pipe::new(DEFAULT_PIPE_SIZE);
    p.connect();
    let a: Vec<u8> = (0..200).collect();
    let b: Vec<u8> = (50..60).collect();
    assert_eq!(p.write(&a), Ok(200));
    assert_eq!(p.write(&b), Ok(10));
    assert_eq!(p.len(), 210);
    assert_eq!(p.read(150), Ok(a[..150].to_vec()));
    let mut rest = a[150..].to_vec();
    rest.extend_from_slice(&b);
    assert_eq!(p.peek(1000), Ok(rest.clone()));
    assert_eq!(p.read(1000), Ok(rest));
    assert_eq!(p.len(), 0);
}

#[test]
fn pipes_go_round() {
    let mut p = Pipe::new(MIN_PIPE_SIZE);
    p.connect();
    let mut next: u8 = 0;
    let mut want: u8 = 0;
    for i in 0..500usize {
        let n = 1 + i % 97;
        let data: Vec<u8> = (0..n)
            .map(|_| {
                next = next.wrapping_add(1);
                next
            })
            .collect();
        assert_eq!(p.write(&data), Ok(n));
        for x in p.read(n).unwrap() {
            want = want.wrapping_add(1);
            assert_eq!(x, want);
        }
    }
}

#[test]
fn pipes_fill_up() {
    let mut p = Pipe::new(0);
    assert_eq!(p.write(&vec![1]), Err(SysError::new(ESPIPE)));
    p.connect();
    let full = vec![7; MIN_PIPE_SIZE];
    assert_eq!(p.write(&full[..4000].to_vec()), Ok(4000));
    assert_eq!(
        p.write(&full[..ATOMIC_IO_BYTES].to_vec()),
        Err(SysError::new(EWOULDBLOCK))
    );
    assert_eq!(p.len(), 4000);
    assert_eq!(
        p.write(&vec![7; ATOMIC_IO_BYTES + 1]),
        Err(SysError::new(EWOULDBLOCK))
    );
    assert_eq!(p.len(), MIN_PIPE_SIZE);
    assert_eq!(p.write(&vec![1]), Err(SysError::new(EWOULDBLOCK)));
}

#[test]
fn empty_pipes_have_nothing_to_read() {
    let mut p = Pipe::new(MAX_PIPE_SIZE + 1);
    assert_eq!(p.read(0), Ok(vec![]));
    assert_eq!(p.read(1), Err(SysError::new(EOF)));
    p.open(false, true);
    assert_eq!(p.read(1), Err(SysError::new(EWOULDBLOCK)));
    assert_eq!(p.write(&vec![1, 2]), Ok(2));
    assert_eq!(p.ioctl(FIONREAD), Ok([2, 0, 0, 0]));
    assert_eq!(p.ioctl(1), Err(SysError::new(ENOTTY)));
    p.consume(1);
    assert_eq!(p.read(5), Ok(vec![2]));
}

#[test]
fn polled_files_wait_again() {
    let mut p = EventPoll::new_event_poll();
    assert!(!p.events_available(&vec![]));
    let entry = |file: u64| PollEntry { file, mask: 1 };
    p.ready_queue = vec![entry(1), entry(2), entry(3)];
    assert!(p.events_available(&vec![0, 1, 0]));
    assert_eq!(p.waiting_queue.len(), 1);
    assert_eq!(p.waiting_queue[0].file, 1);
    assert_eq!(p.ready_queue.len(), 2);
    assert_eq!(
        p.readiness(POLL_READABLE_EVENTS, &vec![1, 0]),
        POLL_READABLE_EVENTS
    );
    assert_eq!(p.readiness(4, &vec![1, 0]), 0);
}

fn layout() -> MmapLayout {
    MmapLayout {
        min_addr: Addr(65536),
        max_addr: Addr(0x7fff_0000_0000),
        bottom_up_base: Addr(65536),
        top_down_base: Addr(0x7fff_0000_0000),
        default_direction: MmapDirection::MmapBottomUp,
        max_stack_rand: 0,
    }
}

#[test]
fn vectors_of_ranges_are_checked() {
    assert_eq!(check_iovecs(Addr(0), -1), Err(SysError::new(EINVAL)));
    assert_eq!(
        check_iovecs(Addr(0), UIO_MAXIOV + 1),
        Err(SysError::new(EINVAL))
    );
    assert_eq!(
        check_iovecs(Addr(u64::MAX), 1),
        Err(SysError::new(EFAULT))
    );
    assert_eq!(check_iovecs(Addr(4096), 3), Ok(3));
    let mut mm = MemoryManager::new();
    mm.set_mmap_layout(layout());
    let mut entry = [0; 16];
    entry[1] = 0x10;
    entry[8] = 5;
    assert_eq!(
        take_iovec(&mm, &entry),
        Ok(Range {
            start: 0x1000,
            end: 0x1005
        })
    );
    entry[15] = 0x80;
    assert_eq!(take_iovec(&mm, &entry), Err(SysError::new(EINVAL)));
    entry[15] = 0x7f;
    assert_eq!(take_iovec(&mm, &entry), Err(SysError::new(EINVAL)));
    assert_eq!(
        single_io_sequence(&mm, Addr(16), 4),
        Ok(Range { start: 16, end: 20 })
    );
    assert_eq!(
        single_io_sequence(&mm, Addr(0), i32::MAX),
        Ok(Range {
            start: 0,
            end: MAX_RW_COUNT
        })
    );
    assert_eq!(
        single_io_sequence(&mm, Addr(u64::MAX), 4),
        Err(SysError::new(EFAULT))
    );
}

#[test]
fn vectors_of_ranges_are_shortened() {
    let r = |start: u64, end: u64| Range { start, end };
    let short = vec![r(0, 10), r(20, 25)];
    assert_eq!(shorten_iovecs(&short), short);
    let long = vec![r(0, MAX_RW_COUNT - 3), r(0, 10), r(5, 9)];
    let cut = shorten_iovecs(&long);
    let total: u64 = cut.iter().map(|r| r.len()).sum();
    assert_eq!(total, MAX_RW_COUNT);
    assert_eq!(cut[1], r(0, 3));
}

#[test]
fn signal_sets_are_copied() {
    let e = SysError::new(EFAULT);
    let bytes = [0xff, 0, 0, 0, 0, 0, 0, 1];
    assert_eq!(
        copy_in_sig_set(4, Ok(bytes), 0),
        Err(SysError::new(EINVAL))
    );
    assert_eq!(copy_in_sig_set(8, Err(e), 0), Err(e));
    assert_eq!(
        copy_in_sig_set(8, Ok(bytes), 0x0f),
        Ok(0x0100_0000_0000_00f0)
    );
    assert_eq!(copy_out_sig_set(0x0100_0000_0000_00ff), bytes.to_vec());
}

#[test]
fn signal_stacks_are_told_apart() {
    let s = SignalStack {
        addr: 0x1234_5678_9abc,
        flags: 3,
        size: 0x2000,
    };
    let bytes = s.to_bytes();
    assert_eq!(bytes.len(), 24);
    assert_eq!(SignalStack::from_bytes(&bytes), s);
    let mut t = task();
    assert!(!t.set_signal_stack(s, true));
    let enabled = SignalStack { flags: 0, ..s };
    assert!(t.set_signal_stack(enabled, false));
    assert_eq!(t.signal_stack(false), enabled);
    assert_eq!(t.signal_stack(true).flags, SIGNAL_STACK_FLAG_ON_STACK);
    let disabled = SignalStack {
        flags: SIGNAL_STACK_FLAG_DISABLE,
        ..s
    };
    assert!(t.set_signal_stack(disabled, false));
    assert_eq!(t.signal_stack(false).size, 0);
    assert_eq!(t.signal_stack(false).flags, SIGNAL_STACK_FLAG_DISABLE);
}

#[test]
fn signal_actions_are_kept() {
    let mut t = task();
    let a = SigAction {
        handler: 0x1000,
        flags: 0,
        restorer: 0,
        mask: 0xff,
    };
    assert_eq!(t.set_sigaction(2, Some(a), 0x0f), Ok(SigAction::default()));
    assert_eq!(t.set_sigaction(2, None, 0), Ok(SigAction { mask: 0xf0, ..a }));
    for sig in [0, -1, SIGNAL_MAXIMUM + 1] {
        assert_eq!(t.set_sigaction(sig, None, 0), Err(SysError::new(EINVAL)));
    }
    for sig in [SIGKILL, SIGSTOP] {
        assert_eq!(t.set_sigaction(sig, Some(a), 0), Err(SysError::new(EINVAL)));
        assert!(t.set_sigaction(sig, None, 0).is_ok());
    }
    assert_eq!(SIGKILL, libc::SIGKILL);
    assert_eq!(SIGSTOP, libc::SIGSTOP);
}

#[test]
fn timers_have_numbers_of_their_own() {
    let mut t = task();
    let a = t.create_timer();
    let b = t.create_timer();
    assert_ne!(a, b);
    assert!(t.delete_timer(a));
    assert!(!t.delete_timer(a));
    let c = t.create_timer();
    assert!(c != a && c != b);
}

#[test]
fn tasks_hold_files() {
    let mut t = task();
    assert_eq!(t.get_file(0), None);
    assert_eq!(t.new_fd_from(5, 42, FdFlags::default(), MAX_FD), Ok(5));
    assert_eq!(t.get_file(5), Some(42));
    assert_eq!(
        t.get_file_and_fd_flags(5),
        Some((42, FdFlags::default()))
    );
    assert_eq!(
        t.fd_table.set_flags(6, FdFlags::default()),
        Err(SysError::new(EBADF))
    );
}

#[test]
fn tasks_step_over_cpuid() {
    let mut t = task();
    let regs = UserRegs {
        rip: 100,
        ..UserRegs::default()
    };
    t.set_regs(regs);
    let answer = UserRegs { rax: 9, ..regs };
    assert!(!t.handle_possible_cpuid_instruction(Ok([0x0f, 0x05]), answer));
    assert!(!t.handle_possible_cpuid_instruction(Err(SysError::new(EFAULT)), answer));
    assert_eq!(t.regs(), regs);
    assert!(t.handle_possible_cpuid_instruction(Ok([0x0f, 0xa2]), answer));
    assert_eq!(t.regs(), UserRegs { rip: 102, ..answer });
}

#[test]
fn tasks_keep_their_first_registers() {
    let mut t = task();
    let regs = UserRegs {
        rip: 100,
        cs: 3,
        ss: 4,
        fs: 5,
        ..UserRegs::default()
    };
    t.grab_init_regs(regs);
    assert_eq!(t.init_regs().rip, 98);
    let mut other = UserRegs {
        rax: 7,
        ..UserRegs::default()
    };
    t.reset_sysemu_regs(&mut other);
    assert_eq!(
        other,
        UserRegs {
            rax: 7,
            cs: 3,
            ss: 4,
            fs: 5,
            ..UserRegs::default()
        }
    );
}

#[test]
fn tasks_end() {
    let mut t = task();
    assert!(!t.exiting);
    t.prepare_group_exit(ExitStatus { code: 3, sig_no: 0 });
    assert!(t.exiting);
    assert_eq!(t.exit_status.map(|s| s.code), Some(3));
    t.set_exit_status(ExitStatus { code: 4, sig_no: 9 });
    assert_eq!(t.exit_status.map(|s| (s.code, s.sig_no)), Some((4, 9)));
    t.set_parent_death_signal(15);
    assert_eq!(t.parent_death_signal(), 15);
    t.set_signal_mask(6);
    assert_eq!(t.signal_mask(), 6);
    t.set_clear_tid(Addr(8));
    t.set_robust_list(Addr(16));
    assert_eq!((t.clear_tid, t.robust_list), (Addr(8), Addr(16)));
}

#[test]
fn images_have_memory_once_loaded() {
    let mut i = TaskImage::new();
    i.load(MemoryManager::new());
    i.set_address_space();
    let mut t = task();
    t.image = i;
    assert!(t.memory_manager().outbox.active);
}

#[test]
fn names_are_kept() {
    let ns = UtsNameSpace::new("host".to_string(), "domain".to_string());
    assert_eq!(ns.host_name(), "host");
    assert_eq!(ns.domain_name(), "domain");
    let v = KernelVersion::init();
    assert_eq!(v.sysname, "Linux");
    let s = NotifySender::new("/run/notify.sock".to_string());
    assert_eq!(s.path(), "/run/notify.sock");
}

#[test]
fn numbers_are_bytes() {
    assert_eq!(to_le(0x0102_0304, 4), vec![4, 3, 2, 1]);
    assert_eq!(from_le(&[9, 4, 3, 2, 1], 1, 4), 0x0102_0304);
    assert_eq!(to_be16(0x0102), [1, 2]);
    assert_eq!(from_be16(1, 2), 0x0102);
    for x in [0u64, 1, 255, 256, 0xffff_ffff, u64::MAX] {
        assert_eq!(from_le(&to_le(x, 8), 0, 8), x);
    }
}

#[test]
fn platforms_have_bounds() {
    let p = Platform::Ptrace;
    assert!(!p.supports_address_space_io());
    assert_eq!(p.map_unit(), 0);
    assert_eq!(
        p.new_address_space_unmaps(4096, 8192),
        vec![
            Range {
                start: 0,
                end: 4096
            },
            Range {
                start: 8192,
                end: MAX_USER_ADDRESS
            }
        ]
    );
    assert_eq!(p.new_address_space_unmaps(4096, MAX_USER_ADDRESS).len(), 1);
}

#[test]
fn system_calls_are_made_by_registers() {
    let regs = UserRegs {
        r9: 77,
        rip: 5,
        ..UserRegs::default()
    };
    let r = create_syscall_regs(regs, SYS_MUNMAP, &[1, 2, 3]);
    assert_eq!(
        r,
        UserRegs {
            rax: SYS_MUNMAP,
            rdi: 1,
            rsi: 2,
            rdx: 3,
            ..regs
        }
    );
    assert_eq!(SYS_MMAP, libc::SYS_mmap as u64);
    assert_eq!(SYS_MUNMAP, libc::SYS_munmap as u64);
    assert_eq!(
        (MAP_SHARED, MAP_FIXED, MAP_POPULATE),
        (libc::MAP_SHARED, libc::MAP_FIXED, libc::MAP_POPULATE)
    );
    let s = PtraceAddressSpace;
    let fr = Range {
        start: 2 * PAGE_SIZE,
        end: 5 * PAGE_SIZE,
    };
    let r = s.map_file_regs(regs, Addr(PAGE_SIZE), 8, fr, AccessType::read(), true);
    assert_eq!(
        (r.rax, r.rdi, r.rsi, r.rdx, r.r10, r.r8, r.r9),
        (
            SYS_MMAP,
            PAGE_SIZE,
            3 * PAGE_SIZE,
            libc::PROT_READ as u64,
            (MAP_SHARED | MAP_FIXED | MAP_POPULATE) as u64,
            8,
            2 * PAGE_SIZE
        )
    );
    let r = s.unmap_regs(regs, Addr(PAGE_SIZE), PAGE_SIZE).unwrap();
    assert_eq!((r.rax, r.rdi, r.rsi), (SYS_MUNMAP, PAGE_SIZE, PAGE_SIZE));
}

#[test]
fn stops_are_told_apart() {
    assert_eq!(on_stop(libc::SIGTRAP), StopReaction::Done);
    assert_eq!(on_stop(libc::SIGSTOP), StopReaction::Continue);
    assert_eq!(on_stop(libc::SIGUSR1), StopReaction::Unexpected);
    assert_eq!(on_stop_unmapping(Some(libc::SIGTRAP)), StopReaction::Done);
    assert_eq!(on_stop_unmapping(Some(libc::SIGSTOP)), StopReaction::Continue);
    assert_eq!(on_stop_unmapping(Some(libc::SIGUSR1)), StopReaction::Continue);
    assert_eq!(on_stop_unmapping(None), StopReaction::Continue);
}

#[test]
fn stubs_find_a_place() {
    assert_eq!(
        stub_step(STUB_INIT_ADDRESS, Some(STUB_INIT_ADDRESS)),
        StubStep::Placed(Range {
            start: STUB_INIT_ADDRESS,
            end: STUB_INIT_ADDRESS + PAGE_SIZE
        })
    );
    assert_eq!(
        stub_step(STUB_INIT_ADDRESS, Some(4096)),
        StubStep::Retry {
            next: STUB_INIT_ADDRESS - PAGE_SIZE,
            give_back: true
        }
    );
    assert_eq!(
        stub_step(STUB_INIT_ADDRESS, None),
        StubStep::Retry {
            next: STUB_INIT_ADDRESS - PAGE_SIZE,
            give_back: false
        }
    );
    assert_eq!(stub_step(0, None), StubStep::Failed);
}

#[test]
fn searches_for_a_stub_end_low() {
    let mut start = STUB_INIT_ADDRESS;
    let mut tries = vec![None, Some(4096), Some(STUB_INIT_ADDRESS)].into_iter();
    let placed = loop {
        let got = tries.next().unwrap_or(Some(start));
        match stub_step(start, got) {
            StubStep::Placed(r) => break r,
            StubStep::Retry { next, .. } => start = next,
            StubStep::Failed => panic!("no place"),
        }
    };
    assert_eq!(placed.start, STUB_INIT_ADDRESS - 3 * PAGE_SIZE);
    assert_eq!(placed.end, placed.start + PAGE_SIZE);
    assert_eq!(
        Platform::Ptrace.max_user_address(placed.start),
        Addr(placed.start)
    );
    let mut start = 2 * PAGE_SIZE;
    let mut n = 0;
    while let StubStep::Retry { next, .. } = stub_step(start, None) {
        start = next;
        n += 1;
    }
    assert_eq!((start, n), (0, 2));
}
