use vstd::prelude::*;

use crate::access::AccessType;
use crate::addr::{Addr, PAGE_SIZE};
use crate::range::{AddrRange, FileRange, Range};

verus! {

/// Where the search for a place of the child stub starts.
pub const STUB_INIT_ADDRESS: u64 = 0x7fff_ffff_0000;

/// The largest possible user address.
pub const MAX_USER_ADDRESS: u64 = 0x7fff_ffff_f000;

/// The lowest address that may be mapped.
pub const SYSTEM_MMAP_MIN_ADDR: u64 = 65536;

pub const SYS_MMAP: u64 = 9;

pub const SYS_MUNMAP: u64 = 11;

pub const MAP_SHARED: i32 = 0x1;

pub const MAP_FIXED: i32 = 0x10;

pub const MAP_POPULATE: i32 = 0x8000;

#[derive(Debug, Clone, Copy, PartialEq, Eq, Structural)]
pub enum Platform {
    Ptrace,
}

impl Platform {
    pub fn supports_address_space_io(&self) -> (b: bool)
        ensures
            !b,
    {
        false
    }

    pub fn map_unit(&self) -> (u: u64)
        ensures
            u == 0,
    {
        0
    }

    pub fn min_user_address(&self) -> (a: Addr)
        ensures
            a.0 == SYSTEM_MMAP_MIN_ADDR,
    {
        Addr(SYSTEM_MMAP_MIN_ADDR)
    }

    /// The first address that may not be used by the user application, which
    /// is where the child stub was placed.
    pub fn max_user_address(&self, stub_start: u64) -> (a: Addr)
        ensures
            a.0 == stub_start,
    {
        Addr(stub_start)
    }

    /// What a new address space has to give up: everything below the stub, and
    /// everything above it that a user may address.
    pub fn new_address_space_unmaps(&self, stub_start: u64, stub_end: u64) -> (v: Vec<AddrRange>)
        requires
            stub_end <= MAX_USER_ADDRESS,
        ensures
            v@ == around_stub(stub_start, stub_end),
    {
        let mut v: Vec<AddrRange> = Vec::new();
        v.push(Range { start: 0, end: stub_start });
        if stub_end != MAX_USER_ADDRESS {
            v.push(Range { start: stub_end, end: MAX_USER_ADDRESS });
        }
        v
    }
}

/// All addresses but those of the stub.
pub open spec fn around_stub(stub_start: u64, stub_end: u64) -> Seq<AddrRange> {
    if stub_end == MAX_USER_ADDRESS {
        seq![Range { start: 0, end: stub_start }]
    } else {
        seq![
            Range { start: 0, end: stub_start },
            Range { start: stub_end, end: MAX_USER_ADDRESS },
        ]
    }
}

/// A new address space gives up each address that a user may have, but for the stub.
pub proof fn stub_alone_is_kept(stub_start: u64, stub_end: u64, k: int)
    requires
        stub_start <= stub_end <= MAX_USER_ADDRESS,
        0 <= k < MAX_USER_ADDRESS,
    ensures
        (exists|i: int|
            0 <= i < around_stub(stub_start, stub_end).len() && (#[trigger] around_stub(
                stub_start,
                stub_end,
            )[i]).start <= k < around_stub(stub_start, stub_end)[i].end) == !(stub_start <= k
            < stub_end),
{
    let v = around_stub(stub_start, stub_end);
    if k < stub_start {
        assert(v[0].start <= k < v[0].end);
    } else if k >= stub_end {
        assert(v[1].start <= k < v[1].end);
    }
}

/// The user registers of a traced task.
#[derive(Debug, Clone, Copy, PartialEq, Eq, Structural, Default)]
pub struct UserRegs {
    pub r15: u64,
    pub r14: u64,
    pub r13: u64,
    pub r12: u64,
    pub rbp: u64,
    pub rbx: u64,
    pub r11: u64,
    pub r10: u64,
    pub r9: u64,
    pub r8: u64,
    pub rax: u64,
    pub rcx: u64,
    pub rdx: u64,
    pub rsi: u64,
    pub rdi: u64,
    pub orig_rax: u64,
    pub rip: u64,
    pub cs: u64,
    pub eflags: u64,
    pub rsp: u64,
    pub ss: u64,
    pub fs_base: u64,
    pub gs_base: u64,
    pub ds: u64,
    pub es: u64,
    pub fs: u64,
    pub gs: u64,
}

/// The `i`-th argument where it is given, and what the register held before
/// otherwise.
pub open spec fn arg_or(args: Seq<u64>, i: int, held: u64) -> u64 {
    if i < args.len() {
        args[i]
    } else {
        held
    }
}

/// The registers with which the traced task enters system call `syscall_no`.
pub open spec fn entering(regs: UserRegs, syscall_no: u64, args: Seq<u64>) -> UserRegs {
    UserRegs {
        rax: syscall_no,
        rdi: arg_or(args, 0, regs.rdi),
        rsi: arg_or(args, 1, regs.rsi),
        rdx: arg_or(args, 2, regs.rdx),
        r10: arg_or(args, 3, regs.r10),
        r8: arg_or(args, 4, regs.r8),
        r9: arg_or(args, 5, regs.r9),
        ..regs
    }
}

/// The registers in which a system call takes its arguments, in order.
pub open spec fn argument_registers(r: UserRegs) -> Seq<u64> {
    seq![r.rdi, r.rsi, r.rdx, r.r10, r.r8, r.r9]
}

/// A task that enters a system call has its number and its arguments where the system
/// looks for them. All other registers are as they were.
pub proof fn call_is_entered(regs: UserRegs, syscall_no: u64, args: Seq<u64>, i: int)
    requires
        0 <= i < 6,
    ensures
        ({
            let r = entering(regs, syscall_no, args);
            &&& r.rax == syscall_no
            &&& argument_registers(r)[i] == (if i < args.len() {
                args[i]
            } else {
                argument_registers(regs)[i]
            })
            &&& r.rip == regs.rip && r.rsp == regs.rsp && r.rbp == regs.rbp && r.rbx == regs.rbx
            &&& r.r11 == regs.r11 && r.rcx == regs.rcx && r.eflags == regs.eflags
            &&& r.r12 == regs.r12 && r.r13 == regs.r13 && r.r14 == regs.r14 && r.r15 == regs.r15
            &&& r.cs == regs.cs && r.ss == regs.ss && r.orig_rax == regs.orig_rax
        }),
{
}

/// The registers with which the traced task enters system call `syscall_no`.
pub fn create_syscall_regs(regs: UserRegs, syscall_no: u64, args: &[u64]) -> (r: UserRegs)
    ensures
        r == entering(regs, syscall_no, args@),
{
    let mut regs = regs;
    regs.rax = syscall_no;
    if args.len() >= 1 {
        regs.rdi = args[0];
    }
    if args.len() >= 2 {
        regs.rsi = args[1];
    }
    if args.len() >= 3 {
        regs.rdx = args[2];
    }
    if args.len() >= 4 {
        regs.r10 = args[3];
    }
    if args.len() >= 5 {
        regs.r8 = args[4];
    }
    if args.len() >= 6 {
        regs.r9 = args[5];
    }
    regs
}

/// The flags with which a file is mapped into a traced task.
pub open spec fn map_file_flags(precommit: bool) -> int {
    MAP_SHARED + MAP_FIXED + if precommit {
        MAP_POPULATE as int
    } else {
        0
    }
}

/// The registers with which `fr` of the file behind `fd` is mapped at `addr`.
pub open spec fn map_call(
    regs: UserRegs,
    addr: Addr,
    fd: i32,
    fr: FileRange,
    at: AccessType,
    precommit: bool,
) -> UserRegs {
    UserRegs {
        rax: SYS_MMAP,
        rdi: addr.0,
        rsi: (fr.end - fr.start) as u64,
        rdx: ((if at.read { 1int } else { 0 }) + (if at.write { 2int } else { 0 }) + (
        if at.execute { 4int } else { 0 })) as u64,
        r10: map_file_flags(precommit) as u64,
        r8: fd as u64,
        r9: fr.start,
        ..regs
    }
}

/// The registers with which `length` bytes at `addr` are unmapped.
pub open spec fn unmap_call(regs: UserRegs, addr: Addr, length: u64) -> UserRegs {
    UserRegs { rax: SYS_MUNMAP, rdi: addr.0, rsi: length, ..regs }
}

/// A traced task that maps part of a file makes the call for that, with where it is to be
/// mapped, how long it is, how it may be accessed, and the file from the start of the
/// part on. It shares the file, at just that address, and has it looked up at once if it
/// is to be committed. Its other registers stay.
pub proof fn mapping_call_is_right(
    regs: UserRegs,
    addr: Addr,
    fd: i32,
    fr: FileRange,
    at: AccessType,
    precommit: bool,
)
    requires
        fr.start <= fr.end,
        fd >= 0,
    ensures
        ({
            let r = map_call(regs, addr, fd, fr, at, precommit);
            &&& r.rax == 9
            &&& r.rdi == addr.0
            &&& r.rsi == fr.end - fr.start
            &&& (r.rdx % 2 == 1) == at.read
            &&& (r.rdx / 2 % 2 == 1) == at.write
            &&& (r.rdx / 4 == 1) == at.execute
            &&& r.rdx < 8
            &&& r.r10 == (if precommit {
                0x8011u64
            } else {
                0x11u64
            })
            &&& r.r8 == fd
            &&& r.r9 == fr.start
            &&& r.rip == regs.rip && r.rsp == regs.rsp && r.rbp == regs.rbp && r.rbx == regs.rbx
            &&& r.r12 == regs.r12 && r.r13 == regs.r13 && r.r14 == regs.r14 && r.r15 == regs.r15
            &&& r.cs == regs.cs && r.ss == regs.ss && r.orig_rax == regs.orig_rax
        }),
{
}

/// A traced task that unmaps addresses makes the call for that, with where they start and
/// how many they are.
pub proof fn unmapping_call_is_right(regs: UserRegs, addr: Addr, length: u64)
    ensures
        ({
            let r = unmap_call(regs, addr, length);
            &&& r.rax == 11
            &&& r.rdi == addr.0
            &&& r.rsi == length
            &&& r.rip == regs.rip && r.rsp == regs.rsp && r.rbp == regs.rbp && r.rbx == regs.rbx
            &&& r.r12 == regs.r12 && r.r13 == regs.r13 && r.r14 == regs.r14 && r.r15 == regs.r15
            &&& r.cs == regs.cs && r.ss == regs.ss && r.orig_rax == regs.orig_rax
        }),
{
}

/// The address space of a traced task.
#[derive(Debug, Clone, Copy)]
pub struct PtraceAddressSpace;

impl PtraceAddressSpace {
    /// The registers with which the traced task maps `fr` of the file behind
    /// `fd` at `addr`.
    pub fn map_file_regs(
        &self,
        regs: UserRegs,
        addr: Addr,
        fd: i32,
        fr: FileRange,
        at: AccessType,
        precommit: bool,
    ) -> (r: UserRegs)
        requires
            fr.well_formed(),
            fd >= 0,
        ensures
            r == map_call(regs, addr, fd, fr, at, precommit),
    {
        let flags: i32 = if precommit {
            MAP_SHARED + MAP_FIXED + MAP_POPULATE
        } else {
            MAP_SHARED + MAP_FIXED
        };
        let prot = at.as_prot();
        let mut args: Vec<u64> = Vec::new();
        args.push(addr.0);
        args.push(fr.len());
        args.push(prot as u64);
        args.push(flags as u64);
        args.push(fd as u64);
        args.push(fr.start);
        create_syscall_regs(regs, SYS_MMAP, args.as_slice())
    }

    /// The registers with which the traced task unmaps `length` bytes at
    /// `addr`, or nothing where the range runs past the last address.
    pub fn unmap_regs(&self, regs: UserRegs, addr: Addr, length: u64) -> (r: Option<UserRegs>)
        ensures
            match r {
                Some(r) => addr.0 + length <= u64::MAX && r == unmap_call(regs, addr, length),
                None => addr.0 + length > u64::MAX,
            },
    {
        match addr.to_range(length) {
            Some(_) => {
                let mut args: Vec<u64> = Vec::new();
                args.push(addr.0);
                args.push(length);
                Some(create_syscall_regs(regs, SYS_MUNMAP, args.as_slice()))
            },
            None => None,
        }
    }

    pub fn release(&self) {
    }
}

/// What a traced task that was told to run one system call is to do next.
#[derive(Debug, Clone, Copy, PartialEq, Eq, Structural)]
pub enum StopReaction {
    /// Let the task run on.
    Continue,
    /// The system call is done.
    Done,
    /// The stop was not awaited.
    Unexpected,
}

pub const SIGTRAP: i32 = 5;

pub const SIGSTOP: i32 = 19;

/// How a stop by signal `sig` is taken while a task runs one system call.
pub fn on_stop(sig: i32) -> (r: StopReaction)
    ensures
        r == (if sig == SIGSTOP {
            StopReaction::Continue
        } else if sig == SIGTRAP {
            StopReaction::Done
        } else {
            StopReaction::Unexpected
        }),
{
    if sig == SIGSTOP {
        StopReaction::Continue
    } else if sig == SIGTRAP {
        StopReaction::Done
    } else {
        StopReaction::Unexpected
    }
}

/// How what was heard of a task is taken while it unmaps addresses: `sig` is the
/// signal that it was stopped by, or nothing where it was something else. All but
/// the end of the system call is passed over.
pub fn on_stop_unmapping(sig: Option<i32>) -> (r: StopReaction)
    ensures
        r == (if sig == Some(SIGTRAP) {
            StopReaction::Done
        } else {
            StopReaction::Continue
        }),
{
    match sig {
        Some(sig) => if sig == SIGTRAP {
            StopReaction::Done
        } else {
            StopReaction::Continue
        },
        None => StopReaction::Continue,
    }
}

/// One step in the search for a place of the stub.
#[derive(Debug, Clone, Copy, PartialEq, Eq, Structural)]
pub enum StubStep {
    /// The stub was placed: it takes up this range.
    Placed(Range),
    /// The place was not free. The search goes on at `next`; a mapping that
    /// came about elsewhere is to be given back.
    Retry { next: u64, give_back: bool },
    /// The search came to the bottom of the address space.
    Failed,
}

/// What follows a try to map a page for the stub at `start`.
pub open spec fn next_stub(start: u64, got: Option<u64>) -> StubStep {
    if start == 0 {
        StubStep::Failed
    } else if got == Some(start) {
        StubStep::Placed(Range { start, end: (start + PAGE_SIZE) as u64 })
    } else {
        StubStep::Retry { next: (start - PAGE_SIZE) as u64, give_back: got is Some }
    }
}

/// The stub takes up one page, no higher than `start`.
pub open spec fn placed_below(r: Range, start: u64) -> bool {
    &&& 0 < r.start <= start
    &&& r.start % PAGE_SIZE == 0
    &&& r.end == r.start + PAGE_SIZE
}

/// Takes the outcome of a try to map a page for the stub at `start`: `got` is
/// the address at which the page was mapped, or nothing where mapping failed.
pub fn stub_step(start: u64, got: Option<u64>) -> (s: StubStep)
    requires
        start % PAGE_SIZE == 0,
        start + PAGE_SIZE <= u64::MAX,
    ensures
        s == next_stub(start, got),
        match s {
            StubStep::Placed(r) => placed_below(r, start),
            StubStep::Retry { next, .. } => next < start && next % PAGE_SIZE == 0,
            StubStep::Failed => true,
        },
{
    if start == 0 {
        return StubStep::Failed;
    }
    match got {
        Some(addr) => {
            if addr == start {
                StubStep::Placed(Range { start, end: start + PAGE_SIZE })
            } else {
                StubStep::Retry { next: start - PAGE_SIZE, give_back: true }
            }
        },
        None => StubStep::Retry { next: start - PAGE_SIZE, give_back: false },
    }
}

/// How the search for a place of the stub from `start` on stands once the tries have
/// had the outcomes `gots`.
pub open spec fn stub_search(start: u64, gots: Seq<Option<u64>>) -> StubStep
    decreases gots.len(),
{
    if gots.len() == 0 {
        StubStep::Retry { next: start, give_back: false }
    } else {
        match next_stub(start, gots[0]) {
            StubStep::Retry { next, .. } => stub_search(next, gots.skip(1)),
            s => s,
        }
    }
}

/// Whatever the tries come to, a stub that is placed takes up one whole page, which
/// was mapped there, no higher than where the search starts: its start is the first
/// address that an application may not use. The search comes to an end.
pub proof fn stub_is_placed(gots: Seq<Option<u64>>)
    ensures
        match stub_search(STUB_INIT_ADDRESS, gots) {
            StubStep::Placed(r) => {
                &&& placed_below(r, STUB_INIT_ADDRESS)
                &&& r.end <= MAX_USER_ADDRESS
                &&& gots.contains(Some(r.start))
            },
            StubStep::Retry { .. } => gots.len() <= STUB_INIT_ADDRESS / PAGE_SIZE,
            StubStep::Failed => true,
        },
{
    lemma_stub_search(STUB_INIT_ADDRESS, gots);
}

proof fn lemma_stub_search(start: u64, gots: Seq<Option<u64>>)
    requires
        start % PAGE_SIZE == 0,
        start + PAGE_SIZE <= u64::MAX,
    ensures
        match stub_search(start, gots) {
            StubStep::Placed(r) => placed_below(r, start) && gots.contains(Some(r.start)),
            StubStep::Retry { .. } => gots.len() <= start / PAGE_SIZE,
            StubStep::Failed => true,
        },
    decreases gots.len(),
{
    if gots.len() > 0 {
        match next_stub(start, gots[0]) {
            StubStep::Retry { next, .. } => {
                let rest = gots.skip(1);
                lemma_stub_search(next, rest);
                if let StubStep::Placed(r) = stub_search(next, rest) {
                    let i = choose|i: int| 0 <= i < rest.len() && rest[i] == Some(r.start);
                    assert(gots[i + 1] == Some(r.start));
                }
            },
            StubStep::Placed(r) => {
                assert(gots[0] == Some(r.start));
            },
            StubStep::Failed => {},
        }
    }
}

} // verus!
