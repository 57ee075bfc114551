use vstd::prelude::*;

use crate::access::AccessType;
use crate::errno::SysResult;

verus! {

pub const SIGSEGV: i32 = 11;

pub const SIGTRAP: i32 = 5;

pub const SIGSTOP: i32 = 19;

/// What was heard of a task that runs under the eyes of the sandbox.
#[derive(Debug, Clone, Copy, PartialEq, Eq, Structural)]
pub enum WaitEvent {
    /// It is about to make a system call.
    Syscall,
    /// It was stopped by a signal.
    Stopped(i32),
    Exited,
    /// It was stopped by an event of its tracing.
    TraceEvent(i32),
    /// It was killed by a signal.
    Signaled(i32),
    StillAlive,
    Continued,
}

/// What is to be done then.
#[derive(Debug, Clone, Copy, PartialEq, Eq, Structural)]
pub enum TraceStep {
    /// Make the system call in its place.
    PerformSyscall,
    /// See to a fault.
    HandleFault,
    /// Let it run on.
    Resume,
    /// The task has come to its end.
    End,
    /// Give up.
    Fail,
}

/// What is to be done with a task of which `ev` was heard.
pub open spec fn step_on(ev: WaitEvent) -> TraceStep {
    match ev {
        WaitEvent::Syscall => TraceStep::PerformSyscall,
        WaitEvent::Stopped(sig) => if sig == SIGSEGV {
            TraceStep::HandleFault
        } else if sig == SIGTRAP {
            TraceStep::Resume
        } else {
            TraceStep::Fail
        },
        WaitEvent::Exited => TraceStep::End,
        _ => TraceStep::Fail,
    }
}

/// What is to be done with a task of which `ev` was heard.
pub fn on_event(ev: WaitEvent) -> (s: TraceStep)
    ensures
        s == step_on(ev),
{
    match ev {
        WaitEvent::Syscall => TraceStep::PerformSyscall,
        WaitEvent::Stopped(sig) => if sig == SIGSEGV {
            TraceStep::HandleFault
        } else if sig == SIGTRAP {
            TraceStep::Resume
        } else {
            TraceStep::Fail
        },
        WaitEvent::Exited => TraceStep::End,
        _ => TraceStep::Fail,
    }
}

/// Whether a task that was just started came to the stop that it should.
pub fn stopped_at_start(ev: WaitEvent) -> (b: bool)
    ensures
        b == (ev == WaitEvent::Stopped(SIGSTOP)),
{
    match ev {
        WaitEvent::Stopped(sig) => sig == SIGSTOP,
        _ => false,
    }
}

/// The last fault of a task.
#[derive(Debug, Clone, Copy, PartialEq, Eq, Structural)]
pub struct FaultHistory {
    pub addr: Option<u64>,
    pub ip: Option<u64>,
}

/// The access that a fault is taken to ask for, where `h` was noted before it, and what is
/// noted then.
pub open spec fn taken_fault(h: FaultHistory, addr: u64, ip: u64) -> (AccessType, FaultHistory) {
    let now = FaultHistory { addr: Some(addr), ip: Some(ip) };
    (AccessType { read: true, write: h == now, execute: addr == ip }, now)
}

/// The value that is left of a system call that came to `r`.
pub open spec fn left_value(r: SysResult<u64>) -> int {
    match r {
        Ok(n) => n as int,
        Err(e) => (-(e.code as int)) % 0x1_0000_0000_0000_0000,
    }
}

impl FaultHistory {
    pub fn new() -> (h: Self)
        ensures
            h.addr is None,
            h.ip is None,
    {
        FaultHistory { addr: None, ip: None }
    }

    /// The access that a fault at `addr` is taken to ask for, when the task is at
    /// `ip`. The same fault a second time is taken to ask for writing.
    pub fn access(&mut self, addr: u64, ip: u64) -> (at: AccessType)
        ensures
            (at, *final(self)) == taken_fault(*old(self), addr, ip),
    {
        let same_addr = match self.addr {
            Some(a) => a == addr,
            None => false,
        };
        let same_ip = match self.ip {
            Some(i) => i == ip,
            None => false,
        };
        let at = AccessType { read: true, write: same_addr && same_ip, execute: addr == ip };
        self.addr = Some(addr);
        self.ip = Some(ip);
        at
    }
}

/// The value that a system call leaves in the register for its result: what it
/// returned, or the number of its error with the sign turned, as a number
/// without a sign.
pub fn syscall_value(r: SysResult<u64>) -> (v: u64)
    requires
        r matches Err(e) ==> e.code > i32::MIN,
    ensures
        v == left_value(r),
{
    match r {
        Ok(n) => n,
        Err(e) => if e.code > 0 {
            0xffff_ffff_ffff_ffff - (e.code as u64 - 1)
        } else {
            (-e.code) as u64
        },
    }
}

/// How long a system call took, as its time, its place among the calls, and its
/// number.
#[derive(Debug, Clone, Copy, PartialEq, Eq, Structural)]
pub struct Latency {
    pub elapsed: u64,
    pub no: usize,
    pub sysno: usize,
}

/// How long system calls took. Of two that took the same time the later counts.
#[derive(Debug)]
pub struct Latencies {
    entries: Vec<Latency>,
}

/// The entries are in the order of their times, and no two are the same.
pub open spec fn ascending(s: Seq<Latency>) -> bool {
    forall|i: int, j: int|
        0 <= i < j < s.len() ==> (#[trigger] s[i]).elapsed < (#[trigger] s[j]).elapsed
}

/// The number of entries with a lower time.
pub open spec fn place_of(s: Seq<Latency>, t: u64) -> nat
    decreases s.len(),
{
    if s.len() == 0 || s[0].elapsed >= t {
        0
    } else {
        1 + place_of(s.skip(1), t)
    }
}

/// The last `n` entries, the last one first.
pub open spec fn slowest_of(s: Seq<Latency>, n: usize, v: Seq<Latency>) -> bool {
    &&& v.len() == (if n <= s.len() {
        n as nat
    } else {
        s.len()
    })
    &&& forall|i: int| 0 <= i < v.len() ==> v[i] == s[s.len() - 1 - i]
}

/// The entries with a further one.
pub open spec fn noted(s: Seq<Latency>, l: Latency) -> Seq<Latency> {
    let i = place_of(s, l.elapsed) as int;
    if i < s.len() && s[i].elapsed == l.elapsed {
        s.update(i, l)
    } else {
        s.insert(i, l)
    }
}

proof fn lemma_place(s: Seq<Latency>, t: u64, i: int)
    requires
        0 <= i <= s.len(),
        forall|j: int| 0 <= j < i ==> (#[trigger] s[j]).elapsed < t,
        i < s.len() ==> s[i].elapsed >= t,
    ensures
        place_of(s, t) == i,
    decreases i,
{
    if i > 0 {
        assert(s[0].elapsed < t);
        assert forall|j: int| 0 <= j < i - 1 implies (#[trigger] s.skip(1)[j]).elapsed < t by {
            assert(s[j + 1].elapsed < t);
        }
        lemma_place(s.skip(1), t, i - 1);
    }
}

impl View for Latencies {
    type V = Seq<Latency>;

    closed spec fn view(&self) -> Seq<Latency> {
        self.entries@
    }
}

impl Latencies {
    pub fn new() -> (l: Self)
        ensures
            l@ == Seq::<Latency>::empty(),
    {
        Latencies { entries: Vec::new() }
    }

    /// Notes how long a system call took.
    pub fn insert(&mut self, l: Latency)
        requires
            ascending(old(self)@),
        ensures
            final(self)@ == noted(old(self)@, l),
            ascending(final(self)@),
    {
        let ghost s = self.entries@;
        let mut i: usize = 0;
        while i < self.entries.len() && self.entries[i].elapsed < l.elapsed
            invariant
                i <= self.entries@.len(),
                self.entries@ == s,
                forall|j: int| 0 <= j < i ==> (#[trigger] s[j]).elapsed < l.elapsed,
            decreases s.len() - i,
        {
            i = i + 1;
        }
        proof {
            lemma_place(s, l.elapsed, i as int);
        }
        if i < self.entries.len() && self.entries[i].elapsed == l.elapsed {
            self.entries.set(i, l);
            assert(ascending(self.entries@)) by {
                assert forall|a: int, b: int| 0 <= a < b < self.entries@.len() implies (
                #[trigger] self.entries@[a]).elapsed < (#[trigger] self.entries@[b]).elapsed by {
                    assert(s[a].elapsed < s[b].elapsed);
                }
            }
        } else {
            self.entries.insert(i, l);
            assert(ascending(self.entries@)) by {
                assert forall|a: int, b: int| 0 <= a < b < self.entries@.len() implies (
                #[trigger] self.entries@[a]).elapsed < (#[trigger] self.entries@[b]).elapsed by {
                    let a0 = if a < i { a } else { a - 1 };
                    let b0 = if b < i { b } else { b - 1 };
                    if a != i && b != i {
                        assert(s[a0].elapsed < s[b0].elapsed);
                    } else if b == i {
                        assert(s[a].elapsed < l.elapsed);
                    } else {
                        assert(i < s.len());
                        if b0 > i {
                            assert(s[i as int].elapsed < s[b0].elapsed);
                        }
                    }
                }
            }
        }
    }

    /// The `n` slowest system calls, the slowest one first.
    pub fn slowest(&self, n: usize) -> (v: Vec<Latency>)
        ensures
            slowest_of(self@, n, v@),
    {
        let len = self.entries.len();
        let mut v: Vec<Latency> = Vec::new();
        let mut i: usize = 0;
        while i < n && i < len
            invariant
                i <= n,
                i <= len,
                len == self.entries@.len(),
                v@.len() == i,
                forall|j: int| 0 <= j < i ==> v@[j] == self.entries@[len - 1 - j],
            decreases len - i,
        {
            v.push(self.entries[len - 1 - i]);
            i = i + 1;
        }
        v
    }
}

/// What follows the attempt to see to a fault: the task runs on, or it has come to
/// its end.
pub fn after_fault(res: SysResult<()>) -> (s: TraceStep)
    ensures
        s == (if res is Ok {
            TraceStep::Resume
        } else {
            TraceStep::End
        }),
{
    match res {
        Ok(_) => TraceStep::Resume,
        Err(_) => TraceStep::End,
    }
}

/// What follows a system call.
#[derive(Debug, Clone, Copy, PartialEq, Eq, Structural)]
pub enum AfterSyscall {
    /// The task has come to its end.
    End,
    /// The task runs on with this value in the register for the result.
    Resume(u64),
}

/// The system calls that a task has made.
#[derive(Debug)]
pub struct SyscallLog {
    pub count: usize,
    pub latencies: Latencies,
}

impl SyscallLog {
    pub fn new() -> (l: Self)
        ensures
            l.count == 0,
            l.latencies@ == Seq::<Latency>::empty(),
    {
        SyscallLog { count: 0, latencies: Latencies::new() }
    }

    /// Counts the system call `sysno` that came to `res`, notes how long it took if
    /// it was made, and tells what follows. `exits` tells whether it ends the task.
    pub fn after_syscall(
        &mut self,
        sysno: u64,
        exits: bool,
        elapsed: u64,
        res: SysResult<u64>,
    ) -> (s: AfterSyscall)
        requires
            old(self).count < usize::MAX,
            ascending(old(self).latencies@),
            res matches Err(e) ==> e.code > i32::MIN,
        ensures
            final(self).count == old(self).count + 1,
            ascending(final(self).latencies@),
            final(self).latencies@ == (match res {
                Ok(_) => noted(
                    old(self).latencies@,
                    (Latency { elapsed, no: final(self).count, sysno: sysno as usize }),
                ),
                Err(_) => old(self).latencies@,
            }),
            if exits {
                s == AfterSyscall::End
            } else {
                s matches AfterSyscall::Resume(v) && v == left_value(res)
            },
    {
        self.count = self.count + 1;
        if res.is_ok() {
            self.latencies.insert(Latency { elapsed, no: self.count, sysno: sysno as usize });
        }
        let v = syscall_value(res);
        if exits {
            AfterSyscall::End
        } else {
            AfterSyscall::Resume(v)
        }
    }
}

/// A fault is taken to ask for writing only when the same fault came right before it, at
/// the same address and instruction. Every fault asks for reading, and one at the
/// instruction itself for executing it.
pub proof fn repeated_fault_asks_for_writing(
    h: FaultHistory,
    addr: u64,
    ip: u64,
    addr2: u64,
    ip2: u64,
)
    ensures
        ({
            let (_, h1) = taken_fault(h, addr, ip);
            let (at, _) = taken_fault(h1, addr2, ip2);
            &&& at.read
            &&& at.write == (addr2 == addr && ip2 == ip)
            &&& at.execute == (addr2 == ip2)
        }),
        h.addr is None ==> !taken_fault(h, addr, ip).0.write,
{
}

/// A task is left the value that its system call returned, or for an error the number
/// that is as far below zero as the number of the error is above it.
pub proof fn value_tells_of_the_call(r: SysResult<u64>)
    ensures
        0 <= left_value(r) <= u64::MAX,
        r matches Ok(n) ==> left_value(r) == n,
        r is Err && 0 < r->Err_0.code ==> left_value(r) + r->Err_0.code == u64::MAX + 1,
{
}

/// A task runs on after a stop that tracing brought about. Its system calls are made for
/// it, and its faults are seen to. Nothing but its own exit is its end.
pub proof fn task_is_followed(ev: WaitEvent)
    ensures
        step_on(ev) is PerformSyscall == ev is Syscall,
        step_on(ev) is HandleFault == (ev == WaitEvent::Stopped(11)),
        step_on(ev) is Resume == (ev == WaitEvent::Stopped(5)),
        step_on(ev) is End == ev is Exited,
{
}

/// The slowest system calls are told from the slowest on. Those that are not told were
/// faster than all that are, and all are told if there are no more than were asked for.
pub proof fn slowest_calls_are_told(s: Seq<Latency>, n: usize, v: Seq<Latency>)
    requires
        ascending(s),
        slowest_of(s, n, v),
    ensures
        v.len() <= n,
        forall|i: int, j: int|
            0 <= i < j < v.len() ==> (#[trigger] v[i]).elapsed > (#[trigger] v[j]).elapsed,
        forall|i: int| 0 <= i < v.len() ==> s.contains(#[trigger] v[i]),
        forall|x: Latency, i: int|
            s.contains(x) && !v.contains(x) && 0 <= i < v.len() ==> x.elapsed < (
            #[trigger] v[i]).elapsed && #[trigger] s.contains(x),
        v.len() < n ==> forall|x: Latency| #[trigger] s.contains(x) ==> v.contains(x),
{
    assert forall|x: Latency, i: int|
        s.contains(x) && !v.contains(x) && 0 <= i < v.len() implies x.elapsed < (
    #[trigger] v[i]).elapsed && #[trigger] s.contains(x) by {
        let j = s.index_of(x);
        if j >= s.len() - v.len() {
            assert(v[s.len() - 1 - j] == x);
        }
        assert(s[j].elapsed < s[s.len() - 1 - i].elapsed);
    }
    if v.len() < n {
        assert forall|x: Latency| #[trigger] s.contains(x) implies v.contains(x) by {
            let j = s.index_of(x);
            assert(v[s.len() - 1 - j] == x);
        }
    }
}

} // verus!
