use std::collections::{HashMap, HashSet};

use vstd::prelude::*;

use crate::addr::Addr;
use crate::errno::{sys, SysError, SysResult, EINVAL};
use crate::kernel::fd_table::{first_free, found_at, opened, too_few, Descriptor, FdFlags, FdTable};
use crate::kernel::signal::{
    default_action, SigAction, SignalStack, SIGKILL, SIGNAL_MAXIMUM, SIGNAL_STACK_FLAG_DISABLE,
    SIGNAL_STACK_FLAG_ON_STACK, SIGSTOP,
};
use crate::kernel::task_image::{MemoryManagerState, TaskImage};
use crate::kernel::uts_namespace::UtsNameSpace;
use crate::mm::MemoryManager;
use crate::platform::UserRegs;

verus! {

broadcast use vstd::std_specs::hash::group_hash_axioms;

/// The instruction that asks for the features of the processor.
pub const CPUID_INSTRUCTION: [u8; 2] = [0x0f, 0xa2];

/// How a task came to its end.
#[derive(Debug, Clone, Copy, PartialEq, Eq, Structural)]
pub struct ExitStatus {
    pub code: i32,
    pub sig_no: i32,
}

/// A task.
pub struct Task {
    pub fd_table: FdTable,
    pub image: TaskImage,
    pub exiting: bool,
    pub exit_status: Option<ExitStatus>,
    pub robust_list: Addr,
    pub signal_mask: u64,
    pub signal_stack: SignalStack,
    pub clear_tid: Addr,
    /// The registers, once they are known.
    pub regs: Option<UserRegs>,
    pub init_regs: UserRegs,
    pub uts_namespace: UtsNameSpace,
    pub cpu_mask: Vec<u8>,
    pub parent_death_signal: i32,
    pub next_timerid: i32,
    pub timers: HashSet<i32>,
    pub signal_handlers: HashMap<i32, SigAction>,
}

/// The registers with the segments of `init`.
pub open spec fn with_segments(regs: UserRegs, init: UserRegs) -> UserRegs {
    UserRegs {
        cs: init.cs,
        ss: init.ss,
        ds: init.ds,
        es: init.es,
        fs: init.fs,
        gs: init.gs,
        ..regs
    }
}

/// What happens when signal `sig` comes.
pub open spec fn action_in(handlers: Map<i32, SigAction>, sig: i32) -> SigAction {
    if handlers.contains_key(sig) {
        handlers[sig]
    } else {
        default_action()
    }
}

/// What comes of asking for what happens when signal `sig` comes, and of setting it.
pub open spec fn sets_action(
    a: Map<i32, SigAction>,
    b: Map<i32, SigAction>,
    sig: i32,
    action: Option<SigAction>,
    unblocked: u64,
    r: SysResult<SigAction>,
) -> bool {
    &&& r == (if !(1 <= sig <= SIGNAL_MAXIMUM) || (action is Some && (sig == SIGKILL || sig
        == SIGSTOP)) {
        Err::<SigAction, SysError>(sys(EINVAL))
    } else {
        Ok::<SigAction, SysError>(action_in(a, sig))
    })
    &&& b == (if r is Ok && action is Some {
        let x = action->Some_0;
        a.insert(sig, SigAction { mask: x.mask & !unblocked, ..x })
    } else {
        a
    })
}

/// A signal stack as an application is told of it, which is on it or not.
pub open spec fn told_stack(s: SignalStack, on_stack: bool) -> SignalStack {
    if on_stack {
        SignalStack { flags: s.flags | SIGNAL_STACK_FLAG_ON_STACK, ..s }
    } else {
        s
    }
}

/// What is kept of a signal stack that an application sets.
pub open spec fn kept_stack(alt: SignalStack) -> SignalStack {
    if alt.flags & SIGNAL_STACK_FLAG_DISABLE != 0 {
        SignalStack { addr: 0, flags: SIGNAL_STACK_FLAG_DISABLE, size: 0 }
    } else {
        SignalStack { flags: 0, ..alt }
    }
}

/// The registers past the instruction that asks for the processor.
pub open spec fn past_cpuid(answer: UserRegs) -> UserRegs {
    UserRegs { rip: (answer.rip + 2) as u64, ..answer }
}

/// The registers at the instruction that was just made.
pub open spec fn at_start(regs: UserRegs) -> UserRegs {
    UserRegs { rip: (regs.rip - 2) as u64, ..regs }
}

impl Task {
    /// What happens when signal `sig` comes.
    pub open spec fn action(&self, sig: i32) -> SigAction {
        action_in(self.signal_handlers@, sig)
    }

    /// A task that may run on one processor and runs no program yet.
    pub fn new(init_regs: UserRegs) -> (t: Task)
        ensures
            t.fd_table.table() == Map::<i32, Descriptor>::empty(),
            t.fd_table.packed(),
            t.fd_table.next == 0,
            t.fd_table.used == 0,
            t.image.memory_manager is Empty,
            !t.exiting,
            t.exit_status is None,
            t.robust_list == Addr(0),
            t.signal_mask == 0,
            t.signal_stack == (SignalStack { addr: 0, flags: 0, size: 0 }),
            t.clear_tid == Addr(0),
            t.regs is None,
            t.init_regs == init_regs,
            t.uts_namespace.host() == "sentinel"@,
            t.uts_namespace.domain() == "sentinel"@,
            t.cpu_mask@ == seq![1u8, 0, 0, 0, 0, 0, 0, 0],
            t.parent_death_signal == 0,
            t.next_timerid == 0,
            t.timers@ == Set::<i32>::empty(),
            t.signal_handlers@ == Map::<i32, SigAction>::empty(),
    {
        let mut cpu_mask: Vec<u8> = Vec::new();
        cpu_mask.push(1);
        cpu_mask.push(0);
        cpu_mask.push(0);
        cpu_mask.push(0);
        cpu_mask.push(0);
        cpu_mask.push(0);
        cpu_mask.push(0);
        cpu_mask.push(0);
        assert(cpu_mask@ =~= seq![1u8, 0, 0, 0, 0, 0, 0, 0]);
        Task {
            fd_table: FdTable::init(),
            image: TaskImage::new(),
            exiting: false,
            exit_status: None,
            robust_list: Addr(0),
            signal_mask: 0,
            signal_stack: SignalStack::default(),
            clear_tid: Addr(0),
            regs: None,
            init_regs,
            uts_namespace: UtsNameSpace::new("sentinel".to_string(), "sentinel".to_string()),
            cpu_mask,
            parent_death_signal: 0,
            next_timerid: 0,
            timers: HashSet::new(),
            signal_handlers: HashMap::new(),
        }
    }

    pub fn get_file(&self, fd: i32) -> (f: Option<u64>)
        ensures
            f == (match found_at(self.fd_table.table(), fd) {
                Some((file, _)) => Some(file),
                None => None,
            }),
    {
        match self.fd_table.get(fd) {
            Some((f, _)) => Some(f),
            None => None,
        }
    }

    pub fn get_file_and_fd_flags(&self, fd: i32) -> (d: Option<(u64, FdFlags)>)
        ensures
            d == found_at(self.fd_table.table(), fd),
    {
        self.fd_table.get(fd)
    }

    pub fn set_exit_status(&mut self, exit_status: ExitStatus)
        ensures
            *final(self) == (Task { exit_status: Some(exit_status), ..*old(self) }),
    {
        self.exit_status = Some(exit_status);
    }

    /// Notes that all of the application is to end.
    pub fn prepare_group_exit(&mut self, exit_status: ExitStatus)
        ensures
            *final(self) == (Task {
                exiting: true,
                exit_status: Some(exit_status),
                ..*old(self)
            }),
    {
        self.exiting = true;
        self.exit_status = Some(exit_status);
    }

    pub fn regs(&self) -> (r: UserRegs)
        requires
            self.regs is Some,
        ensures
            Some(r) == self.regs,
    {
        self.regs.unwrap()
    }

    pub fn set_regs(&mut self, regs: UserRegs)
        ensures
            *final(self) == (Task { regs: Some(regs), ..*old(self) }),
    {
        self.regs = Some(regs);
    }

    /// Takes in the registers at the start, which are those at the instruction
    /// by which the task came to a stop.
    pub fn grab_init_regs(&mut self, regs: UserRegs)
        requires
            regs.rip >= 2,
        ensures
            *final(self) == (Task {
                init_regs: at_start(regs),
                ..*old(self)
            }),
    {
        let mut regs = regs;
        regs.rip = regs.rip - 2;
        self.init_regs = regs;
    }

    pub fn init_regs(&self) -> (r: UserRegs)
        ensures
            r == self.init_regs,
    {
        self.init_regs
    }

    pub fn cpu_mask(&self) -> (m: &Vec<u8>)
        ensures
            *m == self.cpu_mask,
    {
        &self.cpu_mask
    }

    /// Brings the segment registers back to what they were at the start.
    pub fn reset_sysemu_regs(&self, regs: &mut UserRegs)
        ensures
            *final(regs) == with_segments(*old(regs), self.init_regs),
    {
        regs.cs = self.init_regs.cs;
        regs.ss = self.init_regs.ss;
        regs.ds = self.init_regs.ds;
        regs.es = self.init_regs.es;
        regs.fs = self.init_regs.fs;
        regs.gs = self.init_regs.gs;
    }

    /// Steps over the instruction at which the task is if it asks for the
    /// features of the processor. The registers that the answer goes to are
    /// `answer`.
    pub fn handle_possible_cpuid_instruction(
        &mut self,
        inst: SysResult<[u8; 2]>,
        answer: UserRegs,
    ) -> (handled: bool)
        requires
            old(self).regs is Some,
            answer.rip + 2 <= u64::MAX,
        ensures
            handled == (inst matches Ok(b) && b@ == seq![0x0fu8, 0xa2]),
            *final(self) == (if handled {
                Task { regs: Some(past_cpuid(answer)), ..*old(self) }
            } else {
                *old(self)
            }),
    {
        match inst {
            Ok(b) => if b[0] == CPUID_INSTRUCTION[0] && b[1] == CPUID_INSTRUCTION[1] {
                assert(b@ =~= seq![0x0fu8, 0xa2]);
                let mut regs = answer;
                regs.rip = regs.rip + 2;
                self.regs = Some(regs);
                true
            } else {
                proof {
                    let want = seq![0x0fu8, 0xa2];
                    assert(b@[0] != want[0] || b@[1] != want[1]);
                }
                false
            },
            Err(_) => false,
        }
    }

    pub fn signal_mask(&self) -> (m: u64)
        ensures
            m == self.signal_mask,
    {
        self.signal_mask
    }

    pub fn set_signal_mask(&mut self, mask: u64)
        ensures
            *final(self) == (Task { signal_mask: mask, ..*old(self) }),
    {
        self.signal_mask = mask;
    }

    /// The signal stack. Its flags tell whether the task is on it.
    pub fn signal_stack(&self, on_stack: bool) -> (s: SignalStack)
        ensures
            s == told_stack(self.signal_stack, on_stack),
    {
        let mut alt = self.signal_stack;
        if on_stack {
            alt.flags = alt.flags | SIGNAL_STACK_FLAG_ON_STACK;
        }
        alt
    }

    /// Changes the signal stack, unless the task is on it.
    pub fn set_signal_stack(&mut self, alt: SignalStack, on_stack: bool) -> (ok: bool)
        ensures
            ok == !on_stack,
            *final(self) == (if on_stack {
                *old(self)
            } else {
                Task {
                    signal_stack: kept_stack(alt),
                    ..*old(self)
                }
            }),
    {
        if on_stack {
            return false;
        }
        if alt.flags & SIGNAL_STACK_FLAG_DISABLE != 0 {
            self.signal_stack = SignalStack {
                addr: 0,
                flags: SIGNAL_STACK_FLAG_DISABLE,
                size: 0,
            };
        } else {
            let mut alt = alt;
            alt.flags = alt.flags & SIGNAL_STACK_FLAG_DISABLE;
            self.signal_stack = alt;
        }
        true
    }

    pub fn set_clear_tid(&mut self, tid: Addr)
        ensures
            *final(self) == (Task { clear_tid: tid, ..*old(self) }),
    {
        self.clear_tid = tid;
    }

    pub fn set_robust_list(&mut self, addr: Addr)
        ensures
            *final(self) == (Task { robust_list: addr, ..*old(self) }),
    {
        self.robust_list = addr;
    }

    pub fn uts_namespace(&self) -> (u: &UtsNameSpace)
        ensures
            *u == self.uts_namespace,
    {
        &self.uts_namespace
    }

    /// Gives out a descriptor from `fd` on for a new file.
    pub fn new_fd_from(&mut self, fd: i32, file: u64, flags: FdFlags, lim: u64) -> (r: SysResult<
        i32,
    >)
        requires
            fd < i32::MAX,
        ensures
            *final(self) == (Task { fd_table: final(self).fd_table, ..*old(self) }),
            old(self).fd_table.packed() ==> final(self).fd_table.packed(),
            ({
                let t = old(self).fd_table.table();
                let start = if fd >= old(self).fd_table.next {
                    fd
                } else {
                    old(self).fd_table.next
                };
                match r {
                    Ok(n) => {
                        &&& fd >= 0
                        &&& first_free(t, start, seq![n])
                        &&& n < crate::kernel::fd_table::fd_end(lim)
                        &&& final(self).fd_table.table() == t.insert(n, Descriptor { file, flags })
                    },
                    Err(e) => {
                        &&& final(self).fd_table.table() == t
                        &&& if fd < 0 {
                            e == sys(EINVAL)
                        } else {
                            e == sys(crate::errno::EMFILE) && (fd + 1
                                > crate::kernel::fd_table::fd_end(lim) || too_few(
                                t,
                                start,
                                crate::kernel::fd_table::fd_end(lim),
                                1,
                            ))
                        }
                    },
                }
            }),
    {
        let mut files: Vec<u64> = Vec::new();
        files.push(file);
        match self.fd_table.new_fds(fd, &files, flags, lim) {
            Ok(fds) => {
                proof {
                    let t = old(self).fd_table.table();
                    assert(fds@ =~= seq![fds@[0]]);
                    assert(fds@.drop_last() =~= Seq::<i32>::empty());
                    assert(opened(t, fds@.drop_last(), files@, flags) == t);
                }
                Ok(fds[0])
            },
            Err(e) => Err(e),
        }
    }

    pub fn memory_manager(&self) -> (mm: &MemoryManager)
        requires
            self.image.memory_manager is Loaded,
        ensures
            *mm == self.image.memory(),
    {
        match &self.image.memory_manager {
            MemoryManagerState::Loaded(mm) => mm,
            MemoryManagerState::Empty => vstd::pervasive::unreached(),
        }
    }

    /// Sets what happens when signal `sig` comes, and tells what happened
    /// before. `unblocked` are the signals that cannot be blocked.
    pub fn set_sigaction(&mut self, sig: i32, action: Option<SigAction>, unblocked: u64) -> (r:
        SysResult<SigAction>)
        ensures
            sets_action(
                old(self).signal_handlers@,
                final(self).signal_handlers@,
                sig,
                action,
                unblocked,
                r,
            ),
            *final(self) == (Task {
                signal_handlers: final(self).signal_handlers,
                ..*old(self)
            }),
    {
        if sig < 1 || sig > SIGNAL_MAXIMUM {
            return Err(SysError::new(EINVAL));
        }
        let old_act = match self.signal_handlers.get(&sig) {
            Some(a) => *a,
            None => SigAction::default(),
        };
        if let Some(a) = action {
            if sig == SIGKILL || sig == SIGSTOP {
                return Err(SysError::new(EINVAL));
            }
            let mut a = a;
            a.mask = a.mask & !unblocked;
            self.signal_handlers.insert(sig, a);
        }
        Ok(old_act)
    }

    pub fn parent_death_signal(&self) -> (s: i32)
        ensures
            s == self.parent_death_signal,
    {
        self.parent_death_signal
    }

    pub fn set_parent_death_signal(&mut self, signal: i32)
        ensures
            *final(self) == (Task { parent_death_signal: signal, ..*old(self) }),
    {
        self.parent_death_signal = signal;
    }

    /// No timer has a number that is still to be given out.
    pub open spec fn timers_known(&self) -> bool {
        forall|id: i32| #[trigger] self.timers@.contains(id) ==> id < self.next_timerid
    }

    /// Makes a timer with a number of its own.
    pub fn create_timer(&mut self) -> (id: i32)
        requires
            old(self).next_timerid < i32::MAX,
        ensures
            id == old(self).next_timerid,
            final(self).timers@ == old(self).timers@.insert(id),
            final(self).next_timerid == id + 1,
            *final(self) == (Task {
                timers: final(self).timers,
                next_timerid: final(self).next_timerid,
                ..*old(self)
            }),
            old(self).timers_known() ==> final(self).timers_known() && !old(self).timers@.contains(
                id,
            ),
    {
        let ret = self.next_timerid;
        self.timers.insert(ret);
        self.next_timerid = ret + 1;
        ret
    }

    /// Deletes a timer. Tells whether there was one of that number.
    pub fn delete_timer(&mut self, id: i32) -> (found: bool)
        ensures
            found == old(self).timers@.contains(id),
            final(self).timers@ == old(self).timers@.remove(id),
            *final(self) == (Task { timers: final(self).timers, ..*old(self) }),
            old(self).timers_known() ==> final(self).timers_known(),
    {
        self.timers.remove(&id)
    }
}

} // verus!
