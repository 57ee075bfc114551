use vstd::prelude::*;

use crate::errno::SysResult;
use crate::kernel::fd_table::{found_at, puts_at, reflags, takes_out, Descriptor, FdFlags};
use crate::kernel::signal::{SigAction, SignalStack};
use crate::kernel::task::{
    action_in, at_start, kept_stack, past_cpuid, sets_action, told_stack,
};
use crate::platform::UserRegs;

verus! {

/// A descriptor that was made is found with its file and flags until it is taken out. It
/// can be made if its number is not negative and below the limit. No other descriptor is
/// touched, and a refused one changes nothing.
pub proof fn made_descriptor_is_found(
    a: Map<i32, Descriptor>,
    b: Map<i32, Descriptor>,
    fd: i32,
    file: u64,
    flags: FdFlags,
    lim: u64,
    r: SysResult<()>,
    other: i32,
)
    requires
        puts_at(a, b, fd, file, flags, lim, r),
    ensures
        r is Ok == (fd >= 0 && (fd < lim || lim == u64::MAX)),
        r is Ok ==> found_at(b, fd) == Some((file, flags)),
        other != fd || r is Err ==> found_at(b, other) == found_at(a, other),
        fd < 0 ==> r->Err_0.code == 9,
        r is Err && fd >= 0 ==> r->Err_0.code == 24,
{
}

/// A descriptor that was taken out is not found any more, and the file that it was for is
/// told. No other descriptor is touched.
pub proof fn taken_descriptor_is_gone(
    a: Map<i32, Descriptor>,
    b: Map<i32, Descriptor>,
    fd: i32,
    file: Option<u64>,
    other: i32,
)
    requires
        takes_out(a, b, fd, file),
    ensures
        fd >= 0 ==> found_at(b, fd) is None,
        fd >= 0 ==> file is Some == found_at(a, fd) is Some,
        fd < 0 ==> file is None,
        file matches Some(f) ==> found_at(a, fd) matches Some(x) && x.0 == f,
        other != fd ==> found_at(b, other) == found_at(a, other),
{
}

/// A descriptor that is given other flags is for the same file. There must be one of that
/// number.
pub proof fn other_flags_keep_the_file(
    a: Map<i32, Descriptor>,
    b: Map<i32, Descriptor>,
    fd: i32,
    flags: FdFlags,
    r: SysResult<()>,
    other: i32,
)
    requires
        reflags(a, b, fd, flags, r),
    ensures
        fd >= 0 ==> r is Ok == found_at(a, fd) is Some,
        fd < 0 ==> r is Err,
        r is Ok ==> found_at(b, fd) == Some((found_at(a, fd)->Some_0.0, flags)),
        other != fd || r is Err ==> found_at(b, other) == found_at(a, other),
        r is Err ==> r->Err_0.code == 9,
{
}

/// What was set for a signal is told when it is asked for next, but for the signals that
/// cannot be blocked. Asking changes nothing. What was set for other signals stays.
pub proof fn set_action_is_told(
    a: Map<i32, SigAction>,
    b: Map<i32, SigAction>,
    c: Map<i32, SigAction>,
    sig: i32,
    x: SigAction,
    unblocked: u64,
    r: SysResult<SigAction>,
    next: SysResult<SigAction>,
    other: i32,
)
    requires
        sets_action(a, b, sig, Some(x), unblocked, r),
        sets_action(b, c, sig, None, unblocked, next),
    ensures
        r is Ok == (1 <= sig <= 64 && sig != 9 && sig != 19),
        next is Ok == (1 <= sig <= 64),
        r matches Ok(before) ==> before == action_in(a, sig),
        r is Ok ==> next is Ok && next->Ok_0.handler == x.handler && next->Ok_0.flags == x.flags
            && next->Ok_0.restorer == x.restorer && next->Ok_0.mask == x.mask & !unblocked,
        r is Err ==> r->Err_0.code == 22 && b == a,
        c == b,
        other != sig ==> action_in(b, other) == action_in(a, other),
{
}

/// A signal that nothing was set for is met as by default, without a handler.
pub proof fn unset_action_is_default(a: Map<i32, SigAction>, sig: i32)
    requires
        !a.contains_key(sig),
    ensures
        action_in(a, sig).handler == 0,
        action_in(a, sig).flags == 0,
        action_in(a, sig).restorer == 0,
        action_in(a, sig).mask == 0,
{
}

/// A signal stack that was set is told as it was set, without the flags that it came with.
/// One that is disabled has no place. To be on it is told by a flag of its own.
pub proof fn set_stack_is_told(alt: SignalStack)
    ensures
        alt.flags & 2 == 0 ==> told_stack(kept_stack(alt), false) == (SignalStack {
            addr: alt.addr,
            flags: 0,
            size: alt.size,
        }),
        alt.flags & 2 != 0 ==> told_stack(kept_stack(alt), false) == (SignalStack {
            addr: 0,
            flags: 2,
            size: 0,
        }),
        alt.flags & 2 == 0 ==> told_stack(kept_stack(alt), true).flags == 1,
        told_stack(kept_stack(alt), true).addr == kept_stack(alt).addr,
        told_stack(kept_stack(alt), true).size == kept_stack(alt).size,
{
    assert(0u32 | 1u32 == 1u32) by (bit_vector);
}

/// The instruction that asks for the processor is two bytes long: it is passed over once it
/// was answered, and taken back to where a task starts. Nothing else changes.
pub proof fn instruction_is_passed_over(regs: UserRegs)
    requires
        2 <= regs.rip,
        regs.rip + 2 <= u64::MAX,
    ensures
        past_cpuid(regs).rip == regs.rip + 2,
        at_start(regs).rip + 2 == regs.rip,
        at_start(past_cpuid(regs)) == regs,
        past_cpuid(at_start(regs)) == regs,
        past_cpuid(regs) == (UserRegs { rip: past_cpuid(regs).rip, ..regs }),
{
}

} // verus!
