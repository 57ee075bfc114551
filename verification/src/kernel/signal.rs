use vstd::prelude::*;

use crate::bytes::{from_le, le, le_gives_back, le_value, pow256, to_le};
use crate::errno::{sys, SysError, SysResult, EINVAL};

verus! {

/// The size of a set of signals in bytes.
pub const SIGNAL_SET_SIZE: i32 = 8;

pub const SIGKILL: i32 = 9;

pub const SIGSTOP: i32 = 19;

/// The highest signal.
pub const SIGNAL_MAXIMUM: i32 = 64;

pub const SIGNAL_STACK_FLAG_ON_STACK: u32 = 1;

pub const SIGNAL_STACK_FLAG_DISABLE: u32 = 2;

/// What happens when a signal comes.
#[derive(Debug, Clone, Copy, PartialEq, Eq, Structural)]
pub struct SigAction {
    pub handler: u64,
    pub flags: u64,
    pub restorer: u64,
    pub mask: u64,
}

impl Default for SigAction {
    fn default() -> (a: SigAction)
        ensures
            a == default_action(),
    {
        SigAction { handler: 0, flags: 0, restorer: 0, mask: 0 }
    }
}

/// What happens when a signal comes for which nothing was set.
pub open spec fn default_action() -> SigAction {
    SigAction { handler: 0, flags: 0, restorer: 0, mask: 0 }
}

/// The stack on which signals are handled.
#[derive(Debug, Clone, Copy, PartialEq, Eq, Structural)]
pub struct SignalStack {
    pub addr: u64,
    pub flags: u32,
    pub size: u64,
}

impl Default for SignalStack {
    fn default() -> (s: SignalStack)
        ensures
            s == (SignalStack { addr: 0, flags: 0, size: 0 }),
    {
        SignalStack { addr: 0, flags: 0, size: 0 }
    }
}

impl SignalStack {
    /// The bytes by which an application knows a signal stack.
    pub open spec fn encoded(self) -> Seq<u8> {
        le(self.addr as int, 8) + le(self.flags as int, 4) + le(0, 4) + le(self.size as int, 8)
    }

    pub fn to_bytes(&self) -> (v: Vec<u8>)
        ensures
            v@ == self.encoded(),
            v@.len() == 24,
    {
        let mut v = to_le(self.addr, 8);
        let mut flags = to_le(self.flags as u64, 4);
        let mut pad = to_le(0, 4);
        let mut size = to_le(self.size, 8);
        v.append(&mut flags);
        v.append(&mut pad);
        v.append(&mut size);
        v
    }

    pub fn from_bytes(b: &[u8]) -> (s: SignalStack)
        requires
            b@.len() == 24,
        ensures
            s.addr == le_value(b@.subrange(0, 8)),
            s.flags == le_value(b@.subrange(8, 12)),
            s.size == le_value(b@.subrange(16, 24)),
    {
        proof {
            lemma_pow256_four();
        }
        SignalStack {
            addr: from_le(b, 0, 8),
            flags: from_le(b, 8, 4) as u32,
            size: from_le(b, 16, 8),
        }
    }
}

proof fn lemma_pow256_four()
    ensures
        pow256(4) == 0x1_0000_0000,
        pow256(8) == 0x1_0000_0000_0000_0000,
{
    reveal_with_fuel(pow256, 9);
}

/// The bytes of a signal stack are those of no other.
pub proof fn signal_stack_bytes_give_back(s: SignalStack)
    ensures
        s.addr == le_value(s.encoded().subrange(0, 8)),
        s.flags == le_value(s.encoded().subrange(8, 12)),
        s.size == le_value(s.encoded().subrange(16, 24)),
        s.encoded().len() == 24,
{
    lemma_pow256_four();
    le_gives_back(s.addr as int, 8);
    le_gives_back(s.flags as int, 4);
    le_gives_back(0, 4);
    le_gives_back(s.size as int, 8);
    assert(s.encoded().subrange(0, 8) =~= le(s.addr as int, 8));
    assert(s.encoded().subrange(8, 12) =~= le(s.flags as int, 4));
    assert(s.encoded().subrange(16, 24) =~= le(s.size as int, 8));
}

/// Takes a set of signals from the bytes of it that were read, without those
/// that cannot be blocked.
pub fn copy_in_sig_set(size: i32, read: SysResult<[u8; 8]>, unblocked: u64) -> (r: SysResult<u64>)
    ensures
        r == (if size != SIGNAL_SET_SIZE {
            Err::<u64, SysError>(sys(EINVAL))
        } else {
            match read {
                Ok(b) => Ok((le_value(b@) as u64) & !unblocked),
                Err(e) => Err(e),
            }
        }),
{
    if size != SIGNAL_SET_SIZE {
        return Err(SysError::new(EINVAL));
    }
    match read {
        Ok(b) => {
            let mask = from_le(b.as_slice(), 0, 8);
            assert(b@.subrange(0, 8) =~= b@);
            Ok(mask & !unblocked)
        },
        Err(e) => Err(e),
    }
}

/// The bytes of a set of signals.
pub fn copy_out_sig_set(mask: u64) -> (v: Vec<u8>)
    ensures
        v@ == le(mask as int, 8),
        le_value(v@) == mask,
{
    proof {
        lemma_pow256_four();
        le_gives_back(mask as int, 8);
    }
    to_le(mask, 8)
}

} // verus!
