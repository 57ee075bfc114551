use vstd::prelude::*;

use crate::bytes::{le, le_gives_back, le_value, pow256, to_le};
use crate::errno::{sys, SysError, SysResult, EAGAIN};
use crate::net::socket::{
    Socket, POLL_ALL_EVENTS, POLL_READABLE_EVENTS, POLL_WRITABLE_EVENTS,
};

verus! {

/// The request for the number of bytes that can be read.
pub const TIOCINQ: u64 = 0x541b;

/// What the network stack says of a socket.
#[derive(Debug, Clone, Copy, PartialEq, Eq, Structural)]
pub struct Flow {
    pub may_recv: bool,
    pub may_send: bool,
    pub can_recv: bool,
    pub can_send: bool,
}

/// The events of `mask` that a stream has.
pub open spec fn stream_events(mask: u64, f: Flow) -> u64 {
    (if mask & POLL_READABLE_EVENTS != 0 && f.may_recv {
        POLL_READABLE_EVENTS
    } else {
        0
    }) | (if mask & POLL_WRITABLE_EVENTS != 0 && f.may_send {
        POLL_WRITABLE_EVENTS
    } else {
        0
    })
}

/// The events of `mask` that a socket for datagrams has. It can always be
/// written to.
pub open spec fn datagram_events(mask: u64, f: Flow) -> u64 {
    (mask & POLL_WRITABLE_EVENTS) | (if mask & POLL_READABLE_EVENTS != 0 && f.can_recv {
        POLL_READABLE_EVENTS
    } else {
        0
    })
}

impl Socket {
    /// The events of `mask` that the socket has. Those of a socket of the host
    /// have to be asked of the host.
    pub fn readiness(&self, mask: u64, f: Flow) -> (r: Option<u64>)
        ensures
            r == (match *self {
                Socket::Tcp { .. } => Some(stream_events(mask, f)),
                Socket::Udp { .. } => Some(datagram_events(mask, f)),
                Socket::Icmp(_) => Some(datagram_events(mask, f)),
                _ => None,
            }),
    {
        match *self {
            Socket::Tcp { .. } => {
                let mut r: u64 = 0;
                if mask & POLL_READABLE_EVENTS != 0 && f.may_recv {
                    r = POLL_READABLE_EVENTS;
                }
                if mask & POLL_WRITABLE_EVENTS != 0 && f.may_send {
                    r = r | POLL_WRITABLE_EVENTS;
                }
                assert(0u64 | 0u64 == 0u64) by (bit_vector);
                assert(POLL_READABLE_EVENTS | 0u64 == POLL_READABLE_EVENTS) by (bit_vector);
                Some(r)
            },
            Socket::Udp { .. } | Socket::Icmp(_) => {
                let mut r = mask & POLL_WRITABLE_EVENTS;
                let w = r;
                assert(w | 0u64 == w) by (bit_vector);
                if mask & POLL_READABLE_EVENTS != 0 && f.can_recv {
                    r = r | POLL_READABLE_EVENTS;
                }
                Some(r)
            },
            _ => None,
        }
    }
}

/// What a poll of one descriptor of the host comes to.
#[derive(Debug, Clone, Copy, PartialEq, Eq, Structural)]
pub enum PollResult {
    /// It was interrupted and has to be made again.
    Again,
    Events(u64),
}

/// What the outcome of a poll tells.
pub open spec fn poll_outcome(n: i32, interrupted: bool, revents: u16, mask: u64) -> PollResult {
    if n < 0 {
        if interrupted {
            PollResult::Again
        } else {
            PollResult::Events(mask)
        }
    } else if n == 0 {
        PollResult::Events(0)
    } else {
        PollResult::Events(revents as u64 & POLL_ALL_EVENTS)
    }
}

/// Takes in the outcome of a poll: its result, whether it was interrupted, and
/// the events that it found. After an error all events of `mask` are taken to
/// be there.
pub fn polled(n: i32, interrupted: bool, revents: u16, mask: u64) -> (r: PollResult)
    ensures
        r == poll_outcome(n, interrupted, revents, mask),
{
    if n < 0 {
        if interrupted {
            return PollResult::Again;
        }
        return PollResult::Events(mask);
    }
    if n == 0 {
        return PollResult::Events(0);
    }
    PollResult::Events(revents as u64 & POLL_ALL_EVENTS)
}

/// Whether to go on, to wait or to give up.
#[derive(Debug, Clone, Copy, PartialEq, Eq)]
pub enum WaitStep {
    Go,
    /// Let the network stack work, by one poll or until it has done something.
    Wait { once: bool },
    Fail(SysError),
}

/// What to do with a socket that is blocked or not. The first wait is for one poll
/// only.
pub open spec fn waits(blocked: bool, non_blocking: bool, first: bool) -> WaitStep {
    if !blocked {
        WaitStep::Go
    } else if non_blocking {
        WaitStep::Fail(sys(EAGAIN))
    } else {
        WaitStep::Wait { once: first }
    }
}

fn wait_step(blocked: bool, non_blocking: bool, first: bool) -> (s: WaitStep)
    ensures
        s == waits(blocked, non_blocking, first),
{
    if !blocked {
        WaitStep::Go
    } else if non_blocking {
        WaitStep::Fail(SysError::new(EAGAIN))
    } else {
        WaitStep::Wait { once: first }
    }
}

/// What follows a poll of the network stack.
#[derive(Debug, Clone, Copy, PartialEq, Eq, Structural)]
pub enum PollStep {
    /// It is enough.
    Done,
    /// Wait for the device, and poll again.
    Again,
}

/// Sees what follows a poll: `polled` tells whether the network stack did something,
/// or nothing where the poll failed. With `once` it is the only one.
pub fn poll_step(once: bool, polled: Option<bool>) -> (s: PollStep)
    ensures
        s == (if !once && polled == Some(false) {
            PollStep::Again
        } else {
            PollStep::Done
        }),
{
    match polled {
        Some(did) => if did || once {
            PollStep::Done
        } else {
            PollStep::Again
        },
        None => PollStep::Done,
    }
}

/// Whether a stream that was to be connected is.
pub fn connected(active: bool, may_send: bool, may_recv: bool) -> (b: bool)
    ensures
        b == (active && may_send && may_recv),
{
    active && may_send && may_recv
}

/// Whether a stream has something to read. One that is closed has nothing to
/// wait for.
pub fn tcp_recv_step(f: Flow, non_blocking: bool, first: bool) -> (s: WaitStep)
    ensures
        s == waits(f.may_recv && !f.can_recv, non_blocking, first),
{
    wait_step(f.may_recv && !f.can_recv, non_blocking, first)
}

/// Whether a stream can be written to. One that is closed has nothing to wait
/// for.
pub fn tcp_send_step(f: Flow, non_blocking: bool, first: bool) -> (s: WaitStep)
    ensures
        s == waits(f.may_send && !f.can_send, non_blocking, first),
{
    wait_step(f.may_send && !f.can_send, non_blocking, first)
}

/// Whether a datagram has come.
pub fn udp_recv_step(f: Flow, non_blocking: bool, first: bool) -> (s: WaitStep)
    ensures
        s == waits(!f.can_recv, non_blocking, first),
{
    wait_step(!f.can_recv, non_blocking, first)
}

/// Whether a datagram can be sent.
pub fn udp_send_step(f: Flow, non_blocking: bool, first: bool) -> (s: WaitStep)
    ensures
        s == waits(!f.can_send, non_blocking, first),
{
    wait_step(!f.can_send, non_blocking, first)
}

/// How sending a datagram went.
#[derive(Debug, Clone, Copy, PartialEq, Eq)]
pub enum Sent {
    Done,
    /// There was no room for it.
    Exhausted,
    Failed(SysError),
}

/// What sending `n` bytes comes to.
pub open spec fn sending(sent: Sent, n: usize, non_blocking: bool) -> Option<SysResult<usize>> {
    match sent {
        Sent::Done => Some(Ok::<usize, SysError>(n)),
        Sent::Exhausted => if non_blocking {
            Some(Err::<usize, SysError>(sys(EAGAIN)))
        } else {
            None
        },
        Sent::Failed(e) => Some(Err::<usize, SysError>(e)),
    }
}

/// What sending a datagram of `n` bytes comes to, or nothing where it has to be
/// tried again.
pub fn udp_sent(sent: Sent, n: usize, non_blocking: bool) -> (r: Option<SysResult<usize>>)
    ensures
        r == sending(sent, n, non_blocking),
{
    match sent {
        Sent::Done => Some(Ok(n)),
        Sent::Exhausted => if non_blocking {
            Some(Err(SysError::new(EAGAIN)))
        } else {
            None
        },
        Sent::Failed(e) => Some(Err(e)),
    }
}

/// A size as an application is told it.
pub open spec fn told_size(n: int) -> Seq<u8> {
    le(
        if n <= i32::MAX {
            n
        } else {
            i32::MAX as int
        },
        4,
    )
}

/// The bytes of a size, which is at most the greatest number of four bytes with
/// a sign.
pub fn size_bytes(n: usize) -> (v: Vec<u8>)
    ensures
        v@ == told_size(n as int),
{
    let n = n as u64;
    let n = if n <= 0x7fff_ffff {
        n
    } else {
        0x7fff_ffff
    };
    to_le(n, 4)
}

/// The answer to the question how much can be read.
pub open spec fn tells_amount(amount: SysResult<usize>, r: SysResult<Vec<u8>>) -> bool {
    match amount {
        Ok(n) => r is Ok && r->Ok_0@ == told_size(n as int),
        Err(e) => r is Err && r->Err_0 == e,
    }
}

impl Socket {
    /// Answers a control request with the bytes that go to the caller. `amount` is the
    /// number of bytes that can be read, as the network stack tells it.
    pub fn ioctl(&self, request: u64, amount: SysResult<usize>) -> (r: SysResult<Vec<u8>>)
        requires
            request == TIOCINQ,
            *self is Tcp || *self is Udp,
        ensures
            tells_amount(amount, r),
    {
        match amount {
            Ok(n) => Ok(size_bytes(n)),
            Err(e) => Err(e),
        }
    }
}

/// A poll that found nothing tells of no event, and one that failed of all that were asked
/// for. What one finds is told as far as it is among the events that there are. Only one
/// that was interrupted is made again.
pub proof fn poll_is_told(n: i32, interrupted: bool, revents: u16, mask: u64)
    ensures
        poll_outcome(n, interrupted, revents, mask) is Again == (n < 0 && interrupted),
        n < 0 && !interrupted ==> poll_outcome(n, interrupted, revents, mask) == PollResult::Events(
            mask,
        ),
        n == 0 ==> poll_outcome(n, interrupted, revents, mask) == PollResult::Events(0),
        n > 0 ==> (poll_outcome(n, interrupted, revents, mask) matches PollResult::Events(e) && e
            == revents as u64 & 0x15f),
{
}

/// A datagram that was sent counts with all its bytes. One for which there is no room is
/// tried again, unless one may not wait for that.
pub proof fn sending_is_told(n: usize, e: SysError, non_blocking: bool)
    ensures
        sending(Sent::Done, n, non_blocking) == Some(Ok::<usize, SysError>(n)),
        sending(Sent::Failed(e), n, non_blocking) == Some(Err::<usize, SysError>(e)),
        sending(Sent::Exhausted, n, false) is None,
        sending(Sent::Exhausted, n, true) matches Some(Err(e)) && e.code == 11,
{
}

/// How much can be read is told in four bytes, the lowest first.
pub proof fn amount_is_told(n: usize, r: SysResult<Vec<u8>>)
    requires
        tells_amount(Ok(n), r),
    ensures
        r is Ok,
        r->Ok_0@.len() == 4,
        le_value(r->Ok_0@) == (if n <= 0x7fff_ffff {
            n as int
        } else {
            0x7fff_ffff
        }),
{
    reveal_with_fuel(pow256, 5);
    let m = if n <= 0x7fff_ffff {
        n as int
    } else {
        0x7fff_ffff
    };
    le_gives_back(m, 4);
}

} // verus!
