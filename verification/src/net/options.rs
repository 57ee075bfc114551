use vstd::prelude::*;

use crate::bytes::{from_le, le, le_value, pow256, to_le};
use crate::errno::{sys, SysError, SysResult, EDOM, EINVAL, ENOPROTOOPT};
use crate::net::socket::Socket;
use crate::net::wait::{size_bytes, told_size};

verus! {

pub const SO_SNDBUF: i32 = 7;

pub const SO_RCVBUF: i32 = 8;

pub const SO_KEEPALIVE: i32 = 9;

pub const SO_PASSCRED: i32 = 16;

pub const SO_RCVTIMEO: i32 = 20;

pub const SO_SNDTIMEO: i32 = 21;

pub const TCP_NODELAY: i32 = 1;

pub const TCP_QUICKACK: i32 = 12;

pub const TCP_USER_TIMEOUT: i32 = 18;

pub const IP_MULTICAST_TTL: i32 = 33;

pub const IPV6_MULTICAST_HOPS: i32 = 18;

/// How long a connection rests before it is probed, in seconds.
pub const DEFAULT_KEEPALIVE_SECS: u64 = 7200;

/// How long an acknowledgement is held back, in milliseconds.
pub const DEFAULT_ACK_DELAY_MILLI_SECS: u64 = 40;

pub const IP_DEFAULT_MCAST_TTL: u8 = 1;

pub const IPV6_DEFAULT_MCAST_HOPS: u8 = 1;

/// The size of a time in bytes.
pub const TIMEVAL_SIZE: usize = 16;

/// What has to be set in the network stack or on the host.
#[derive(Debug, Clone, Copy, PartialEq, Eq, Structural)]
pub enum OptAction {
    /// Nothing.
    Ignore,
    /// The seconds before a connection is probed.
    KeepAlive(Option<u64>),
    /// Whether small packets are held back.
    Nagle(bool),
    /// The milliseconds for which an acknowledgement is held back.
    AckDelay(Option<u64>),
    /// The milliseconds after which a connection is given up.
    Timeout(u64),
    HopLimit(u8),
    PassCred { fd: i32, on: bool },
    /// The microseconds after which reading is given up.
    ReadTimeout { fd: i32, micros: u128 },
    /// The microseconds after which writing is given up.
    WriteTimeout { fd: i32, micros: u128 },
}

/// What has to be asked of the network stack.
#[derive(Debug, Clone, Copy, PartialEq, Eq, Structural)]
pub enum OptQuery {
    /// Nothing: the answer is zero.
    Zero,
    KeepAlive,
    SendCapacity,
    RecvCapacity,
    Nagle,
    AckDelay,
    Timeout,
    HopLimit,
}

/// The number in the first four bytes of a value.
pub open spec fn number(v: Seq<u8>) -> int {
    le_value(v.subrange(0, 4))
}

/// A number of four bytes as a number with a sign.
pub open spec fn signed(n: int) -> int {
    if n < 0x8000_0000 {
        n
    } else {
        n - 0x1_0000_0000
    }
}

/// A number of eight bytes as a number with a sign.
pub open spec fn signed_long(n: int) -> int {
    if n < 0x8000_0000_0000_0000 {
        n
    } else {
        n - 0x1_0000_0000_0000_0000
    }
}

/// The time that a value stands for: its two numbers, the seconds and the
/// microseconds, both taken as microseconds.
pub open spec fn time_of(v: Seq<u8>) -> SysResult<u128> {
    let usec = signed_long(le_value(v.subrange(8, 16)));
    if v.len() < TIMEVAL_SIZE {
        Err(sys(EINVAL))
    } else if usec < 0 || usec >= 1_000_000 {
        Err(sys(EDOM))
    } else {
        Ok((usec + le_value(v.subrange(0, 8))) as u128)
    }
}

/// The number of hops that a value stands for.
pub open spec fn hops_of(v: Seq<u8>, default: u8) -> SysResult<OptAction> {
    let n = signed(number(v));
    if v.len() < 4 || n < -1 || n > 255 {
        Err(sys(EINVAL))
    } else if n == -1 {
        Ok(OptAction::HopLimit(default))
    } else {
        Ok(OptAction::HopLimit(n as u8))
    }
}

/// What an option of a socket of the host stands for.
pub open spec fn host_option(fd: i32, name: i32, v: Seq<u8>) -> SysResult<OptAction> {
    if name == SO_PASSCRED {
        if v.len() < 4 {
            Err(sys(EINVAL))
        } else {
            Ok(OptAction::PassCred { fd, on: number(v) != 0 })
        }
    } else if name == SO_RCVTIMEO {
        match time_of(v) {
            Ok(micros) => Ok(OptAction::ReadTimeout { fd, micros }),
            Err(e) => Err(e),
        }
    } else if name == SO_SNDTIMEO {
        match time_of(v) {
            Ok(micros) => Ok(OptAction::WriteTimeout { fd, micros }),
            Err(e) => Err(e),
        }
    } else {
        Ok(OptAction::Ignore)
    }
}

/// What an option that concerns all sockets stands for.
pub open spec fn socket_option(s: Socket, name: i32, v: Seq<u8>) -> SysResult<OptAction> {
    match s {
        Socket::Tcp { .. } => if name == SO_KEEPALIVE {
            if v.len() < 4 {
                Err(sys(EINVAL))
            } else {
                Ok(
                    OptAction::KeepAlive(
                        if number(v) == 0 {
                            None
                        } else {
                            Some(DEFAULT_KEEPALIVE_SECS)
                        },
                    ),
                )
            }
        } else {
            Ok(OptAction::Ignore)
        },
        Socket::UnixStream(fd) => host_option(fd->Some_0, name, v),
        Socket::UnixDatagram(fd) => host_option(fd->Some_0, name, v),
        _ => Ok(OptAction::Ignore),
    }
}

/// What an option that concerns streams stands for.
pub open spec fn tcp_option(s: Socket, name: i32, v: Seq<u8>) -> SysResult<OptAction> {
    if !(s is Tcp) {
        Err(sys(ENOPROTOOPT))
    } else if name == TCP_NODELAY {
        if v.len() < 4 {
            Err(sys(EINVAL))
        } else {
            Ok(OptAction::Nagle(number(v) == 0))
        }
    } else if name == TCP_QUICKACK {
        if v.len() < 4 {
            Err(sys(EINVAL))
        } else {
            Ok(
                OptAction::AckDelay(
                    if number(v) != 0 {
                        None
                    } else {
                        Some(DEFAULT_ACK_DELAY_MILLI_SECS)
                    },
                ),
            )
        }
    } else if name == TCP_USER_TIMEOUT {
        if v.len() < 4 || signed(number(v)) < 0 {
            Err(sys(EINVAL))
        } else {
            Ok(OptAction::Timeout(number(v) as u64))
        }
    } else {
        Ok(OptAction::Ignore)
    }
}

/// What an option that concerns the number of hops stands for.
pub open spec fn hop_option(
    s: Socket,
    name: i32,
    wanted: i32,
    v: Seq<u8>,
    default: u8,
) -> SysResult<OptAction> {
    if !(s is Tcp) && !(s is Udp) {
        Err(sys(ENOPROTOOPT))
    } else if name == wanted {
        hops_of(v, default)
    } else {
        Ok(OptAction::Ignore)
    }
}

proof fn lemma_pow256_values()
    ensures
        pow256(4) == 0x1_0000_0000,
        pow256(8) == 0x1_0000_0000_0000_0000,
{
    reveal_with_fuel(pow256, 9);
}

fn read_number(v: &[u8]) -> (r: SysResult<u32>)
    ensures
        match r {
            Ok(n) => v@.len() >= 4 && n == number(v@),
            Err(e) => v@.len() < 4 && e == sys(EINVAL),
        },
{
    if v.len() < 4 {
        return Err(SysError::new(EINVAL));
    }
    proof {
        lemma_pow256_values();
    }
    Ok(from_le(v, 0, 4) as u32)
}

fn read_time(v: &[u8]) -> (r: SysResult<u128>)
    ensures
        r == time_of(v@),
{
    if v.len() < TIMEVAL_SIZE {
        return Err(SysError::new(EINVAL));
    }
    let sec = from_le(v, 0, 8);
    let usec = from_le(v, 8, 8);
    if usec >= 1_000_000 {
        return Err(SysError::new(EDOM));
    }
    Ok(usec as u128 + sec as u128)
}

fn read_hops(v: &[u8], default: u8) -> (r: SysResult<OptAction>)
    ensures
        r == hops_of(v@, default),
{
    let n = match read_number(v) {
        Ok(n) => n,
        Err(e) => return Err(e),
    };
    if n == 0xffff_ffff {
        Ok(OptAction::HopLimit(default))
    } else if n > 255 {
        Err(SysError::new(EINVAL))
    } else {
        Ok(OptAction::HopLimit(n as u8))
    }
}

fn set_host_option(fd: i32, name: i32, v: &[u8]) -> (r: SysResult<OptAction>)
    ensures
        r == host_option(fd, name, v@),
{
    if name == SO_PASSCRED {
        match read_number(v) {
            Ok(n) => Ok(OptAction::PassCred { fd, on: n != 0 }),
            Err(e) => Err(e),
        }
    } else if name == SO_RCVTIMEO {
        match read_time(v) {
            Ok(micros) => Ok(OptAction::ReadTimeout { fd, micros }),
            Err(e) => Err(e),
        }
    } else if name == SO_SNDTIMEO {
        match read_time(v) {
            Ok(micros) => Ok(OptAction::WriteTimeout { fd, micros }),
            Err(e) => Err(e),
        }
    } else {
        Ok(OptAction::Ignore)
    }
}

/// The options of a value of four bytes at least can be asked for.
pub open spec fn asked(len: u32, q: OptQuery) -> SysResult<OptQuery> {
    if len < 4 {
        Err(sys(EINVAL))
    } else {
        Ok(q)
    }
}

/// What has to be asked for an option that concerns all sockets.
pub open spec fn socket_query(s: Socket, name: i32, len: u32) -> SysResult<OptQuery> {
    if name == SO_KEEPALIVE && s is Tcp {
        asked(len, OptQuery::KeepAlive)
    } else if name == SO_SNDBUF {
        asked(len, OptQuery::SendCapacity)
    } else if name == SO_RCVBUF {
        asked(len, OptQuery::RecvCapacity)
    } else {
        Ok(OptQuery::Zero)
    }
}

/// What has to be asked for an option that concerns streams.
pub open spec fn tcp_query(s: Socket, name: i32, len: u32) -> SysResult<OptQuery> {
    if !(s is Tcp) {
        Err(sys(ENOPROTOOPT))
    } else if name == TCP_NODELAY {
        asked(len, OptQuery::Nagle)
    } else if name == TCP_QUICKACK {
        asked(len, OptQuery::AckDelay)
    } else if name == TCP_USER_TIMEOUT {
        asked(len, OptQuery::Timeout)
    } else {
        Ok(OptQuery::Zero)
    }
}

/// What has to be asked for an option that concerns the number of hops.
pub open spec fn hop_query(s: Socket, name: i32, wanted: i32, len: u32) -> SysResult<OptQuery> {
    if !(s is Tcp) && !(s is Udp) {
        Err(sys(ENOPROTOOPT))
    } else if name == wanted {
        asked(len, OptQuery::HopLimit)
    } else {
        Ok(OptQuery::Zero)
    }
}

fn ask(len: u32, q: OptQuery) -> (r: SysResult<OptQuery>)
    ensures
        r == asked(len, q),
{
    if len < 4 {
        Err(SysError::new(EINVAL))
    } else {
        Ok(q)
    }
}

impl Socket {
    pub fn set_sock_opt_socket(&self, name: i32, optval: &[u8]) -> (r: SysResult<OptAction>)
        requires
            *self matches Socket::UnixStream(fd) ==> fd is Some,
            *self matches Socket::UnixDatagram(fd) ==> fd is Some,
        ensures
            r == socket_option(*self, name, optval@),
    {
        match *self {
            Socket::Tcp { .. } => if name == SO_KEEPALIVE {
                match read_number(optval) {
                    Ok(v) => if v == 0 {
                        Ok(OptAction::KeepAlive(None))
                    } else {
                        Ok(OptAction::KeepAlive(Some(DEFAULT_KEEPALIVE_SECS)))
                    },
                    Err(e) => Err(e),
                }
            } else {
                Ok(OptAction::Ignore)
            },
            Socket::UnixStream(Some(fd)) => set_host_option(fd, name, optval),
            Socket::UnixDatagram(Some(fd)) => set_host_option(fd, name, optval),
            _ => Ok(OptAction::Ignore),
        }
    }

    pub fn set_sock_opt_tcp(&self, name: i32, optval: &[u8]) -> (r: SysResult<OptAction>)
        ensures
            r == tcp_option(*self, name, optval@),
    {
        match *self {
            Socket::Tcp { .. } => {},
            _ => return Err(SysError::new(ENOPROTOOPT)),
        }
        if name != TCP_NODELAY && name != TCP_QUICKACK && name != TCP_USER_TIMEOUT {
            return Ok(OptAction::Ignore);
        }
        let v = match read_number(optval) {
            Ok(v) => v,
            Err(e) => return Err(e),
        };
        if name == TCP_NODELAY {
            Ok(OptAction::Nagle(v == 0))
        } else if name == TCP_QUICKACK {
            if v != 0 {
                Ok(OptAction::AckDelay(None))
            } else {
                Ok(OptAction::AckDelay(Some(DEFAULT_ACK_DELAY_MILLI_SECS)))
            }
        } else if v >= 0x8000_0000 {
            Err(SysError::new(EINVAL))
        } else {
            Ok(OptAction::Timeout(v as u64))
        }
    }

    pub fn set_sock_opt_ip(&self, name: i32, optval: &[u8]) -> (r: SysResult<OptAction>)
        ensures
            r == hop_option(*self, name, IP_MULTICAST_TTL, optval@, IP_DEFAULT_MCAST_TTL),
    {
        match *self {
            Socket::Tcp { .. } | Socket::Udp { .. } => if name == IP_MULTICAST_TTL {
                read_hops(optval, IP_DEFAULT_MCAST_TTL)
            } else {
                Ok(OptAction::Ignore)
            },
            _ => Err(SysError::new(ENOPROTOOPT)),
        }
    }

    pub fn set_sock_opt_ipv6(&self, name: i32, optval: &[u8]) -> (r: SysResult<OptAction>)
        ensures
            r == hop_option(*self, name, IPV6_MULTICAST_HOPS, optval@, IPV6_DEFAULT_MCAST_HOPS),
    {
        match *self {
            Socket::Tcp { .. } | Socket::Udp { .. } => if name == IPV6_MULTICAST_HOPS {
                read_hops(optval, IPV6_DEFAULT_MCAST_HOPS)
            } else {
                Ok(OptAction::Ignore)
            },
            _ => Err(SysError::new(ENOPROTOOPT)),
        }
    }

    pub fn get_sock_opt_socket(&self, name: i32, optlen: u32) -> (r: SysResult<OptQuery>)
        requires
            *self is Tcp || *self is Udp,
        ensures
            r == socket_query(*self, name, optlen),
    {
        let tcp = match *self {
            Socket::Tcp { .. } => true,
            _ => false,
        };
        if name == SO_KEEPALIVE && tcp {
            ask(optlen, OptQuery::KeepAlive)
        } else if name == SO_SNDBUF {
            ask(optlen, OptQuery::SendCapacity)
        } else if name == SO_RCVBUF {
            ask(optlen, OptQuery::RecvCapacity)
        } else {
            Ok(OptQuery::Zero)
        }
    }

    pub fn get_sock_opt_tcp(&self, name: i32, optlen: u32) -> (r: SysResult<OptQuery>)
        ensures
            r == tcp_query(*self, name, optlen),
    {
        match *self {
            Socket::Tcp { .. } => if name == TCP_NODELAY {
                ask(optlen, OptQuery::Nagle)
            } else if name == TCP_QUICKACK {
                ask(optlen, OptQuery::AckDelay)
            } else if name == TCP_USER_TIMEOUT {
                ask(optlen, OptQuery::Timeout)
            } else {
                Ok(OptQuery::Zero)
            },
            _ => Err(SysError::new(ENOPROTOOPT)),
        }
    }

    pub fn get_sock_opt_ip(&self, name: i32, optlen: u32) -> (r: SysResult<OptQuery>)
        ensures
            r == hop_query(*self, name, IP_MULTICAST_TTL, optlen),
    {
        match *self {
            Socket::Tcp { .. } | Socket::Udp { .. } => if name == IP_MULTICAST_TTL {
                ask(optlen, OptQuery::HopLimit)
            } else {
                Ok(OptQuery::Zero)
            },
            _ => Err(SysError::new(ENOPROTOOPT)),
        }
    }

    pub fn get_sock_opt_ipv6(&self, name: i32, optlen: u32) -> (r: SysResult<OptQuery>)
        ensures
            r == hop_query(*self, name, IPV6_MULTICAST_HOPS, optlen),
    {
        match *self {
            Socket::Tcp { .. } | Socket::Udp { .. } => if name == IPV6_MULTICAST_HOPS {
                ask(optlen, OptQuery::HopLimit)
            } else {
                Ok(OptQuery::Zero)
            },
            _ => Err(SysError::new(ENOPROTOOPT)),
        }
    }
}

/// What the network stack says of its settings for a socket.
#[derive(Debug, Clone, Copy, PartialEq, Eq, Structural)]
pub struct Settings {
    pub keep_alive: bool,
    pub send_capacity: usize,
    pub recv_capacity: usize,
    pub nagle: bool,
    /// The delay of acknowledgements in microseconds.
    pub ack_delay: Option<u64>,
    /// The time after which a connection is given up in milliseconds.
    pub timeout: Option<u64>,
    pub hop_limit: Option<u8>,
}

/// A yes or no as an application is told it.
pub open spec fn told_flag(b: bool) -> Seq<u8> {
    le(
        if b {
            1
        } else {
            0
        },
        4,
    )
}

/// The value that an application is told. Of a time it is told the milliseconds past
/// the last whole second.
pub open spec fn answer(q: OptQuery, s: Settings) -> Seq<u8> {
    match q {
        OptQuery::Zero => le(0, 4),
        OptQuery::KeepAlive => told_flag(s.keep_alive),
        OptQuery::SendCapacity => told_size(s.send_capacity as int),
        OptQuery::RecvCapacity => told_size(s.recv_capacity as int),
        OptQuery::Nagle => told_flag(!s.nagle),
        OptQuery::AckDelay => told_flag(s.ack_delay is None || s.ack_delay == Some(0u64)),
        OptQuery::Timeout => le(
            match s.timeout {
                Some(t) => t as int % 1000,
                None => 0,
            },
            4,
        ),
        OptQuery::HopLimit => match s.hop_limit {
            Some(h) => seq![h],
            None => seq![0u8],
        },
    }
}

fn flag_bytes(b: bool) -> (v: Vec<u8>)
    ensures
        v@ == told_flag(b),
{
    if b {
        to_le(1, 4)
    } else {
        to_le(0, 4)
    }
}

/// The value that an application is told.
pub fn answer_bytes(q: OptQuery, s: &Settings) -> (v: Vec<u8>)
    ensures
        v@ == answer(q, *s),
{
    match q {
        OptQuery::Zero => to_le(0, 4),
        OptQuery::KeepAlive => flag_bytes(s.keep_alive),
        OptQuery::SendCapacity => size_bytes(s.send_capacity),
        OptQuery::RecvCapacity => size_bytes(s.recv_capacity),
        OptQuery::Nagle => flag_bytes(!s.nagle),
        OptQuery::AckDelay => match s.ack_delay {
            Some(d) => flag_bytes(d == 0),
            None => flag_bytes(true),
        },
        OptQuery::Timeout => match s.timeout {
            Some(t) => to_le(t % 1000, 4),
            None => to_le(0, 4),
        },
        OptQuery::HopLimit => {
            let mut v: Vec<u8> = Vec::new();
            match s.hop_limit {
                Some(h) => v.push(h),
                None => v.push(0),
            }
            assert(v@ =~= answer(q, *s));
            v
        },
    }
}

/// The network stack has taken in what was to be set.
pub open spec fn took_in(s: Settings, a: OptAction) -> bool {
    match a {
        OptAction::KeepAlive(secs) => s.keep_alive == (secs is Some),
        OptAction::Nagle(on) => s.nagle == on,
        OptAction::AckDelay(Some(millis)) => s.ack_delay == Some((1000 * millis) as u64),
        OptAction::AckDelay(None) => s.ack_delay is None,
        OptAction::Timeout(millis) => s.timeout == Some(millis),
        OptAction::HopLimit(hops) => s.hop_limit == Some(hops),
        _ => true,
    }
}

/// The number of hops that was set is the one that is told, in one byte, where there
/// is room for four. The number -1 stands for the default.
pub proof fn hop_limit_is_told(
    s: Socket,
    name: i32,
    v: Seq<u8>,
    default: u8,
    len: u32,
    settings: Settings,
)
    requires
        s is Tcp || s is Udp,
        v.len() >= 4,
        -1 <= signed(number(v)) <= 255,
        hop_option(s, name, name, v, default) matches Ok(a) ==> took_in(settings, a),
    ensures
        hop_option(s, name, name, v, default) is Ok,
        match hop_query(s, name, name, len) {
            Err(e) => len < 4 && e == sys(EINVAL),
            Ok(q) => len >= 4 && answer(q, settings) == seq![
                if signed(number(v)) == -1 {
                    default
                } else {
                    number(v) as u8
                },
            ],
        },
{
    lemma_number_bound(v);
    let hops = if signed(number(v)) == -1 {
        default
    } else {
        number(v) as u8
    };
    assert(hop_option(s, name, name, v, default) == Ok::<OptAction, SysError>(
        OptAction::HopLimit(hops),
    ));
    assert(answer(OptQuery::HopLimit, settings) =~= seq![hops]);
}

/// What was set for a stream is what is told of it: whether small packets are sent at
/// once, whether what comes is acknowledged at once, and the time after which a
/// connection is given up, as far as it goes past a whole second.
pub proof fn stream_option_is_told(
    s: Socket,
    name: i32,
    v: Seq<u8>,
    len: u32,
    settings: Settings,
)
    requires
        s is Tcp,
        v.len() >= 4,
        len >= 4,
        name == TCP_NODELAY || name == TCP_QUICKACK || name == TCP_USER_TIMEOUT && signed(number(v))
            >= 0,
        tcp_option(s, name, v) matches Ok(a) ==> took_in(settings, a),
    ensures
        tcp_option(s, name, v) is Ok,
        match tcp_query(s, name, len) {
            Err(_) => false,
            Ok(q) => answer(q, settings) == (if name == TCP_USER_TIMEOUT {
                le(number(v) % 1000, 4)
            } else {
                told_flag(number(v) != 0)
            }),
        },
{
    lemma_number_bound(v);
}

/// Whether a connection is probed is told as it was set.
pub proof fn keep_alive_is_told(s: Socket, v: Seq<u8>, len: u32, settings: Settings)
    requires
        s is Tcp,
        v.len() >= 4,
        len >= 4,
        socket_option(s, SO_KEEPALIVE, v) matches Ok(a) ==> took_in(settings, a),
    ensures
        socket_option(s, SO_KEEPALIVE, v) is Ok,
        match socket_query(s, SO_KEEPALIVE, len) {
            Err(_) => false,
            Ok(q) => answer(q, settings) == told_flag(number(v) != 0),
        },
{
}

proof fn lemma_number_bound(v: Seq<u8>)
    requires
        v.len() >= 4,
    ensures
        0 <= number(v) < 0x1_0000_0000,
{
    reveal_with_fuel(le_value, 5);
    let s = v.subrange(0, 4);
    assert(s.skip(1).skip(1).skip(1).skip(1).len() == 0);
}

} // verus!
