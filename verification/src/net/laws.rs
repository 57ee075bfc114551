use vstd::prelude::*;

use crate::bytes::{be, be_gives_back, le, le_gives_back, le_value, lemma_le_len, pow256};
use crate::errno::{SysError, SysResult};
use crate::net::endpoint::{
    at_most, complete, family_of, names_endpoint, path_part, sockaddr_in, Endpoint, IpAddress,
    IpEndpoint,
};
use crate::net::options::{
    answer, host_option, hops_of, number, socket_option, tcp_option, told_flag, OptAction,
    OptQuery, Settings,
};
use crate::net::socket::{kind_of, Socket, SocketKind, SocketStep};
use crate::net::wait::{datagram_events, stream_events, told_size, waits, Flow, WaitStep};

verus! {

/// A stream connects to where it is told to, from the endpoint that it is bound to, or
/// from a port that nothing else uses, which is then in use.
pub proof fn stream_connects_from_its_own_port(
    handle: u64,
    was: IpEndpoint,
    remote: IpEndpoint,
    after: Socket,
    used: Set<u16>,
    used_after: Set<u16>,
    r: SysResult<SocketStep>,
)
    requires
        (Socket::Tcp { handle, local_endpoint: was }).connects(
            Endpoint::Ip(remote),
            after,
            used,
            used_after,
            r,
        ),
    ensures
        match r {
            Ok(SocketStep::ConnectTcp { handle: h, remote: to, local }) => {
                &&& h == handle
                &&& to == remote
                &&& after == (Socket::Tcp { handle, local_endpoint: local })
                &&& was.specified() ==> local == was && used_after == used
                &&& !was.specified() ==> {
                    &&& local.port >= 49152
                    &&& local.addr is Unspecified
                    &&& !used.contains(local.port)
                    &&& forall|p: u16| #[trigger]
                        used_after.contains(p) == (used.contains(p) || p == local.port)
                }
            },
            _ => false,
        },
{
}

/// A stream that was bound connects from where it was bound to.
pub proof fn bound_stream_connects_from_there(
    s: Socket,
    bound: Socket,
    after: Socket,
    e: IpEndpoint,
    remote: IpEndpoint,
    used: Set<u16>,
    used_after: Set<u16>,
    b: SysResult<SocketStep>,
    r: SysResult<SocketStep>,
)
    requires
        s is Tcp,
        s.binds(Endpoint::Ip(e), bound, b),
        e.specified(),
        bound.connects(Endpoint::Ip(remote), after, used, used_after, r),
    ensures
        b == Ok::<SocketStep, SysError>(SocketStep::Done),
        r == Ok::<SocketStep, SysError>(
            SocketStep::ConnectTcp { handle: s->Tcp_handle, remote, local: e },
        ),
        used_after == used,
{
}

/// A socket for datagrams sends to where it was connected last, and is bound to where
/// it is told to be.
pub proof fn datagrams_go_where_connected(
    s: Socket,
    after: Socket,
    remote: IpEndpoint,
    used: Set<u16>,
    used_after: Set<u16>,
    r: SysResult<SocketStep>,
)
    requires
        s is Udp,
        s.connects(Endpoint::Ip(remote), after, used, used_after, r),
    ensures
        after.default_target() == Ok::<IpEndpoint, SysError>(remote),
        used_after == used,
        forall|e: IpEndpoint, t: Socket, b: SysResult<SocketStep>| #[trigger]
            after.binds(Endpoint::Ip(e), t, b) ==> t.default_target() == Ok::<
                IpEndpoint,
                SysError,
            >(remote) && b == Ok::<SocketStep, SysError>(
                SocketStep::BindUdp { handle: s->Udp_handle, endpoint: e },
            ),
{
}

/// A socket and an address that do not belong together are refused, and nothing changes.
pub proof fn foreign_address_is_refused(
    s: Socket,
    e: Endpoint,
    after: Socket,
    used: Set<u16>,
    used_after: Set<u16>,
    r: SysResult<SocketStep>,
)
    requires
        s is Icmp || (e is Ip) == (s is UnixDatagram || s is UnixStream),
        s.connects(e, after, used, used_after, r),
    ensures
        r matches Err(err) && err.code == 22,
        after == s,
        used_after == used,
{
}

/// The kind of a socket follows from its type: a stream, or datagrams. For both versions
/// of the protocol it is the same. A protocol that does not fit is refused.
pub proof fn kind_follows_from_type(stype: i32, protocol: i32)
    ensures
        kind_of(2, stype, protocol) == kind_of(10, stype, protocol),
        kind_of(2, stype, protocol) is Some ==> stype == 1 || stype == 2,
        kind_of(2, 1, protocol) == (if protocol == 0 || protocol == 6 {
            Some(SocketKind::Tcp)
        } else {
            None
        }),
        kind_of(2, 2, protocol) == (if protocol == 0 || protocol == 17 {
            Some(SocketKind::Udp)
        } else if protocol == 1 || protocol == 58 {
            Some(SocketKind::Icmp)
        } else {
            None
        }),
        kind_of(1, 1, 0) == Some(SocketKind::UnixStream),
        kind_of(1, 2, 0) == Some(SocketKind::UnixDatagram),
        kind_of(1, stype, 1) == kind_of(1, stype, 0),
        protocol != 0 && protocol != 1 ==> kind_of(1, stype, protocol) is None,
{
}

/// No other families have sockets.
pub proof fn other_families_have_no_sockets(domain: i32, stype: i32, protocol: i32)
    requires
        domain != 1,
        domain != 2,
        domain != 10,
    ensures
        kind_of(domain, stype, protocol) is None,
{
}

/// A new socket is for what was made for it, is bound to nothing, and has nowhere to
/// send to.
pub proof fn new_socket_is_unbound(kind: SocketKind, made: u64, fd: i32)
    ensures
        match kind.socket(made, fd) {
            Socket::UnixDatagram(f) => kind == SocketKind::UnixDatagram && f == Some(fd),
            Socket::UnixStream(f) => kind == SocketKind::UnixStream && f is None,
            Socket::Tcp { handle, local_endpoint } => kind == SocketKind::Tcp && handle == made
                && !local_endpoint.specified() && local_endpoint.port == 0,
            Socket::Udp { handle, default_endpoint } => kind == SocketKind::Udp && handle == made
                && default_endpoint is None,
            Socket::Icmp(handle) => kind == SocketKind::Icmp && handle == made,
        },
        kind.socket(made, fd).default_target() matches Err(e) && e.code == 22,
{
}

/// A stream can be read if it was asked whether it can and more may come, and can be
/// written to if it was asked whether it can and more may go. It has no other events.
pub proof fn stream_events_are_right(mask: u64, f: Flow)
    ensures
        (stream_events(mask, f) & 0x41 == 0x41) == (mask & 0x41 != 0 && f.may_recv),
        (stream_events(mask, f) & 0x104 == 0x104) == (mask & 0x104 != 0 && f.may_send),
        !(mask & 0x41 != 0 && f.may_recv) ==> stream_events(mask, f) & 0x41 == 0,
        !(mask & 0x104 != 0 && f.may_send) ==> stream_events(mask, f) & 0x104 == 0,
        stream_events(mask, f) & !0x145u64 == 0,
{
    assert((0x41u64 | 0x104u64) == 0x145u64) by (bit_vector);
    assert((0x41u64 | 0u64) == 0x41u64 && (0u64 | 0x104u64) == 0x104u64 && (0u64 | 0u64) == 0u64)
        by (bit_vector);
    assert(0x145u64 & 0x41 == 0x41 && 0x145u64 & 0x104 == 0x104 && 0x145u64 & !0x145u64 == 0)
        by (bit_vector);
    assert(0x41u64 & 0x41 == 0x41 && 0x41u64 & 0x104 == 0 && 0x41u64 & !0x145u64 == 0)
        by (bit_vector);
    assert(0x104u64 & 0x41 == 0 && 0x104u64 & 0x104 == 0x104 && 0x104u64 & !0x145u64 == 0)
        by (bit_vector);
    assert(0u64 & 0x41 == 0 && 0u64 & 0x104 == 0 && 0u64 & !0x145u64 == 0) by (bit_vector);
}

/// A socket for datagrams can always be written to, and can be read if one has come.
pub proof fn datagram_events_are_right(mask: u64, f: Flow)
    ensures
        datagram_events(mask, f) & 0x104 == mask & 0x104,
        (datagram_events(mask, f) & 0x41 == 0x41) == (mask & 0x41 != 0 && f.can_recv),
        !(mask & 0x41 != 0 && f.can_recv) ==> datagram_events(mask, f) & 0x41 == 0,
        datagram_events(mask, f) & !0x145u64 == 0,
{
    assert(((mask & 0x104) | 0x41u64) & 0x104 == mask & 0x104 && ((mask & 0x104) | 0u64) & 0x104
        == mask & 0x104) by (bit_vector);
    assert(((mask & 0x104) | 0x41u64) & 0x41 == 0x41 && ((mask & 0x104) | 0u64) & 0x41 == 0)
        by (bit_vector);
    assert(((mask & 0x104) | 0x41u64) & !0x145u64 == 0 && ((mask & 0x104) | 0u64) & !0x145u64 == 0)
        by (bit_vector);
}

/// A socket that is not blocked goes on. One that is waits, unless it may not, and then
/// asks to be tried again.
pub proof fn blocked_socket_waits(blocked: bool, non_blocking: bool, first: bool)
    ensures
        match waits(blocked, non_blocking, first) {
            WaitStep::Go => !blocked,
            WaitStep::Wait { once } => blocked && !non_blocking && once == first,
            WaitStep::Fail(e) => blocked && non_blocking && e.code == 11,
        },
{
}

/// An application is told sizes as they are as far as four bytes with a sign can hold
/// them, and flags as one or zero.
pub proof fn told_values_are_right(n: int, b: bool)
    requires
        0 <= n,
    ensures
        told_size(n).len() == 4,
        le_value(told_size(n)) == (if n <= 0x7fff_ffff {
            n
        } else {
            0x7fff_ffff
        }),
        told_flag(b).len() == 4,
        le_value(told_flag(b)) == (if b {
            1int
        } else {
            0
        }),
{
    reveal_with_fuel(pow256, 5);
    let m = if n <= 0x7fff_ffff {
        n
    } else {
        0x7fff_ffff
    };
    le_gives_back(m, 4);
    lemma_le_len(m, 4);
    le_gives_back(0, 4);
    le_gives_back(1, 4);
    lemma_le_len(0, 4);
    lemma_le_len(1, 4);
}

/// What is asked of the network stack is told from its setting of the same name.
pub proof fn answers_are_from_their_settings(s: Settings)
    ensures
        le_value(answer(OptQuery::KeepAlive, s)) == (if s.keep_alive {
            1int
        } else {
            0
        }),
        le_value(answer(OptQuery::Nagle, s)) == (if s.nagle {
            0int
        } else {
            1
        }),
        s.send_capacity <= 0x7fff_ffff ==> le_value(answer(OptQuery::SendCapacity, s))
            == s.send_capacity,
        s.recv_capacity <= 0x7fff_ffff ==> le_value(answer(OptQuery::RecvCapacity, s))
            == s.recv_capacity,
        le_value(answer(OptQuery::Zero, s)) == 0,
        s.ack_delay matches Some(d) ==> le_value(answer(OptQuery::AckDelay, s)) == (if d == 0 {
            1int
        } else {
            0
        }),
        s.hop_limit matches Some(h) ==> answer(OptQuery::HopLimit, s).len() == 1 && answer(
            OptQuery::HopLimit,
            s,
        )[0] == h,
{
    told_values_are_right(s.send_capacity as int, s.keep_alive);
    told_values_are_right(s.recv_capacity as int, !s.nagle);
    told_values_are_right(0, s.ack_delay is None || s.ack_delay == Some(0u64));
    reveal_with_fuel(pow256, 5);
    le_gives_back(0, 4);
}

/// A number that is not zero turns an option on, and zero turns it off. Connections are
/// then probed after two hours, and acknowledgements held back for 40 milliseconds.
pub proof fn numbers_turn_options_on(s: Socket, v: Seq<u8>)
    requires
        s is Tcp,
        v.len() >= 4,
    ensures
        socket_option(s, 9, v) == Ok::<OptAction, SysError>(
            OptAction::KeepAlive(
                if number(v) == 0 {
                    None
                } else {
                    Some(7200)
                },
            ),
        ),
        tcp_option(s, 1, v) == Ok::<OptAction, SysError>(OptAction::Nagle(number(v) == 0)),
        tcp_option(s, 12, v) == Ok::<OptAction, SysError>(
            OptAction::AckDelay(
                if number(v) == 0 {
                    Some(40)
                } else {
                    None
                },
            ),
        ),
{
}

/// The number of hops is that of the value, or the default for -1, and any other number
/// that no byte holds is refused.
pub proof fn hops_are_a_byte(v: Seq<u8>, default: u8)
    requires
        v.len() >= 4,
        0 <= number(v) < 0x1_0000_0000,
    ensures
        match hops_of(v, default) {
            Ok(a) => a matches OptAction::HopLimit(h) && (h == number(v) || (number(v)
                == 0xffff_ffff && h == default)),
            Err(e) => e.code == 22 && 255 < number(v) < 0xffff_ffff,
        },
        number(v) <= 255 ==> hops_of(v, default) is Ok,
        number(v) == 0xffff_ffff ==> hops_of(v, default) is Ok,
{
}

/// A socket of the host is told the options that are set for it, under its own
/// descriptor. Of times, that for reading is not that for writing.
pub proof fn host_options_are_passed_on(fd: i32, name: i32, v: Seq<u8>)
    ensures
        match host_option(fd, name, v) {
            Ok(OptAction::PassCred { fd: f, on }) => name == 16 && f == fd && v.len() >= 4 && on == (
            number(v) != 0),
            Ok(OptAction::ReadTimeout { fd: f, micros }) => name == 20 && f == fd && v.len() >= 16,
            Ok(OptAction::WriteTimeout { fd: f, micros }) => name == 21 && f == fd && v.len() >= 16,
            Ok(a) => a is Ignore && name != 16 && name != 20 && name != 21,
            Err(e) => (name == 16 || name == 20 || name == 21) && (e.code == 22 && v.len() < 16
                || e.code == 33 && v.len() >= 16),
        },
        match (host_option(fd, 20, v), host_option(fd, 21, v)) {
            (
                Ok(OptAction::ReadTimeout { micros: a, .. }),
                Ok(OptAction::WriteTimeout { micros: b, .. }),
            ) => a == b,
            (Err(a), Err(b)) => a == b,
            _ => false,
        },
{
}

/// The bytes of an address of the fourth version: its family, its port with the high
/// byte first, and the address.
pub proof fn address_bytes_are_laid_out(b: [u8; 4], port: u16)
    ensures
        ({
            let s = sockaddr_in(b@, port);
            &&& s.len() == 16
            &&& s[0] == 2 && s[1] == 0
            &&& s[2] == port / 256 && s[3] == port % 256
            &&& s[4] == b@[0] && s[5] == b@[1] && s[6] == b@[2] && s[7] == b@[3]
            &&& forall|i: int| 8 <= i < 16 ==> #[trigger] s[i] == 0
        }),
{
    reveal_with_fuel(le, 9);
    let s = sockaddr_in(b@, port);
    lemma_le_len(2, 2);
    lemma_le_len(port as int, 2);
    lemma_le_len(0, 8);
    let p = le(port as int, 2);
    assert(p[0] == port % 256);
    assert(p[1] == port / 256);
    assert(s[2] == p[1] && s[3] == p[0]);
    assert forall|i: int| 8 <= i < 16 implies #[trigger] s[i] == 0 by {
        lemma_zero_bytes(8, i - 8);
        assert(s[i] == le(0, 8)[i - 8]);
    }
}

proof fn lemma_zero_bytes(n: nat, i: int)
    requires
        0 <= i < n,
    ensures
        le(0, n).len() == n,
        le(0, n)[i] == 0,
    decreases n,
{
    lemma_le_len(0, n);
    if i > 0 {
        lemma_zero_bytes((n - 1) as nat, i - 1);
        assert(le(0, n)[i] == le(0, (n - 1) as nat)[i - 1]);
    }
}

/// The bytes of an address of the sixth version stand for the address and the port that
/// they hold, whatever else they hold.
pub proof fn long_address_bytes_give_back(b: [u8; 16], port: u16, flow: Seq<u8>, rest: Seq<u8>)
    requires
        flow.len() == 4,
        rest.len() >= 4,
    ensures
        ({
            let s = seq![10u8, 0u8] + be(port as int, 2) + flow + b@ + rest;
            complete(s) && family_of(s) == 10 && names_endpoint(
                s,
                Endpoint::Ip(IpEndpoint { addr: IpAddress::Ipv6(b), port }),
            )
        }),
{
    reveal_with_fuel(pow256, 3);
    reveal_with_fuel(le_value, 4);
    let s = seq![10u8, 0u8] + be(port as int, 2) + flow + b@ + rest;
    lemma_le_len(port as int, 2);
    be_gives_back(port as int, 2);
    assert(s.subrange(0, 2) =~= seq![10u8, 0u8]);
    let f = seq![10u8, 0u8];
    assert(f.skip(1) =~= seq![0u8]);
    assert(f.skip(1).skip(1) =~= Seq::<u8>::empty());
    assert(s.subrange(2, 4) =~= be(port as int, 2));
    assert(s.subrange(8, 24) =~= b@);
}

/// A path is all that comes before the first zero.
pub proof fn path_ends_at_zero(s: Seq<u8>)
    ensures
        path_part(s).len() <= s.len(),
        forall|i: int| 0 <= i < path_part(s).len() ==> #[trigger] path_part(s)[i] == s[i],
        forall|i: int| 0 <= i < path_part(s).len() ==> #[trigger] path_part(s)[i] != 0,
        path_part(s).len() < s.len() ==> s[path_part(s).len() as int] == 0,
    decreases s.len(),
{
    if s.len() > 0 && s[0] != 0 {
        let t = s.skip(1);
        let p = path_part(t);
        path_ends_at_zero(t);
        assert forall|i: int| 0 <= i < path_part(s).len() implies #[trigger] path_part(s)[i] == s[i]
            && s[i] != 0 by {
            if i > 0 {
                assert(path_part(s)[i] == p[i - 1]);
                assert(t[i - 1] == s[i]);
            }
        }
    }
}

/// An address is told from its start, as far as there is room.
pub proof fn told_address_is_a_start(s: Seq<u8>, n: int)
    requires
        0 <= n,
    ensures
        at_most(s, n).len() <= n,
        at_most(s, n).len() == n || at_most(s, n).len() == s.len(),
        forall|i: int| 0 <= i < at_most(s, n).len() ==> #[trigger] at_most(s, n)[i] == s[i],
{
}

/// A stream that was bound listens at the port it was bound to and says so. One that was
/// not listens at a port that nothing else uses. Nothing but a stream can listen.
pub proof fn stream_listens_where_bound(
    s: Socket,
    after: Socket,
    used: Set<u16>,
    used_after: Set<u16>,
    r: SysResult<(u64, u16)>,
    bound: IpEndpoint,
)
    requires
        s.listens(after, used, used_after, r),
    ensures
        r is Ok == s is Tcp,
        r matches Ok(x) ==> after is Tcp && x.0 == s->Tcp_handle && after->Tcp_handle
            == s->Tcp_handle && x.1 == after.placed_at(bound).port,
        r is Ok && s->Tcp_local_endpoint.specified() ==> after == s && used_after == used && r->Ok_0.1
            == s->Tcp_local_endpoint.port,
        r is Ok && !s->Tcp_local_endpoint.specified() ==> 49152 <= r->Ok_0.1 && !used.contains(
            r->Ok_0.1,
        ) && used_after.contains(r->Ok_0.1),
        r is Err ==> r->Err_0.code == 95 && after == s && used_after == used,
{
}

/// A stream is where it was bound to, and any other socket where the network stack has it.
pub proof fn bound_socket_tells_where(
    s: Socket,
    after: Socket,
    e: IpEndpoint,
    r: SysResult<SocketStep>,
    bound: IpEndpoint,
)
    requires
        s.binds(Endpoint::Ip(e), after, r),
    ensures
        s is Tcp ==> after.placed_at(bound) == e,
        s is Udp ==> after.placed_at(bound) == bound,
{
}

/// A datagram goes where it is told to, or else where its socket was connected to. It does
/// not go to a path.
pub proof fn datagram_goes_where_told(s: Socket, to: Endpoint)
    ensures
        to matches Endpoint::Ip(e) ==> s.sends_to(Some(to)) == Ok::<IpEndpoint, SysError>(e),
        to is Unix ==> s.sends_to(Some(to)) is Err && s.sends_to(Some(to))->Err_0.code == 22,
        s.sends_to(None) == s.default_target(),
{
}

} // verus!
