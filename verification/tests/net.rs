use sentinel::errno::{SysError, EAGAIN, EDOM, EINVAL, ENOPROTOOPT, EOPNOTSUPP};
use sentinel::net::endpoint::{
    socket_addr_bytes, truncate_path, write_socket_addr, AF_INET, AF_INET6, AF_UNIX,
};
use sentinel::net::options::{
    answer_bytes, IPV6_MULTICAST_HOPS, IP_MULTICAST_TTL, SO_KEEPALIVE, SO_PASSCRED, SO_RCVBUF,
    SO_RCVTIMEO, SO_SNDBUF, SO_SNDTIMEO, TCP_NODELAY, TCP_QUICKACK, TCP_USER_TIMEOUT,
};
use sentinel::net::ports::{FIRST_LOCAL_PORT, LOCAL_PORTS};
use sentinel::net::socket::{
    port_to_bind, IPPROTO_ICMP, IPPROTO_TCP, IPPROTO_UDP, POLL_READABLE_EVENTS, POLL_WRITABLE_EVENTS, SOCK_DGRAM,
    SOCK_STREAM,
};
use sentinel::net::wait::{
    connected, poll_step, polled, size_bytes, tcp_recv_step, tcp_send_step, udp_recv_step,
    udp_send_step, udp_sent, PollResult, PollStep, Sent, WaitStep, TIOCINQ,
};
use sentinel::net::{
    address_and_family, Endpoint, Flow, IpAddress, IpEndpoint, LocalPorts, OptAction, OptQuery,
    Settings, Socket, SocketKind, SocketStep,
};

const V4: IpEndpoint = IpEndpoint {
    addr: IpAddress::Ipv4([10, 0, 0, 1]),
    port: 8080,
};

const NONE: IpEndpoint = IpEndpoint {
    addr: IpAddress::Unspecified,
    port: 0,
};

fn v4_bytes() -> Vec<u8> {
    socket_addr_bytes(&V4).unwrap()
}

fn unix_bytes(path: &[u8]) -> Vec<u8> {
    let mut v = vec![1, 0];
    v.extend_from_slice(path);
    v
}

fn tcp() -> Socket {
    Socket::new(SocketKind::Tcp, 7, -1)
}

fn udp() -> Socket {
    Socket::new(SocketKind::Udp, 8, -1)
}

fn unix() -> Socket {
    Socket::new(SocketKind::UnixDatagram, 0, 5)
}

#[test]
fn address_bytes_stand_for_their_endpoint() {
    let bytes = v4_bytes();
    assert_eq!(bytes, vec![2, 0, 0x1f, 0x90, 10, 0, 0, 1, 0, 0, 0, 0, 0, 0, 0, 0]);
    match address_and_family(&bytes) {
        Ok((Endpoint::Ip(e), family)) => {
            assert_eq!(e, V4);
            assert_eq!(family as i32, AF_INET);
        }
        _ => panic!("not an address"),
    }
    assert_eq!(socket_addr_bytes(&NONE), Err(SysError::new(EINVAL)));
}

#[test]
fn addresses_of_the_sixth_version_are_understood() {
    let mut bytes = vec![10, 0, 0, 80, 0, 0, 0, 0];
    bytes.extend_from_slice(&[0xfe, 0x80, 0, 0, 0, 0, 0, 0, 0, 0, 0, 0, 0, 0, 0, 2]);
    bytes.extend_from_slice(&[0; 4]);
    match address_and_family(&bytes) {
        Ok((Endpoint::Ip(e), family)) => {
            assert_eq!(e.port, 80);
            assert!(!e.addr.is_unspecified());
            assert_eq!(family as i32, AF_INET6);
            assert!(e.is_specified());
        }
        _ => panic!("not an address"),
    }
}

#[test]
fn paths_end_at_a_zero() {
    assert_eq!(truncate_path(b"abc\0def"), b"abc");
    assert_eq!(truncate_path(b"abc"), b"abc");
    match address_and_family(&unix_bytes(b"/tmp/s\0junk")) {
        Ok((Endpoint::Unix(path), family)) => {
            assert_eq!(path, "/tmp/s");
            assert_eq!(family as i32, AF_UNIX);
        }
        _ => panic!("not a path"),
    }
    assert_eq!(
        address_and_family(&unix_bytes(&[0xff, 0xfe])).err(),
        Some(SysError::new(EINVAL))
    );
    assert_eq!(
        address_and_family(&[1]).err(),
        Some(SysError::new(EINVAL))
    );
    assert_eq!(
        address_and_family(&[99, 0, 0]).err(),
        Some(SysError::new(EINVAL))
    );
}

#[test]
fn addresses_are_told_as_far_as_there_is_room() {
    let bytes = v4_bytes();
    let (told, length) = write_socket_addr(&bytes, 4);
    assert_eq!(told, bytes[..4].to_vec());
    assert_eq!(length, vec![16, 0, 0, 0]);
    assert_eq!(write_socket_addr(&bytes, 100).0, bytes);
}

#[test]
fn local_ports_are_used_once() {
    let mut ports = LocalPorts::new();
    let mut got = Vec::new();
    for _ in 0..1000 {
        let p = ports.gen_local_port();
        assert!(p >= FIRST_LOCAL_PORT);
        assert!(p - FIRST_LOCAL_PORT < LOCAL_PORTS);
        assert!(!got.contains(&p));
        got.push(p);
    }
    assert!(got.iter().any(|p| *p != got[0] + 1 && *p != got[0]));
    assert!(ports.remove_local_port(got[0]));
    assert!(!ports.remove_local_port(got[0]));
    assert_eq!(ports.take_port(got[0] - FIRST_LOCAL_PORT), Some(got[0]));
    assert_eq!(ports.take_port(got[0] - FIRST_LOCAL_PORT), None);
}

#[test]
fn sockets_are_of_a_kind() {
    assert_eq!(
        SocketKind::new(AF_INET, SOCK_STREAM, 0),
        Ok(SocketKind::Tcp)
    );
    assert_eq!(
        SocketKind::new(AF_INET6, SOCK_STREAM, IPPROTO_TCP),
        Ok(SocketKind::Tcp)
    );
    assert_eq!(
        SocketKind::new(AF_INET, SOCK_DGRAM, IPPROTO_UDP),
        Ok(SocketKind::Udp)
    );
    assert_eq!(
        SocketKind::new(AF_INET, SOCK_DGRAM, IPPROTO_ICMP),
        Ok(SocketKind::Icmp)
    );
    assert_eq!(
        SocketKind::new(AF_UNIX, SOCK_DGRAM, 0),
        Ok(SocketKind::UnixDatagram)
    );
    assert_eq!(
        SocketKind::new(AF_UNIX, SOCK_STREAM, 0),
        Ok(SocketKind::UnixStream)
    );
    let e = Err(SysError::new(EINVAL));
    assert_eq!(SocketKind::new(AF_UNIX, SOCK_STREAM, 5), e);
    assert_eq!(SocketKind::new(AF_INET, SOCK_STREAM, IPPROTO_UDP), e);
    assert_eq!(SocketKind::new(AF_INET, SOCK_DGRAM, IPPROTO_TCP), e);
    assert_eq!(SocketKind::new(99, SOCK_STREAM, 0), e);
    assert_eq!(AF_INET, libc::AF_INET);
    assert_eq!(AF_INET6, libc::AF_INET6);
    assert_eq!((SOCK_STREAM, SOCK_DGRAM), (libc::SOCK_STREAM, libc::SOCK_DGRAM));
}

#[test]
fn streams_start_from_a_free_port() {
    let mut ports = LocalPorts::new();
    let mut s = tcp();
    match s.connect(&v4_bytes(), AF_INET, &mut ports) {
        Ok(SocketStep::ConnectTcp {
            handle,
            remote,
            local,
        }) => {
            assert_eq!(handle, 7);
            assert_eq!(remote, V4);
            assert!(local.port >= FIRST_LOCAL_PORT);
            assert_eq!(s.local_endpoint(NONE), local);
        }
        _ => panic!("no connection"),
    }
    assert_eq!(ports.used_ports.len(), 1);
    assert_eq!(
        s.connect(&v4_bytes(), AF_INET6, &mut ports).err(),
        Some(SysError::new(EINVAL))
    );
    assert_eq!(s.remote_endpoint(V4), Some(V4));
}

#[test]
fn bound_streams_start_where_they_are_bound() {
    let mut ports = LocalPorts::new();
    let mut s = tcp();
    assert!(matches!(s.bind(&v4_bytes(), AF_INET), Ok(SocketStep::Done)));
    assert_eq!(s.local_endpoint(NONE), V4);
    assert_eq!(s.listen(&mut ports), Ok((7, 8080)));
    assert!(ports.used_ports.is_empty());
    assert_eq!(udp().listen(&mut ports), Err(SysError::new(EOPNOTSUPP)));
}

#[test]
fn datagrams_go_where_they_are_sent() {
    let mut ports = LocalPorts::new();
    let mut s = udp();
    assert_eq!(s.message_target(None), Err(SysError::new(EINVAL)));
    assert!(s.connect(&v4_bytes(), AF_INET, &mut ports).is_ok());
    assert_eq!(s.message_target(None), Ok(V4));
    assert_eq!(s.write_target(NONE), Ok(V4));
    let other = IpEndpoint { port: 9, ..V4 };
    assert_eq!(s.write_target(other), Ok(other));
    assert_eq!(s.message_target(Some(&Endpoint::Ip(other))), Ok(other));
    assert_eq!(
        s.message_target(Some(&Endpoint::Unix("x".to_string()))),
        Err(SysError::new(EINVAL))
    );
    assert_eq!(s.remote_endpoint(NONE), Some(V4));
    assert!(matches!(
        s.bind(&v4_bytes(), AF_INET),
        Ok(SocketStep::BindUdp { handle: 8, .. })
    ));
}

#[test]
fn host_sockets_connect_to_paths() {
    let mut ports = LocalPorts::new();
    let mut s = unix();
    match s.connect(&unix_bytes(b"/s"), AF_UNIX, &mut ports) {
        Ok(SocketStep::ConnectDatagram { fd, path }) => {
            assert_eq!(fd, 5);
            assert_eq!(path, "/s");
        }
        _ => panic!("no connection"),
    }
    assert!(matches!(
        s.bind(&unix_bytes(b"/s"), AF_UNIX),
        Ok(SocketStep::BindDatagram { .. })
    ));
    assert_eq!(
        s.bind(&v4_bytes(), AF_INET).err(),
        Some(SysError::new(EINVAL))
    );
    let mut s = Socket::new(SocketKind::UnixStream, 0, 5);
    assert!(matches!(
        s.connect(&unix_bytes(b"/s"), AF_UNIX, &mut ports),
        Ok(SocketStep::ConnectStream { .. })
    ));
    s.set_fd(9);
    assert!(matches!(s, Socket::UnixStream(Some(9))));
}

const FLOW: Flow = Flow {
    may_recv: true,
    may_send: true,
    can_recv: false,
    can_send: false,
};

#[test]
fn sockets_are_ready() {
    let all = POLL_READABLE_EVENTS | POLL_WRITABLE_EVENTS;
    assert_eq!(tcp().readiness(all, FLOW), Some(all));
    let closed = Flow {
        may_recv: false,
        ..FLOW
    };
    assert_eq!(tcp().readiness(all, closed), Some(POLL_WRITABLE_EVENTS));
    assert_eq!(udp().readiness(all, FLOW), Some(POLL_WRITABLE_EVENTS));
    assert_eq!(
        udp().readiness(POLL_READABLE_EVENTS, FLOW),
        Some(0)
    );
    assert_eq!(unix().readiness(all, FLOW), None);
    assert_eq!(polled(-1, true, 0, 3), PollResult::Again);
    assert_eq!(polled(-1, false, 0, 3), PollResult::Events(3));
    assert_eq!(polled(0, false, 1, 3), PollResult::Events(0));
    assert_eq!(polled(1, false, 0xffff, 3), PollResult::Events(0x15f));
}

#[test]
fn what_blocks_waits_or_fails() {
    let again = WaitStep::Fail(SysError::new(EAGAIN));
    assert_eq!(tcp_recv_step(FLOW, true, true), again);
    assert_eq!(tcp_recv_step(FLOW, false, true), WaitStep::Wait { once: true });
    let ready = Flow {
        can_recv: true,
        can_send: true,
        ..FLOW
    };
    assert_eq!(tcp_recv_step(ready, true, true), WaitStep::Go);
    let closed = Flow {
        may_recv: false,
        may_send: false,
        ..FLOW
    };
    assert_eq!(tcp_recv_step(closed, false, true), WaitStep::Go);
    assert_eq!(tcp_send_step(closed, false, true), WaitStep::Go);
    assert_eq!(tcp_send_step(FLOW, true, true), again);
    assert_eq!(udp_recv_step(FLOW, true, true), again);
    assert_eq!(udp_send_step(ready, true, true), WaitStep::Go);
    assert_eq!(udp_send_step(FLOW, false, true), WaitStep::Wait { once: true });
    let later = WaitStep::Wait { once: false };
    assert_eq!(tcp_recv_step(FLOW, false, false), later);
    assert_eq!(tcp_send_step(FLOW, false, false), later);
    assert_eq!(udp_recv_step(FLOW, false, false), later);
    assert_eq!(udp_send_step(FLOW, false, false), later);
    assert_eq!(udp_recv_step(FLOW, true, false), again);
    assert_eq!(udp_sent(Sent::Done, 5, true), Some(Ok(5)));
    assert_eq!(udp_sent(Sent::Exhausted, 5, false), None);
    assert_eq!(
        udp_sent(Sent::Exhausted, 5, true),
        Some(Err(SysError::new(EAGAIN)))
    );
}

#[test]
fn options_are_set() {
    let on = [1, 0, 0, 0];
    let off = [0, 0, 0, 0];
    let short = [1, 0];
    let invalid = Err(SysError::new(EINVAL));
    let t = tcp();
    assert_eq!(
        t.set_sock_opt_socket(SO_KEEPALIVE, &on),
        Ok(OptAction::KeepAlive(Some(7200)))
    );
    assert_eq!(
        t.set_sock_opt_socket(SO_KEEPALIVE, &off),
        Ok(OptAction::KeepAlive(None))
    );
    assert_eq!(t.set_sock_opt_socket(SO_KEEPALIVE, &short), invalid);
    assert_eq!(t.set_sock_opt_socket(12345, &on), Ok(OptAction::Ignore));
    assert_eq!(
        t.set_sock_opt_tcp(TCP_NODELAY, &on),
        Ok(OptAction::Nagle(false))
    );
    assert_eq!(
        t.set_sock_opt_tcp(TCP_QUICKACK, &off),
        Ok(OptAction::AckDelay(Some(40)))
    );
    assert_eq!(
        t.set_sock_opt_tcp(TCP_USER_TIMEOUT, &[10, 1, 0, 0]),
        Ok(OptAction::Timeout(266))
    );
    assert_eq!(
        t.set_sock_opt_tcp(TCP_USER_TIMEOUT, &[0xff; 4]),
        invalid
    );
    assert_eq!(
        udp().set_sock_opt_tcp(TCP_NODELAY, &on),
        Err(SysError::new(ENOPROTOOPT))
    );
    assert_eq!(
        t.set_sock_opt_ip(IP_MULTICAST_TTL, &[0xff; 4]),
        Ok(OptAction::HopLimit(1))
    );
    assert_eq!(
        t.set_sock_opt_ip(IP_MULTICAST_TTL, &[0, 1, 0, 0]),
        invalid
    );
    assert_eq!(
        udp().set_sock_opt_ipv6(IPV6_MULTICAST_HOPS, &[9, 0, 0, 0]),
        Ok(OptAction::HopLimit(9))
    );
    assert_eq!(
        unix().set_sock_opt_ipv6(IPV6_MULTICAST_HOPS, &on),
        Err(SysError::new(ENOPROTOOPT))
    );
}

#[test]
fn options_of_host_sockets_are_set() {
    let s = unix();
    assert_eq!(
        s.set_sock_opt_socket(SO_PASSCRED, &[1, 0, 0, 0]),
        Ok(OptAction::PassCred { fd: 5, on: true })
    );
    let mut time = [0; 16];
    time[0] = 2;
    time[8] = 3;
    assert_eq!(
        s.set_sock_opt_socket(SO_RCVTIMEO, &time),
        Ok(OptAction::ReadTimeout { fd: 5, micros: 5 })
    );
    assert_eq!(
        s.set_sock_opt_socket(SO_SNDTIMEO, &time),
        Ok(OptAction::WriteTimeout { fd: 5, micros: 5 })
    );
    time[11] = 1;
    assert_eq!(
        s.set_sock_opt_socket(SO_SNDTIMEO, &time),
        Err(SysError::new(EDOM))
    );
    assert_eq!(
        s.set_sock_opt_socket(SO_SNDTIMEO, &time[..8]),
        Err(SysError::new(EINVAL))
    );
    assert_eq!(
        (SO_PASSCRED, SO_RCVTIMEO, SO_SNDTIMEO, SO_KEEPALIVE),
        (
            libc::SO_PASSCRED,
            libc::SO_RCVTIMEO,
            libc::SO_SNDTIMEO,
            libc::SO_KEEPALIVE
        )
    );
    assert_eq!(
        (TCP_NODELAY, TCP_QUICKACK, TCP_USER_TIMEOUT),
        (
            libc::TCP_NODELAY,
            libc::TCP_QUICKACK,
            libc::TCP_USER_TIMEOUT
        )
    );
    assert_eq!(
        (IP_MULTICAST_TTL, IPV6_MULTICAST_HOPS),
        (libc::IP_MULTICAST_TTL, libc::IPV6_MULTICAST_HOPS)
    );
}

#[test]
fn options_are_told() {
    let settings = Settings {
        keep_alive: true,
        send_capacity: 300,
        recv_capacity: usize::MAX,
        nagle: true,
        ack_delay: None,
        timeout: Some(3258),
        hop_limit: Some(64),
    };
    let told = |q: OptQuery| answer_bytes(q, &settings);
    let t = tcp();
    let q = t.get_sock_opt_socket(SO_SNDBUF, 4).unwrap();
    assert_eq!(told(q), vec![44, 1, 0, 0]);
    let q = t.get_sock_opt_socket(SO_RCVBUF, 4).unwrap();
    assert_eq!(told(q), vec![0xff, 0xff, 0xff, 0x7f]);
    let q = t.get_sock_opt_socket(SO_KEEPALIVE, 4).unwrap();
    assert_eq!(told(q), vec![1, 0, 0, 0]);
    let q = t.get_sock_opt_tcp(TCP_NODELAY, 4).unwrap();
    assert_eq!(told(q), vec![0, 0, 0, 0]);
    let q = t.get_sock_opt_tcp(TCP_USER_TIMEOUT, 4).unwrap();
    assert_eq!(told(q), vec![2, 1, 0, 0]);
    let q = t.get_sock_opt_ip(IP_MULTICAST_TTL, 4).unwrap();
    assert_eq!(told(q), vec![64]);
    assert_eq!(
        t.get_sock_opt_socket(SO_SNDBUF, 3).err(),
        Some(SysError::new(EINVAL))
    );
    assert_eq!(size_bytes(5), vec![5, 0, 0, 0]);
}

#[test]
fn unbound_sockets_are_given_a_port() {
    let mut ports = LocalPorts::new();
    assert_eq!(port_to_bind(V4, &mut ports), None);
    assert!(ports.used_ports.is_empty());
    let unbound = IpEndpoint {
        addr: IpAddress::Unspecified,
        port: 0,
    };
    let p = port_to_bind(unbound, &mut ports).unwrap();
    assert!(p >= FIRST_LOCAL_PORT);
    assert!(ports.used_ports.contains(&p));
    let q = port_to_bind(unbound, &mut ports).unwrap();
    assert_ne!(p, q);
}

#[test]
fn bound_sockets_need_no_port() {
    let mut ports = LocalPorts::new();
    for i in 0..LOCAL_PORTS {
        assert!(ports.take_port(i).is_some());
    }
    let mut tcp = Socket::Tcp {
        handle: 3,
        local_endpoint: V4,
    };
    assert_eq!(tcp.listen(&mut ports), Ok((3, V4.port)));
    let mut udp = Socket::Udp {
        handle: 4,
        default_endpoint: None,
    };
    assert_eq!(udp.listen(&mut ports), Err(SysError::new(EOPNOTSUPP)));
}

#[test]
fn polls_are_made_once_or_until_done() {
    assert_eq!(poll_step(true, Some(false)), PollStep::Done);
    assert_eq!(poll_step(true, Some(true)), PollStep::Done);
    assert_eq!(poll_step(false, Some(false)), PollStep::Again);
    assert_eq!(poll_step(false, Some(true)), PollStep::Done);
    assert_eq!(poll_step(false, None), PollStep::Done);
}

#[test]
fn streams_are_connected_when_both_ways_are_open() {
    assert!(connected(true, true, true));
    assert!(!connected(false, true, true));
    assert!(!connected(true, false, true));
    assert!(!connected(true, true, false));
}

#[test]
fn sockets_tell_what_can_be_read() {
    assert_eq!(TIOCINQ, libc::TIOCINQ);
    assert_eq!(tcp().ioctl(TIOCINQ, Ok(260)), Ok(vec![4, 1, 0, 0]));
    assert_eq!(
        udp().ioctl(TIOCINQ, Ok(usize::MAX)),
        Ok(vec![0xff, 0xff, 0xff, 0x7f])
    );
    let e = SysError::new(EAGAIN);
    assert_eq!(udp().ioctl(TIOCINQ, Err(e)), Err(e));
}

const UNSET: Settings = Settings {
    keep_alive: false,
    send_capacity: 0,
    recv_capacity: 0,
    nagle: false,
    ack_delay: None,
    timeout: None,
    hop_limit: None,
};

fn taken_in(a: OptAction) -> Settings {
    let mut s = UNSET;
    match a {
        OptAction::KeepAlive(secs) => s.keep_alive = secs.is_some(),
        OptAction::Nagle(on) => s.nagle = on,
        OptAction::AckDelay(millis) => s.ack_delay = millis.map(|m| 1000 * m),
        OptAction::Timeout(millis) => s.timeout = Some(millis),
        OptAction::HopLimit(hops) => s.hop_limit = Some(hops),
        _ => {}
    }
    s
}

#[test]
fn hop_limits_are_told_as_they_were_set() {
    for v in [-1i32, 1, 64, 255] {
        let told = vec![if v == -1 { 1 } else { v as u8 }];
        for s in [tcp(), udp()] {
            let a = s.set_sock_opt_ip(IP_MULTICAST_TTL, &v.to_le_bytes()).unwrap();
            let q = s.get_sock_opt_ip(IP_MULTICAST_TTL, 4).unwrap();
            assert_eq!(answer_bytes(q, &taken_in(a)), told);
            assert_eq!(
                s.get_sock_opt_ip(IP_MULTICAST_TTL, 3),
                Err(SysError::new(EINVAL))
            );
            let a = s.set_sock_opt_ipv6(IPV6_MULTICAST_HOPS, &v.to_le_bytes()).unwrap();
            let q = s.get_sock_opt_ipv6(IPV6_MULTICAST_HOPS, 4).unwrap();
            assert_eq!(answer_bytes(q, &taken_in(a)), told);
        }
    }
}

#[test]
fn stream_options_are_told_as_they_were_set() {
    let t = tcp();
    for v in [0i32, 1, 7] {
        let flag = vec![(v != 0) as u8, 0, 0, 0];
        for name in [TCP_NODELAY, TCP_QUICKACK] {
            let a = t.set_sock_opt_tcp(name, &v.to_le_bytes()).unwrap();
            let q = t.get_sock_opt_tcp(name, 4).unwrap();
            assert_eq!(answer_bytes(q, &taken_in(a)), flag);
        }
        let a = t.set_sock_opt_socket(SO_KEEPALIVE, &v.to_le_bytes()).unwrap();
        let q = t.get_sock_opt_socket(SO_KEEPALIVE, 4).unwrap();
        assert_eq!(answer_bytes(q, &taken_in(a)), flag);
    }
    let a = t
        .set_sock_opt_tcp(TCP_USER_TIMEOUT, &2750i32.to_le_bytes())
        .unwrap();
    let q = t.get_sock_opt_tcp(TCP_USER_TIMEOUT, 4).unwrap();
    assert_eq!(answer_bytes(q, &taken_in(a)), 750i32.to_le_bytes().to_vec());
}

#[test]
fn addresses_of_another_domain_are_refused_first() {
    let mut ports = LocalPorts::new();
    let mut s = Socket::UnixDatagram(None);
    assert_eq!(
        s.connect(&v4_bytes(), AF_UNIX, &mut ports).err(),
        Some(SysError::new(EINVAL))
    );
    for i in 0..LOCAL_PORTS {
        assert!(ports.take_port(i).is_some());
    }
    assert_eq!(
        tcp().connect(&v4_bytes(), AF_INET6, &mut ports).err(),
        Some(SysError::new(EINVAL))
    );
}
