use vstd::prelude::*;

use crate::errno::{sys, SysError, SysResult, EINVAL, EOPNOTSUPP};
use crate::net::endpoint::{
    address_and_family, complete, family_of, names_endpoint, names_none, Endpoint, IpAddress,
    IpEndpoint, AF_INET, AF_INET6, AF_PACKET, AF_UNIX,
};
use crate::net::ports::{local, LocalPorts};

verus! {

pub const SOCK_STREAM: i32 = 1;

pub const SOCK_DGRAM: i32 = 2;

pub const SOCK_RAW: i32 = 3;

pub const IPPROTO_ICMP: i32 = 1;

pub const IPPROTO_TCP: i32 = 6;

pub const IPPROTO_UDP: i32 = 17;

pub const IPPROTO_ICMPV6: i32 = 58;

/// The events that tell that a file can be read.
pub const POLL_READABLE_EVENTS: u64 = 0x41;

/// The events that tell that a file can be written to.
pub const POLL_WRITABLE_EVENTS: u64 = 0x104;

/// All events that a file can have.
pub const POLL_ALL_EVENTS: u64 = 0x15f;

/// A socket. The sockets of the network stack go by their handles, those of the
/// host by their descriptors.
#[derive(Debug, Clone, Copy)]
pub enum Socket {
    UnixDatagram(Option<i32>),
    UnixStream(Option<i32>),
    Tcp { handle: u64, local_endpoint: IpEndpoint },
    Udp { handle: u64, default_endpoint: Option<IpEndpoint> },
    Icmp(u64),
}

/// What has to be made for a new socket.
#[derive(Debug, Clone, Copy, PartialEq, Eq, Structural)]
pub enum SocketKind {
    UnixDatagram,
    UnixStream,
    Tcp,
    Udp,
    Icmp,
}

/// The kind of socket for a domain, a type and a protocol.
pub open spec fn kind_of(domain: i32, stype: i32, protocol: i32) -> Option<SocketKind> {
    if domain == AF_UNIX {
        if protocol != 0 && protocol != AF_UNIX {
            None
        } else if stype == SOCK_DGRAM {
            Some(SocketKind::UnixDatagram)
        } else if stype == SOCK_STREAM {
            Some(SocketKind::UnixStream)
        } else {
            None
        }
    } else if domain == AF_INET || domain == AF_INET6 {
        if stype == SOCK_STREAM {
            if protocol == 0 || protocol == IPPROTO_TCP {
                Some(SocketKind::Tcp)
            } else {
                None
            }
        } else if stype == SOCK_DGRAM {
            if protocol == 0 || protocol == IPPROTO_UDP {
                Some(SocketKind::Udp)
            } else if protocol == IPPROTO_ICMP || protocol == IPPROTO_ICMPV6 {
                Some(SocketKind::Icmp)
            } else {
                None
            }
        } else {
            None
        }
    } else {
        None
    }
}

/// Sockets of these types are not there yet.
pub open spec fn unhandled(domain: i32, stype: i32, protocol: i32) -> bool {
    if domain == AF_UNIX {
        (protocol == 0 || protocol == AF_UNIX) && stype != SOCK_DGRAM && stype != SOCK_STREAM
    } else {
        (domain == AF_INET || domain == AF_INET6) && stype == SOCK_RAW
    }
}

impl SocketKind {
    /// The kind of socket for a domain, a type and a protocol.
    pub fn new(domain: i32, stype: i32, protocol: i32) -> (r: SysResult<SocketKind>)
        requires
            !unhandled(domain, stype, protocol),
        ensures
            r == (match kind_of(domain, stype, protocol) {
                Some(k) => Ok::<SocketKind, SysError>(k),
                None => Err::<SocketKind, SysError>(sys(EINVAL)),
            }),
    {
        if domain == AF_UNIX {
            if protocol != 0 && protocol != AF_UNIX {
                return Err(SysError::new(EINVAL));
            }
            return if stype == SOCK_DGRAM {
                Ok(SocketKind::UnixDatagram)
            } else {
                Ok(SocketKind::UnixStream)
            };
        }
        if domain == AF_INET || domain == AF_INET6 {
            if stype == SOCK_STREAM {
                if protocol != 0 && protocol != IPPROTO_TCP {
                    return Err(SysError::new(EINVAL));
                }
                return Ok(SocketKind::Tcp);
            }
            if stype == SOCK_DGRAM {
                if protocol == 0 || protocol == IPPROTO_UDP {
                    return Ok(SocketKind::Udp);
                }
                if protocol == IPPROTO_ICMP || protocol == IPPROTO_ICMPV6 {
                    return Ok(SocketKind::Icmp);
                }
                return Err(SysError::new(EINVAL));
            }
            return Err(SysError::new(EINVAL));
        }
        Err(SysError::new(EINVAL))
    }

    /// A new socket of this kind. `made` is the handle of what was made for it in
    /// the network stack, `fd` the descriptor of what was made on the host.
    pub open spec fn socket(self, made: u64, fd: i32) -> Socket {
        match self {
            SocketKind::UnixDatagram => Socket::UnixDatagram(Some(fd)),
            SocketKind::UnixStream => Socket::UnixStream(None),
            SocketKind::Tcp => Socket::Tcp { handle: made, local_endpoint: IpEndpoint::none() },
            SocketKind::Udp => Socket::Udp { handle: made, default_endpoint: None },
            SocketKind::Icmp => Socket::Icmp(made),
        }
    }
}

impl Socket {
    /// A new socket of a kind. `made` is the handle of what was made for it in
    /// the network stack, `fd` the descriptor of what was made on the host.
    pub fn new(kind: SocketKind, made: u64, fd: i32) -> (s: Socket)
        ensures
            s == kind.socket(made, fd),
    {
        match kind {
            SocketKind::UnixDatagram => Socket::UnixDatagram(Some(fd)),
            SocketKind::UnixStream => Socket::UnixStream(None),
            SocketKind::Tcp => Socket::Tcp {
                handle: made,
                local_endpoint: IpEndpoint { addr: IpAddress::Unspecified, port: 0 },
            },
            SocketKind::Udp => Socket::Udp { handle: made, default_endpoint: None },
            SocketKind::Icmp => Socket::Icmp(made),
        }
    }
}

/// What has to be done outside to connect or bind a socket.
#[derive(Debug)]
pub enum SocketStep {
    /// Nothing.
    Done,
    /// Connect the datagram socket of the host.
    ConnectDatagram { fd: i32, path: String },
    /// Make a datagram socket of the host that is bound to a path.
    BindDatagram { path: String },
    /// Make a stream of the host that is connected to a path.
    ConnectStream { path: String },
    /// Connect a socket of the network stack, and wait until it is connected.
    ConnectTcp { handle: u64, remote: IpEndpoint, local: IpEndpoint },
    /// Bind a socket of the network stack.
    BindUdp { handle: u64, endpoint: IpEndpoint },
}

/// A local endpoint with a port that was given out.
pub open spec fn with_port(p: u16) -> IpEndpoint {
    IpEndpoint { addr: IpAddress::Unspecified, port: p }
}

/// A local endpoint that a connection can start from: the one there is, or a
/// port that is not used.
pub open spec fn starts_from(
    was: IpEndpoint,
    now: IpEndpoint,
    used: Set<u16>,
    used_now: Set<u16>,
) -> bool {
    if was.specified() {
        now == was && used_now == used
    } else {
        &&& now == with_port(now.port)
        &&& local(now.port)
        &&& !used.contains(now.port)
        &&& used_now == used.insert(now.port)
    }
}

/// Sees that a connection can start from an endpoint.
fn start_from(was: IpEndpoint, ports: &mut LocalPorts) -> (now: IpEndpoint)
    requires
        was.specified() || old(ports).any_left(),
    ensures
        starts_from(was, now, old(ports).used_ports@, final(ports).used_ports@),
{
    if was.is_specified() {
        was
    } else {
        IpEndpoint { addr: IpAddress::Unspecified, port: ports.gen_local_port() }
    }
}

/// A port for a socket that is not bound to one yet, before it sends. `bound` is
/// the endpoint of the socket in the network stack.
pub fn port_to_bind(bound: IpEndpoint, ports: &mut LocalPorts) -> (p: Option<u16>)
    requires
        bound.port == 0 ==> old(ports).any_left(),
    ensures
        match p {
            None => bound.port != 0 && final(ports).used_ports@ == old(ports).used_ports@,
            Some(p) => {
                &&& bound.port == 0
                &&& local(p)
                &&& !old(ports).used_ports@.contains(p)
                &&& final(ports).used_ports@ == old(ports).used_ports@.insert(p)
            },
        },
{
    if bound.port != 0 {
        None
    } else {
        Some(ports.gen_local_port())
    }
}

/// The bytes of an address stand for an endpoint of a family, which is that of the
/// domain.
pub open spec fn names_family(addr: Seq<u8>, family: i32, domain: i32) -> bool {
    !names_none(addr) && family_of(addr) == family && domain as u16 == family
}

impl Socket {
    /// The socket has to be given a port before a connection can start from it.
    pub open spec fn needs_port(self) -> bool {
        self matches Socket::Tcp { local_endpoint, .. } && !local_endpoint.specified()
    }

    /// What connecting the socket to the endpoint `e` comes to.
    pub open spec fn connects(
        self,
        e: Endpoint,
        after: Socket,
        used: Set<u16>,
        used_after: Set<u16>,
        r: SysResult<SocketStep>,
    ) -> bool {
        match (self, e) {
            (Socket::UnixDatagram(fd), Endpoint::Unix(p)) => {
                &&& after == self
                &&& used_after == used
                &&& r == Ok::<SocketStep, SysError>(
                    SocketStep::ConnectDatagram { fd: fd->Some_0, path: p },
                )
            },
            (Socket::UnixStream(_), Endpoint::Unix(p)) => {
                &&& after == self
                &&& used_after == used
                &&& r == Ok::<SocketStep, SysError>(SocketStep::ConnectStream { path: p })
            },
            (Socket::Tcp { handle, local_endpoint }, Endpoint::Ip(remote)) => {
                &&& after matches Socket::Tcp { handle: h, local_endpoint: l } && h == handle
                    && starts_from(local_endpoint, l, used, used_after) && r == Ok::<
                    SocketStep,
                    SysError,
                >(SocketStep::ConnectTcp { handle, remote, local: l })
            },
            (Socket::Udp { handle, .. }, Endpoint::Ip(remote)) => {
                &&& after == (Socket::Udp { handle, default_endpoint: Some(remote) })
                &&& used_after == used
                &&& r == Ok::<SocketStep, SysError>(SocketStep::Done)
            },
            _ => {
                &&& after == self
                &&& used_after == used
                &&& r == Err::<SocketStep, SysError>(sys(EINVAL))
            },
        }
    }

    /// What binding the socket to the endpoint `e` comes to.
    pub open spec fn binds(self, e: Endpoint, after: Socket, r: SysResult<SocketStep>) -> bool {
        match (self, e) {
            (Socket::UnixDatagram(_), Endpoint::Unix(p)) => {
                &&& after == self
                &&& r == Ok::<SocketStep, SysError>(SocketStep::BindDatagram { path: p })
            },
            (Socket::UnixStream(_), Endpoint::Unix(p)) => {
                &&& after == self
                &&& r == Ok::<SocketStep, SysError>(SocketStep::ConnectStream { path: p })
            },
            (Socket::Tcp { handle, .. }, Endpoint::Ip(e)) => {
                &&& after == (Socket::Tcp { handle, local_endpoint: e })
                &&& r == Ok::<SocketStep, SysError>(SocketStep::Done)
            },
            (Socket::Udp { handle, .. }, Endpoint::Ip(e)) => {
                &&& after == self
                &&& r == Ok::<SocketStep, SysError>(SocketStep::BindUdp { handle, endpoint: e })
            },
            _ => after == self && r == Err::<SocketStep, SysError>(sys(EINVAL)),
        }
    }

    /// The socket listens, at the port that it tells.
    pub open spec fn listens(
        self,
        after: Socket,
        used: Set<u16>,
        used_after: Set<u16>,
        r: SysResult<(u64, u16)>,
    ) -> bool {
        match self {
            Socket::Tcp { handle, local_endpoint } => {
                &&& after matches Socket::Tcp { handle: h, local_endpoint: l } && h == handle
                    && starts_from(local_endpoint, l, used, used_after) && r == Ok::<
                    (u64, u16),
                    SysError,
                >((handle, l.port))
            },
            _ => {
                &&& after == self
                &&& used_after == used
                &&& r == Err::<(u64, u16), SysError>(sys(EOPNOTSUPP))
            },
        }
    }

    /// Where a datagram goes that is to go to `to`, if that is said.
    pub open spec fn sends_to(self, to: Option<Endpoint>) -> SysResult<IpEndpoint> {
        match to {
            None => self.default_target(),
            Some(Endpoint::Ip(e)) => Ok(e),
            Some(Endpoint::Unix(_)) => Err(sys(EINVAL)),
        }
    }

    /// Where the socket is, if the network stack has it at `bound`.
    pub open spec fn placed_at(self, bound: IpEndpoint) -> IpEndpoint {
        match self {
            Socket::Tcp { local_endpoint, .. } => local_endpoint,
            _ => bound,
        }
    }

    /// Connects the socket to the endpoint that the bytes of an address stand
    /// for, as far as it can be done here.
    pub fn connect(&mut self, sock_addr: &[u8], domain: i32, ports: &mut LocalPorts) -> (r:
        SysResult<SocketStep>)
        requires
            complete(sock_addr@),
            sock_addr@.len() >= 2 ==> family_of(sock_addr@) != AF_PACKET,
            names_family(sock_addr@, AF_UNIX, domain) ==> *old(self) != Socket::UnixDatagram(None),
            old(self).needs_port() && (names_family(sock_addr@, AF_INET, domain) || names_family(
                sock_addr@,
                AF_INET6,
                domain,
            )) ==> old(ports).any_left(),
        ensures
            if names_none(sock_addr@) || family_of(sock_addr@) != domain as u16 {
                &&& r == Err::<SocketStep, SysError>(sys(EINVAL))
                &&& *final(self) == *old(self)
                &&& final(ports).used_ports@ == old(ports).used_ports@
            } else {
                exists|e: Endpoint|
                    {
                        &&& #[trigger] names_endpoint(sock_addr@, e)
                        &&& old(self).connects(
                            e,
                            *final(self),
                            old(ports).used_ports@,
                            final(ports).used_ports@,
                            r,
                        )
                    }
            },
    {
        let (endpoint, dom) = match address_and_family(sock_addr) {
            Ok(x) => x,
            Err(e) => return Err(e),
        };
        let ghost e = endpoint;
        if dom != domain as u16 {
            return Err(SysError::new(EINVAL));
        }
        assert(names_endpoint(sock_addr@, e));
        match (*self, endpoint) {
            (Socket::UnixDatagram(Some(fd)), Endpoint::Unix(path)) => {
                Ok(SocketStep::ConnectDatagram { fd, path })
            },
            (Socket::UnixStream(_), Endpoint::Unix(path)) => {
                Ok(SocketStep::ConnectStream { path })
            },
            (Socket::Tcp { handle, local_endpoint }, Endpoint::Ip(remote)) => {
                let local = start_from(local_endpoint, ports);
                *self = Socket::Tcp { handle, local_endpoint: local };
                Ok(SocketStep::ConnectTcp { handle, remote, local })
            },
            (Socket::Udp { handle, default_endpoint }, Endpoint::Ip(remote)) => {
                *self = Socket::Udp { handle, default_endpoint: Some(remote) };
                Ok(SocketStep::Done)
            },
            _ => Err(SysError::new(EINVAL)),
        }
    }

    /// Binds the socket to the endpoint that the bytes of an address stand for,
    /// as far as it can be done here.
    pub fn bind(&mut self, sock_addr: &[u8], domain: i32) -> (r: SysResult<SocketStep>)
        requires
            complete(sock_addr@),
            sock_addr@.len() >= 2 ==> family_of(sock_addr@) != AF_PACKET,
        ensures
            if names_none(sock_addr@) || family_of(sock_addr@) != domain as u16 {
                r == Err::<SocketStep, SysError>(sys(EINVAL)) && *final(self) == *old(self)
            } else {
                exists|e: Endpoint|
                    {
                        &&& #[trigger] names_endpoint(sock_addr@, e)
                        &&& old(self).binds(e, *final(self), r)
                    }
            },
    {
        let (endpoint, dom) = match address_and_family(sock_addr) {
            Ok(x) => x,
            Err(e) => return Err(e),
        };
        let ghost e = endpoint;
        if dom != domain as u16 {
            return Err(SysError::new(EINVAL));
        }
        assert(names_endpoint(sock_addr@, e));
        match (*self, endpoint) {
            (Socket::UnixDatagram(_), Endpoint::Unix(path)) => Ok(SocketStep::BindDatagram { path }),
            (Socket::UnixStream(_), Endpoint::Unix(path)) => {
                Ok(SocketStep::ConnectStream { path })
            },
            (Socket::Tcp { handle, local_endpoint }, Endpoint::Ip(e)) => {
                *self = Socket::Tcp { handle, local_endpoint: e };
                Ok(SocketStep::Done)
            },
            (Socket::Udp { handle, default_endpoint }, Endpoint::Ip(e)) => {
                Ok(SocketStep::BindUdp { handle, endpoint: e })
            },
            _ => Err(SysError::new(EINVAL)),
        }
    }

    /// Notes the descriptor of what was made on the host for a socket.
    pub fn set_fd(&mut self, fd: i32)
        requires
            *old(self) is UnixDatagram || *old(self) is UnixStream,
        ensures
            *final(self) == (if *old(self) is UnixDatagram {
                Socket::UnixDatagram(Some(fd))
            } else {
                Socket::UnixStream(Some(fd))
            }),
    {
        match self {
            Socket::UnixDatagram(_) => *self = Socket::UnixDatagram(Some(fd)),
            _ => *self = Socket::UnixStream(Some(fd)),
        }
    }

    /// Starts to wait for connections: the socket of the network stack and the
    /// port at which it has to wait.
    pub fn listen(&mut self, ports: &mut LocalPorts) -> (r: SysResult<(u64, u16)>)
        requires
            old(self).needs_port() ==> old(ports).any_left(),
        ensures
            old(self).listens(*final(self), old(ports).used_ports@, final(ports).used_ports@, r),
    {
        match *self {
            Socket::Tcp { handle, local_endpoint } => {
                let local = start_from(local_endpoint, ports);
                *self = Socket::Tcp { handle, local_endpoint: local };
                Ok((handle, local.port))
            },
            _ => Err(SysError::new(EOPNOTSUPP)),
        }
    }

    /// The endpoint that a message without an address goes to.
    pub open spec fn default_target(self) -> SysResult<IpEndpoint> {
        match self {
            Socket::Udp { default_endpoint: Some(e), .. } => Ok(e),
            _ => Err(sys(EINVAL)),
        }
    }

    /// Where a message goes that is sent with the address `to`.
    pub fn message_target(&self, to: Option<&Endpoint>) -> (r: SysResult<IpEndpoint>)
        requires
            *self is Udp,
        ensures
            r == self.sends_to(
                match to {
                    None => None,
                    Some(e) => Some(*e),
                },
            ),
    {
        match to {
            Some(Endpoint::Ip(e)) => Ok(*e),
            Some(Endpoint::Unix(_)) => Err(SysError::new(EINVAL)),
            None => match *self {
                Socket::Udp { default_endpoint: Some(e), .. } => Ok(e),
                _ => Err(SysError::new(EINVAL)),
            },
        }
    }

    /// Where what is written goes. `bound` is the endpoint of the socket in the
    /// network stack.
    pub fn write_target(&self, bound: IpEndpoint) -> (r: SysResult<IpEndpoint>)
        requires
            *self is Udp,
        ensures
            r == (if bound.specified() {
                Ok::<IpEndpoint, SysError>(bound)
            } else {
                self.default_target()
            }),
    {
        if bound.is_specified() {
            return Ok(bound);
        }
        self.message_target(None)
    }

    /// The endpoint of this end. `bound` is the endpoint of the socket in the
    /// network stack.
    pub fn local_endpoint(&self, bound: IpEndpoint) -> (e: IpEndpoint)
        requires
            *self is Tcp || *self is Udp,
        ensures
            e == self.placed_at(bound),
    {
        match *self {
            Socket::Tcp { local_endpoint, .. } => local_endpoint,
            _ => bound,
        }
    }

    /// The endpoint of the other end. `peer` is the one that the network stack
    /// knows.
    pub fn remote_endpoint(&self, peer: IpEndpoint) -> (e: Option<IpEndpoint>)
        requires
            *self is Tcp || *self is Udp,
        ensures
            e == (match *self {
                Socket::Udp { default_endpoint, .. } => default_endpoint,
                _ => Some(peer),
            }),
    {
        match *self {
            Socket::Udp { default_endpoint, .. } => default_endpoint,
            _ => Some(peer),
        }
    }
}

} // verus!
