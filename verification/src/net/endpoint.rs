use vstd::prelude::*;
use vstd::slice::slice_subrange;
use vstd::utf8::{decode_utf8, valid_utf8};

use crate::bytes::{be, be_gives_back, be_value, from_be16, from_le, le, le_value, pow256, to_be16, to_le};
use crate::errno::{sys, SysError, SysResult, EINVAL};
use crate::text::text_of;

verus! {

pub const AF_UNIX: i32 = 1;

pub const AF_INET: i32 = 2;

pub const AF_INET6: i32 = 10;

pub const AF_PACKET: i32 = 17;

/// The size of an address of the fourth version of the protocol, as an
/// application knows it.
pub const SOCKADDR_IN_SIZE: usize = 16;

/// The same for the sixth version.
pub const SOCKADDR_IN6_SIZE: usize = 28;

#[derive(Debug, Clone, Copy, PartialEq, Eq)]
pub enum IpAddress {
    Unspecified,
    Ipv4([u8; 4]),
    Ipv6([u8; 16]),
}

#[derive(Debug, Clone, Copy, PartialEq, Eq)]
pub struct IpEndpoint {
    pub addr: IpAddress,
    pub port: u16,
}

/// Where a socket can be connected to.
#[derive(Debug)]
pub enum Endpoint {
    Unix(String),
    Ip(IpEndpoint),
}

/// All bytes are zero.
pub open spec fn all_zero(s: Seq<u8>) -> bool {
    forall|i: int| 0 <= i < s.len() ==> s[i] == 0
}

impl IpAddress {
    /// The address stands for none in particular.
    pub open spec fn unspecified(self) -> bool {
        match self {
            IpAddress::Unspecified => true,
            IpAddress::Ipv4(b) => all_zero(b@),
            IpAddress::Ipv6(b) => all_zero(b@),
        }
    }

    pub fn is_unspecified(&self) -> (b: bool)
        ensures
            b == self.unspecified(),
    {
        match self {
            IpAddress::Unspecified => true,
            IpAddress::Ipv4(b) => is_zero(b.as_slice()),
            IpAddress::Ipv6(b) => is_zero(b.as_slice()),
        }
    }
}

fn is_zero(s: &[u8]) -> (b: bool)
    ensures
        b == all_zero(s@),
{
    let mut i: usize = 0;
    while i < s.len()
        invariant
            i <= s@.len(),
            forall|j: int| 0 <= j < i ==> s@[j] == 0,
        decreases s@.len() - i,
    {
        if s[i] != 0 {
            return false;
        }
        i = i + 1;
    }
    true
}

impl IpEndpoint {
    /// No address and no port.
    pub open spec fn none() -> IpEndpoint {
        IpEndpoint { addr: IpAddress::Unspecified, port: 0 }
    }

    pub open spec fn specified(self) -> bool {
        !self.addr.unspecified() && self.port != 0
    }

    pub fn is_specified(&self) -> (b: bool)
        ensures
            b == self.specified(),
    {
        !self.addr.is_unspecified() && self.port != 0
    }
}

/// The bytes of a path before the first zero.
pub open spec fn path_part(s: Seq<u8>) -> Seq<u8>
    decreases s.len(),
{
    if s.len() == 0 || s[0] == 0 {
        Seq::empty()
    } else {
        seq![s[0]] + path_part(s.skip(1))
    }
}

proof fn lemma_path_part(s: Seq<u8>, i: int)
    requires
        0 <= i <= s.len(),
        forall|j: int| 0 <= j < i ==> s[j] != 0,
        i == s.len() || s[i] == 0,
    ensures
        path_part(s) == s.take(i),
    decreases i,
{
    if i == 0 {
        assert(s.take(0) =~= Seq::<u8>::empty());
    } else {
        assert(s[0] != 0);
        lemma_path_part(s.skip(1), i - 1);
        assert(seq![s[0]] + s.skip(1).take(i - 1) =~= s.take(i));
    }
}

/// The part of a path before the first zero byte.
pub fn truncate_path(path: &[u8]) -> (r: &[u8])
    ensures
        r@ == path_part(path@),
{
    let mut i: usize = 0;
    while i < path.len()
        invariant
            i <= path@.len(),
            forall|j: int| 0 <= j < i ==> path@[j] != 0,
        decreases path@.len() - i,
    {
        if path[i] == 0 {
            proof {
                lemma_path_part(path@, i as int);
            }
            return slice_subrange(path, 0, i);
        }
        i = i + 1;
    }
    proof {
        lemma_path_part(path@, i as int);
        assert(path@.take(i as int) =~= path@);
    }
    path
}

/// The family that the bytes of an address name.
pub open spec fn family_of(addr: Seq<u8>) -> int {
    le_value(addr.subrange(0, 2))
}

/// The bytes hold all of an address of their family.
pub open spec fn complete(addr: Seq<u8>) -> bool {
    addr.len() >= 2 ==> {
        &&& family_of(addr) == AF_INET ==> addr.len() >= SOCKADDR_IN_SIZE
        &&& family_of(addr) == AF_INET6 ==> addr.len() >= SOCKADDR_IN6_SIZE
    }
}

/// The endpoint that the bytes of an address stand for.
pub open spec fn names_endpoint(addr: Seq<u8>, e: Endpoint) -> bool {
    let port = be_value(addr.subrange(2, 4));
    if family_of(addr) == AF_INET {
        match e {
            Endpoint::Ip(IpEndpoint { addr: IpAddress::Ipv4(b), port: p }) => b@ == addr.subrange(
                4,
                8,
            ) && p == port,
            _ => false,
        }
    } else if family_of(addr) == AF_INET6 {
        match e {
            Endpoint::Ip(IpEndpoint { addr: IpAddress::Ipv6(b), port: p }) => b@ == addr.subrange(
                8,
                24,
            ) && p == port,
            _ => false,
        }
    } else {
        match e {
            Endpoint::Unix(path) => family_of(addr) == AF_UNIX && valid_utf8(
                path_part(addr.skip(2)),
            ) && path@ == decode_utf8(path_part(addr.skip(2))),
            _ => false,
        }
    }
}

/// The bytes stand for no endpoint.
pub open spec fn names_none(addr: Seq<u8>) -> bool {
    addr.len() < 2 || {
        &&& family_of(addr) != AF_INET
        &&& family_of(addr) != AF_INET6
        &&& family_of(addr) == AF_UNIX ==> !valid_utf8(path_part(addr.skip(2)))
    }
}

proof fn lemma_pow256_two()
    ensures
        pow256(2) == 65536,
{
    reveal_with_fuel(pow256, 3);
}

/// The endpoint that the bytes of an address stand for, and its family.
pub fn address_and_family(addr: &[u8]) -> (r: SysResult<(Endpoint, u16)>)
    requires
        complete(addr@),
        addr@.len() >= 2 ==> family_of(addr@) != AF_PACKET,
    ensures
        match r {
            Ok((e, family)) => addr@.len() >= 2 && family == family_of(addr@) && names_endpoint(
                addr@,
                e,
            ),
            Err(e) => e == sys(EINVAL) && names_none(addr@),
        },
{
    if addr.len() < 2 {
        return Err(SysError::new(EINVAL));
    }
    proof {
        lemma_pow256_two();
    }
    let family = from_le(addr, 0, 2);
    let dom = family as u16;
    if family == AF_INET as u64 {
        let b = [addr[4], addr[5], addr[6], addr[7]];
        assert(b@ =~= addr@.subrange(4, 8));
        let port = from_be16(addr[2], addr[3]);
        assert(seq![addr@[2], addr@[3]] =~= addr@.subrange(2, 4));
        return Ok((Endpoint::Ip(IpEndpoint { addr: IpAddress::Ipv4(b), port }), dom));
    }
    if family == AF_INET6 as u64 {
        let b = [
            addr[8],
            addr[9],
            addr[10],
            addr[11],
            addr[12],
            addr[13],
            addr[14],
            addr[15],
            addr[16],
            addr[17],
            addr[18],
            addr[19],
            addr[20],
            addr[21],
            addr[22],
            addr[23],
        ];
        assert(b@ =~= addr@.subrange(8, 24));
        let port = from_be16(addr[2], addr[3]);
        assert(seq![addr@[2], addr@[3]] =~= addr@.subrange(2, 4));
        return Ok((Endpoint::Ip(IpEndpoint { addr: IpAddress::Ipv6(b), port }), dom));
    }
    if family == AF_UNIX as u64 {
        let rest = slice_subrange(addr, 2, addr.len());
        assert(rest@ =~= addr@.skip(2));
        return match text_of(truncate_path(rest)) {
            Some(path) => Ok((Endpoint::Unix(path), dom)),
            None => Err(SysError::new(EINVAL)),
        };
    }
    Err(SysError::new(EINVAL))
}

/// The bytes of an address of the fourth version.
pub open spec fn sockaddr_in(b: Seq<u8>, port: u16) -> Seq<u8> {
    le(AF_INET as int, 2) + be(port as int, 2) + b + le(0, 8)
}

/// The bytes by which an application knows an endpoint.
pub fn socket_addr_bytes(endpoint: &IpEndpoint) -> (r: SysResult<Vec<u8>>)
    requires
        !(endpoint.addr is Ipv6),
    ensures
        match endpoint.addr {
            IpAddress::Ipv4(b) => r is Ok && r->Ok_0@ == sockaddr_in(b@, endpoint.port)
                && r->Ok_0@.len() == SOCKADDR_IN_SIZE,
            _ => r is Err && r->Err_0 == sys(EINVAL),
        },
{
    match endpoint.addr {
        IpAddress::Ipv4(b) => {
            let mut v = to_le(AF_INET as u64, 2);
            let port = to_be16(endpoint.port);
            v.push(port[0]);
            v.push(port[1]);
            v.push(b[0]);
            v.push(b[1]);
            v.push(b[2]);
            v.push(b[3]);
            let mut zero = to_le(0, 8);
            v.append(&mut zero);
            assert(v@ =~= sockaddr_in(b@, endpoint.port));
            Ok(v)
        },
        _ => Err(SysError::new(EINVAL)),
    }
}

/// The first `n` bytes, or all of them where there are fewer.
pub open spec fn at_most(s: Seq<u8>, n: int) -> Seq<u8> {
    if n <= s.len() {
        s.take(n)
    } else {
        s
    }
}

/// What is written out of an address: as much as there is room for, and how
/// long all of it is.
pub fn write_socket_addr(bytes: &Vec<u8>, room: u32) -> (r: (Vec<u8>, Vec<u8>))
    requires
        bytes@.len() == SOCKADDR_IN_SIZE,
    ensures
        r.0@ == at_most(bytes@, room as int),
        r.1@ == le(SOCKADDR_IN_SIZE as int, 4),
{
    let n = bytes.len();
    let n = if (room as u64) < n as u64 {
        room as usize
    } else {
        n
    };
    let mut out: Vec<u8> = Vec::new();
    let mut i: usize = 0;
    while i < n
        invariant
            i <= n <= bytes@.len(),
            out@ == bytes@.take(i as int),
        decreases n - i,
    {
        out.push(bytes[i]);
        assert(bytes@.take(i + 1) =~= bytes@.take(i as int).push(bytes@[i as int]));
        i = i + 1;
    }
    assert(n == bytes@.len() ==> bytes@.take(n as int) =~= bytes@);
    (out, to_le(SOCKADDR_IN_SIZE as u64, 4))
}

/// The bytes of an address stand for the endpoint that they were made from.
pub proof fn address_bytes_give_back(b: [u8; 4], port: u16)
    ensures
        ({
            let s = sockaddr_in(b@, port);
            let e = Endpoint::Ip(IpEndpoint { addr: IpAddress::Ipv4(b), port });
            s.len() == SOCKADDR_IN_SIZE && family_of(s) == AF_INET && complete(s) && names_endpoint(
                s,
                e,
            )
        }),
{
    let s = sockaddr_in(b@, port);
    lemma_pow256_two();
    crate::bytes::le_gives_back(AF_INET as int, 2);
    be_gives_back(port as int, 2);
    crate::bytes::lemma_le_len(port as int, 2);
    crate::bytes::lemma_le_len(0, 8);
    assert(s.subrange(0, 2) =~= le(AF_INET as int, 2));
    assert(s.subrange(2, 4) =~= be(port as int, 2));
    assert(s.subrange(4, 8) =~= b@);
}

} // verus!
