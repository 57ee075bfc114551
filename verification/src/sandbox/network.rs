use vstd::prelude::*;

use crate::net::endpoint::IpAddress;

verus! {

/// An address and the length of its prefix.
#[derive(Debug, Clone, Copy)]
pub struct Cidr {
    pub addr: IpAddress,
    pub prefix: u8,
}

/// How the network of a sandbox is set up.
#[derive(Debug, Clone, Copy)]
pub struct NetworkConfig {
    pub v4_gateway: [u8; 4],
    pub v6_gateway: [u8; 16],
    pub addrs: [Cidr; 3],
    pub hardware_addr: [u8; 6],
}

pub fn network_config() -> (c: NetworkConfig)
    ensures
        c.v4_gateway@ == seq![192u8, 168, 69, 100],
        c.v6_gateway@ == seq![0xfeu8, 0x80, 0, 0, 0, 0, 0, 0, 0, 0, 0, 0, 0, 0, 1, 0],
        c.addrs@.len() == 3,
        c.addrs@[0].prefix == 24 && (c.addrs@[0].addr matches IpAddress::Ipv4(b) && b@ == seq![
            192u8,
            168,
            69,
            1,
        ]),
        c.addrs@[1].prefix == 64 && (c.addrs@[1].addr matches IpAddress::Ipv6(b) && b@ == seq![
            0xfdu8,
            0xaa,
            0,
            0,
            0,
            0,
            0,
            0,
            0,
            0,
            0,
            0,
            0,
            0,
            0,
            1,
        ]),
        c.addrs@[2].prefix == 64 && (c.addrs@[2].addr matches IpAddress::Ipv6(b) && b@ == seq![
            0xfeu8,
            0x80,
            0,
            0,
            0,
            0,
            0,
            0,
            0,
            0,
            0,
            0,
            0,
            0,
            0,
            1,
        ]),
        c.hardware_addr@ == seq![2u8, 0, 0, 0, 0, 2],
{
    let v4 = [192u8, 168, 69, 1];
    let site = [0xfdu8, 0xaa, 0, 0, 0, 0, 0, 0, 0, 0, 0, 0, 0, 0, 0, 1];
    let link = [0xfeu8, 0x80, 0, 0, 0, 0, 0, 0, 0, 0, 0, 0, 0, 0, 0, 1];
    let c = NetworkConfig {
        v4_gateway: [192u8, 168, 69, 100],
        v6_gateway: [0xfeu8, 0x80, 0, 0, 0, 0, 0, 0, 0, 0, 0, 0, 0, 0, 1, 0],
        addrs: [
            Cidr { addr: IpAddress::Ipv4(v4), prefix: 24 },
            Cidr { addr: IpAddress::Ipv6(site), prefix: 64 },
            Cidr { addr: IpAddress::Ipv6(link), prefix: 64 },
        ],
        hardware_addr: [2u8, 0, 0, 0, 0, 2],
    };
    assert(c.v4_gateway@ =~= seq![192u8, 168, 69, 100]);
    assert(c.v6_gateway@ =~= seq![0xfeu8, 0x80, 0, 0, 0, 0, 0, 0, 0, 0, 0, 0, 0, 0, 1, 0]);
    assert(v4@ =~= seq![192u8, 168, 69, 1]);
    assert(site@ =~= seq![0xfdu8, 0xaa, 0, 0, 0, 0, 0, 0, 0, 0, 0, 0, 0, 0, 0, 1]);
    assert(link@ =~= seq![0xfeu8, 0x80, 0, 0, 0, 0, 0, 0, 0, 0, 0, 0, 0, 0, 0, 1]);
    assert(c.hardware_addr@ =~= seq![2u8, 0, 0, 0, 0, 2]);
    c
}

} // verus!
