//! Addresses of clients and resolvers, as plain numbers.

use vstd::prelude::*;

verus! {

/// An IP address: the 32 bits of an IPv4 address or the 128 bits of an IPv6
/// address, most significant byte first.
#[derive(Clone, Copy, Debug, PartialEq, Eq, Hash, Structural)]
pub enum IpAddress {
    V4(u32),
    V6(u128),
}

/// An IP address and a UDP port.
#[derive(Clone, Copy, Debug, PartialEq, Eq, Hash, Structural)]
pub struct Address {
    pub ip: IpAddress,
    pub port: u16,
}

/// The IPv4 address 127.0.0.1.
pub const LOOPBACK: u32 = 0x7f00_0001;

/// The IPv4 address 0.0.0.0, which stands for every address of the host.
pub const UNSPECIFIED: u32 = 0;

impl Address {
    /// The IPv4 address `a.b.c.d` with `port`.
    pub fn v4(a: u8, b: u8, c: u8, d: u8, port: u16) -> (address: Address)
        ensures
            address == (Address {
                ip: IpAddress::V4((a * 0x100_0000 + b * 0x1_0000 + c * 0x100 + d) as u32),
                port,
            }),
    {
        let ip: u32 = a as u32 * 0x100_0000 + b as u32 * 0x1_0000 + c as u32 * 0x100 + d as u32;
        Address { ip: IpAddress::V4(ip), port }
    }

    /// Whether both are the same address and port.
    pub fn same_as(&self, other: &Address) -> (same: bool)
        ensures
            same == (*self == *other),
    {
        *self == *other
    }
}

} // verus!
