//! Plain network addresses.
use vstd::prelude::*;

verus! {

/// An IPv4 address as one number: `a.b.c.d` is `a * 2^24 + b * 2^16 + c * 2^8 + d`.
#[derive(Clone, Copy, Debug, PartialEq, Eq, PartialOrd, Ord, Hash, Structural)]
pub struct Ipv4Addr {
    pub bits: u32,
}

/// The number that the dotted form `a.b.c.d` stands for.
pub open spec fn ipv4_bits(a: u8, b: u8, c: u8, d: u8) -> u32 {
    (a * 0x100_0000 + b * 0x1_0000 + c * 0x100 + d) as u32
}

impl Ipv4Addr {
    /// The address `a.b.c.d`.
    pub fn new(a: u8, b: u8, c: u8, d: u8) -> (r: Ipv4Addr)
        ensures
            r.bits == ipv4_bits(a, b, c, d),
    {
        Ipv4Addr {
            bits: a as u32 * 0x100_0000 + b as u32 * 0x1_0000 + c as u32 * 0x100 + d as u32,
        }
    }

    /// The `i`-th number of the dotted form.
    pub open spec fn octet(self, i: int) -> u8 {
        if i == 0 {
            (self.bits / 0x100_0000) as u8
        } else if i == 1 {
            ((self.bits / 0x1_0000) % 0x100) as u8
        } else if i == 2 {
            ((self.bits / 0x100) % 0x100) as u8
        } else {
            (self.bits % 0x100) as u8
        }
    }

    /// The four numbers of the dotted form.
    pub fn octets(&self) -> (r: [u8; 4])
        ensures
            forall|i: int| 0 <= i < 4 ==> r[i] == self.octet(i),
            self.bits == ipv4_bits(r[0], r[1], r[2], r[3]),
    {
        [
            (self.bits / 0x100_0000) as u8,
            ((self.bits / 0x1_0000) % 0x100) as u8,
            ((self.bits / 0x100) % 0x100) as u8,
            (self.bits % 0x100) as u8,
        ]
    }
}

/// An IPv4 or IPv6 address.
#[derive(Clone, Copy, Debug, PartialEq, Eq, Hash, Structural)]
pub enum IpAddr {
    V4(Ipv4Addr),
    V6(u128),
}

/// An IPv4 address with a port.
#[derive(Clone, Copy, Debug, PartialEq, Eq, Hash, Structural)]
pub struct SocketAddrV4 {
    pub ip: Ipv4Addr,
    pub port: u16,
}

/// An address of either family with a port.
#[derive(Clone, Copy, Debug, PartialEq, Eq, Hash, Structural)]
pub struct SocketAddr {
    pub ip: IpAddr,
    pub port: u16,
}

} // verus!
