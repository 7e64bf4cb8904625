//! Which IPv4 addresses can belong to a peer.
use vstd::prelude::*;

use crate::net::{ipv4_bits, Ipv4Addr};

verus! {

/// Whether an address lies between two others, both included.
pub open spec fn between(ip: Ipv4Addr, lo: u32, hi: u32) -> bool {
    lo <= ip.bits <= hi
}

/// Space that no peer can have: "this" network, loopback, protocol
/// assignments, documentation, 6to4 relays, benchmarking, multicast, reserved
/// and broadcast.
pub open spec fn bogus_v4(ip: Ipv4Addr) -> bool {
    ||| between(ip, ipv4_bits(0, 0, 0, 0), ipv4_bits(0, 255, 255, 255))
    ||| between(ip, ipv4_bits(127, 0, 0, 0), ipv4_bits(127, 255, 255, 255))
    ||| between(ip, ipv4_bits(192, 0, 0, 0), ipv4_bits(192, 0, 0, 255))
    ||| between(ip, ipv4_bits(192, 0, 2, 0), ipv4_bits(192, 0, 2, 255))
    ||| between(ip, ipv4_bits(192, 88, 99, 0), ipv4_bits(192, 88, 99, 255))
    ||| between(ip, ipv4_bits(198, 18, 0, 0), ipv4_bits(198, 19, 255, 255))
    ||| between(ip, ipv4_bits(198, 51, 100, 0), ipv4_bits(198, 51, 100, 255))
    ||| between(ip, ipv4_bits(203, 0, 113, 0), ipv4_bits(203, 0, 113, 255))
    ||| between(ip, ipv4_bits(224, 0, 0, 0), ipv4_bits(255, 255, 255, 255))
}

/// The private networks.
pub open spec fn private_v4(ip: Ipv4Addr) -> bool {
    ||| between(ip, ipv4_bits(10, 0, 0, 0), ipv4_bits(10, 255, 255, 255))
    ||| between(ip, ipv4_bits(172, 16, 0, 0), ipv4_bits(172, 31, 255, 255))
    ||| between(ip, ipv4_bits(192, 168, 0, 0), ipv4_bits(192, 168, 255, 255))
}

pub open spec fn link_local_v4(ip: Ipv4Addr) -> bool {
    between(ip, ipv4_bits(169, 254, 0, 0), ipv4_bits(169, 254, 255, 255))
}

pub open spec fn loopback_v4(ip: Ipv4Addr) -> bool {
    between(ip, ipv4_bits(127, 0, 0, 0), ipv4_bits(127, 255, 255, 255))
}

/// Space that only a peer on the same network, or behind the same carrier, has.
pub open spec fn lan_or_cgnat_v4(ip: Ipv4Addr) -> bool {
    ||| private_v4(ip)
    ||| link_local_v4(ip)
    ||| between(ip, ipv4_bits(100, 64, 0, 0), ipv4_bits(100, 127, 255, 255))
}

pub open spec fn special_use_v4(ip: Ipv4Addr) -> bool {
    bogus_v4(ip) || lan_or_cgnat_v4(ip)
}

/// The addresses of local machines: private, loopback and link-local.
pub open spec fn lan_ip(ip: Ipv4Addr) -> bool {
    private_v4(ip) || loopback_v4(ip) || link_local_v4(ip)
}

pub fn is_bogus_v4(ip: Ipv4Addr) -> (r: bool)
    ensures
        r == bogus_v4(ip),
{
    let b: u32 = ip.bits;
    b <= 0x00FF_FFFF || (0x7F00_0000 <= b && b <= 0x7FFF_FFFF) || (0xC000_0000 <= b && b
        <= 0xC000_00FF) || (0xC000_0200 <= b && b <= 0xC000_02FF) || (0xC058_6300 <= b && b
        <= 0xC058_63FF) || (0xC612_0000 <= b && b <= 0xC613_FFFF) || (0xC633_6400 <= b && b
        <= 0xC633_64FF) || (0xCB00_7100 <= b && b <= 0xCB00_71FF) || 0xE000_0000 <= b
}

pub fn is_private_v4(ip: Ipv4Addr) -> (r: bool)
    ensures
        r == private_v4(ip),
{
    let b: u32 = ip.bits;
    (0x0A00_0000 <= b && b <= 0x0AFF_FFFF) || (0xAC10_0000 <= b && b <= 0xAC1F_FFFF) || (0xC0A8_0000
        <= b && b <= 0xC0A8_FFFF)
}

pub fn is_lan_or_cgnat_v4(ip: Ipv4Addr) -> (r: bool)
    ensures
        r == lan_or_cgnat_v4(ip),
{
    let b: u32 = ip.bits;
    is_private_v4(ip) || (0xA9FE_0000 <= b && b <= 0xA9FE_FFFF) || (0x6440_0000 <= b && b
        <= 0x647F_FFFF)
}

pub fn is_special_use_v4(ip: Ipv4Addr) -> (r: bool)
    ensures
        r == special_use_v4(ip),
{
    is_bogus_v4(ip) || is_lan_or_cgnat_v4(ip)
}

pub fn is_lan_v4(ip: Ipv4Addr) -> (r: bool)
    ensures
        r == lan_ip(ip),
{
    let b: u32 = ip.bits;
    is_private_v4(ip) || (0x7F00_0000 <= b && b <= 0x7FFF_FFFF) || (0xA9FE_0000 <= b && b
        <= 0xA9FE_FFFF)
}

/// All addresses of one /24 network are local, or none is.
pub proof fn lemma_lan_by_subnet(a: Ipv4Addr, b: Ipv4Addr)
    requires
        a.bits / 256 == b.bits / 256,
    ensures
        lan_ip(a) == lan_ip(b),
{
}

/// Which addresses can belong to no peer, by the numbers of their dotted form.
pub proof fn lemma_bogus_by_octets(ip: Ipv4Addr, a: u8, b: u8, c: u8, d: u8)
    requires
        ip.bits == 0x100_0000 * a + 0x1_0000 * b + 0x100 * c + d,
    ensures
        bogus_v4(ip) <==> a == 0 || a == 127 || a >= 224 || (a == 192 && b == 0 && (c == 0 || c
            == 2)) || (a == 192 && b == 88 && c == 99) || (a == 198 && (b == 18 || b == 19)) || (a
            == 198 && b == 51 && c == 100) || (a == 203 && b == 0 && c == 113),
{
}

/// Which addresses are those of local networks, by the numbers of their dotted form.
pub proof fn lemma_local_by_octets(ip: Ipv4Addr, a: u8, b: u8, c: u8, d: u8)
    requires
        ip.bits == 0x100_0000 * a + 0x1_0000 * b + 0x100 * c + d,
    ensures
        lan_or_cgnat_v4(ip) <==> a == 10 || (a == 172 && 16 <= b <= 31) || (a == 192 && b == 168)
            || (a == 169 && b == 254) || (a == 100 && 64 <= b <= 127),
        lan_ip(ip) <==> a == 10 || a == 127 || (a == 172 && 16 <= b <= 31) || (a == 192 && b == 168)
            || (a == 169 && b == 254),
        special_use_v4(ip) <==> bogus_v4(ip) || lan_or_cgnat_v4(ip),
{
}

} // verus!
