//! Identifiers, contacts and tags: the values that Kad packets are made of.
use vstd::prelude::*;

use crate::bytes::{dec_u16, dec_u32, dec_u8, le16, le32, put_bytes, put_u16, put_u32};
use crate::bytes::{lemma_le16_round_trip, lemma_le32_round_trip, lemma_u8_round_trip};
use crate::bytes::{Parsed, Reader, WireError};
use crate::clock::{clock_time, sat_sub, seconds_since};
use crate::net::Ipv4Addr;

verus! {

/// Contacts that one routing bin holds.
pub const K_BUCKET_SIZE: usize = 10;

/// Zones with an index below this one may split at any level.
pub const KK: usize = 5;

/// Zones above this level may always split.
pub const KBASE: usize = 4;

/// Levels that one search step resolves.
pub const LOG_BASE_EXPONENT: usize = 5;

pub const KADEMLIA_VERSION1_46C: u8 = 1;

pub const KADEMLIA_VERSION2_47A: u8 = 2;

pub const KADEMLIA_VERSION3_47B: u8 = 3;

pub const KADEMLIA_VERSION4_47C: u8 = 4;

pub const KADEMLIA_VERSION5_48A: u8 = 5;

pub const KADEMLIA_VERSION6_49ABETA: u8 = 6;

pub const KADEMLIA_VERSION7_49A: u8 = 7;

pub const KADEMLIA_VERSION8_49B: u8 = 8;

pub const KADEMLIA_VERSION9_50A: u8 = 9;

/// The protocol version that this node speaks.
pub const KADEMLIA_VERSION: u8 = 9;

pub const TAG_FILENAME: u8 = 0x01;

pub const TAG_FILESIZE: u8 = 0x02;

pub const TAG_FILETYPE: u8 = 0x03;

pub const TAG_SOURCES: u8 = 0x15;

pub const TAG_COMPLETE_SOURCES: u8 = 0x30;

pub const TAG_ENCRYPTION: u8 = 0xF3;

pub const TAG_BUDDYHASH: u8 = 0xF8;

pub const TAG_SERVERPORT: u8 = 0xFA;

pub const TAG_SERVERIP: u8 = 0xFB;

pub const TAG_SOURCEUPORT: u8 = 0xFC;

pub const TAG_SOURCEPORT: u8 = 0xFD;

pub const TAG_SOURCETYPE: u8 = 0xFF;

pub const TAGTYPE_HASH: u8 = 0x01;

pub const TAGTYPE_STRING: u8 = 0x02;

pub const TAGTYPE_UINT32: u8 = 0x03;

pub const TAGTYPE_FLOAT32: u8 = 0x04;

pub const TAGTYPE_BOOL: u8 = 0x05;

pub const TAGTYPE_BLOB: u8 = 0x07;

pub const TAGTYPE_UINT16: u8 = 0x08;

pub const TAGTYPE_UINT8: u8 = 0x09;

pub const TAGTYPE_BSOB: u8 = 0x0A;

pub const TAGTYPE_UINT64: u8 = 0x0B;

/// A contact that has answered for at least two hours.
pub const CONTACT_TYPE_LONG_ACTIVE: u8 = 0;

/// A contact that has answered for at least one hour.
pub const CONTACT_TYPE_ACTIVE: u8 = 1;

/// A contact that has answered.
pub const CONTACT_TYPE_VERIFIED: u8 = 2;

/// A contact nobody has heard from yet.
pub const CONTACT_TYPE_NEW: u8 = 3;

/// A contact that stopped answering.
pub const CONTACT_TYPE_DEAD: u8 = 4;

// ---------------------------------------------------------------------------
// Identifiers
// ---------------------------------------------------------------------------
/// A 128-bit Kad identifier in wire order: four 32-bit chunks, the most
/// significant one first, each chunk little-endian.
#[derive(Clone, Copy, Debug)]
pub struct KadId(pub [u8; 16]);

impl PartialEq for KadId {
    fn eq(&self, other: &KadId) -> (r: bool) {
        let mut i: usize = 0;
        while i < 16
            invariant
                i <= 16,
                forall|j: int| 0 <= j < i ==> self.0[j] == other.0[j],
            decreases 16 - i,
        {
            if self.0[i] != other.0[i] {
                assert(self.0@ != other.0@);
                return false;
            }
            i = i + 1;
        }
        assert(self.0@ =~= other.0@);
        assert(self.0 =~= other.0);
        true
    }
}

impl vstd::std_specs::cmp::PartialEqSpecImpl for KadId {
    open spec fn obeys_eq_spec() -> bool {
        true
    }

    open spec fn eq_spec(&self, other: &KadId) -> bool {
        *self == *other
    }
}

impl Eq for KadId {

}

/// The 16 bytes of a sequence as an array.
pub open spec fn seq_to_16(s: Seq<u8>) -> [u8; 16]
    recommends
        s.len() == 16,
{
    choose|a: [u8; 16]| #[trigger] a@ == s
}

pub proof fn lemma_seq_to_16(a: [u8; 16])
    ensures
        seq_to_16(a@) == a,
{
    let b = seq_to_16(a@);
    assert(a@ == a@);
    assert(b@ =~= a@);
    assert(b =~= a);
}

/// The first 16 bytes of a vector.
pub fn vec_to_16(v: &Vec<u8>) -> (r: [u8; 16])
    requires
        v@.len() == 16,
    ensures
        r@ == v@,
        r == seq_to_16(v@),
{
    let r: [u8; 16] = [
        v[0], v[1], v[2], v[3], v[4], v[5], v[6], v[7], v[8], v[9], v[10], v[11], v[12], v[13],
        v[14], v[15],
    ];
    assert(r@ =~= v@);
    proof {
        lemma_seq_to_16(r);
    }
    r
}

impl KadId {
    /// The `i`-th of the four 32-bit chunks, the most significant one being chunk 0.
    pub open spec fn chunk_spec(self, i: int) -> u32 {
        (self.0[4 * i] + 0x100 * self.0[4 * i + 1] + 0x1_0000 * self.0[4 * i + 2] + 0x100_0000
            * self.0[4 * i + 3]) as u32
    }

    /// The identifier as one 128-bit number.
    pub open spec fn val(self) -> u128 {
        (self.chunk_spec(0) * 0x1_0000_0000_0000_0000_0000_0000 + self.chunk_spec(1)
            * 0x1_0000_0000_0000_0000 + self.chunk_spec(2) * 0x1_0000_0000 + self.chunk_spec(
            3,
        )) as u128
    }

    /// Bit `n`, counted from the most significant one.
    pub open spec fn bit(self, n: int) -> bool {
        bit_of(self.val(), n)
    }

    pub fn chunk(&self, i: usize) -> (r: u32)
        requires
            i < 4,
        ensures
            r == self.chunk_spec(i as int),
    {
        self.0[4 * i] as u32 + 0x100 * (self.0[4 * i + 1] as u32) + 0x1_0000 * (self.0[4 * i
            + 2] as u32) + 0x100_0000 * (self.0[4 * i + 3] as u32)
    }

    pub fn to_u128(&self) -> (r: u128)
        ensures
            r == self.val(),
    {
        self.chunk(0) as u128 * 0x1_0000_0000_0000_0000_0000_0000 + self.chunk(1) as u128
            * 0x1_0000_0000_0000_0000 + self.chunk(2) as u128 * 0x1_0000_0000 + self.chunk(
            3,
        ) as u128
    }

    fn from_chunks(a: u32, b: u32, c: u32, d: u32) -> (r: KadId)
        ensures
            r.chunk_spec(0) == a,
            r.chunk_spec(1) == b,
            r.chunk_spec(2) == c,
            r.chunk_spec(3) == d,
    {
        let r = KadId(
            [
                (a % 0x100) as u8,
                ((a / 0x100) % 0x100) as u8,
                ((a / 0x1_0000) % 0x100) as u8,
                (a / 0x100_0000) as u8,
                (b % 0x100) as u8,
                ((b / 0x100) % 0x100) as u8,
                ((b / 0x1_0000) % 0x100) as u8,
                (b / 0x100_0000) as u8,
                (c % 0x100) as u8,
                ((c / 0x100) % 0x100) as u8,
                ((c / 0x1_0000) % 0x100) as u8,
                (c / 0x100_0000) as u8,
                (d % 0x100) as u8,
                ((d / 0x100) % 0x100) as u8,
                ((d / 0x1_0000) % 0x100) as u8,
                (d / 0x100_0000) as u8,
            ],
        );
        proof {
            lemma_base256(a);
            lemma_base256(b);
            lemma_base256(c);
            lemma_base256(d);
        }
        r
    }

    pub fn from_u128(v: u128) -> (r: KadId)
        ensures
            r.val() == v,
    {
        let a: u32 = (v / 0x1_0000_0000_0000_0000_0000_0000) as u32;
        let b: u32 = ((v / 0x1_0000_0000_0000_0000) % 0x1_0000_0000) as u32;
        let c: u32 = ((v / 0x1_0000_0000) % 0x1_0000_0000) as u32;
        let d: u32 = (v % 0x1_0000_0000) as u32;
        proof {
            lemma_base_2_32(v);
        }
        KadId::from_chunks(a, b, c, d)
    }

    /// The identifier whose value is zero.
    pub fn zero() -> (r: KadId)
        ensures
            r == KadId::zero_spec(),
            r.val() == 0,
    {
        let r = KadId([0u8; 16]);
        proof {
            lemma_seq_to_16(r.0);
            assert(r.0@ =~= Seq::new(16, |i: int| 0u8));
        }
        r
    }

    pub open spec fn zero_spec() -> KadId {
        KadId(seq_to_16(Seq::new(16, |i: int| 0u8)))
    }

    /// The identifier whose value is `v`.
    pub fn from_u32(v: u32) -> (r: KadId)
        ensures
            r.val() == v,
    {
        KadId::from_u128(v as u128)
    }

    /// The XOR distance.
    pub fn xor_distance(&self, other: &KadId) -> (r: KadId)
        ensures
            r == self.xor_spec(*other),
    {
        let mut out: [u8; 16] = [0u8; 16];
        let mut i: usize = 0;
        while i < 16
            invariant
                i <= 16,
                forall|j: int| 0 <= j < i ==> out[j] == self.0[j] ^ other.0[j],
            decreases 16 - i,
        {
            out[i] = self.0[i] ^ other.0[i];
            i = i + 1;
        }
        proof {
            assert(out@ =~= Seq::new(16, |i: int| self.0[i] ^ other.0[i]));
            lemma_seq_to_16(out);
        }
        KadId(out)
    }

    pub open spec fn xor_spec(self, other: KadId) -> KadId {
        KadId(seq_to_16(Seq::new(16, |i: int| self.0[i] ^ other.0[i])))
    }

    /// Bit `n`, counted from the most significant one.
    pub fn get_bit_number(&self, n: u32) -> (r: bool)
        requires
            n < 128,
        ensures
            r == self.bit(n as int),
    {
        let v: u128 = self.to_u128();
        let s: u128 = (127 - n) as u128;
        (v >> s) & 1 == 1
    }

    /// Moves every bit `n` places up; what leaves the top is lost.
    pub fn shift_left(&mut self, n: u32)
        ensures
            final(self).val() == (if n < 128 {
                old(self).val() << (n as u128)
            } else {
                0u128
            }),
    {
        if n >= 128 {
            *self = KadId::zero();
        } else {
            let v: u128 = self.to_u128();
            let s: u128 = n as u128;
            *self = KadId::from_u128(v << s);
        }
    }

    /// Adds `v`, modulo 2^128.
    pub fn add_u32(&mut self, v: u32)
        ensures
            final(self).val() == old(self).val().wrapping_add(v as u128),
    {
        let w: u128 = self.to_u128();
        *self = KadId::from_u128(w.wrapping_add(v as u128));
    }

    pub fn less_than_u32(&self, v: u32) -> (r: bool)
        ensures
            r == (self.val() < v),
    {
        self.to_u128() < v as u128
    }

    /// The first `bits` bits of `prefix`, followed by the last `128 - bits`
    /// bits of `self`.
    pub fn with_prefix(&self, prefix: &KadId, bits: u32) -> (r: KadId)
        requires
            bits <= 128,
        ensures
            forall|i: int| 0 <= i < bits ==> #[trigger] r.bit(i) == prefix.bit(i),
            forall|i: int| bits <= i < 128 ==> #[trigger] r.bit(i) == self.bit(i),
    {
        if bits == 0 {
            return *self;
        }
        let p: u128 = prefix.to_u128();
        let n: u128 = self.to_u128();
        let s: u128 = (128 - bits) as u128;
        let mask: u128 = if s == 128 {
            0
        } else {
            u128::MAX << s
        };
        let v: u128 = (p & mask) | (n & !mask);
        let r = KadId::from_u128(v);
        proof {
            assert forall|i: int| 0 <= i < 128 implies #[trigger] r.bit(i) == (if i < bits {
                prefix.bit(i)
            } else {
                self.bit(i)
            }) by {
                let k = (127 - i) as u128;
                if i < bits {
                    assert((((p & mask) | (n & !mask)) >> k) & 1 == (p >> k) & 1) by (bit_vector)
                        requires
                            mask == u128::MAX << s,
                            s <= k,
                            k < 128,
                    ;
                } else {
                    assert((((p & mask) | (n & !mask)) >> k) & 1 == (n >> k) & 1) by (bit_vector)
                        requires
                            mask == u128::MAX << s,
                            k < s,
                            s < 128,
                    ;
                }
            }
        }
        r
    }

    /// An identifier drawn by the thread's random generator.
    pub fn random() -> (r: KadId) {
        KadId(random_16())
    }

    /// A random identifier whose first `bits` bits are those of `prefix`.
    pub fn random_with_prefix(prefix: &KadId, bits: u32) -> (r: KadId)
        requires
            bits <= 128,
        ensures
            forall|i: int| 0 <= i < bits ==> #[trigger] r.bit(i) == prefix.bit(i),
    {
        KadId::random().with_prefix(prefix, bits)
    }
}

/// Calls `rand::random::<[u8; 16]>`. Nothing is promised of the bytes.
#[verifier::external_body]
fn random_16() -> (r: [u8; 16])
{
    rand::random::<[u8; 16]>()
}

proof fn lemma_base256(a: u32)
    ensures
        (a % 0x100) + 0x100 * ((a / 0x100) % 0x100) + 0x1_0000 * ((a / 0x1_0000) % 0x100)
            + 0x100_0000 * (a / 0x100_0000) == a,
{
    let q = a / 0x100;
    let q2 = a / 0x1_0000;
    assert(q2 == q / 0x100) by (bit_vector)
        requires
            q == a / 0x100,
            q2 == a / 0x1_0000,
    ;
    assert(a / 0x100_0000 == q2 / 0x100) by (bit_vector)
        requires
            q2 == a / 0x1_0000,
    ;
}

proof fn lemma_base_2_32(v: u128)
    ensures
        (v / 0x1_0000_0000_0000_0000_0000_0000) * 0x1_0000_0000_0000_0000_0000_0000 + ((v
            / 0x1_0000_0000_0000_0000) % 0x1_0000_0000) * 0x1_0000_0000_0000_0000 + ((v
            / 0x1_0000_0000) % 0x1_0000_0000) * 0x1_0000_0000 + (v % 0x1_0000_0000) == v,
        v / 0x1_0000_0000_0000_0000_0000_0000 < 0x1_0000_0000,
{
    let b: int = 0x1_0000_0000;
    let x = v as int;
    vstd::arithmetic::div_mod::lemma_div_denominator(x, b, b);
    vstd::arithmetic::div_mod::lemma_div_denominator(x, b * b, b);
    assert(b * b == 0x1_0000_0000_0000_0000);
    assert(b * b * b == 0x1_0000_0000_0000_0000_0000_0000);
    let q = x / b;
    let q2 = q / b;
    let q3 = q2 / b;
    assert(x == b * q + x % b);
    assert(q == b * q2 + q % b);
    assert(q2 == b * q3 + q2 % b);
}

proof fn lemma_digits_256(p0: u8, p1: u8, p2: u8, p3: u8, q0: u8, q1: u8, q2: u8, q3: u8)
    requires
        p0 + 0x100 * p1 + 0x1_0000 * p2 + 0x100_0000 * p3 == q0 + 0x100 * q1 + 0x1_0000 * q2
            + 0x100_0000 * q3,
    ensures
        p0 == q0 && p1 == q1 && p2 == q2 && p3 == q3,
{
    let p = p1 + 0x100 * p2 + 0x1_0000 * p3;
    let q = q1 + 0x100 * q2 + 0x1_0000 * q3;
    assert(p0 + 0x100 * p == q0 + 0x100 * q);
    assert(p0 == q0 && p == q);
    let p4 = p2 + 0x100 * p3;
    let q4 = q2 + 0x100 * q3;
    assert(p1 + 0x100 * p4 == q1 + 0x100 * q4);
    assert(p1 == q1 && p4 == q4);
}

proof fn lemma_digits_2_32(p0: u32, p1: u32, p2: u32, p3: u32, q0: u32, q1: u32, q2: u32, q3: u32)
    requires
        p0 * 0x1_0000_0000_0000_0000_0000_0000 + p1 * 0x1_0000_0000_0000_0000 + p2 * 0x1_0000_0000
            + p3 == q0 * 0x1_0000_0000_0000_0000_0000_0000 + q1 * 0x1_0000_0000_0000_0000 + q2
            * 0x1_0000_0000 + q3,
    ensures
        p0 == q0 && p1 == q1 && p2 == q2 && p3 == q3,
{
    let p = p0 * 0x1_0000_0000_0000_0000 + p1 * 0x1_0000_0000 + p2;
    let q = q0 * 0x1_0000_0000_0000_0000 + q1 * 0x1_0000_0000 + q2;
    assert(p3 + 0x1_0000_0000 * p == q3 + 0x1_0000_0000 * q);
    assert(p3 == q3 && p == q);
    let p4 = p0 * 0x1_0000_0000 + p1;
    let q4 = q0 * 0x1_0000_0000 + q1;
    assert(p2 + 0x1_0000_0000 * p4 == q2 + 0x1_0000_0000 * q4);
    assert(p2 == q2 && p4 == q4);
}

proof fn lemma_chunk_injective(a: KadId, b: KadId, i: int)
    requires
        0 <= i < 4,
        a.chunk_spec(i) == b.chunk_spec(i),
    ensures
        forall|j: int| 4 * i <= j < 4 * i + 4 ==> a.0[j] == b.0[j],
{
    lemma_digits_256(
        a.0[4 * i],
        a.0[4 * i + 1],
        a.0[4 * i + 2],
        a.0[4 * i + 3],
        b.0[4 * i],
        b.0[4 * i + 1],
        b.0[4 * i + 2],
        b.0[4 * i + 3],
    );
}

/// Two identifiers with the same value are the same identifier.
pub proof fn lemma_val_injective(a: KadId, b: KadId)
    requires
        a.val() == b.val(),
    ensures
        a == b,
{
    lemma_digits_2_32(
        a.chunk_spec(0),
        a.chunk_spec(1),
        a.chunk_spec(2),
        a.chunk_spec(3),
        b.chunk_spec(0),
        b.chunk_spec(1),
        b.chunk_spec(2),
        b.chunk_spec(3),
    );
    lemma_chunk_injective(a, b, 0);
    lemma_chunk_injective(a, b, 1);
    lemma_chunk_injective(a, b, 2);
    lemma_chunk_injective(a, b, 3);
    assert(a.0@ =~= b.0@);
    assert(a.0 =~= b.0);
}

/// The XOR distance is symmetric, zero exactly between equal identifiers, and
/// undone by taking it again.
pub proof fn lemma_xor_distance(a: KadId, b: KadId)
    ensures
        a.xor_spec(b) == b.xor_spec(a),
        a.xor_spec(b) == KadId::zero_spec() <==> a == b,
        a.xor_spec(b).xor_spec(b) == a,
{
    let d = Seq::new(16, |i: int| a.0[i] ^ b.0[i]);
    let e = Seq::new(16, |i: int| b.0[i] ^ a.0[i]);
    assert forall|x: u8, y: u8| #[trigger] (x ^ y) == y ^ x by {
        assert(x ^ y == y ^ x) by (bit_vector);
    }
    assert(d =~= e);
    lemma_16_exists(d);
    let x = a.xor_spec(b);
    assert(x.0@ == d);
    let z = Seq::new(16, |i: int| 0u8);
    lemma_16_exists(z);
    if x == KadId::zero_spec() {
        assert forall|i: int| 0 <= i < 16 implies a.0[i] == b.0[i] by {
            let p = a.0[i];
            let q = b.0[i];
            assert(d[i] == z[i]);
            assert(p ^ q == 0 ==> p == q) by (bit_vector);
        }
        assert(a.0@ =~= b.0@);
        assert(a.0 =~= b.0);
    }
    if a == b {
        assert forall|p: u8| #[trigger] (p ^ p) == 0 by {
            assert(p ^ p == 0) by (bit_vector);
        }
        assert(d =~= z);
    }
    let f = Seq::new(16, |i: int| x.0[i] ^ b.0[i]);
    assert forall|i: int| 0 <= i < 16 implies f[i] == a.0[i] by {
        let p = a.0[i];
        let q = b.0[i];
        assert(x.0@[i] == d[i]);
        assert((p ^ q) ^ q == p) by (bit_vector);
    }
    assert(f =~= a.0@);
    lemma_seq_to_16(a.0);
}

/// The identifier with a given value.
pub open spec fn id_of(v: u128) -> KadId {
    choose|k: KadId| k.val() == v
}

pub proof fn lemma_id_of(k: KadId)
    ensures
        id_of(k.val()) == k,
{
    lemma_val_injective(id_of(k.val()), k);
}

proof fn lemma_chunk_xor(a: KadId, b: KadId, i: int)
    requires
        0 <= i < 4,
    ensures
        a.xor_spec(b).chunk_spec(i) == a.chunk_spec(i) ^ b.chunk_spec(i),
{
    lemma_16_exists(Seq::new(16, |i: int| a.0[i] ^ b.0[i]));
    let x = a.xor_spec(b);
    assert(x.0@ == Seq::new(16, |i: int| a.0[i] ^ b.0[i]));
    let (a0, a1, a2, a3) = (a.0[4 * i], a.0[4 * i + 1], a.0[4 * i + 2], a.0[4 * i + 3]);
    let (b0, b1, b2, b3) = (b.0[4 * i], b.0[4 * i + 1], b.0[4 * i + 2], b.0[4 * i + 3]);
    assert(x.0@[4 * i] == a0 ^ b0 && x.0@[4 * i + 1] == a1 ^ b1 && x.0@[4 * i + 2] == a2 ^ b2
        && x.0@[4 * i + 3] == a3 ^ b3);
    assert(((a0 ^ b0) + 0x100 * (a1 ^ b1) + 0x1_0000 * (a2 ^ b2) + 0x100_0000 * (a3 ^ b3)) as u32
        == ((a0 + 0x100 * a1 + 0x1_0000 * a2 + 0x100_0000 * a3) as u32) ^ ((b0 + 0x100 * b1
        + 0x1_0000 * b2 + 0x100_0000 * b3) as u32)) by (bit_vector);
}

/// The value of the XOR distance is the XOR of the values.
pub proof fn lemma_val_xor(a: KadId, b: KadId)
    ensures
        a.xor_spec(b).val() == a.val() ^ b.val(),
{
    lemma_chunk_xor(a, b, 0);
    lemma_chunk_xor(a, b, 1);
    lemma_chunk_xor(a, b, 2);
    lemma_chunk_xor(a, b, 3);
    let (p, q, r, s) = (a.chunk_spec(0), a.chunk_spec(1), a.chunk_spec(2), a.chunk_spec(3));
    let (t, u, v, w) = (b.chunk_spec(0), b.chunk_spec(1), b.chunk_spec(2), b.chunk_spec(3));
    assert(((p ^ t) * 0x1_0000_0000_0000_0000_0000_0000 + (q ^ u) * 0x1_0000_0000_0000_0000 + (r
        ^ v) * 0x1_0000_0000 + (s ^ w)) as u128 == ((p * 0x1_0000_0000_0000_0000_0000_0000 + q
        * 0x1_0000_0000_0000_0000 + r * 0x1_0000_0000 + s) as u128) ^ ((t
        * 0x1_0000_0000_0000_0000_0000_0000 + u * 0x1_0000_0000_0000_0000 + v * 0x1_0000_0000
        + w) as u128)) by (bit_vector);
}

/// Bit `n` of a 128-bit number, counted from the most significant one.
pub open spec fn bit_of(v: u128, n: int) -> bool {
    (v >> ((127 - n) as u128)) & 1 == 1
}

/// Bits of an XOR are XORs of bits.
pub proof fn lemma_bit_xor(a: u128, b: u128, n: int)
    requires
        0 <= n < 128,
    ensures
        bit_of(a ^ b, n) == (bit_of(a, n) != bit_of(b, n)),
{
    let k = (127 - n) as u128;
    assert((((a ^ b) >> k) & 1 == 1) == (((a >> k) & 1 == 1) != ((b >> k) & 1 == 1))) by (bit_vector)
        requires
            k < 128,
    ;
}

/// Of two numbers that agree on the bits before `n`, the one without bit `n`
/// is smaller than the one with it.
pub proof fn lemma_bits_order(a: u128, b: u128, n: int)
    requires
        0 <= n < 128,
        forall|i: int| 0 <= i < n ==> bit_of(a, i) == bit_of(b, i),
        !bit_of(a, n),
        bit_of(b, n),
    ensures
        a < b,
{
    lemma_high_bits(a, b, n);
    let k = (127 - n) as u128;
    if n == 0 {
        assert(k == 127);
        assert(a < b) by (bit_vector)
            requires
                !((a >> 127) & 1 == 1),
                (b >> 127) & 1 == 1,
        ;
    } else {
        let h = (k + 1) as u128;
        assert(a < b) by (bit_vector)
            requires
                h < 128,
                k < 127,
                h == k + 1,
                a >> h == b >> h,
                !((a >> k) & 1 == 1),
                (b >> k) & 1 == 1,
        ;
    }
}

/// Numbers that agree on their first `n` bits agree once the others are shifted out.
proof fn lemma_high_bits(a: u128, b: u128, n: int)
    requires
        0 <= n <= 128,
        forall|i: int| 0 <= i < n ==> bit_of(a, i) == bit_of(b, i),
    ensures
        n > 0 ==> a >> ((128 - n) as u128) == b >> ((128 - n) as u128),
    decreases n,
{
    if n > 0 {
        lemma_high_bits(a, b, n - 1);
        let k = (128 - n) as u128;
        assert(bit_of(a, n - 1) == bit_of(b, n - 1));
        if n == 1 {
            assert(a >> 127 == b >> 127) by (bit_vector)
                requires
                    ((a >> 127) & 1 == 1) == ((b >> 127) & 1 == 1),
            ;
        } else {
            let h = (k + 1) as u128;
            assert(a >> k == b >> k) by (bit_vector)
                requires
                    h == k + 1,
                    h < 128,
                    a >> h == b >> h,
                    ((a >> k) & 1 == 1) == ((b >> k) & 1 == 1),
            ;
        }
    }
}

/// Any 16 bytes are the contents of some array.
pub proof fn lemma_16_exists(s: Seq<u8>)
    requires
        s.len() == 16,
    ensures
        seq_to_16(s)@ == s,
{
    let a: [u8; 16] = [
        s[0], s[1], s[2], s[3], s[4], s[5], s[6], s[7], s[8], s[9], s[10], s[11], s[12], s[13],
        s[14], s[15],
    ];
    assert(a@ =~= s);
}

pub open spec fn dec_id(s: Seq<u8>) -> Parsed<KadId> {
    if s.len() < 16 {
        Err(WireError::UnexpectedEof)
    } else {
        Ok((KadId(seq_to_16(s.take(16))), s.skip(16)))
    }
}

pub proof fn lemma_id_round_trip(id: KadId, rest: Seq<u8>)
    ensures
        dec_id(id.0@ + rest) == Ok::<(KadId, Seq<u8>), WireError>((id, rest)),
{
    assert((id.0@ + rest).take(16) =~= id.0@);
    assert((id.0@ + rest).skip(16) =~= rest);
    lemma_seq_to_16(id.0);
}

impl KadId {
    pub fn read_from(r: &mut Reader) -> (res: Result<KadId, WireError>)
        ensures
            match dec_id(old(r).rest()) {
                Ok((v, rest)) => res == Ok::<KadId, WireError>(v) && final(r).rest() == rest,
                Err(e) => res == Err::<KadId, WireError>(e),
            },
    {
        let b = r.bytes(16)?;
        Ok(KadId(vec_to_16(&b)))
    }

    pub fn write_to(&self, out: &mut Vec<u8>)
        ensures
            final(out)@ == old(out)@ + self.0@,
    {
        put_bytes(out, self.0.as_slice());
    }
}

/// Reverses each group of four bytes: turns raw hash bytes into wire order, or back.
pub fn cuint128_swap(b: &[u8; 16]) -> (r: [u8; 16])
    ensures
        forall|i: int| 0 <= i < 16 ==> #[trigger] r[i] == b[4 * (i / 4) + 3 - i % 4],
{
    [
        b[3], b[2], b[1], b[0], b[7], b[6], b[5], b[4], b[11], b[10], b[9], b[8], b[15], b[14],
        b[13], b[12],
    ]
}

/// Swapping twice changes nothing.
pub proof fn lemma_cuint128_swap_involutive(a: [u8; 16], b: [u8; 16], c: [u8; 16])
    requires
        forall|i: int| 0 <= i < 16 ==> #[trigger] b[i] == a[4 * (i / 4) + 3 - i % 4],
        forall|i: int| 0 <= i < 16 ==> #[trigger] c[i] == b[4 * (i / 4) + 3 - i % 4],
    ensures
        c == a,
{
    assert forall|i: int| 0 <= i < 16 implies c@[i] == a@[i] by {
        let j = 4 * (i / 4) + 3 - i % 4;
        assert(c[i] == b[j]);
        assert(b[j] == a[4 * (j / 4) + 3 - j % 4]);
    }
    assert(c@ =~= a@);
    assert(c =~= a);
}

// ---------------------------------------------------------------------------
// Contacts
// ---------------------------------------------------------------------------
/// A key that a peer proves its UDP address with, and the address of ours that
/// it was given out for.
#[derive(Clone, Copy, Debug, PartialEq, Eq, Structural)]
pub struct KadUDPKey {
    pub key: u32,
    pub ip: u32,
}

impl KadUDPKey {
    pub open spec fn key_value(self, our_ip: u32) -> u32 {
        if our_ip == self.ip {
            self.key
        } else {
            0
        }
    }

    /// The key, if it was given out for the address `our_ip`; otherwise zero.
    pub fn get_key_value(&self, our_ip: u32) -> (r: u32)
        ensures
            r == self.key_value(our_ip),
    {
        if our_ip == self.ip {
            self.key
        } else {
            0
        }
    }
}

/// What a node knows of another one.
#[derive(Clone, Copy, Debug)]
pub struct KadContact {
    pub id: KadId,
    pub ip: Ipv4Addr,
    pub udp_port: u16,
    pub tcp_port: u16,
    pub version: u8,
    /// Unix time of the last packet.
    pub last_seen: i64,
    pub verified: bool,
    pub contact_type: u8,
    pub udp_key: Option<KadUDPKey>,
    pub kad_options: u8,
    /// Unix time of the first insertion; zero while it was never inserted.
    pub created_at: i64,
    /// Unix time at which the contact is due for a check; zero if none is set.
    pub expires_at: i64,
    /// Unix time of the last check.
    pub last_type_set: i64,
    pub received_hello: bool,
}

/// A contact as far as a 25-byte wire record tells it.
pub open spec fn wire_contact(
    id: KadId,
    ip: u32,
    udp_port: u16,
    tcp_port: u16,
    version: u8,
) -> KadContact {
    KadContact {
        id,
        ip: Ipv4Addr { bits: ip },
        udp_port,
        tcp_port,
        version,
        last_seen: 0,
        verified: false,
        contact_type: CONTACT_TYPE_NEW,
        udp_key: None,
        kad_options: 0,
        created_at: 0,
        expires_at: 0,
        last_type_set: 0,
        received_hello: false,
    }
}

/// What is left of a contact once it has been through its wire record.
pub open spec fn on_wire(c: KadContact) -> KadContact {
    wire_contact(c.id, c.ip.bits, c.udp_port, c.tcp_port, c.version)
}

pub open spec fn dec_contact(s: Seq<u8>) -> Parsed<KadContact> {
    match dec_id(s) {
        Err(e) => Err(e),
        Ok((id, s)) => match dec_u32(s) {
            Err(e) => Err(e),
            Ok((ip, s)) => match dec_u16(s) {
                Err(e) => Err(e),
                Ok((udp, s)) => match dec_u16(s) {
                    Err(e) => Err(e),
                    Ok((tcp, s)) => match dec_u8(s) {
                        Err(e) => Err(e),
                        Ok((version, s)) => Ok((wire_contact(id, ip, udp, tcp, version), s)),
                    },
                },
            },
        },
    }
}

pub open spec fn enc_contact(c: KadContact) -> Seq<u8> {
    c.id.0@ + le32(c.ip.bits) + le16(c.udp_port) + le16(c.tcp_port) + seq![c.version]
}

/// Reading back a written contact gives its wire fields.
pub proof fn lemma_contact_round_trip(c: KadContact, rest: Seq<u8>)
    ensures
        dec_contact(enc_contact(c) + rest) == Ok::<(KadContact, Seq<u8>), WireError>(
            (on_wire(c), rest),
        ),
        enc_contact(c).len() == 25,
{
    let s4 = seq![c.version] + rest;
    let s3 = le16(c.tcp_port) + s4;
    let s2 = le16(c.udp_port) + s3;
    let s1 = le32(c.ip.bits) + s2;
    assert(enc_contact(c) + rest =~= c.id.0@ + s1);
    lemma_id_round_trip(c.id, s1);
    lemma_le32_round_trip(c.ip.bits, s2);
    lemma_le16_round_trip(c.udp_port, s3);
    lemma_le16_round_trip(c.tcp_port, s4);
    lemma_u8_round_trip(c.version, rest);
}

impl KadContact {
    pub fn read_from(r: &mut Reader) -> (res: Result<KadContact, WireError>)
        ensures
            match dec_contact(old(r).rest()) {
                Ok((v, rest)) => res == Ok::<KadContact, WireError>(v) && final(r).rest() == rest,
                Err(e) => res == Err::<KadContact, WireError>(e),
            },
    {
        let id = KadId::read_from(r)?;
        let ip: u32 = r.u32()?;
        let udp_port: u16 = r.u16()?;
        let tcp_port: u16 = r.u16()?;
        let version: u8 = r.u8()?;
        Ok(
            KadContact {
                id,
                ip: Ipv4Addr { bits: ip },
                udp_port,
                tcp_port,
                version,
                last_seen: 0,
                verified: false,
                contact_type: CONTACT_TYPE_NEW,
                udp_key: None,
                kad_options: 0,
                created_at: 0,
                expires_at: 0,
                last_type_set: 0,
                received_hello: false,
            },
        )
    }

    pub fn write_to(&self, out: &mut Vec<u8>)
        ensures
            final(out)@ == old(out)@ + enc_contact(*self),
    {
        let ghost before = out@;
        self.id.write_to(out);
        put_u32(out, self.ip.bits);
        put_u16(out, self.udp_port);
        put_u16(out, self.tcp_port);
        out.push(self.version);
        assert(out@ =~= before + enc_contact(*self));
    }

    pub fn is_kad2(&self) -> (r: bool)
        ensures
            r == (self.version >= KADEMLIA_VERSION2_47A),
    {
        self.version >= KADEMLIA_VERSION2_47A
    }

    pub fn is_dead(&self) -> (r: bool)
        ensures
            r == (self.contact_type >= CONTACT_TYPE_DEAD),
    {
        self.contact_type >= CONTACT_TYPE_DEAD
    }

    /// Whether a check is due at `now`; a contact without a due time has none.
    pub fn is_expired(&self, now: i64) -> (r: bool)
        ensures
            r == (self.expires_at > 0 && now >= self.expires_at),
    {
        self.expires_at > 0 && now >= self.expires_at
    }

    /// Whether the peer said that it cannot be reached over UDP.
    pub fn is_udp_firewalled(&self) -> (r: bool)
        ensures
            r == (self.kad_options & 1 != 0),
    {
        self.kad_options & 1 != 0
    }

    pub fn set_ip(&mut self, ip: Ipv4Addr)
        ensures
            *final(self) == (KadContact { ip, ..*old(self) }),
    {
        self.ip = ip;
    }

    /// The contact once it has answered at `now`: the longer it has been known,
    /// the better its type and the later its next check.
    pub open spec fn after_answer(self, now: i64) -> KadContact {
        let age = sat_sub(now, self.created_at);
        if age < 3600 {
            KadContact {
                contact_type: CONTACT_TYPE_VERIFIED,
                expires_at: (now + 3600) as i64,
                ..self
            }
        } else if age < 7200 {
            KadContact {
                contact_type: CONTACT_TYPE_ACTIVE,
                expires_at: (now + 5400) as i64,
                ..self
            }
        } else {
            KadContact {
                contact_type: CONTACT_TYPE_LONG_ACTIVE,
                expires_at: (now + 7200) as i64,
                ..self
            }
        }
    }

    /// Notes that the contact answered at `now`.
    pub fn update_type(&mut self, now: i64)
        requires
            clock_time(now),
        ensures
            *final(self) == old(self).after_answer(now),
    {
        let age: i64 = seconds_since(self.created_at, now);
        if age < 3600 {
            self.contact_type = CONTACT_TYPE_VERIFIED;
            self.expires_at = now + 3600;
        } else if age < 7200 {
            self.contact_type = CONTACT_TYPE_ACTIVE;
            self.expires_at = now + 5400;
        } else {
            self.contact_type = CONTACT_TYPE_LONG_ACTIVE;
            self.expires_at = now + 7200;
        }
    }

    /// The contact once a check was sent to it at `now`: one step closer to
    /// dead, with two minutes to answer. Within ten seconds of the last check,
    /// and once dead, nothing changes.
    pub open spec fn after_check(self, now: i64) -> KadContact {
        if sat_sub(now, self.last_type_set) < 10 || self.contact_type >= CONTACT_TYPE_DEAD {
            self
        } else {
            KadContact {
                last_type_set: now,
                expires_at: (now + 120) as i64,
                contact_type: (self.contact_type + 1) as u8,
                ..self
            }
        }
    }

    /// Notes that a check was sent at `now`.
    pub fn checking_type(&mut self, now: i64)
        requires
            clock_time(now),
        ensures
            *final(self) == old(self).after_check(now),
    {
        if seconds_since(self.last_type_set, now) < 10 || self.contact_type >= CONTACT_TYPE_DEAD {
            return ;
        }
        self.last_type_set = now;
        self.expires_at = now + 120;
        self.contact_type = self.contact_type + 1;
    }
}

} // verus!
