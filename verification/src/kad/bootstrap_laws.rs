//! What the files that contacts are kept in look like, byte for byte, and what
//! is read from them.
use vstd::prelude::*;

use super::bootstrap::{
    dec_nodes_dat, dec_v2_list, enc_contact_v2, enc_nodes_dat, lemma_contact_v2_round_trip,
    lemma_v2_header, on_disk, reader_v0, reader_v2, writer_v2, NodesDatError, NodesDatFormat,
    NodesDatView,
};
use super::types::{
    dec_contact, enc_contact, lemma_contact_round_trip, KadContact, KadId, CONTACT_TYPE_NEW,
    CONTACT_TYPE_VERIFIED,
};
use crate::bytes::{
    dec_prefix, dec_u32, enc_many, le16, le32, lemma_dec_prefix_split, lemma_le32_round_trip,
    lemma_many_round_trip, WireError,
};
use crate::net::Ipv4Addr;

verus! {

// ---------------------------------------------------------------------------
// Records
// ---------------------------------------------------------------------------
/// Two bytes as a number, the low one first.
pub open spec fn word16(s: Seq<u8>, i: int) -> int {
    s[i] + 0x100 * s[i + 1]
}

/// Four bytes as a number, the low one first.
pub open spec fn word32(s: Seq<u8>, i: int) -> int {
    s[i] + 0x100 * s[i + 1] + 0x1_0000 * s[i + 2] + 0x100_0000 * s[i + 3]
}

/// A number is written with its low byte first.
pub proof fn lemma_word32_at(a: Seq<u8>, x: u32, b: Seq<u8>)
    ensures
        le32(x).len() == 4,
        word32(a + le32(x) + b, a.len() as int) == x,
{
    let s = a + le32(x) + b;
    let n = a.len() as int;
    lemma_le32_round_trip(x, Seq::empty());
    assert(s[n] == le32(x)[0] && s[n + 1] == le32(x)[1] && s[n + 2] == le32(x)[2] && s[n + 3]
        == le32(x)[3]);
    assert(le32(x)[0] == x % 256 && le32(x)[1] == (x / 256) % 256 && le32(x)[2] == (x / 0x1_0000)
        % 256 && le32(x)[3] == x / 0x100_0000);
}

/// A number is written with its low byte first.
pub proof fn lemma_word16_at(a: Seq<u8>, x: u16, b: Seq<u8>)
    ensures
        le16(x).len() == 2,
        word16(a + le16(x) + b, a.len() as int) == x,
{
    let s = a + le16(x) + b;
    let n = a.len() as int;
    assert(s[n] == le16(x)[0] && s[n + 1] == le16(x)[1]);
}

/// A contact of which no more is known than where it is.
pub open spec fn stranger(id: KadId, ip: Ipv4Addr, udp_port: u16, tcp_port: u16, version: u8) -> KadContact {
    KadContact {
        id,
        ip,
        udp_port,
        tcp_port,
        version,
        last_seen: 0,
        verified: false,
        contact_type: CONTACT_TYPE_NEW,
        udp_key: None,
        kad_options: 0,
        created_at: 0,
        expires_at: 0,
        last_type_set: 0,
        received_hello: false,
    }
}

pub open spec fn strangers(cs: Seq<KadContact>) -> Seq<KadContact> {
    cs.map_values(
        |c: KadContact| stranger(c.id, c.ip, c.udp_port, c.tcp_port, c.version),
    )
}

/// A record of a contact has 25 bytes: its identifier, its address, its UDP
/// port, its TCP port, and its version.
pub proof fn lemma_contact_layout(c: KadContact)
    ensures
        enc_contact(c).len() == 25,
        enc_contact(c).take(16) == c.id.0@,
        word32(enc_contact(c), 16) == c.ip.bits,
        word16(enc_contact(c), 20) == c.udp_port,
        word16(enc_contact(c), 22) == c.tcp_port,
        enc_contact(c)[24] == c.version,
{
    let b = enc_contact(c);
    let (w, x, y, z) = (le32(c.ip.bits), le16(c.udp_port), le16(c.tcp_port), seq![c.version]);
    lemma_word32_at(c.id.0@, c.ip.bits, x + y + z);
    lemma_word16_at(c.id.0@ + w, c.udp_port, y + z);
    lemma_word16_at(c.id.0@ + w + x, c.tcp_port, z);
    assert(b =~= c.id.0@ + w + (x + y + z));
    assert(b =~= c.id.0@ + w + x + (y + z));
    assert(b.take(16) =~= c.id.0@);
}

/// From a record of 25 bytes a stranger is read, and what follows it is left.
/// From less nothing is read.
pub proof fn lemma_contact_read(s: Seq<u8>)
    ensures
        s.len() < 25 ==> dec_contact(s) is Err,
        s.len() >= 25 ==> (dec_contact(s) matches Ok((c, rest)) && {
            &&& rest == s.skip(25)
            &&& c == stranger(c.id, c.ip, c.udp_port, c.tcp_port, c.version)
            &&& c.id.0@ == s.take(16)
            &&& c.ip.bits == word32(s, 16)
            &&& c.udp_port == word16(s, 20)
            &&& c.tcp_port == word16(s, 22)
            &&& c.version == s[24]
        }),
{
    if s.len() >= 16 {
        super::types::lemma_16_exists(s.take(16));
        let s1 = s.skip(16);
        if s1.len() >= 4 {
            let s2 = s1.skip(4);
            assert(s1.skip(2)[0] == s[18] && s1.skip(2)[1] == s[19]);
            if s2.len() >= 2 {
                let s3 = s2.skip(2);
                if s3.len() >= 2 {
                    let s4 = s3.skip(2);
                    if s4.len() >= 1 {
                        assert(s4.skip(1) =~= s.skip(25));
                    }
                }
            }
        }
    }
}

/// A modern record has nine bytes more: the address that the key is for, the
/// key, and whether the contact was verified.
pub proof fn lemma_contact_v2_layout(c: KadContact)
    ensures
        enc_contact_v2(c).len() == 34,
        enc_contact_v2(c).take(25) == enc_contact(c),
        word32(enc_contact_v2(c), 25) == (match c.udp_key {
            Some(k) => k.ip,
            None => 0,
        }),
        word32(enc_contact_v2(c), 29) == (match c.udp_key {
            Some(k) => k.key,
            None => 0,
        }),
        enc_contact_v2(c)[33] == (if c.verified {
            1u8
        } else {
            0
        }),
{
    lemma_contact_layout(c);
    let raw = super::bootstrap::raw_udp_key(c.udp_key);
    if let Some(k) = c.udp_key {
        assert(raw == k.key * 0x1_0000_0000 + k.ip);
    }
    lemma_tail_layout(
        enc_contact(c),
        (raw % 0x1_0000_0000) as u32,
        (raw / 0x1_0000_0000) as u32,
        if c.verified {
            1u8
        } else {
            0u8
        },
    );
}

proof fn lemma_tail_layout(a: Seq<u8>, lo: u32, hi: u32, v: u8)
    requires
        a.len() == 25,
    ensures
        ({
            let b = a + (le32(lo) + le32(hi)) + seq![v];
            &&& b.len() == 34
            &&& b.take(25) == a
            &&& word32(b, 25) == lo
            &&& word32(b, 29) == hi
            &&& b[33] == v
        }),
{
    let b = a + (le32(lo) + le32(hi)) + seq![v];
    lemma_word32_at(a, lo, le32(hi) + seq![v]);
    lemma_word32_at(a + le32(lo), hi, seq![v]);
    assert(b =~= a + le32(lo) + (le32(hi) + seq![v]));
    assert(b =~= a + le32(lo) + le32(hi) + seq![v]);
    assert(b.take(25) =~= a);
}

// ---------------------------------------------------------------------------
// Files
// ---------------------------------------------------------------------------
/// The 25-byte records of some contacts.
pub open spec fn plain_records(cs: Seq<KadContact>) -> Seq<u8> {
    enc_many(|c: KadContact| enc_contact(c), cs)
}

proof fn lemma_plain_records(cs: Seq<KadContact>, extra: nat, tail: Seq<u8>)
    requires
        tail.len() < 25,
    ensures
        dec_prefix(reader_v0(), cs.len() + extra, plain_records(cs) + tail) == strangers(cs),
{
    let f = |c: KadContact| enc_contact(c);
    let p = reader_v0();
    let ds = strangers(cs);
    assert forall|i: int, t: Seq<u8>| 0 <= i < cs.len() implies #[trigger] p(f(cs[i]) + t) == Ok::<
        (KadContact, Seq<u8>),
        WireError,
    >((ds[i], t)) by {
        lemma_contact_round_trip(cs[i], t);
    }
    lemma_many_round_trip(f, p, cs, ds, tail);
    lemma_dec_prefix_split(p, cs.len(), extra, plain_records(cs) + tail);
    lemma_contact_read(tail);
    assert(dec_prefix(p, extra, tail) =~= Seq::empty());
    assert(ds + Seq::<KadContact>::empty() =~= ds);
}

/// What is read after a first word of zero.
proof fn lemma_words(n: u32, rest: Seq<u8>)
    ensures
        dec_u32(le32(n) + rest) == Ok::<(u32, Seq<u8>), WireError>((n, rest)),
        (le32(n) + rest).len() == 4 + rest.len(),
{
    lemma_le32_round_trip(n, rest);
}

/// A file of the bootstrap edition, which is what is downloaded to join, holds
/// 25-byte records. It loads as its contacts of more than the first version, in
/// order, each a stranger. Records that are missing or cut off at its end cost
/// no other.
pub proof fn lemma_bootstrap_edition(cs: Seq<KadContact>, count: u32, tail: Seq<u8>)
    requires
        cs.len() <= count <= 50000,
        tail.len() < 25,
        16 + plain_records(cs).len() + tail.len() <= 16777216,
    ensures
        dec_nodes_dat(
            le32(0) + (le32(3) + (le32(1) + (le32(count) + (plain_records(cs) + tail)))),
        ) == Ok::<NodesDatView, NodesDatError>(
            NodesDatView {
                contacts: strangers(cs).filter(|c: KadContact| c.version > 1),
                format: NodesDatFormat::BootstrapHints,
                expected: count as nat,
            },
        ),
{
    let body = plain_records(cs) + tail;
    let s3 = le32(count) + body;
    let s2 = le32(1) + s3;
    let s1 = le32(3) + s2;
    lemma_words(count, body);
    lemma_words(1, s3);
    lemma_words(3, s2);
    lemma_words(0, s1);
    lemma_plain_records(cs, (count - cs.len()) as nat, tail);
    assert((|c: KadContact| c.version > 1) =~= super::bootstrap::is_kad2());
    assert(super::bootstrap::claimed(count) == count as nat);
}

/// A file of the first version holds 25-byte records, and loads as all of its
/// contacts, in order, each a stranger.
pub proof fn lemma_first_version(cs: Seq<KadContact>, count: u32, tail: Seq<u8>)
    requires
        cs.len() <= count <= 50000,
        tail.len() < 25,
        12 + plain_records(cs).len() + tail.len() <= 16777216,
    ensures
        dec_nodes_dat(le32(0) + (le32(1) + (le32(count) + (plain_records(cs) + tail)))) == Ok::<
            NodesDatView,
            NodesDatError,
        >(
            NodesDatView {
                contacts: strangers(cs),
                format: NodesDatFormat::LegacyNoVerified,
                expected: count as nat,
            },
        ),
{
    let body = plain_records(cs) + tail;
    let s2 = le32(count) + body;
    let s1 = le32(1) + s2;
    lemma_words(count, body);
    lemma_words(1, s2);
    lemma_words(0, s1);
    lemma_plain_records(cs, (count - cs.len()) as nat, tail);
    assert(super::bootstrap::claimed(count) == count as nat);
}

/// A file without version begins with the count of its 25-byte records, and
/// loads as all of its contacts, in order, each a stranger.
pub proof fn lemma_without_version(cs: Seq<KadContact>, count: u32, tail: Seq<u8>)
    requires
        cs.len() <= count <= 50000,
        0 < count,
        tail.len() < 25,
        2 <= plain_records(cs).len() + tail.len() <= 16777212,
    ensures
        dec_nodes_dat(le32(count) + (plain_records(cs) + tail)) == Ok::<NodesDatView, NodesDatError>(
            NodesDatView {
                contacts: strangers(cs),
                format: NodesDatFormat::LegacyNoVerified,
                expected: count as nat,
            },
        ),
{
    let body = plain_records(cs) + tail;
    lemma_words(count, body);
    lemma_plain_records(cs, (count - cs.len()) as nat, tail);
    assert(super::bootstrap::claimed(count) == count as nat);
}

/// A contact as a modern file tells it.
pub open spec fn acquaintance(c: KadContact) -> KadContact {
    KadContact {
        verified: c.verified,
        contact_type: if c.verified {
            CONTACT_TYPE_VERIFIED
        } else {
            CONTACT_TYPE_NEW
        },
        udp_key: c.udp_key,
        ..stranger(c.id, c.ip, c.udp_port, c.tcp_port, c.version)
    }
}

/// Whether a key can be told from none.
pub open spec fn has_real_key(c: KadContact) -> bool {
    c.udp_key matches Some(k) ==> k.key != 0 || k.ip != 0
}

/// The 34-byte records of some contacts.
pub open spec fn full_records(cs: Seq<KadContact>) -> Seq<u8> {
    enc_many(writer_v2(), cs)
}

proof fn lemma_v2_read(c: KadContact, t: Seq<u8>)
    requires
        has_real_key(c),
    ensures
        super::bootstrap::dec_contact_v2(enc_contact_v2(c) + t) == Ok::<
            (KadContact, Seq<u8>),
            WireError,
        >((acquaintance(c), t)),
{
    lemma_contact_v2_round_trip(c, t);
    if let Some(k) = c.udp_key {
        let raw = super::bootstrap::raw_udp_key(c.udp_key);
        assert(raw == k.key * 0x1_0000_0000 + k.ip);
        assert(raw / 0x1_0000_0000 == k.key && raw % 0x1_0000_0000 == k.ip);
    }
    assert(on_disk(c) == acquaintance(c));
}

proof fn lemma_full_records(cs: Seq<KadContact>, extra: nat, tail: Seq<u8>)
    requires
        tail.len() < 25,
        forall|i: int| 0 <= i < cs.len() ==> has_real_key(#[trigger] cs[i]),
    ensures
        dec_prefix(reader_v2(), cs.len() + extra, full_records(cs) + tail) == cs.map_values(
            |c: KadContact| acquaintance(c),
        ),
{
    let f = writer_v2();
    let p = reader_v2();
    let ds = cs.map_values(|c: KadContact| acquaintance(c));
    assert forall|i: int, t: Seq<u8>| 0 <= i < cs.len() implies #[trigger] p(f(cs[i]) + t) == Ok::<
        (KadContact, Seq<u8>),
        WireError,
    >((ds[i], t)) by {
        lemma_v2_read(cs[i], t);
    }
    lemma_many_round_trip(f, p, cs, ds, tail);
    lemma_dec_prefix_split(p, cs.len(), extra, full_records(cs) + tail);
    lemma_contact_read(tail);
    assert(dec_prefix(p, extra, tail) =~= Seq::empty());
    assert(ds + Seq::<KadContact>::empty() =~= ds);
}

proof fn lemma_v2_list(cs: Seq<KadContact>, count: u32, tail: Seq<u8>)
    requires
        cs.len() <= count <= 50000,
        tail.len() < 25,
        forall|i: int| 0 <= i < cs.len() ==> has_real_key(#[trigger] cs[i]),
    ensures
        dec_v2_list(le32(count) + (full_records(cs) + tail)) == Ok::<NodesDatView, NodesDatError>(
            NodesDatView {
                contacts: cs.map_values(|c: KadContact| acquaintance(c)),
                format: NodesDatFormat::WithVerifiedBit,
                expected: count as nat,
            },
        ),
{
    let body = full_records(cs) + tail;
    lemma_words(count, body);
    lemma_full_records(cs, (count - cs.len()) as nat, tail);
    assert(super::bootstrap::claimed(count) == count as nat);
}

/// A file of the second version holds 34-byte records, and loads as all of its
/// contacts, in order, with their keys and what was verified of them.
pub proof fn lemma_second_version(cs: Seq<KadContact>, count: u32, tail: Seq<u8>)
    requires
        cs.len() <= count <= 50000,
        tail.len() < 25,
        forall|i: int| 0 <= i < cs.len() ==> has_real_key(#[trigger] cs[i]),
        12 + full_records(cs).len() + tail.len() <= 16777216,
    ensures
        dec_nodes_dat(le32(0) + (le32(2) + (le32(count) + (full_records(cs) + tail)))) == Ok::<
            NodesDatView,
            NodesDatError,
        >(
            NodesDatView {
                contacts: cs.map_values(|c: KadContact| acquaintance(c)),
                format: NodesDatFormat::WithVerifiedBit,
                expected: count as nat,
            },
        ),
{
    let body = full_records(cs) + tail;
    let s2 = le32(count) + body;
    let s1 = le32(2) + s2;
    lemma_words(count, body);
    lemma_words(2, s2);
    lemma_words(0, s1);
    lemma_v2_header(le32(0) + s1, s1, s2);
    lemma_v2_list(cs, count, tail);
}

proof fn lemma_v3_header(s: Seq<u8>, s1: Seq<u8>, s2: Seq<u8>, s3: Seq<u8>, edition: u32)
    requires
        6 <= s.len() <= 16777216,
        edition != 1,
        dec_u32(s) == Ok::<(u32, Seq<u8>), WireError>((0u32, s1)),
        dec_u32(s1) == Ok::<(u32, Seq<u8>), WireError>((3u32, s2)),
        dec_u32(s2) == Ok::<(u32, Seq<u8>), WireError>((edition, s3)),
    ensures
        dec_nodes_dat(s) == dec_v2_list(s3),
{
}

/// A file of the third version and of no bootstrap edition holds 34-byte records too.
pub proof fn lemma_third_version(cs: Seq<KadContact>, edition: u32, count: u32, tail: Seq<u8>)
    requires
        edition != 1,
        cs.len() <= count <= 50000,
        tail.len() < 25,
        forall|i: int| 0 <= i < cs.len() ==> has_real_key(#[trigger] cs[i]),
        16 + full_records(cs).len() + tail.len() <= 16777216,
    ensures
        dec_nodes_dat(
            le32(0) + (le32(3) + (le32(edition) + (le32(count) + (full_records(cs) + tail)))),
        ) == Ok::<NodesDatView, NodesDatError>(
            NodesDatView {
                contacts: cs.map_values(|c: KadContact| acquaintance(c)),
                format: NodesDatFormat::WithVerifiedBit,
                expected: count as nat,
            },
        ),
{
    let body = full_records(cs) + tail;
    let s3 = le32(count) + body;
    let s2 = le32(edition) + s3;
    let s1 = le32(3) + s2;
    lemma_words(count, body);
    lemma_words(edition, s3);
    lemma_words(3, s2);
    lemma_words(0, s1);
    lemma_v3_header(le32(0) + s1, s1, s2, s3, edition);
    lemma_v2_list(cs, count, tail);
}

/// What is saved is a file of the second version with every contact in it.
pub proof fn lemma_saved_file(cs: Seq<KadContact>)
    requires
        cs.len() <= u32::MAX,
    ensures
        enc_nodes_dat(cs) == seq![0u8, 0, 0, 0, 2, 0, 0, 0] + le32(cs.len() as u32)
            + full_records(cs),
{
    assert(enc_nodes_dat(cs) =~= seq![0u8, 0, 0, 0, 2, 0, 0, 0] + le32(cs.len() as u32)
        + full_records(cs));
}

/// A file is refused for its size alone where it has more than 16 MiB or less
/// than six bytes, and never otherwise once its header is whole.
pub proof fn lemma_file_refused(s: Seq<u8>)
    ensures
        s.len() > 16777216 <==> dec_nodes_dat(s) == Err::<NodesDatView, _>(NodesDatError::TooLarge),
        s.len() < 6 <==> dec_nodes_dat(s) == Err::<NodesDatView, _>(NodesDatError::TooSmall),
        16 <= s.len() <= 16777216 ==> dec_nodes_dat(s) is Ok,
{
}

} // verus!
