//! Where a node finds its first contacts: built-in ones, and `nodes.dat`.
use vstd::prelude::*;

use super::types::{
    dec_contact, enc_contact, lemma_contact_round_trip, on_wire, KadContact, KadId, KadUDPKey,
    CONTACT_TYPE_NEW, CONTACT_TYPE_VERIFIED, KADEMLIA_VERSION,
};
use crate::bytes::{
    dec_prefix, dec_u32, dec_u64, dec_u8, enc_many, lemma_dec_prefix_all, lemma_le32_round_trip,
    lemma_le64_round_trip, lemma_many_round_trip, lemma_u8_round_trip, le32, le64, put_u32, put_u64,
    Parsed, Reader, WireError,
};
use crate::net::{ipv4_bits, Ipv4Addr};

verus! {

/// The largest `nodes.dat` that is read: 16 MiB, far more contacts than a
/// routing table can use.
pub const MAX_NODES_DAT_BYTES: u64 = 16777216;

/// Contacts read from one file at most.
pub const MAX_NODES_DAT_CONTACTS: usize = 50000;

// ---------------------------------------------------------------------------
// Built-in contacts
// ---------------------------------------------------------------------------
/// A built-in contact. Its identifier only tells it from the others; the real
/// one is learned from its hello.
pub open spec fn builtin_contact(number: u8, ip: u32) -> KadContact {
    KadContact {
        id: builtin_id(number),
        ip: Ipv4Addr { bits: ip },
        udp_port: 4672,
        tcp_port: 4662,
        version: KADEMLIA_VERSION,
        last_seen: 0,
        verified: false,
        contact_type: CONTACT_TYPE_NEW,
        udp_key: None,
        kad_options: 0,
        created_at: 0,
        expires_at: 0,
        last_type_set: 0,
        received_hello: false,
    }
}

pub open spec fn builtin_id(number: u8) -> KadId {
    KadId([number, 0, 0, 0, 0, 0, 0, 0, 0, 0, 0, 0, 0, 0, 0, 0])
}

fn make_builtin(number: u8, ip: Ipv4Addr) -> (c: KadContact)
    ensures
        c == builtin_contact(number, ip.bits),
{
    KadContact {
        id: KadId([number, 0, 0, 0, 0, 0, 0, 0, 0, 0, 0, 0, 0, 0, 0, 0]),
        ip,
        udp_port: 4672,
        tcp_port: 4662,
        version: KADEMLIA_VERSION,
        last_seen: 0,
        verified: false,
        contact_type: CONTACT_TYPE_NEW,
        udp_key: None,
        kad_options: 0,
        created_at: 0,
        expires_at: 0,
        last_type_set: 0,
        received_hello: false,
    }
}

/// Long-running public nodes that let a new client join.
pub fn default_bootstrap_contacts() -> (r: Vec<KadContact>)
    ensures
        r@ == seq![
            builtin_contact(1, ipv4_bits(212, 63, 206, 35)),
            builtin_contact(2, ipv4_bits(82, 141, 38, 69)),
            builtin_contact(3, ipv4_bits(212, 63, 206, 36)),
            builtin_contact(4, ipv4_bits(94, 23, 196, 180)),
            builtin_contact(5, ipv4_bits(95, 217, 44, 50)),
        ],
        forall|i: int, j: int| 0 <= i < j < r@.len() ==> r@[i].id != r@[j].id,
{
    let mut r: Vec<KadContact> = Vec::new();
    r.push(make_builtin(1, Ipv4Addr::new(212, 63, 206, 35)));
    r.push(make_builtin(2, Ipv4Addr::new(82, 141, 38, 69)));
    r.push(make_builtin(3, Ipv4Addr::new(212, 63, 206, 36)));
    r.push(make_builtin(4, Ipv4Addr::new(94, 23, 196, 180)));
    r.push(make_builtin(5, Ipv4Addr::new(95, 217, 44, 50)));
    proof {
        assert forall|i: int, j: int| 0 <= i < j < r@.len() implies r@[i].id != r@[j].id by {
            assert(r@[i].id.0@[0] == i + 1);
            assert(r@[j].id.0@[0] == j + 1);
        }
    }
    r
}

// ---------------------------------------------------------------------------
// nodes.dat
// ---------------------------------------------------------------------------
/// Which form a `nodes.dat` had. Only the modern one says of each contact
/// whether it was verified, so a caller can tell what to trust.
#[derive(Clone, Copy, Debug, PartialEq, Eq, Structural)]
pub enum NodesDatFormat {
    /// An old form, written by a running client, without that bit.
    LegacyNoVerified,
    /// A list of unproven hints, typically fetched from elsewhere.
    BootstrapHints,
    /// Each contact carries the bit.
    WithVerifiedBit,
}

#[derive(Clone, Copy, Debug, PartialEq, Eq, Structural)]
pub enum NodesDatError {
    /// Over [`MAX_NODES_DAT_BYTES`].
    TooLarge,
    /// Under six bytes.
    TooSmall,
    /// The file ends inside its header.
    UnexpectedEof,
}

/// A parsed file: its contacts, its form, and how many contacts it claimed.
#[derive(Debug)]
pub struct NodesDat {
    pub contacts: Vec<KadContact>,
    pub format: NodesDatFormat,
    pub expected: usize,
}

pub struct NodesDatView {
    pub contacts: Seq<KadContact>,
    pub format: NodesDatFormat,
    pub expected: nat,
}

impl View for NodesDat {
    type V = NodesDatView;

    open spec fn view(&self) -> NodesDatView {
        NodesDatView {
            contacts: self.contacts@,
            format: self.format,
            expected: self.expected as nat,
        }
    }
}

/// The UDP key in the eight bytes of a modern record; all zero means none.
pub open spec fn udp_key_of(raw: u64) -> Option<KadUDPKey> {
    if raw == 0 {
        None
    } else {
        Some(
            KadUDPKey {
                key: (raw / 0x1_0000_0000) as u32,
                ip: (raw % 0x1_0000_0000) as u32,
            },
        )
    }
}

pub open spec fn raw_udp_key(k: Option<KadUDPKey>) -> u64 {
    match k {
        None => 0,
        Some(k) => (k.key * 0x1_0000_0000 + k.ip) as u64,
    }
}

/// A modern record: the wire contact, its UDP key and its verified byte.
pub open spec fn dec_contact_v2(s: Seq<u8>) -> Parsed<KadContact> {
    match dec_contact(s) {
        Err(e) => Err(e),
        Ok((c, s)) => match dec_u64(s) {
            Err(e) => Err(e),
            Ok((raw, s)) => match dec_u8(s) {
                Err(e) => Err(e),
                Ok((v, s)) => Ok(
                    (
                        KadContact {
                            verified: v != 0,
                            contact_type: if v != 0 {
                                CONTACT_TYPE_VERIFIED
                            } else {
                                CONTACT_TYPE_NEW
                            },
                            udp_key: udp_key_of(raw),
                            ..c
                        },
                        s,
                    ),
                ),
            },
        },
    }
}

pub open spec fn reader_v0() -> spec_fn(Seq<u8>) -> Parsed<KadContact> {
    |s: Seq<u8>| dec_contact(s)
}

pub open spec fn reader_v2() -> spec_fn(Seq<u8>) -> Parsed<KadContact> {
    |s: Seq<u8>| dec_contact_v2(s)
}

pub open spec fn claimed(count: u32) -> nat {
    if count < MAX_NODES_DAT_CONTACTS {
        count as nat
    } else {
        MAX_NODES_DAT_CONTACTS as nat
    }
}

pub open spec fn is_kad2() -> spec_fn(KadContact) -> bool {
    |c: KadContact| c.version > 1
}

/// A count and as many modern records as can be read.
pub open spec fn dec_v2_list(s: Seq<u8>) -> Result<NodesDatView, NodesDatError> {
    match dec_u32(s) {
        Err(_) => Err(NodesDatError::UnexpectedEof),
        Ok((count, s)) => Ok(
            NodesDatView {
                contacts: dec_prefix(reader_v2(), claimed(count), s),
                format: NodesDatFormat::WithVerifiedBit,
                expected: claimed(count),
            },
        ),
    }
}

/// What a `nodes.dat` holds. A first word that is not zero is the count of a
/// file without version; after a zero comes the version.
pub open spec fn dec_nodes_dat(s: Seq<u8>) -> Result<NodesDatView, NodesDatError> {
    if s.len() > MAX_NODES_DAT_BYTES {
        Err(NodesDatError::TooLarge)
    } else if s.len() < 6 {
        Err(NodesDatError::TooSmall)
    } else {
        match dec_u32(s) {
            Err(_) => Err(NodesDatError::UnexpectedEof),
            Ok((first, s)) => if first != 0 {
                Ok(
                    NodesDatView {
                        contacts: dec_prefix(reader_v0(), claimed(first), s),
                        format: NodesDatFormat::LegacyNoVerified,
                        expected: claimed(first),
                    },
                )
            } else {
                match dec_u32(s) {
                    Err(_) => Err(NodesDatError::UnexpectedEof),
                    Ok((version, s)) => if version == 3 {
                        match dec_u32(s) {
                            Err(_) => Err(NodesDatError::UnexpectedEof),
                            Ok((edition, s)) => if edition == 1 {
                                match dec_u32(s) {
                                    Err(_) => Err(NodesDatError::UnexpectedEof),
                                    Ok((count, s)) => Ok(
                                        NodesDatView {
                                            contacts: dec_prefix(
                                                reader_v0(),
                                                claimed(count),
                                                s,
                                            ).filter(is_kad2()),
                                            format: NodesDatFormat::BootstrapHints,
                                            expected: claimed(count),
                                        },
                                    ),
                                }
                            } else {
                                dec_v2_list(s)
                            },
                        }
                    } else if version == 1 {
                        match dec_u32(s) {
                            Err(_) => Err(NodesDatError::UnexpectedEof),
                            Ok((count, s)) => Ok(
                                NodesDatView {
                                    contacts: dec_prefix(reader_v0(), claimed(count), s),
                                    format: NodesDatFormat::LegacyNoVerified,
                                    expected: claimed(count),
                                },
                            ),
                        }
                    } else {
                        dec_v2_list(s)
                    },
                }
            },
        }
    }
}

fn read_contact_v0(r: &mut Reader) -> (res: Result<KadContact, WireError>)
    ensures
        match dec_contact(old(r).rest()) {
            Ok((v, rest)) => res == Ok::<KadContact, WireError>(v) && final(r).rest() == rest,
            Err(e) => res == Err::<KadContact, WireError>(e),
        },
{
    KadContact::read_from(r)
}

fn read_contact_v2(r: &mut Reader) -> (res: Result<KadContact, WireError>)
    ensures
        match dec_contact_v2(old(r).rest()) {
            Ok((v, rest)) => res == Ok::<KadContact, WireError>(v) && final(r).rest() == rest,
            Err(e) => res == Err::<KadContact, WireError>(e),
        },
{
    let mut c = KadContact::read_from(r)?;
    let raw: u64 = r.u64()?;
    let v: u8 = r.u8()?;
    c.udp_key =
    if raw != 0 {
        Some(KadUDPKey { key: (raw / 0x1_0000_0000) as u32, ip: (raw % 0x1_0000_0000) as u32 })
    } else {
        None
    };
    c.verified = v != 0;
    c.contact_type =
    if v != 0 {
        CONTACT_TYPE_VERIFIED
    } else {
        CONTACT_TYPE_NEW
    };
    Ok(c)
}

fn read_list(r: &mut Reader, count: usize, modern: bool) -> (out: Vec<KadContact>)
    ensures
        out@ == dec_prefix(
            if modern {
                reader_v2()
            } else {
                reader_v0()
            },
            count as nat,
            old(r).rest(),
        ),
{
    let ghost p = if modern {
        reader_v2()
    } else {
        reader_v0()
    };
    let ghost all = dec_prefix(p, count as nat, r.rest());
    let mut out: Vec<KadContact> = Vec::new();
    let mut i: usize = 0;
    assert(out@ + all =~= all);
    while i < count
        invariant
            i <= count,
            p == (if modern {
                reader_v2()
            } else {
                reader_v0()
            }),
            all == dec_prefix(p, count as nat, old(r).rest()),
            out@ + dec_prefix(p, (count - i) as nat, r.rest()) == all,
        decreases count - i,
    {
        let ghost before = out@;
        let ghost s = r.rest();
        let c = if modern {
            read_contact_v2(r)
        } else {
            read_contact_v0(r)
        };
        match c {
            Ok(c) => {
                out.push(c);
                let ghost tail = dec_prefix(p, (count - i - 1) as nat, r.rest());
                assert(before + (seq![c] + tail) =~= out@ + tail);
            },
            Err(_) => {
                assert(out@ + Seq::<KadContact>::empty() =~= out@);
                return out;
            },
        }
        i = i + 1;
    }
    assert(out@ + Seq::<KadContact>::empty() =~= out@);
    out
}

fn keep_kad2(cs: &Vec<KadContact>) -> (out: Vec<KadContact>)
    ensures
        out@ == cs@.filter(is_kad2()),
{
    let ghost f = is_kad2();
    let mut out: Vec<KadContact> = Vec::new();
    let mut i: usize = 0;
    assert(cs@.take(0).filter(f) =~= Seq::<KadContact>::empty()) by {
        reveal(Seq::filter);
    }
    while i < cs.len()
        invariant
            i <= cs@.len(),
            f == is_kad2(),
            out@ == cs@.take(i as int).filter(f),
        decreases cs@.len() - i,
    {
        assert(cs@.take(i as int + 1).drop_last() =~= cs@.take(i as int));
        proof {
            reveal(Seq::filter);
        }
        if cs[i].version > 1 {
            out.push(cs[i]);
        }
        i = i + 1;
    }
    assert(cs@.take(i as int) =~= cs@);
    out
}

fn clamp_count(count: u32) -> (n: usize)
    ensures
        n == claimed(count),
{
    if (count as u64) < MAX_NODES_DAT_CONTACTS as u64 {
        count as usize
    } else {
        MAX_NODES_DAT_CONTACTS
    }
}

fn header_word(r: &mut Reader) -> (res: Result<u32, NodesDatError>)
    ensures
        match dec_u32(old(r).rest()) {
            Ok((v, rest)) => res == Ok::<u32, NodesDatError>(v) && final(r).rest() == rest,
            Err(_) => res == Err::<u32, NodesDatError>(NodesDatError::UnexpectedEof),
        },
{
    match r.u32() {
        Ok(v) => Ok(v),
        Err(_) => Err(NodesDatError::UnexpectedEof),
    }
}

/// Reads the bytes of a `nodes.dat`.
pub fn load_nodes_dat_with_format(data: &[u8]) -> (res: Result<NodesDat, NodesDatError>)
    ensures
        match dec_nodes_dat(data@) {
            Ok(v) => res is Ok && res->Ok_0@ == v,
            Err(e) => res is Err && res->Err_0 == e,
        },
{
    if data.len() as u64 > MAX_NODES_DAT_BYTES {
        return Err(NodesDatError::TooLarge);
    }
    if data.len() < 6 {
        return Err(NodesDatError::TooSmall);
    }
    let mut r = Reader::new(data);
    let first: u32 = header_word(&mut r)?;
    if first != 0 {
        let expected: usize = clamp_count(first);
        let contacts = read_list(&mut r, expected, false);
        return Ok(
            NodesDat { contacts, format: NodesDatFormat::LegacyNoVerified, expected },
        );
    }
    let version: u32 = header_word(&mut r)?;
    if version == 3 {
        let edition: u32 = header_word(&mut r)?;
        if edition == 1 {
            let expected: usize = clamp_count(header_word(&mut r)?);
            let all = read_list(&mut r, expected, false);
            let contacts = keep_kad2(&all);
            return Ok(
                NodesDat { contacts, format: NodesDatFormat::BootstrapHints, expected },
            );
        }
    } else if version == 1 {
        let expected: usize = clamp_count(header_word(&mut r)?);
        let contacts = read_list(&mut r, expected, false);
        return Ok(
            NodesDat { contacts, format: NodesDatFormat::LegacyNoVerified, expected },
        );
    }
    let expected: usize = clamp_count(header_word(&mut r)?);
    let contacts = read_list(&mut r, expected, true);
    Ok(NodesDat { contacts, format: NodesDatFormat::WithVerifiedBit, expected })
}

/// Reads the contacts of a `nodes.dat`.
pub fn load_nodes_dat(data: &[u8]) -> (res: Result<Vec<KadContact>, NodesDatError>)
    ensures
        match dec_nodes_dat(data@) {
            Ok(v) => res is Ok && res->Ok_0@ == v.contacts,
            Err(e) => res is Err && res->Err_0 == e,
        },
{
    match load_nodes_dat_with_format(data) {
        Ok(n) => Ok(n.contacts),
        Err(e) => Err(e),
    }
}

/// Whether a file gave fewer contacts than it claimed, so that it should be
/// copied aside before it is overwritten.
pub fn is_short_load(loaded: usize, expected: usize) -> (r: bool)
    ensures
        r == (expected != 0 && loaded < expected),
{
    !(expected == 0 || loaded >= expected)
}

pub open spec fn enc_contact_v2(c: KadContact) -> Seq<u8> {
    enc_contact(c) + le64(raw_udp_key(c.udp_key)) + seq![
        if c.verified {
            1u8
        } else {
            0u8
        },
    ]
}

pub open spec fn writer_v2() -> spec_fn(KadContact) -> Seq<u8> {
    |c: KadContact| enc_contact_v2(c)
}

/// The bytes of a modern file.
pub open spec fn enc_nodes_dat(cs: Seq<KadContact>) -> Seq<u8> {
    le32(0) + le32(2) + le32(
        if cs.len() < u32::MAX {
            cs.len() as u32
        } else {
            u32::MAX
        },
    ) + enc_many(writer_v2(), cs)
}

/// The bytes to save some contacts as, or nothing where there are none: an
/// empty list never replaces a file.
pub fn save_nodes_dat(contacts: &[KadContact]) -> (r: Option<Vec<u8>>)
    ensures
        match r {
            Some(b) => contacts@.len() > 0 && b@ == enc_nodes_dat(contacts@),
            None => contacts@.len() == 0,
        },
{
    if contacts.len() == 0 {
        return None;
    }
    let mut buf: Vec<u8> = Vec::new();
    put_u32(&mut buf, 0);
    put_u32(&mut buf, 2);
    let n: u32 = if (contacts.len() as u64) < u32::MAX as u64 {
        contacts.len() as u32
    } else {
        u32::MAX
    };
    put_u32(&mut buf, n);
    let ghost head = buf@;
    let ghost f = writer_v2();
    let mut i: usize = 0;
    assert(buf@ =~= head + enc_many(f, contacts@.take(0)));
    while i < contacts.len()
        invariant
            i <= contacts@.len(),
            f == writer_v2(),
            buf@ == head + enc_many(f, contacts@.take(i as int)),
        decreases contacts@.len() - i,
    {
        let c = &contacts[i];
        let ghost mid = buf@;
        c.write_to(&mut buf);
        let key: u64 = match c.udp_key {
            None => 0,
            Some(k) => k.key as u64 * 0x1_0000_0000 + k.ip as u64,
        };
        put_u64(&mut buf, key);
        buf.push(
            if c.verified {
                1
            } else {
                0
            },
        );
        assert(buf@ =~= mid + enc_contact_v2(*c));
        assert(contacts@.take(i as int + 1).drop_last() =~= contacts@.take(i as int));
        assert(buf@ =~= head + enc_many(f, contacts@.take(i as int + 1)));
        i = i + 1;
    }
    assert(contacts@.take(i as int) =~= contacts@);
    assert(buf@ =~= enc_nodes_dat(contacts@));
    Some(buf)
}

/// What a modern file keeps of a contact.
pub open spec fn on_disk(c: KadContact) -> KadContact {
    KadContact {
        verified: c.verified,
        contact_type: if c.verified {
            CONTACT_TYPE_VERIFIED
        } else {
            CONTACT_TYPE_NEW
        },
        udp_key: udp_key_of(raw_udp_key(c.udp_key)),
        ..on_wire(c)
    }
}

pub proof fn lemma_contact_v2_round_trip(c: KadContact, rest: Seq<u8>)
    ensures
        dec_contact_v2(enc_contact_v2(c) + rest) == Ok::<(KadContact, Seq<u8>), WireError>(
            (on_disk(c), rest),
        ),
        enc_contact_v2(c).len() == 34,
{
    let v: u8 = if c.verified {
        1
    } else {
        0
    };
    let raw = raw_udp_key(c.udp_key);
    let s2 = seq![v] + rest;
    let s1 = le64(raw) + s2;
    assert(enc_contact_v2(c) + rest =~= enc_contact(c) + s1);
    lemma_contact_round_trip(c, s1);
    lemma_le64_round_trip(raw, s2);
    lemma_u8_round_trip(v, rest);
}

proof fn lemma_enc_v2_len(cs: Seq<KadContact>)
    ensures
        enc_many(writer_v2(), cs).len() == 34 * cs.len(),
    decreases cs.len(),
{
    if cs.len() > 0 {
        lemma_enc_v2_len(cs.drop_last());
        lemma_contact_v2_round_trip(cs.last(), Seq::empty());
    }
}

/// The contacts of the list that was saved are read back one by one.
proof fn lemma_v2_body(cs: Seq<KadContact>)
    ensures
        dec_prefix(reader_v2(), cs.len(), enc_many(writer_v2(), cs)) == cs.map_values(
            |c: KadContact| on_disk(c),
        ),
{
    let f = writer_v2();
    let p = reader_v2();
    let ds = cs.map_values(|c: KadContact| on_disk(c));
    let body = enc_many(f, cs);
    assert forall|i: int, t: Seq<u8>| 0 <= i < cs.len() implies #[trigger] p(f(cs[i]) + t) == Ok::<
        (KadContact, Seq<u8>),
        WireError,
    >((ds[i], t)) by {
        lemma_contact_v2_round_trip(cs[i], t);
    }
    lemma_many_round_trip(f, p, cs, ds, Seq::empty());
    assert(body + Seq::<u8>::empty() =~= body);
    lemma_dec_prefix_all(p, cs.len(), body);
}

/// A file that begins with zero and the second version holds a modern list.
pub proof fn lemma_v2_header(s: Seq<u8>, s1: Seq<u8>, s2: Seq<u8>)
    requires
        6 <= s.len() <= MAX_NODES_DAT_BYTES,
        dec_u32(s) == Ok::<(u32, Seq<u8>), WireError>((0u32, s1)),
        dec_u32(s1) == Ok::<(u32, Seq<u8>), WireError>((2u32, s2)),
    ensures
        dec_nodes_dat(s) == dec_v2_list(s2),
{
}

/// Loading what was saved gives every contact back, up to what a file keeps of it.
pub proof fn lemma_nodes_dat_round_trip(cs: Seq<KadContact>)
    requires
        0 < cs.len() <= MAX_NODES_DAT_CONTACTS,
    ensures
        dec_nodes_dat(enc_nodes_dat(cs)) == Ok::<NodesDatView, NodesDatError>(
            NodesDatView {
                contacts: cs.map_values(|c: KadContact| on_disk(c)),
                format: NodesDatFormat::WithVerifiedBit,
                expected: cs.len(),
            },
        ),
{
    let body = enc_many(writer_v2(), cs);
    let n = cs.len() as u32;
    lemma_enc_v2_len(cs);
    let s2 = le32(n) + body;
    let s1 = le32(2) + s2;
    assert(enc_nodes_dat(cs) =~= le32(0) + s1);
    lemma_le32_round_trip(0, s1);
    lemma_le32_round_trip(2, s2);
    lemma_le32_round_trip(n, body);
    lemma_v2_header(enc_nodes_dat(cs), s1, s2);
    lemma_v2_body(cs);
}

/// What a file keeps of a contact, it keeps for good: saving it again changes
/// nothing more.
pub proof fn lemma_on_disk_idempotent(c: KadContact)
    ensures
        on_disk(on_disk(c)) == on_disk(c),
{
}

} // verus!
