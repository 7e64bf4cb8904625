//! What an obfuscated packet looks like, byte for byte, to whoever has its key.
use vstd::prelude::*;

use super::bootstrap_laws::{lemma_word16_at, lemma_word32_at, word16, word32};
use super::obfuscation::{
    advanced, ciphered, client_body, client_marker, client_sealed, drawn_client_marker, key_byte,
    keyed, lemma_cipher_involution, marker_byte, md5_digest, mixed, node_key, opened, opened_body,
    opened_with, seal_key, sealed, sealed_body, user_key, valid_header, verify_key, OpenedView,
    Rc4View,
};
use super::types::{KadId, KadUDPKey};
use crate::bytes::{from_le16, from_le32, le16, le32};

verus! {

// ---------------------------------------------------------------------------
// The cipher
// ---------------------------------------------------------------------------
/// The key turns the permutation of all bytes, step by step: the second index
/// moves on by the byte at the step and by the byte of the key, which is used
/// round and round, and the two bytes change places.
pub proof fn lemma_key_mixing(key: Seq<u8>, n: nat)
    requires
        key.len() > 0,
        n < 256,
    ensures
        mixed(key, 0).1 == 0,
        forall|k: int| 0 <= k < 256 ==> #[trigger] mixed(key, 0).0[k] == k,
        mixed(key, 0).0.len() == 256,
        ({
            let (s, j) = mixed(key, n);
            let (t, h) = mixed(key, n + 1);
            s.len() == 256 ==> {
                &&& h == (j + s[n as int] + key[n as int % key.len() as int]) % 256
                &&& t.len() == 256
                &&& t[n as int] == s[h as int]
                &&& t[h as int] == s[n as int]
                &&& forall|k: int| 0 <= k < 256 && k != n && k != h ==> #[trigger] t[k] == s[k]
            }
        }),
        keyed(key).s == mixed(key, 256).0,
        keyed(key).i == 0,
        keyed(key).j == 0,
{
    let (s, j) = mixed(key, n);
    let x = key[n as int % key.len() as int];
    assert(j.wrapping_add(s[n as int]) == (j + s[n as int]) % 256);
}

/// For each byte the first index moves on by one, the second by the byte there,
/// and the two bytes change places.
pub proof fn lemma_cipher_step(v: Rc4View)
    requires
        v.s.len() == 256,
    ensures
        ({
            let w = advanced(v);
            &&& w.i == (v.i + 1) % 256
            &&& w.j == (v.j + v.s[w.i as int]) % 256
            &&& w.s.len() == 256
            &&& w.s[w.i as int] == v.s[w.j as int]
            &&& w.s[w.j as int] == v.s[w.i as int]
            &&& forall|k: int|
                0 <= k < 256 && k != w.i && k != w.j ==> #[trigger] w.s[k] == v.s[k]
        }),
        ({
            let w = advanced(v);
            key_byte(v, 1) == w.s[(w.s[w.i as int] + w.s[w.j as int]) % 256]
        }),
{
    reveal_with_fuel(super::obfuscation::after, 2);
}

/// Each byte is joined with the key byte of its place by exclusive or, so that the
/// same cipher undoes what it did.
pub proof fn lemma_cipher_bytes(v: Rc4View, data: Seq<u8>, k: int)
    requires
        0 <= k < data.len(),
    ensures
        ciphered(v, data).len() == data.len(),
        ciphered(v, data)[k] == data[k] ^ key_byte(v, (k + 1) as nat),
        ciphered(v, ciphered(v, data)) == data,
{
    lemma_cipher_involution(v, data);
}

// ---------------------------------------------------------------------------
// Keys
// ---------------------------------------------------------------------------
/// The key for a node is the MD5 digest of its 16 bytes of identifier and two of
/// key part.
pub proof fn lemma_node_key(id: KadId, part: u16, b: Seq<u8>)
    requires
        b.len() == 18,
        b.take(16) == id.0@,
        word16(b, 16) == part,
    ensures
        node_key(id, part) == md5_digest(b),
{
    assert(b =~= id.0@ + le16(part)) by {
        assert forall|k: int| 0 <= k < 16 implies b[k] == id.0@[k] by {
            assert(b.take(16)[k] == b[k]);
        }
    }
}

/// The key for a verify key is the MD5 digest of its four bytes and two of key part.
pub proof fn lemma_verify_key(key: u32, part: u16, b: Seq<u8>)
    requires
        b.len() == 6,
        word32(b, 0) == key,
        word16(b, 4) == part,
    ensures
        verify_key(key, part) == md5_digest(b),
{
    lemma_le32_bytes(b[0], b[1], b[2], b[3], key);
    assert(b =~= le32(key) + le16(part)) by {
        assert(le16(part)[0] == b[4] && le16(part)[1] == b[5]);
    }
}

proof fn lemma_le32_bytes(a: u8, b: u8, c: u8, d: u8, x: u32)
    requires
        x == a + 0x100 * b + 0x1_0000 * c + 0x100_0000 * d,
    ensures
        le32(x).len() == 4,
        le32(x)[0] == a,
        le32(x)[1] == b,
        le32(x)[2] == c,
        le32(x)[3] == d,
{
    let (lo, hi) = ((x % 0x1_0000) as u16, (x / 0x1_0000) as u16);
    assert(lo == a + 0x100 * b && hi == c + 0x100 * d);
    assert(le16(lo)[0] == a && le16(lo)[1] == b);
    assert(le16(hi)[0] == c && le16(hi)[1] == d);
}

/// The key for a client is the MD5 digest of its 16 bytes of user hash, the four of
/// the sender's address, the byte 91, and two of key part.
pub proof fn lemma_user_key(hash: Seq<u8>, ip: Seq<u8>, part: u16, b: Seq<u8>)
    requires
        hash.len() == 16,
        ip.len() == 4,
        b.len() == 23,
        b.take(16) == hash,
        b.subrange(16, 20) == ip,
        b[20] == 91,
        word16(b, 21) == part,
    ensures
        user_key(hash, ip, part) == md5_digest(b),
{
    assert forall|k: int| 0 <= k < 16 implies b[k] == hash[k] by {
        assert(b.take(16)[k] == b[k]);
    }
    assert forall|k: int| 0 <= k < 4 implies b[16 + k] == ip[k] by {
        assert(b.subrange(16, 20)[k] == b[16 + k]);
    }
    assert(b =~= hash + ip + seq![91u8] + le16(part));
}

// ---------------------------------------------------------------------------
// Sealing
// ---------------------------------------------------------------------------
/// A sealed packet starts with a byte that is no known header and two bytes of key
/// part. Under the key there follow the magic number, the length of the padding,
/// the padding, the key of the receiver, the key of the sender, and the packet.
/// With a node that is known by its verify key alone, the key is made of that,
/// else of its identifier.
pub proof fn lemma_sealed_layout(
    packet: Seq<u8>,
    target: KadId,
    sender_key: u32,
    receiver_key: u32,
    part: u16,
    pad: Seq<u8>,
    first: u8,
)
    requires
        pad.len() < 16,
    ensures
        ({
            let d = sealed(packet, target, sender_key, receiver_key, part, pad, first);
            let key = if target == KadId::zero_spec() && receiver_key != 0 {
                verify_key(receiver_key, part)
            } else {
                node_key(target, part)
            };
            let p = ciphered(keyed(key), d.skip(3));
            let n = pad.len() as int;
            &&& d.len() == 16 + n + packet.len()
            &&& d[0] == first
            &&& word16(d, 1) == part
            &&& word32(p, 0) == 0x395F2EC1
            &&& p[4] == n
            &&& p.subrange(5, 5 + n) == pad
            &&& word32(p, 5 + n) == receiver_key
            &&& word32(p, 9 + n) == sender_key
            &&& p.skip(13 + n) == packet
        }),
{
    let d = sealed(packet, target, sender_key, receiver_key, part, pad, first);
    let v = keyed(seal_key(target, receiver_key, part));
    let body = sealed_body(packet, pad, sender_key, receiver_key);
    assert(d.skip(3) =~= ciphered(v, body));
    lemma_cipher_involution(v, body);
    let n = pad.len() as int;
    let m = le32(0x395F2EC1);
    let c = seq![pad.len() as u8];
    let (r, s) = (le32(receiver_key), le32(sender_key));
    lemma_word32_at(Seq::empty(), 0x395F2EC1, c + pad + r + s + packet);
    assert(body =~= Seq::<u8>::empty() + m + (c + pad + r + s + packet));
    lemma_word32_at(m + c + pad, receiver_key, s + packet);
    assert(body =~= m + c + pad + r + (s + packet));
    lemma_word32_at(m + c + pad + r, sender_key, packet);
    assert(body.subrange(5, 5 + n) =~= pad);
    assert(body.skip(13 + n) =~= packet);
    lemma_word16_at(seq![first], part, ciphered(v, body));
    assert(d =~= seq![first] + le16(part) + ciphered(v, body));
}

/// The first byte of a sealed packet tells the kind of its key in its lowest two
/// bits: 0 for an identifier, 2 for a verify key.
pub proof fn lemma_marker(first: u8, marker: u8)
    requires
        marker_byte(first, marker),
    ensures
        first % 4 == marker,
        first != 0,
        first != 0xE3 && first != 0xC5 && first != 0xE5 && first != 0xE4 && first != 0xA3 && first
            != 0xB2 && first != 0xD4,
{
}

/// A packet between clients has no padding and no keys: under the key there follow
/// the magic number, a byte of zero, and the packet.
pub proof fn lemma_client_layout(
    packet: Seq<u8>,
    hash: Seq<u8>,
    ip: Seq<u8>,
    part: u16,
    first: u8,
)
    ensures
        ({
            let d = client_sealed(packet, hash, ip, part, first);
            let p = ciphered(keyed(user_key(hash, ip, part)), d.skip(3));
            &&& d.len() == 8 + packet.len()
            &&& d[0] == first
            &&& word16(d, 1) == part
            &&& word32(p, 0) == 0x395F2EC1
            &&& p[4] == 0
            &&& p.skip(5) == packet
        }),
        client_marker(first) <==> first % 2 == 1 && first != 0xE3 && first != 0xC5 && first != 0xE5
            && first != 0xA3,
{
    let d = client_sealed(packet, hash, ip, part, first);
    let v = keyed(user_key(hash, ip, part));
    let body = client_body(packet);
    assert(d.skip(3) =~= ciphered(v, body));
    lemma_cipher_involution(v, body);
    lemma_word32_at(Seq::empty(), 0x395F2EC1, seq![0u8] + packet);
    assert(body =~= Seq::<u8>::empty() + le32(0x395F2EC1) + (seq![0u8] + packet));
    assert(body.skip(5) =~= packet);
    lemma_word16_at(seq![first], part, ciphered(v, body));
    assert(d =~= seq![first] + le16(part) + ciphered(v, body));
}

/// A number drawn for the first byte gives its low byte made odd, unless that is a
/// known header.
pub proof fn lemma_drawn_marker(x: u32)
    ensures
        ({
            let b = if x % 2 == 1 {
                (x % 256) as int
            } else {
                (x % 256) + 1
            };
            if b == 0xE3 || b == 0xC5 || b == 0xE5 || b == 0xA3 {
                drawn_client_marker(x) is None
            } else {
                drawn_client_marker(x) == Some(b as u8)
            }
        }),
{
}

// ---------------------------------------------------------------------------
// Opening
// ---------------------------------------------------------------------------
proof fn lemma_word32_behind(p: Seq<u8>, i: int)
    requires
        0 <= i,
        i + 4 <= p.len(),
    ensures
        from_le32(p.skip(i)) == word32(p, i),
{
    let t = p.skip(i);
    assert(t[0] == p[i] && t[1] == p[i + 1]);
    assert(t.skip(2)[0] == p[i + 2] && t.skip(2)[1] == p[i + 3]);
}

/// A body that was deciphered counts if it starts with the magic number, has room
/// for the padding that its fifth byte tells in its low four bits, for two keys and
/// a packet, and if the packet starts with a known header. The first key is
/// the receiver's, and is valid if it is the one that was given out; the second is
/// the sender's, and counts for the sender's address, if there is one.
pub proof fn lemma_body_read(p: Seq<u8>, expected: u32, sender_ip: u32)
    requires
        p.len() >= 5,
    ensures
        ({
            let n = p[4] as int % 16;
            let r = opened_body(p, expected, sender_ip);
            if word32(p, 0) != 0x395F2EC1 || p.len() < 14 + n || !valid_header(p[13 + n]) {
                r is None
            } else {
                r == Some(
                    OpenedView {
                        payload: p.skip(13 + n),
                        sender_udp_key: if word32(p, 9 + n) == 0 {
                            None
                        } else {
                            Some(KadUDPKey { key: word32(p, 9 + n) as u32, ip: sender_ip })
                        },
                        valid_receiver_key: expected != 0 && word32(p, 5 + n) == expected,
                    },
                )
            }
        }),
{
    let n = p[4] as int % 16;
    assert(p.skip(0) =~= p);
    lemma_word32_behind(p, 0);
    if p.len() >= 14 + n {
        lemma_word32_behind(p, 5 + n);
        lemma_word32_behind(p, 9 + n);
        assert(p.skip(13 + n)[0] == p[13 + n]);
    }
}

/// A packet of at least 16 bytes is opened if one of the keys opens it: that of our
/// identifier, that of our user hash and the sender's address, or that of the verify
/// key that we gave out. What comes out is what one of them gives; where the first
/// byte hints at the user hash or the verify key, that one goes first, and else that
/// of the identifier does.
pub proof fn lemma_opened_by_some_key(
    data: Seq<u8>,
    id: KadId,
    hash: Seq<u8>,
    own_key: u32,
    sender_ip: u32,
)
    ensures
        ({
            let part = word16(data, 1) as u16;
            let r = opened(data, id, hash, own_key, sender_ip);
            let by_id = opened_with(data, node_key(id, part), own_key, sender_ip);
            let by_hash = opened_with(
                data,
                user_key(hash, le32(sender_ip), part),
                own_key,
                sender_ip,
            );
            let by_key = opened_with(data, verify_key(own_key, part), own_key, sender_ip);
            if data.len() < 16 {
                r is None
            } else {
                &&& r is None <==> by_id is None && by_hash is None && (own_key == 0
                    || by_key is None)
                &&& r is Some ==> r == by_id || r == by_hash || (own_key != 0 && r == by_key)
                &&& data[0] % 4 == 1 && by_hash is Some ==> r == by_hash
                &&& data[0] % 4 == 2 && own_key != 0 && by_key is Some ==> r == by_key
                &&& data[0] % 4 != 1 && data[0] % 4 != 2 && by_id is Some ==> r == by_id
            }
        }),
{
    if data.len() >= 16 {
        assert(data.skip(1)[0] == data[1] && data.skip(1)[1] == data[2]);
        assert(from_le16(data.skip(1)) == word16(data, 1));
    }
}

} // verus!
