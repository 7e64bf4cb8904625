//! Obfuscated UDP packets: RC4 under a key derived with MD5. It hides the
//! protocol from casual inspection; it keeps nothing secret.
use vstd::prelude::*;

use rand::RngCore;

use super::types::{KadId, KadUDPKey};
use crate::bytes::{
    from_le16, from_le32, le16, le32, lemma_le16_round_trip, lemma_le32_round_trip, put_bytes,
    put_u16, put_u32,
};

verus! {

/// What every decrypted packet starts with.
pub const MAGICVALUE_UDP_SYNC_CLIENT: u32 = 0x395F2EC1;

/// A byte of the key between clients.
pub const MAGICVALUE_UDP: u8 = 91;

/// Whether a byte starts a packet of a known protocol.
pub open spec fn valid_header(b: u8) -> bool {
    b == 0xE3 || b == 0xC5 || b == 0xE5 || b == 0xE4 || b == 0xA3 || b == 0xB2 || b == 0xD4
}

fn is_valid_header(b: u8) -> (r: bool)
    ensures
        r == valid_header(b),
{
    b == 0xE3 || b == 0xC5 || b == 0xE5 || b == 0xE4 || b == 0xA3 || b == 0xB2 || b == 0xD4
}

// ---------------------------------------------------------------------------
// RC4
// ---------------------------------------------------------------------------
/// The state of the cipher. It is not wiped when it goes.
pub struct Rc4State {
    s: [u8; 256],
    i: u8,
    j: u8,
}

/// The state of the cipher as a mathematical value: the permutation and two indices.
pub struct Rc4View {
    pub s: Seq<u8>,
    pub i: u8,
    pub j: u8,
}

impl View for Rc4State {
    type V = Rc4View;

    closed spec fn view(&self) -> Rc4View {
        Rc4View { s: self.s@, i: self.i, j: self.j }
    }
}

pub open spec fn swapped(s: Seq<u8>, a: int, b: int) -> Seq<u8> {
    s.update(a, s[b]).update(b, s[a])
}

/// The permutation before the key is mixed in.
pub open spec fn identity256() -> Seq<u8> {
    Seq::new(256, |k: int| k as u8)
}

/// The permutation and the second index after `n` steps of key mixing.
pub open spec fn mixed(key: Seq<u8>, n: nat) -> (Seq<u8>, u8)
    decreases n,
{
    if n == 0 {
        (identity256(), 0)
    } else {
        let (s, j) = mixed(key, (n - 1) as nat);
        let k = (n - 1) as int;
        let j2 = j.wrapping_add(s[k]).wrapping_add(key[k % (key.len() as int)]);
        (swapped(s, k, j2 as int), j2)
    }
}

/// The cipher under a key. An empty key mixes nothing in.
pub open spec fn keyed(key: Seq<u8>) -> Rc4View {
    Rc4View {
        s: if key.len() == 0 {
            identity256()
        } else {
            mixed(key, 256).0
        },
        i: 0,
        j: 0,
    }
}

/// The cipher one byte further.
pub open spec fn advanced(v: Rc4View) -> Rc4View {
    let i = v.i.wrapping_add(1);
    let j = v.j.wrapping_add(v.s[i as int]);
    Rc4View { s: swapped(v.s, i as int, j as int), i, j }
}

/// The cipher `n` bytes further.
pub open spec fn after(v: Rc4View, n: nat) -> Rc4View
    decreases n,
{
    if n == 0 {
        v
    } else {
        advanced(after(v, (n - 1) as nat))
    }
}

/// The byte that the cipher adds after its `n`-th step.
pub open spec fn key_byte(v: Rc4View, n: nat) -> u8 {
    let w = after(v, n);
    w.s[w.s[w.i as int].wrapping_add(w.s[w.j as int]) as int]
}

/// What the cipher makes of some bytes.
pub open spec fn ciphered(v: Rc4View, data: Seq<u8>) -> Seq<u8> {
    Seq::new(data.len(), |k: int| data[k] ^ key_byte(v, (k + 1) as nat))
}

/// Advancing in two parts.
pub proof fn lemma_after_add(v: Rc4View, a: nat, b: nat)
    ensures
        after(v, a + b) == after(after(v, a), b),
    decreases b,
{
    if b > 0 {
        lemma_after_add(v, a, (b - 1) as nat);
        assert((a + b - 1) as nat == a + (b - 1) as nat);
    }
}

/// Ciphering in two parts.
pub proof fn lemma_ciphered_add(v: Rc4View, a: Seq<u8>, b: Seq<u8>)
    ensures
        ciphered(v, a + b) == ciphered(v, a) + ciphered(after(v, a.len()), b),
{
    assert forall|k: int| 0 <= k < b.len() implies key_byte(v, (a.len() + k + 1) as nat)
        == #[trigger] key_byte(after(v, a.len()), (k + 1) as nat) by {
        lemma_after_add(v, a.len(), (k + 1) as nat);
        assert(a.len() + (k + 1) as nat == (a.len() + k + 1) as nat);
    }
    let x = ciphered(v, a + b);
    let y = ciphered(v, a) + ciphered(after(v, a.len()), b);
    assert forall|k: int| 0 <= k < x.len() implies x[k] == y[k] by {
        if k < a.len() {
            assert((a + b)[k] == a[k]);
        } else {
            let m = k - a.len();
            assert((a + b)[k] == b[m]);
            assert(key_byte(v, (a.len() + m + 1) as nat) == key_byte(
                after(v, a.len()),
                (m + 1) as nat,
            ));
        }
    }
    assert(x =~= y);
}

/// Ciphering twice from the same state gives the bytes back.
pub proof fn lemma_cipher_involution(v: Rc4View, data: Seq<u8>)
    ensures
        ciphered(v, ciphered(v, data)) == data,
{
    let c = ciphered(v, data);
    assert forall|k: int| 0 <= k < data.len() implies ciphered(v, c)[k] == data[k] by {
        let a = data[k];
        let b = key_byte(v, (k + 1) as nat);
        assert((a ^ b) ^ b == a) by (bit_vector);
    }
    assert(ciphered(v, c) =~= data);
}

fn swap_bytes(s: &mut [u8; 256], a: usize, b: usize)
    requires
        a < 256,
        b < 256,
    ensures
        final(s)@ == swapped(old(s)@, a as int, b as int),
{
    let x: u8 = s[a];
    let y: u8 = s[b];
    s[a] = y;
    s[b] = x;
    assert(s@ =~= swapped(old(s)@, a as int, b as int));
}

impl Rc4State {
    /// The cipher under a key.
    pub fn new(key: &[u8]) -> (r: Rc4State)
        ensures
            r@ == keyed(key@),
    {
        let mut s: [u8; 256] = [0u8; 256];
        let mut n: usize = 0;
        while n < 256
            invariant
                n <= 256,
                forall|k: int| 0 <= k < n ==> s[k] == k,
            decreases 256 - n,
        {
            s[n] = n as u8;
            n = n + 1;
        }
        assert(s@ =~= identity256());
        if key.len() == 0 {
            return Rc4State { s, i: 0, j: 0 };
        }
        let mut j: u8 = 0;
        let mut i: usize = 0;
        while i < 256
            invariant
                i <= 256,
                key@.len() > 0,
                (s@, j) == mixed(key@, i as nat),
            decreases 256 - i,
        {
            j = j.wrapping_add(s[i]).wrapping_add(key[i % key.len()]);
            swap_bytes(&mut s, i, j as usize);
            i = i + 1;
        }
        Rc4State { s, i: 0, j: 0 }
    }

    fn step(&mut self)
        ensures
            final(self)@ == advanced(old(self)@),
    {
        self.i = self.i.wrapping_add(1);
        self.j = self.j.wrapping_add(self.s[self.i as usize]);
        swap_bytes(&mut self.s, self.i as usize, self.j as usize);
    }

    /// Ciphers `data` into the front of `out`.
    pub fn process(&mut self, data: &[u8], out: &mut [u8])
        requires
            data@.len() <= old(out)@.len(),
        ensures
            final(self)@ == after(old(self)@, data@.len()),
            final(out)@ == ciphered(old(self)@, data@) + old(out)@.skip(data@.len() as int),
    {
        let ghost v = self@;
        let ghost o = out@;
        let mut k: usize = 0;
        while k < data.len()
            invariant
                k <= data@.len() <= out@.len(),
                out@.len() == o.len(),
                self@ == after(v, k as nat),
                forall|m: int| 0 <= m < k ==> #[trigger] out@[m] == ciphered(v, data@)[m],
                forall|m: int| k <= m < o.len() ==> #[trigger] out@[m] == o[m],
            decreases data@.len() - k,
        {
            self.step();
            let idx: u8 = self.s[self.i as usize].wrapping_add(self.s[self.j as usize]);
            let b: u8 = data[k] ^ self.s[idx as usize];
            assert(b == ciphered(v, data@)[k as int]);
            out[k] = b;
            k = k + 1;
        }
        assert(out@ =~= ciphered(v, data@) + o.skip(data@.len() as int));
    }

    /// Passes over some bytes.
    pub fn skip(&mut self, count: usize)
        ensures
            final(self)@ == after(old(self)@, count as nat),
    {
        let ghost v = self@;
        let mut k: usize = 0;
        while k < count
            invariant
                k <= count,
                self@ == after(v, k as nat),
            decreases count - k,
        {
            self.step();
            k = k + 1;
        }
    }

    fn cipher(&mut self, data: &[u8]) -> (out: Vec<u8>)
        ensures
            final(self)@ == after(old(self)@, data@.len()),
            out@ == ciphered(old(self)@, data@),
    {
        let mut out: Vec<u8> = vec![0u8; data.len()];
        self.process(data, out.as_mut_slice());
        assert(out@ =~= ciphered(old(self)@, data@));
        out
    }
}

// ---------------------------------------------------------------------------
// Keys
// ---------------------------------------------------------------------------
/// The MD5 digest of some bytes.
pub uninterp spec fn md5_digest(data: Seq<u8>) -> Seq<u8>;

/// Calls `md5::Md5::digest`. The digest has 16 bytes and is a function of the data.
#[verifier::external_body]
pub(crate) fn md5(data: &[u8]) -> (r: [u8; 16])
    ensures
        r@ == md5_digest(data@),
{
    <md5::Md5 as md5::Digest>::digest(data).into()
}

/// The key that a node's identifier gives.
pub open spec fn node_key(id: KadId, part: u16) -> Seq<u8> {
    md5_digest(id.0@ + le16(part))
}

/// The key that a client's user hash and an address give.
pub open spec fn user_key(user_hash: Seq<u8>, ip: Seq<u8>, part: u16) -> Seq<u8> {
    md5_digest(user_hash + ip + seq![MAGICVALUE_UDP] + le16(part))
}

/// The key that a receiver's verify key gives.
pub open spec fn verify_key(key: u32, part: u16) -> Seq<u8> {
    md5_digest(le32(key) + le16(part))
}

fn make_node_key(id: &KadId, part: u16) -> (r: [u8; 16])
    ensures
        r@ == node_key(*id, part),
{
    let mut k: Vec<u8> = Vec::new();
    put_bytes(&mut k, id.0.as_slice());
    put_u16(&mut k, part);
    assert(k@ =~= id.0@ + le16(part));
    md5(k.as_slice())
}

fn make_user_key(user_hash: &[u8; 16], ip: &[u8], part: u16) -> (r: [u8; 16])
    ensures
        r@ == user_key(user_hash@, ip@, part),
{
    let mut k: Vec<u8> = Vec::new();
    put_bytes(&mut k, user_hash.as_slice());
    put_bytes(&mut k, ip);
    k.push(MAGICVALUE_UDP);
    put_u16(&mut k, part);
    assert(k@ =~= user_hash@ + ip@ + seq![MAGICVALUE_UDP] + le16(part));
    md5(k.as_slice())
}

fn make_verify_key(key: u32, part: u16) -> (r: [u8; 16])
    ensures
        r@ == verify_key(key, part),
{
    let mut k: Vec<u8> = Vec::new();
    put_u32(&mut k, key);
    put_u16(&mut k, part);
    assert(k@ =~= le32(key) + le16(part));
    md5(k.as_slice())
}

// ---------------------------------------------------------------------------
// Opening packets
// ---------------------------------------------------------------------------
#[derive(Debug)]
pub struct DecryptedKadPacket {
    pub payload: Vec<u8>,
    pub sender_udp_key: Option<KadUDPKey>,
    pub valid_receiver_key: bool,
}

pub struct OpenedView {
    pub payload: Seq<u8>,
    pub sender_udp_key: Option<KadUDPKey>,
    pub valid_receiver_key: bool,
}

impl View for DecryptedKadPacket {
    type V = OpenedView;

    open spec fn view(&self) -> OpenedView {
        OpenedView {
            payload: self.payload@,
            sender_udp_key: self.sender_udp_key,
            valid_receiver_key: self.valid_receiver_key,
        }
    }
}

/// What a decrypted body holds: the magic value, a padding length in the low
/// four bits of a byte, the padding, the two verify keys, and a packet that
/// starts with a known header.
pub open spec fn opened_body(p: Seq<u8>, expected_key: u32, sender_ip: u32) -> Option<OpenedView> {
    let pad = (p[4] % 16) as int;
    if p.len() < 5 || from_le32(p) != MAGICVALUE_UDP_SYNC_CLIENT || p.len() < 5 + pad + 8 + 1 {
        None
    } else {
        let receiver_key = from_le32(p.skip(5 + pad));
        let sender_key = from_le32(p.skip(9 + pad));
        let payload = p.skip(13 + pad);
        if !valid_header(payload[0]) {
            None
        } else {
            Some(
                OpenedView {
                    payload,
                    sender_udp_key: if sender_key != 0 {
                        Some(KadUDPKey { key: sender_key, ip: sender_ip })
                    } else {
                        None
                    },
                    valid_receiver_key: expected_key != 0 && receiver_key == expected_key,
                },
            )
        }
    }
}

/// What a packet holds under a key.
pub open spec fn opened_with(
    data: Seq<u8>,
    key: Seq<u8>,
    expected_key: u32,
    sender_ip: u32,
) -> Option<OpenedView> {
    opened_body(ciphered(keyed(key), data.skip(3)), expected_key, sender_ip)
}

pub open spec fn or_else(a: Option<OpenedView>, b: Option<OpenedView>) -> Option<OpenedView> {
    if a is Some {
        a
    } else {
        b
    }
}

/// What a packet holds. The low two bits of its first byte hint at the key
/// (1: user hash, 2: verify key), and the others are tried after it.
pub open spec fn opened(
    data: Seq<u8>,
    local_id: KadId,
    user_hash: Seq<u8>,
    receiver_key: u32,
    sender_ip: u32,
) -> Option<OpenedView> {
    if data.len() < 16 {
        None
    } else {
        let part = from_le16(data.skip(1));
        let marker = data[0] % 4;
        let by_user = opened_with(
            data,
            user_key(user_hash, le32(sender_ip), part),
            receiver_key,
            sender_ip,
        );
        let by_verify = if receiver_key != 0 {
            opened_with(data, verify_key(receiver_key, part), receiver_key, sender_ip)
        } else {
            None
        };
        let by_node = opened_with(data, node_key(local_id, part), receiver_key, sender_ip);
        let hinted = if marker == 1 {
            by_user
        } else if marker == 2 {
            by_verify
        } else {
            None
        };
        or_else(hinted, or_else(by_node, or_else(by_user, by_verify)))
    }
}

fn le32_at(v: &Vec<u8>, pos: usize) -> (r: u32)
    requires
        pos + 4 <= v@.len(),
    ensures
        r == from_le32(v@.skip(pos as int)),
{
    let n: usize = v.len();
    let lo: u16 = v[pos] as u16 + 256 * (v[pos + 1] as u16);
    let hi: u16 = v[pos + 2] as u16 + 256 * (v[pos + 3] as u16);
    assert(v@.skip(pos as int).skip(2) =~= v@.skip(pos + 2));
    lo as u32 + 0x1_0000 * (hi as u32)
}

fn open_body(p: &Vec<u8>, expected_receiver_key: u32, sender_ip: u32) -> (r: Option<
    DecryptedKadPacket,
>)
    requires
        p@.len() >= 5,
    ensures
        match r {
            Some(x) => opened_body(p@, expected_receiver_key, sender_ip) == Some(x@),
            None => opened_body(p@, expected_receiver_key, sender_ip) is None,
        },
{
    assert(p@.skip(0) =~= p@);
    if le32_at(p, 0) != MAGICVALUE_UDP_SYNC_CLIENT {
        return None;
    }
    let pad: usize = (p[4] % 16) as usize;
    if p.len() < 5 + pad + 8 + 1 {
        return None;
    }
    let receiver_key: u32 = le32_at(p, 5 + pad);
    let sender_key: u32 = le32_at(p, 9 + pad);
    let packet = vstd::slice::slice_subrange(p.as_slice(), 13 + pad, p.len());
    let mut payload: Vec<u8> = Vec::new();
    put_bytes(&mut payload, packet);
    assert(payload@ =~= p@.skip(13 + pad));
    if !is_valid_header(payload[0]) {
        return None;
    }
    let sender_udp_key = if sender_key != 0 {
        Some(KadUDPKey { key: sender_key, ip: sender_ip })
    } else {
        None
    };
    Some(
        DecryptedKadPacket {
            payload,
            sender_udp_key,
            valid_receiver_key: expected_receiver_key != 0 && receiver_key
                == expected_receiver_key,
        },
    )
}

/// Opens a packet under one key. The rest is deciphered only once the magic
/// value at its front has come out.
pub fn try_decrypt_with_key(
    data: &[u8],
    rc4_key: &[u8],
    expected_receiver_key: u32,
    sender_ip: u32,
) -> (r: Option<DecryptedKadPacket>)
    requires
        data@.len() >= 8,
    ensures
        match r {
            Some(p) => opened_with(data@, rc4_key@, expected_receiver_key, sender_ip) == Some(p@),
            None => opened_with(data@, rc4_key@, expected_receiver_key, sender_ip) is None,
        },
{
    let ghost v = keyed(rc4_key@);
    let ghost p = ciphered(v, data@.skip(3));
    let mut rc4 = Rc4State::new(rc4_key);
    let first = vstd::slice::slice_subrange(data, 3, 7);
    let second = vstd::slice::slice_subrange(data, 7, data.len());
    let mut plain = rc4.cipher(first);
    proof {
        assert(data@.skip(3) =~= first@ + second@);
        lemma_ciphered_add(v, first@, second@);
        assert(plain@.skip(0) =~= plain@);
        assert(from_le32(plain@) == from_le32(p)) by {
            assert(plain@[0] == p[0] && plain@[1] == p[1]);
            assert(plain@.skip(2)[0] == p.skip(2)[0] && plain@.skip(2)[1] == p.skip(2)[1]);
        }
    }
    if le32_at(&plain, 0) != MAGICVALUE_UDP_SYNC_CLIENT {
        return None;
    }
    let rest = rc4.cipher(second);
    put_bytes(&mut plain, rest.as_slice());
    assert(plain@ == p);
    open_body(&plain, expected_receiver_key, sender_ip)
}

/// Opens an obfuscated Kad packet with the keys that its sender may have used.
pub fn try_decrypt_kad_packet(
    data: &[u8],
    local_kad_id: &KadId,
    user_hash: &[u8; 16],
    receiver_verify_key: u32,
    sender_ip: u32,
) -> (r: Option<DecryptedKadPacket>)
    ensures
        match r {
            Some(p) => opened(
                data@,
                *local_kad_id,
                user_hash@,
                receiver_verify_key,
                sender_ip,
            ) == Some(p@),
            None => opened(
                data@,
                *local_kad_id,
                user_hash@,
                receiver_verify_key,
                sender_ip,
            ) is None,
        },
{
    if data.len() < 16 {
        return None;
    }
    let part: u16 = data[1] as u16 + 256 * (data[2] as u16);
    let marker: u8 = data[0] % 4;
    let mut ip: Vec<u8> = Vec::new();
    put_u32(&mut ip, sender_ip);
    assert(ip@ =~= le32(sender_ip));
    let user = make_user_key(user_hash, ip.as_slice(), part);
    if marker == 1 {
        let r = try_decrypt_with_key(data, user.as_slice(), receiver_verify_key, sender_ip);
        if r.is_some() {
            return r;
        }
    } else if marker == 2 && receiver_verify_key != 0 {
        let key = make_verify_key(receiver_verify_key, part);
        let r = try_decrypt_with_key(data, key.as_slice(), receiver_verify_key, sender_ip);
        if r.is_some() {
            return r;
        }
    }
    let node = make_node_key(local_kad_id, part);
    let r = try_decrypt_with_key(data, node.as_slice(), receiver_verify_key, sender_ip);
    if r.is_some() {
        return r;
    }
    let r = try_decrypt_with_key(data, user.as_slice(), receiver_verify_key, sender_ip);
    if r.is_some() {
        return r;
    }
    if receiver_verify_key != 0 {
        let key = make_verify_key(receiver_verify_key, part);
        return try_decrypt_with_key(data, key.as_slice(), receiver_verify_key, sender_ip);
    }
    None
}

// ---------------------------------------------------------------------------
// Sealing packets
// ---------------------------------------------------------------------------
/// Calls `next_u32` of the operating system's generator. Nothing is promised
/// of the number. Where the generator fails, the call panics.
#[verifier::external_body]
pub(crate) fn os_random_u32() -> (r: u32)
{
    rand::rngs::OsRng.next_u32()
}

/// Calls `fill_bytes` of the operating system's generator on `n` bytes.
/// Nothing is promised of them but their number. Where the generator fails, the
/// call panics.
#[verifier::external_body]
pub(crate) fn os_random_bytes(n: usize) -> (r: Vec<u8>)
    ensures
        r@.len() == n,
{
    let mut v = vec![0u8; n];
    rand::rngs::OsRng.fill_bytes(&mut v);
    v
}

/// Whether a packet for this receiver goes under its verify key.
pub open spec fn uses_verify_key(target: KadId, receiver_key: u32) -> bool {
    target == KadId::zero_spec() && receiver_key != 0
}

/// A first byte that tells which key was used and is no known header.
pub open spec fn marker_byte(b: u8, marker: u8) -> bool {
    b % 4 == marker && !valid_header(b) && b != 0
}

/// The body of a sealed packet before it is ciphered.
pub open spec fn sealed_body(
    packet: Seq<u8>,
    pad: Seq<u8>,
    sender_key: u32,
    receiver_key: u32,
) -> Seq<u8> {
    le32(MAGICVALUE_UDP_SYNC_CLIENT) + seq![pad.len() as u8] + pad + le32(receiver_key) + le32(
        sender_key,
    ) + packet
}

pub open spec fn seal_key(target: KadId, receiver_key: u32, part: u16) -> Seq<u8> {
    if uses_verify_key(target, receiver_key) {
        verify_key(receiver_key, part)
    } else {
        node_key(target, part)
    }
}

/// A sealed packet, given what chance decides: the key part, the padding and
/// the first byte.
pub open spec fn sealed(
    packet: Seq<u8>,
    target: KadId,
    sender_key: u32,
    receiver_key: u32,
    part: u16,
    pad: Seq<u8>,
    first: u8,
) -> Seq<u8> {
    seq![first] + le16(part) + ciphered(
        keyed(seal_key(target, receiver_key, part)),
        sealed_body(packet, pad, sender_key, receiver_key),
    )
}

/// Seals a packet, given what chance decides.
pub fn seal_kad_packet(
    packet: &[u8],
    target_kad_id: &KadId,
    sender_key: u32,
    receiver_key: u32,
    part: u16,
    pad: &[u8],
    first: u8,
) -> (r: Vec<u8>)
    requires
        pad@.len() < 16,
    ensures
        r@ == sealed(packet@, *target_kad_id, sender_key, receiver_key, part, pad@, first),
{
    let key = if *target_kad_id == KadId::zero() && receiver_key != 0 {
        make_verify_key(receiver_key, part)
    } else {
        make_node_key(target_kad_id, part)
    };
    let mut rc4 = Rc4State::new(key.as_slice());
    let mut plain: Vec<u8> = Vec::new();
    put_u32(&mut plain, MAGICVALUE_UDP_SYNC_CLIENT);
    plain.push(pad.len() as u8);
    put_bytes(&mut plain, pad);
    put_u32(&mut plain, receiver_key);
    put_u32(&mut plain, sender_key);
    put_bytes(&mut plain, packet);
    assert(plain@ =~= sealed_body(packet@, pad@, sender_key, receiver_key));
    let body = rc4.cipher(plain.as_slice());
    let mut out: Vec<u8> = Vec::new();
    out.push(first);
    put_u16(&mut out, part);
    put_bytes(&mut out, body.as_slice());
    assert(out@ =~= sealed(
        packet@,
        *target_kad_id,
        sender_key,
        receiver_key,
        part,
        pad@,
        first,
    ));
    out
}

/// A random first byte.
fn random_marker(marker: u8) -> (b: u8)
    requires
        marker == 0 || marker == 2,
    ensures
        marker_byte(b, marker),
{
    let mut n: u32 = 0;
    while n < 256
        invariant
            marker == 0 || marker == 2,
        decreases 256 - n,
    {
        let x: u8 = (os_random_u32() % 256) as u8;
        let b: u8 = x - x % 4 + marker;
        if !is_valid_header(b) && b != 0 {
            return b;
        }
        n = n + 1;
    }
    0x4C + marker
}

/// Seals a Kad packet for a receiver: under its identifier, or where that is
/// unknown under its verify key.
pub fn encrypt_kad_packet(
    packet: &[u8],
    target_kad_id: &KadId,
    sender_key: u32,
    receiver_key: u32,
) -> (r: Vec<u8>)
    ensures
        exists|part: u16, pad: Seq<u8>, first: u8|
            pad.len() < 16 && marker_byte(
                first,
                if uses_verify_key(*target_kad_id, receiver_key) {
                    2
                } else {
                    0
                },
            ) && r@ == #[trigger] sealed(
                packet@,
                *target_kad_id,
                sender_key,
                receiver_key,
                part,
                pad,
                first,
            ),
{
    let part: u16 = (os_random_u32() % 0x1_0000) as u16;
    let pad_len: usize = (os_random_u32() % 16) as usize;
    let pad = os_random_bytes(pad_len);
    let marker: u8 = if *target_kad_id == KadId::zero() && receiver_key != 0 {
        2
    } else {
        0
    };
    let first: u8 = random_marker(marker);
    seal_kad_packet(
        packet,
        target_kad_id,
        sender_key,
        receiver_key,
        part,
        pad.as_slice(),
        first,
    )
}

proof fn lemma_le32_front(x: u32, rest: Seq<u8>)
    ensures
        from_le32(le32(x) + rest) == x,
        le32(x).len() == 4,
{
    lemma_le32_round_trip(x, rest);
}

/// What is read of a body whose parts are known.
proof fn lemma_opened_parts(
    p: Seq<u8>,
    n: u8,
    receiver_key: u32,
    sender_key: u32,
    packet: Seq<u8>,
    expected_key: u32,
    sender_ip: u32,
)
    requires
        n < 16,
        p.len() == 13 + n + packet.len(),
        p[4] == n,
        from_le32(p) == MAGICVALUE_UDP_SYNC_CLIENT,
        from_le32(p.skip(5 + n)) == receiver_key,
        from_le32(p.skip(9 + n)) == sender_key,
        p.skip(13 + n) == packet,
        packet.len() > 0,
        valid_header(packet[0]),
    ensures
        opened_body(p, expected_key, sender_ip) == Some(
            OpenedView {
                payload: packet,
                sender_udp_key: if sender_key != 0 {
                    Some(KadUDPKey { key: sender_key, ip: sender_ip })
                } else {
                    None
                },
                valid_receiver_key: expected_key != 0 && receiver_key == expected_key,
            },
        ),
{
    assert(p[4] % 16 == n);
}

/// A sealed body begins with the magic value and the length of its padding.
proof fn lemma_body_front(packet: Seq<u8>, pad: Seq<u8>, sender_key: u32, receiver_key: u32)
    requires
        pad.len() < 16,
    ensures
        sealed_body(packet, pad, sender_key, receiver_key).len() == 13 + pad.len() + packet.len(),
        sealed_body(packet, pad, sender_key, receiver_key)[4] == pad.len() as u8,
        from_le32(sealed_body(packet, pad, sender_key, receiver_key)) == MAGICVALUE_UDP_SYNC_CLIENT,
{
    let m = MAGICVALUE_UDP_SYNC_CLIENT;
    let n = pad.len() as u8;
    let (y, z) = (le32(receiver_key), le32(sender_key));
    let rest = seq![n] + pad + y + z + packet;
    lemma_le32_front(m, rest);
    lemma_le32_front(receiver_key, Seq::empty());
    lemma_le32_front(sender_key, Seq::empty());
    assert(sealed_body(packet, pad, sender_key, receiver_key) =~= le32(m) + rest);
}

/// After the padding of a sealed body come the two keys and the packet.
proof fn lemma_body_back(packet: Seq<u8>, pad: Seq<u8>, sender_key: u32, receiver_key: u32)
    requires
        pad.len() < 16,
    ensures
        ({
            let p = sealed_body(packet, pad, sender_key, receiver_key);
            let n = pad.len() as int;
            &&& from_le32(p.skip(5 + n)) == receiver_key
            &&& from_le32(p.skip(9 + n)) == sender_key
            &&& p.skip(13 + n) == packet
        }),
{
    let p = sealed_body(packet, pad, sender_key, receiver_key);
    let n = pad.len() as int;
    let (y, z) = (le32(receiver_key), le32(sender_key));
    lemma_le32_front(MAGICVALUE_UDP_SYNC_CLIENT, Seq::empty());
    lemma_le32_front(receiver_key, z + packet);
    lemma_le32_front(sender_key, packet);
    assert(p.skip(5 + n) =~= y + (z + packet));
    assert(p.skip(9 + n) =~= z + packet);
    assert(p.skip(13 + n) =~= packet);
}

/// A sealed body, opened, gives the packet and the keys back.
pub proof fn lemma_body_round_trip(
    packet: Seq<u8>,
    pad: Seq<u8>,
    sender_key: u32,
    receiver_key: u32,
    expected_key: u32,
    sender_ip: u32,
)
    requires
        pad.len() < 16,
        packet.len() > 0,
        valid_header(packet[0]),
    ensures
        opened_body(
            sealed_body(packet, pad, sender_key, receiver_key),
            expected_key,
            sender_ip,
        ) == Some(
            OpenedView {
                payload: packet,
                sender_udp_key: if sender_key != 0 {
                    Some(KadUDPKey { key: sender_key, ip: sender_ip })
                } else {
                    None
                },
                valid_receiver_key: expected_key != 0 && receiver_key == expected_key,
            },
        ),
{
    lemma_body_front(packet, pad, sender_key, receiver_key);
    lemma_body_back(packet, pad, sender_key, receiver_key);
    lemma_opened_parts(
        sealed_body(packet, pad, sender_key, receiver_key),
        pad.len() as u8,
        receiver_key,
        sender_key,
        packet,
        expected_key,
        sender_ip,
    );
}

/// A packet that was sealed for a node's identifier is opened by that node,
/// whatever chance decided: it gets the packet, and the sender's key, and
/// knows whether the sender had its own.
pub proof fn lemma_node_seal_round_trip(
    packet: Seq<u8>,
    id: KadId,
    sender_key: u32,
    receiver_key: u32,
    part: u16,
    pad: Seq<u8>,
    first: u8,
    user_hash: Seq<u8>,
    own_key: u32,
    sender_ip: u32,
)
    requires
        pad.len() < 16,
        packet.len() > 0,
        valid_header(packet[0]),
        !uses_verify_key(id, receiver_key),
        marker_byte(first, 0),
    ensures
        opened(
            sealed(packet, id, sender_key, receiver_key, part, pad, first),
            id,
            user_hash,
            own_key,
            sender_ip,
        ) == Some(
            OpenedView {
                payload: packet,
                sender_udp_key: if sender_key != 0 {
                    Some(KadUDPKey { key: sender_key, ip: sender_ip })
                } else {
                    None
                },
                valid_receiver_key: own_key != 0 && receiver_key == own_key,
            },
        ),
{
    let body = sealed_body(packet, pad, sender_key, receiver_key);
    let v = keyed(node_key(id, part));
    let d = sealed(packet, id, sender_key, receiver_key, part, pad, first);
    assert(d.skip(3) =~= ciphered(v, body));
    lemma_cipher_involution(v, body);
    lemma_le16_round_trip(part, ciphered(v, body));
    assert(d.skip(1) =~= le16(part) + ciphered(v, body));
    lemma_body_round_trip(packet, pad, sender_key, receiver_key, own_key, sender_ip);
    lemma_le32_front(receiver_key, Seq::empty());
    lemma_le32_front(sender_key, Seq::empty());
    lemma_le32_front(MAGICVALUE_UDP_SYNC_CLIENT, Seq::empty());
    assert(d[0] == first);
    assert(d.len() >= 16);
}

/// A packet that was sealed under a receiver's verify key is opened by the
/// node that has that key, whatever chance decided.
pub proof fn lemma_verify_seal_round_trip(
    packet: Seq<u8>,
    sender_key: u32,
    receiver_key: u32,
    part: u16,
    pad: Seq<u8>,
    first: u8,
    local_id: KadId,
    user_hash: Seq<u8>,
    sender_ip: u32,
)
    requires
        pad.len() < 16,
        packet.len() > 0,
        valid_header(packet[0]),
        receiver_key != 0,
        marker_byte(first, 2),
    ensures
        opened(
            sealed(packet, KadId::zero_spec(), sender_key, receiver_key, part, pad, first),
            local_id,
            user_hash,
            receiver_key,
            sender_ip,
        ) == Some(
            OpenedView {
                payload: packet,
                sender_udp_key: if sender_key != 0 {
                    Some(KadUDPKey { key: sender_key, ip: sender_ip })
                } else {
                    None
                },
                valid_receiver_key: true,
            },
        ),
{
    let body = sealed_body(packet, pad, sender_key, receiver_key);
    let v = keyed(verify_key(receiver_key, part));
    let d = sealed(packet, KadId::zero_spec(), sender_key, receiver_key, part, pad, first);
    assert(d.skip(3) =~= ciphered(v, body));
    lemma_cipher_involution(v, body);
    lemma_le16_round_trip(part, ciphered(v, body));
    assert(d.skip(1) =~= le16(part) + ciphered(v, body));
    lemma_body_round_trip(packet, pad, sender_key, receiver_key, receiver_key, sender_ip);
    lemma_le32_front(receiver_key, Seq::empty());
    lemma_le32_front(sender_key, Seq::empty());
    lemma_le32_front(MAGICVALUE_UDP_SYNC_CLIENT, Seq::empty());
    assert(d[0] == first);
    assert(d.len() >= 16);
}

// ---------------------------------------------------------------------------
// Packets between clients
// ---------------------------------------------------------------------------
/// The body of a packet between clients: no padding and no verify keys.
pub open spec fn client_body(packet: Seq<u8>) -> Seq<u8> {
    le32(MAGICVALUE_UDP_SYNC_CLIENT) + seq![0u8] + packet
}

pub open spec fn client_sealed(
    packet: Seq<u8>,
    user_hash: Seq<u8>,
    our_ip: Seq<u8>,
    part: u16,
    first: u8,
) -> Seq<u8> {
    seq![first] + le16(part) + ciphered(
        keyed(user_key(user_hash, our_ip, part)),
        client_body(packet),
    )
}

/// A first byte that tells a packet between clients and is no known header.
pub open spec fn client_marker(b: u8) -> bool {
    b % 2 == 1 && !valid_header(b)
}

/// Seals a packet for another client, given what chance decides.
pub fn seal_client_packet(
    packet: &[u8],
    target_user_hash: &[u8; 16],
    our_public_ip: [u8; 4],
    part: u16,
    first: u8,
) -> (r: Vec<u8>)
    ensures
        r@ == client_sealed(packet@, target_user_hash@, our_public_ip@, part, first),
{
    let key = make_user_key(target_user_hash, our_public_ip.as_slice(), part);
    let mut rc4 = Rc4State::new(key.as_slice());
    let mut plain: Vec<u8> = Vec::new();
    put_u32(&mut plain, MAGICVALUE_UDP_SYNC_CLIENT);
    plain.push(0);
    put_bytes(&mut plain, packet);
    assert(plain@ =~= client_body(packet@));
    let body = rc4.cipher(plain.as_slice());
    let mut out: Vec<u8> = Vec::new();
    out.push(first);
    put_u16(&mut out, part);
    put_bytes(&mut out, body.as_slice());
    assert(out@ =~= client_sealed(packet@, target_user_hash@, our_public_ip@, part, first));
    out
}

fn random_client_marker() -> (b: u8)
    ensures
        client_marker(b),
{
    // The first of 256 random numbers that is of use gives the byte. Which one
    // that is rests on chance: only what holds of all of them is stated.
    let mut n: u32 = 0;
    while n < 256
        decreases 256 - n,
    {
        if let Some(b) = client_marker_of(os_random_u32()) {
            return b;
        }
        n = n + 1;
    }
    0x4D
}

/// The first byte that a random number gives: its low eight bits with the
/// lowest one set, unless that is a known header.
pub open spec fn drawn_client_marker(x: u32) -> Option<u8> {
    let b = (x % 256 - x % 2 + 1) as u8;
    if valid_header(b) {
        None
    } else {
        Some(b)
    }
}

/// The first byte that a random number gives, if it is of use.
pub fn client_marker_of(x: u32) -> (r: Option<u8>)
    ensures
        r == drawn_client_marker(x),
        r matches Some(b) ==> client_marker(b),
{
    let b: u8 = (x % 256 - x % 2 + 1) as u8;
    if is_valid_header(b) {
        None
    } else {
        Some(b)
    }
}

/// Seals a packet for another client under its user hash and our own address.
pub fn encrypt_client_ed2k_packet(
    packet: &[u8],
    target_user_hash: &[u8; 16],
    our_public_ip: [u8; 4],
) -> (r: Vec<u8>)
    ensures
        exists|part: u16, first: u8|
            client_marker(first) && r@ == #[trigger] client_sealed(
                packet@,
                target_user_hash@,
                our_public_ip@,
                part,
                first,
            ),
{
    let part: u16 = (os_random_u32() % 0x1_0000) as u16;
    let first: u8 = random_client_marker();
    seal_client_packet(packet, target_user_hash, our_public_ip, part, first)
}

/// Whoever has the key of a packet between clients reads its body.
pub proof fn lemma_client_seal_round_trip(
    packet: Seq<u8>,
    user_hash: Seq<u8>,
    our_ip: Seq<u8>,
    part: u16,
    first: u8,
)
    ensures
        ({
            let d = client_sealed(packet, user_hash, our_ip, part, first);
            &&& d[0] == first
            &&& from_le16(d.skip(1)) == part
            &&& ciphered(keyed(user_key(user_hash, our_ip, part)), d.skip(3)) == client_body(packet)
        }),
{
    let v = keyed(user_key(user_hash, our_ip, part));
    let body = client_body(packet);
    let d = client_sealed(packet, user_hash, our_ip, part, first);
    assert(d.skip(3) =~= ciphered(v, body));
    lemma_cipher_involution(v, body);
    lemma_le16_round_trip(part, ciphered(v, body));
    assert(d.skip(1) =~= le16(part) + ciphered(v, body));
}

} // verus!
