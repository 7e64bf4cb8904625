//! What buddies say to each other, byte for byte, and when they may.
use vstd::prelude::*;

use super::bootstrap_laws::{lemma_word16_at, lemma_word32_at, word16, word32};
use super::buddy::{
    callback_payload, complement, cooldown, dec_callback, dec_ed2k, dec_reask, dial_of, framed,
    greeted, is_safe_dest, packet_size, still_promised, BuddyDial, BuddyEvent, BuddyManager,
    BuddyReader, BuddyState, DialStage, GreetStage, PacketError, UserHash,
};
use super::firewall::FirewallStatus;
use super::types::{lemma_16_exists, KadId};
use crate::bytes::{from_le16, from_le32, le16, le32};
use crate::net::Ipv4Addr;

verus! {

// ---------------------------------------------------------------------------
// Packets
// ---------------------------------------------------------------------------
/// A packet has its protocol, four bytes that count the opcode and the payload, the
/// opcode, and the payload.
pub proof fn lemma_packet_layout(protocol: u8, opcode: u8, payload: Seq<u8>)
    requires
        payload.len() < 0xFFFF_FFFF,
    ensures
        ({
            let p = framed(protocol, opcode, payload);
            &&& p.len() == payload.len() + 6
            &&& p[0] == protocol
            &&& word32(p, 1) == payload.len() + 1
            &&& p[5] == opcode
            &&& p.skip(6) == payload
        }),
{
    let p = framed(protocol, opcode, payload);
    let n = (payload.len() + 1) as u32;
    assert(p =~= seq![protocol] + le32(n) + (seq![opcode] + payload));
    lemma_word32_at(seq![protocol], n, seq![opcode] + payload);
    assert(p.skip(6) =~= payload);
}

proof fn lemma_words_behind(s: Seq<u8>, i: int)
    requires
        0 <= i <= s.len(),
    ensures
        s.len() >= i + 2 ==> from_le16(s.skip(i)) == word16(s, i),
        s.len() >= i + 4 ==> from_le32(s.skip(i)) == word32(s, i),
{
    let t = s.skip(i);
    if s.len() >= i + 2 {
        assert(t[0] == s[i] && t[1] == s[i + 1]);
    }
    if s.len() >= i + 4 {
        assert(t.skip(2)[0] == s[i + 2] && t.skip(2)[1] == s[i + 3]);
    }
}

/// A packet is read once all of it is there. One that counts nothing, or more than
/// 65536 bytes, is none.
pub proof fn lemma_packet_read(s: Seq<u8>)
    ensures
        s.len() < 5 ==> dec_ed2k(s) == Err::<(u8, u8, Seq<u8>), PacketError>(PacketError::Truncated),
        s.len() >= 5 ==> ({
            let n = word32(s, 1);
            if n == 0 || n > 65536 {
                dec_ed2k(s) == Err::<(u8, u8, Seq<u8>), PacketError>(
                    PacketError::InvalidLength(n as u32),
                )
            } else if s.len() < n + 5 {
                packet_size(s) == Ok::<int, PacketError>(n + 5) && dec_ed2k(s) == Err::<
                    (u8, u8, Seq<u8>),
                    PacketError,
                >(PacketError::Truncated)
            } else {
                dec_ed2k(s) == Ok::<(u8, u8, Seq<u8>), PacketError>(
                    (s[0], s[5], s.subrange(6, n + 5)),
                )
            }
        }),
{
    if s.len() >= 5 {
        lemma_words_behind(s, 1);
    }
}

/// A callback has 16 bytes of token, 16 of file, four of address and two of port.
pub proof fn lemma_callback_read(s: Seq<u8>)
    ensures
        s.len() < 38 ==> dec_callback(s) is None,
        s.len() >= 38 ==> (dec_callback(s) matches Some((check, event)) && check.0@ == s.subrange(
            0,
            16,
        ) && (event matches BuddyEvent::Callback { file_hash, dest_ip, dest_port } && file_hash@
            == s.subrange(16, 32) && dest_ip.bits == word32(s, 32) && dest_port == word16(s, 36))),
{
    if s.len() >= 38 {
        lemma_16_exists(s.subrange(0, 16));
        lemma_16_exists(s.subrange(16, 32));
        lemma_words_behind(s, 32);
        lemma_words_behind(s, 36);
    }
}

/// A query to be passed on has four bytes of address, two of port and 16 of file.
pub proof fn lemma_query_read(s: Seq<u8>)
    ensures
        s.len() < 22 ==> dec_reask(s) is None,
        s.len() >= 22 ==> (dec_reask(s) matches Some(
            BuddyEvent::ReaskCallback { dest_ip, dest_port, file_hash },
        ) && dest_ip.bits == word32(s, 0) && dest_port == word16(s, 4) && file_hash@ == s.subrange(
            6,
            22,
        )),
{
    if s.len() >= 22 {
        lemma_16_exists(s.subrange(6, 22));
        assert(s.skip(0) =~= s);
        lemma_words_behind(s, 0);
        lemma_words_behind(s, 4);
    }
}

/// The callback that goes out has its parts in the same places.
pub proof fn lemma_callback_layout(check: KadId, file_hash: [u8; 16], ip: Ipv4Addr, port: u16)
    ensures
        ({
            let p = callback_payload(check, file_hash, ip, port);
            &&& p.len() == 38
            &&& p.subrange(0, 16) == check.0@
            &&& p.subrange(16, 32) == file_hash@
            &&& word32(p, 32) == ip.bits
            &&& word16(p, 36) == port
        }),
{
    let p = callback_payload(check, file_hash, ip, port);
    let a = check.0@ + file_hash@;
    lemma_word32_at(a, ip.bits, le16(port));
    lemma_word16_at(a + le32(ip.bits), port, Seq::empty());
    assert(p =~= a + le32(ip.bits) + le16(port));
    assert(p =~= a + le32(ip.bits) + le16(port) + Seq::<u8>::empty());
    assert(p.subrange(0, 16) =~= check.0@);
    assert(p.subrange(16, 32) =~= file_hash@);
}

/// To a buddy only packets of protocol 0xC5 mean something: 0x9F is a ping, 0xA0 a pong,
/// and neither costs anything.
pub proof fn lemma_pings(s: BuddyReader, protocol: u8, opcode: u8, payload: Seq<u8>)
    ensures
        protocol != 0xC5 ==> s.after(protocol, opcode, payload) == (s, None::<BuddyEvent>),
        s.after(0xC5, 0x9F, payload) == (s, Some(BuddyEvent::PingReceived)),
        s.after(0xC5, 0xA0, payload) == (s, Some(BuddyEvent::PongReceived)),
        opcode != 0x9F && opcode != 0xA0 && opcode != 0x99 && opcode != 0x9A ==> s.after(
            0xC5,
            opcode,
            payload,
        ) == (s, None::<BuddyEvent>),
{
}

/// 0x99 asks for a callback. It is heeded if it shows our token, if there may be a
/// peer at the address, and while the budget lasts, and costs one.
pub proof fn lemma_callback_heeded(s: BuddyReader, payload: Seq<u8>)
    requires
        payload.len() >= 38,
    ensures
        ({
            let (r, event) = s.after(0xC5, 0x99, payload);
            let heeded = s.expected_callback_check is Some && s.expected_callback_check->Some_0.0@
                == payload.subrange(0, 16) && word16(payload, 36) != 0 && is_safe_dest(
                Ipv4Addr { bits: word32(payload, 32) as u32 },
                word16(payload, 36) as u16,
            ) && s.callback_budget > 0;
            &&& heeded <==> event is Some
            &&& heeded ==> event == Some(dec_callback(payload)->Some_0.1) && r.callback_budget
                == s.callback_budget - 1 && r.reask_callback_budget == s.reask_callback_budget
            &&& !heeded ==> r == s
        }),
{
    lemma_callback_read(payload);
    let check = dec_callback(payload)->Some_0.0;
    if s.expected_callback_check is Some && s.expected_callback_check->Some_0.0@
        == payload.subrange(0, 16) {
        let k = s.expected_callback_check->Some_0;
        super::types::lemma_seq_to_16(k.0);
        super::types::lemma_seq_to_16(check.0);
        assert(k == check);
    }
}

/// 0x9A asks to answer a query. It is heeded if there may be a peer at the address,
/// and while its own budget lasts, and costs one.
pub proof fn lemma_query_heeded(s: BuddyReader, payload: Seq<u8>)
    requires
        payload.len() >= 22,
    ensures
        ({
            let (r, event) = s.after(0xC5, 0x9A, payload);
            let heeded = is_safe_dest(
                Ipv4Addr { bits: word32(payload, 0) as u32 },
                word16(payload, 4) as u16,
            ) && s.reask_callback_budget > 0;
            &&& heeded <==> event is Some
            &&& heeded ==> event == dec_reask(payload) && r.reask_callback_budget
                == s.reask_callback_budget - 1 && r.callback_budget == s.callback_budget
            &&& !heeded ==> r == s
        }),
{
    lemma_query_read(payload);
}

// ---------------------------------------------------------------------------
// Connecting
// ---------------------------------------------------------------------------
/// The third bit of a buddy's options says that it insists on obfuscation, the first
/// that it supports it. It is used if it may be, and if the buddy's hash is known.
pub proof fn lemma_dial_options(options: u8, knows_hash: bool, allow: bool)
    ensures
        ({
            let d = dial_of(options, knows_hash, allow);
            &&& d.requires_crypt <==> options & 4 != 0
            &&& d.use_obfuscation <==> allow && knows_hash && options & 1 != 0
            &&& d.stage is Connecting
        }),
{
    assert(options & 4 != 0 <==> (options / 4) % 2 == 1) by (bit_vector);
    assert(options & 1 != 0 <==> options % 2 == 1) by (bit_vector);
}

/// If every step succeeds, a buddy is reached with obfuscation where that is used,
/// and without it otherwise, unless it insists on it.
pub proof fn lemma_dial_reaches(d: BuddyDial)
    requires
        d.stage is Connecting,
    ensures
        d.requires_crypt && !d.use_obfuscation ==> d.next_stage(true) is GivenUp,
        !d.requires_crypt && !d.use_obfuscation ==> ({
            let e = BuddyDial { stage: d.next_stage(true), ..d };
            e.stage == (DialStage::Greeting { obfuscated: false }) && e.next_stage(true) == (
            DialStage::Connected { obfuscated: false })
        }),
        d.use_obfuscation ==> ({
            let e = BuddyDial { stage: d.next_stage(true), ..d };
            let f = BuddyDial { stage: e.next_stage(true), ..d };
            let g = BuddyDial { stage: e.next_stage(false), ..d };
            &&& e.stage is Negotiating
            &&& f.stage == (DialStage::Greeting { obfuscated: true })
            &&& f.next_stage(true) == (DialStage::Connected { obfuscated: true })
            &&& f.next_stage(false) is GivenUp
            &&& d.requires_crypt ==> g.stage is GivenUp
            &&& !d.requires_crypt ==> g.stage is Reconnecting && g.next_stage(true) == (
            DialStage::Greeting { obfuscated: false })
        }),
        d.next_stage(false) is GivenUp,
{
}

/// A greeting is answered by opcode 0x4C of protocol 0xE3, and after the next packet,
/// whatever it is, it is done.
pub proof fn lemma_greeting(protocol: u8, opcode: u8)
    ensures
        greeted(GreetStage::AwaitAnswer, 0xE3, 0x4C) is AwaitInfo,
        protocol != 0xE3 || opcode != 0x4C ==> greeted(GreetStage::AwaitAnswer, protocol, opcode)
            is Failed,
        greeted(GreetStage::AwaitInfo, protocol, opcode) is Done,
        greeted(GreetStage::Done, protocol, opcode) is Done,
{
}

// ---------------------------------------------------------------------------
// Looking for a buddy
// ---------------------------------------------------------------------------
/// After a search that failed the next waits a minute, and after each further one
/// twice as long, up to ten minutes.
pub proof fn lemma_cooldown(n: u32)
    requires
        0 < n < u32::MAX,
    ensures
        cooldown(0) == 0,
        cooldown(1) == 60,
        cooldown((n + 1) as u32) == if 2 * cooldown(n) > 600 {
            600
        } else {
            2 * cooldown(n)
        },
{
}

/// A search begins if nobody can reach us, neither by TCP nor by UDP, if there is no
/// buddy and no search, and if the last search is longer ago than the wait.
pub proof fn lemma_search_begins(
    m: BuddyManager,
    tcp: FirewallStatus,
    udp: FirewallStatus,
    now: i64,
)
    ensures
        tcp != FirewallStatus::Firewalled ==> !m.wants_buddy(tcp, udp, now),
        udp != FirewallStatus::Firewalled ==> !m.wants_buddy(tcp, udp, now),
        m.state != BuddyState::NoBuddy ==> !m.wants_buddy(tcp, udp, now),
        tcp == FirewallStatus::Firewalled && udp == FirewallStatus::Firewalled && m.state
            == BuddyState::NoBuddy ==> (m.wants_buddy(tcp, udp, now) <==> now - m.last_find_attempt
            > cooldown(m.find_attempt_count)),
{
}

/// A buddy is looked for at the other end of the identifiers: every byte is what is
/// missing to 255.
pub proof fn lemma_other_end(id: KadId, i: int)
    requires
        0 <= i < 16,
    ensures
        complement(id).0@[i] == 255 - id.0@[i],
{
    let s = Seq::new(16, |i: int| id.0[i] ^ 0xFF);
    lemma_16_exists(s);
    let x: u8 = id.0[i];
    assert(x ^ 0xFF == 255 - x) by (bit_vector);
    assert(complement(id).0@ == s);
}

/// A promise to a client holds for two minutes.
pub proof fn lemma_promise_time(m: Map<UserHash, (KadId, i64)>, now: i64, u: UserHash)
    ensures
        still_promised(m, now).contains_key(u) <==> m.contains_key(u) && now - m[u].1 < 120,
        still_promised(m, now).contains_key(u) ==> still_promised(m, now)[u] == m[u],
{
}

/// A callback is passed on to the client whose token it shows, while the budget lasts.
pub proof fn lemma_relay(m: BuddyManager, check: KadId)
    ensures
        m.may_relay(check) <==> m.serving_callback_check == Some(check) && m.serving_callback_budget
            > 0,
        !m.without_client().may_relay(check),
        m.without_buddy().may_relay(check) == m.may_relay(check),
        m.without_buddy().state == BuddyState::NoBuddy,
        m.without_buddy().buddy_id is None && m.without_buddy().buddy_addr is None,
        !m.without_buddy().buddy_open,
        m.without_client().serving_buddy_for is None && !m.without_client().serving_open,
        m.without_client().state == m.state && m.without_client().buddy_id == m.buddy_id,
{
}

} // verus!
