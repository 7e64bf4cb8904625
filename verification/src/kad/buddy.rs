//! Buddies: a node that nobody can reach keeps a connection to one that can be
//! reached, which passes callbacks on to it.
//!
//! What to send, and what to make of what comes, is decided here; connecting,
//! reading and writing is not.
use vstd::prelude::*;

use crate::bytes::{
    from_le16, from_le32, le16, le32, lemma_le16_round_trip, lemma_le32_round_trip, put_bytes,
    put_u16, put_u32, same_16,
};
use crate::clock::{clock_time, utc_now};
use crate::kad::firewall::FirewallStatus;
use crate::kad::types::{lemma_16_exists, lemma_seq_to_16, seq_to_16, vec_to_16, KadId};
use crate::key_map::{put, word, word_of, KeyMap, MapKey};
use crate::net::{IpAddr, Ipv4Addr, SocketAddr};
use crate::security::{is_special_use_v4, special_use_v4};

verus! {

pub const OP_EDONKEYHEADER: u8 = 0xE3;

pub const OP_EMULEPROT: u8 = 0xC5;

pub const OP_HELLO: u8 = 0x01;

pub const OP_HELLOANSWER: u8 = 0x4C;

pub const OP_EMULEINFO: u8 = 0x01;

pub const OP_EMULEINFOANSWER: u8 = 0x02;

pub const OP_CALLBACK: u8 = 0x99;

pub const OP_REASKCALLBACKTCP: u8 = 0x9A;

pub const OP_BUDDYPING: u8 = 0x9F;

pub const OP_BUDDYPONG: u8 = 0xA0;

/// How many callbacks one connection may ask for.
pub const CALLBACK_BUDGET_PER_SESSION: u32 = 64;

/// How many queries one connection may have us pass on. They carry no token,
/// so there are fewer.
pub const REASK_CALLBACK_BUDGET_PER_SESSION: u32 = 16;

/// A search for a buddy has failed after so many seconds.
pub const FIND_TIMEOUT_SECS: i64 = 180;

/// How many seconds a client that was promised a buddy may take.
pub const PENDING_BUDDY_SECS: i64 = 120;

/// The longest packet, its opcode counted.
pub const MAX_PACKET_LEN: usize = 65536;

// ---------------------------------------------------------------------------
// Packets
// ---------------------------------------------------------------------------
/// A packet: protocol, length of what follows, opcode, payload.
pub open spec fn framed(protocol: u8, opcode: u8, payload: Seq<u8>) -> Seq<u8> {
    let len = if payload.len() + 1 > u32::MAX {
        u32::MAX
    } else {
        (payload.len() + 1) as u32
    };
    seq![protocol] + le32(len) + seq![opcode] + payload
}

fn frame(protocol: u8, opcode: u8, payload: &[u8]) -> (r: Vec<u8>)
    ensures
        r@ == framed(protocol, opcode, payload@),
{
    let mut out: Vec<u8> = Vec::new();
    let n: usize = payload.len();
    let len: u32 = if n as u64 >= u32::MAX as u64 {
        u32::MAX
    } else {
        n as u32 + 1
    };
    out.push(protocol);
    put_u32(&mut out, len);
    out.push(opcode);
    put_bytes(&mut out, payload);
    assert(out@ =~= framed(protocol, opcode, payload@));
    out
}

/// A packet of the extended protocol.
pub fn build_emule_packet(opcode: u8, payload: &[u8]) -> (r: Vec<u8>)
    ensures
        r@ == framed(OP_EMULEPROT, opcode, payload@),
{
    frame(OP_EMULEPROT, opcode, payload)
}

/// A packet, unless its payload is too long for its length to be written.
pub fn write_ed2k_packet(protocol: u8, opcode: u8, payload: &[u8]) -> (r: Option<Vec<u8>>)
    ensures
        match r {
            Some(p) => payload@.len() < u32::MAX && p@ == framed(protocol, opcode, payload@),
            None => payload@.len() >= u32::MAX,
        },
{
    if payload.len() as u64 >= u32::MAX as u64 {
        return None;
    }
    Some(frame(protocol, opcode, payload))
}

/// Why no packet could be read.
#[derive(Clone, Copy, Debug, PartialEq, Eq, Structural)]
pub enum PacketError {
    /// There are too few bytes.
    Truncated,
    /// The length is none or too much.
    InvalidLength(u32),
}

/// How many bytes the packet has that these bytes begin, its protocol and its
/// length counted.
pub open spec fn packet_size(s: Seq<u8>) -> Result<int, PacketError> {
    if s.len() < 5 {
        Err(PacketError::Truncated)
    } else {
        let n = from_le32(s.skip(1));
        if n == 0 || n > MAX_PACKET_LEN {
            Err(PacketError::InvalidLength(n))
        } else {
            Ok(n + 5)
        }
    }
}

/// The packet that these bytes begin: its protocol, opcode and payload.
pub open spec fn dec_ed2k(s: Seq<u8>) -> Result<(u8, u8, Seq<u8>), PacketError> {
    match packet_size(s) {
        Err(e) => Err(e),
        Ok(n) => if s.len() < n {
            Err(PacketError::Truncated)
        } else {
            Ok((s[0], s[5], s.subrange(6, n)))
        },
    }
}

/// How many bytes the packet has that these bytes begin.
pub fn ed2k_packet_size(data: &[u8]) -> (r: Result<usize, PacketError>)
    ensures
        match r {
            Ok(n) => packet_size(data@) == Ok::<int, PacketError>(n as int),
            Err(e) => packet_size(data@) == Err::<int, PacketError>(e),
        },
{
    if data.len() < 5 {
        return Err(PacketError::Truncated);
    }
    let n: u32 = read_le32(data, 1);
    if n == 0 || n as usize > MAX_PACKET_LEN {
        return Err(PacketError::InvalidLength(n));
    }
    Ok(n as usize + 5)
}

/// The packet that these bytes begin.
pub fn read_ed2k_packet(data: &[u8]) -> (r: Result<(u8, u8, Vec<u8>), PacketError>)
    ensures
        match r {
            Ok((protocol, opcode, payload)) => dec_ed2k(data@) == Ok::<
                (u8, u8, Seq<u8>),
                PacketError,
            >((protocol, opcode, payload@)),
            Err(e) => dec_ed2k(data@) == Err::<(u8, u8, Seq<u8>), PacketError>(e),
        },
{
    let n: usize = match ed2k_packet_size(data) {
        Ok(n) => n,
        Err(e) => {
            return Err(e);
        },
    };
    if data.len() < n {
        return Err(PacketError::Truncated);
    }
    let payload = copy_range(data, 6, n);
    Ok((data[0], data[5], payload))
}

fn read_le32(data: &[u8], at: usize) -> (r: u32)
    requires
        at + 4 <= data@.len(),
    ensures
        r == from_le32(data@.skip(at as int)),
{
    proof {
        let s = data@.skip(at as int);
        assert(s[0] == data@[at as int] && s[1] == data@[at + 1]);
        assert(s.skip(2)[0] == data@[at + 2] && s.skip(2)[1] == data@[at + 3]);
    }
    data[at] as u32 + 0x100 * data[at + 1] as u32 + 0x1_0000 * data[at + 2] as u32 + 0x100_0000
        * data[at + 3] as u32
}

fn read_le16(data: &[u8], at: usize) -> (r: u16)
    requires
        at + 2 <= data@.len(),
    ensures
        r == from_le16(data@.skip(at as int)),
{
    proof {
        let s = data@.skip(at as int);
        assert(s[0] == data@[at as int] && s[1] == data@[at + 1]);
    }
    data[at] as u16 + 0x100 * data[at + 1] as u16
}

fn copy_range(data: &[u8], from: usize, to: usize) -> (r: Vec<u8>)
    requires
        from <= to <= data@.len(),
    ensures
        r@ == data@.subrange(from as int, to as int),
{
    let mut out: Vec<u8> = Vec::new();
    let part = vstd::slice::slice_subrange(data, from, to);
    put_bytes(&mut out, part);
    assert(out@ =~= data@.subrange(from as int, to as int));
    out
}

fn copy_16(data: &[u8], at: usize) -> (r: [u8; 16])
    requires
        at + 16 <= data@.len(),
    ensures
        r == seq_to_16(data@.subrange(at as int, at + 16)),
        r@ == data@.subrange(at as int, at + 16),
{
    let n: usize = data.len();
    assert(at + 16 <= n);
    let v = copy_range(data, at, at + 16);
    vec_to_16(&v)
}

/// Every packet of a length that is read is read back, whatever follows it.
pub proof fn lemma_packet_round_trip(protocol: u8, opcode: u8, payload: Seq<u8>, rest: Seq<u8>)
    requires
        payload.len() < MAX_PACKET_LEN,
    ensures
        dec_ed2k(framed(protocol, opcode, payload) + rest) == Ok::<(u8, u8, Seq<u8>), PacketError>(
            (protocol, opcode, payload),
        ),
{
    let s = framed(protocol, opcode, payload) + rest;
    let n = (payload.len() + 1) as u32;
    lemma_le32_round_trip(n, seq![opcode] + payload + rest);
    assert(s.skip(1) =~= le32(n) + (seq![opcode] + payload + rest));
    assert(s.subrange(6, n + 5) =~= payload);
}

// ---------------------------------------------------------------------------
// What comes from a buddy
// ---------------------------------------------------------------------------
/// What a packet of a buddy, or of a client that we serve, means.
#[derive(Clone, Copy, Debug, PartialEq, Eq)]
pub enum BuddyEvent {
    PingReceived,
    PongReceived,
    /// Someone wants us to connect.
    Callback { file_hash: [u8; 16], dest_ip: Ipv4Addr, dest_port: u16 },
    /// Someone wants to know its place in our queue.
    ReaskCallback { dest_ip: Ipv4Addr, dest_port: u16, file_hash: [u8; 16] },
    Disconnected,
}

/// What one connection may still ask for.
#[derive(Clone, Copy, Debug)]
pub struct BuddyReader {
    /// The token that callbacks have to carry; without one none is heard.
    pub expected_callback_check: Option<KadId>,
    pub callback_budget: u32,
    pub reask_callback_budget: u32,
}

/// Whether we may be sent to an address.
pub open spec fn is_safe_dest(ip: Ipv4Addr, port: u16) -> bool {
    port != 0 && !special_use_v4(ip)
}

/// The callback that a payload asks for: token, file, address, port.
pub open spec fn dec_callback(s: Seq<u8>) -> Option<(KadId, BuddyEvent)> {
    if s.len() < 38 {
        None
    } else {
        Some(
            (
                KadId(seq_to_16(s.subrange(0, 16))),
                BuddyEvent::Callback {
                    file_hash: seq_to_16(s.subrange(16, 32)),
                    dest_ip: Ipv4Addr { bits: from_le32(s.skip(32)) },
                    dest_port: from_le16(s.skip(36)),
                },
            ),
        )
    }
}

/// The query that a payload asks us to pass on: address, port, file.
pub open spec fn dec_reask(s: Seq<u8>) -> Option<BuddyEvent> {
    if s.len() < 22 {
        None
    } else {
        Some(
            BuddyEvent::ReaskCallback {
                dest_ip: Ipv4Addr { bits: from_le32(s) },
                dest_port: from_le16(s.skip(4)),
                file_hash: seq_to_16(s.subrange(6, 22)),
            },
        )
    }
}

impl BuddyReader {
    /// What a packet means, and what may be asked for after it.
    pub open spec fn after(self, protocol: u8, opcode: u8, payload: Seq<u8>) -> (
        BuddyReader,
        Option<BuddyEvent>,
    ) {
        if protocol != OP_EMULEPROT {
            (self, None)
        } else if opcode == OP_BUDDYPING {
            (self, Some(BuddyEvent::PingReceived))
        } else if opcode == OP_BUDDYPONG {
            (self, Some(BuddyEvent::PongReceived))
        } else if opcode == OP_CALLBACK {
            match dec_callback(payload) {
                Some((check, event)) => if self.expected_callback_check == Some(check)
                    && is_safe_dest(event->Callback_dest_ip, event->Callback_dest_port)
                    && self.callback_budget > 0 {
                    (
                        BuddyReader { callback_budget: (self.callback_budget - 1) as u32, ..self },
                        Some(event),
                    )
                } else {
                    (self, None)
                },
                None => (self, None),
            }
        } else if opcode == OP_REASKCALLBACKTCP {
            match dec_reask(payload) {
                Some(event) => if is_safe_dest(
                    event->ReaskCallback_dest_ip,
                    event->ReaskCallback_dest_port,
                ) && self.reask_callback_budget > 0 {
                    (
                        BuddyReader {
                            reask_callback_budget: (self.reask_callback_budget - 1) as u32,
                            ..self
                        },
                        Some(event),
                    )
                } else {
                    (self, None)
                },
                None => (self, None),
            }
        } else {
            (self, None)
        }
    }

    /// A new connection.
    pub fn new(expected_callback_check: Option<KadId>) -> (r: BuddyReader)
        ensures
            r == (BuddyReader {
                expected_callback_check,
                callback_budget: CALLBACK_BUDGET_PER_SESSION,
                reask_callback_budget: REASK_CALLBACK_BUDGET_PER_SESSION,
            }),
    {
        BuddyReader {
            expected_callback_check,
            callback_budget: CALLBACK_BUDGET_PER_SESSION,
            reask_callback_budget: REASK_CALLBACK_BUDGET_PER_SESSION,
        }
    }

    /// What a packet means. Anything that is not in order is ignored.
    pub fn on_packet(&mut self, protocol: u8, opcode: u8, payload: &[u8]) -> (r: Option<BuddyEvent>)
        ensures
            (*final(self), r) == old(self).after(protocol, opcode, payload@),
    {
        if protocol != OP_EMULEPROT {
            return None;
        }
        if opcode == OP_BUDDYPING {
            return Some(BuddyEvent::PingReceived);
        }
        if opcode == OP_BUDDYPONG {
            return Some(BuddyEvent::PongReceived);
        }
        if opcode == OP_CALLBACK {
            return self.on_callback(payload);
        }
        if opcode == OP_REASKCALLBACKTCP {
            return self.on_reask(payload);
        }
        None
    }

    fn on_callback(&mut self, payload: &[u8]) -> (r: Option<BuddyEvent>)
        ensures
            (*final(self), r) == old(self).after(OP_EMULEPROT, OP_CALLBACK, payload@),
    {
        if payload.len() < 38 {
            return None;
        }
        let check = KadId(copy_16(payload, 0));
        let expected = match self.expected_callback_check {
            Some(k) => k,
            None => {
                return None;
            },
        };
        if check != expected {
            return None;
        }
        let file_hash = copy_16(payload, 16);
        let dest_ip = Ipv4Addr { bits: read_le32(payload, 32) };
        let dest_port: u16 = read_le16(payload, 36);
        if dest_port == 0 || is_special_use_v4(dest_ip) || self.callback_budget == 0 {
            return None;
        }
        self.callback_budget = self.callback_budget - 1;
        Some(BuddyEvent::Callback { file_hash, dest_ip, dest_port })
    }

    fn on_reask(&mut self, payload: &[u8]) -> (r: Option<BuddyEvent>)
        ensures
            (*final(self), r) == old(self).after(OP_EMULEPROT, OP_REASKCALLBACKTCP, payload@),
    {
        if payload.len() < 22 {
            return None;
        }
        assert(payload@.skip(0) =~= payload@);
        let dest_ip = Ipv4Addr { bits: read_le32(payload, 0) };
        let dest_port: u16 = read_le16(payload, 4);
        let file_hash = copy_16(payload, 6);
        if dest_port == 0 || is_special_use_v4(dest_ip) || self.reask_callback_budget == 0 {
            return None;
        }
        self.reask_callback_budget = self.reask_callback_budget - 1;
        Some(BuddyEvent::ReaskCallback { dest_ip, dest_port, file_hash })
    }
}

/// No buddy can send us to an address of special use, or to no port.
pub proof fn lemma_dest_is_safe(s: BuddyReader, protocol: u8, opcode: u8, payload: Seq<u8>)
    ensures
        match s.after(protocol, opcode, payload).1 {
            Some(BuddyEvent::Callback { dest_ip, dest_port, .. }) => is_safe_dest(
                dest_ip,
                dest_port,
            ),
            Some(BuddyEvent::ReaskCallback { dest_ip, dest_port, .. }) => is_safe_dest(
                dest_ip,
                dest_port,
            ),
            _ => true,
        },
{
}

/// A callback is heard only with the token that is expected.
pub proof fn lemma_callback_needs_token(s: BuddyReader, protocol: u8, opcode: u8, payload: Seq<u8>)
    ensures
        s.after(protocol, opcode, payload).1 matches Some(e) && e is Callback
            ==> s.expected_callback_check is Some && s.expected_callback_check->Some_0.0@
            == payload.subrange(0, 16),
{
    if payload.len() >= 38 {
        let t = payload.subrange(0, 16);
        let k = seq_to_16(t);
        if exists|a: [u8; 16]| a@ == t {
            assert(k@ == t);
        } else {
            lemma_16_exists(t);
        }
    }
}

/// What a sequence of packets gave rise to.
pub open spec fn heard_all(s: BuddyReader, packets: Seq<(u8, u8, Seq<u8>)>) -> (
    BuddyReader,
    Seq<BuddyEvent>,
)
    decreases packets.len(),
{
    if packets.len() == 0 {
        (s, Seq::empty())
    } else {
        let (t, events) = heard_all(s, packets.drop_last());
        let (protocol, opcode, payload) = packets.last();
        let (u, event) = t.after(protocol, opcode, payload);
        (
            u,
            match event {
                Some(e) => events.push(e),
                None => events,
            },
        )
    }
}

pub open spec fn count_reasks(events: Seq<BuddyEvent>) -> nat
    decreases events.len(),
{
    if events.len() == 0 {
        0
    } else {
        count_reasks(events.drop_last()) + if events.last() is ReaskCallback {
            1nat
        } else {
            0nat
        }
    }
}

pub open spec fn count_callbacks(events: Seq<BuddyEvent>) -> nat
    decreases events.len(),
{
    if events.len() == 0 {
        0
    } else {
        count_callbacks(events.drop_last()) + if events.last() is Callback {
            1nat
        } else {
            0nat
        }
    }
}

/// However many packets a connection sends, it gets no more callbacks and
/// queries out of us than its budgets.
pub proof fn lemma_budgets_hold(s: BuddyReader, packets: Seq<(u8, u8, Seq<u8>)>)
    ensures
        ({
            let (t, events) = heard_all(s, packets);
            &&& count_callbacks(events) + t.callback_budget == s.callback_budget
            &&& count_reasks(events) + t.reask_callback_budget == s.reask_callback_budget
        }),
    decreases packets.len(),
{
    if packets.len() > 0 {
        lemma_budgets_hold(s, packets.drop_last());
        let (t, events) = heard_all(s, packets.drop_last());
        let (protocol, opcode, payload) = packets.last();
        match t.after(protocol, opcode, payload).1 {
            Some(e) => {
                assert(events.push(e).drop_last() =~= events);
            },
            None => {},
        }
    }
}

// ---------------------------------------------------------------------------
// Connecting to a buddy
// ---------------------------------------------------------------------------
/// Where an attempt to connect to a buddy is.
#[derive(Clone, Copy, Debug, PartialEq, Eq, Structural)]
pub enum DialStage {
    Connecting,
    Negotiating,
    Reconnecting,
    /// Greeting it, on an obfuscated connection or on a plain one.
    Greeting { obfuscated: bool },
    Connected { obfuscated: bool },
    GivenUp,
}

/// What has to be done next.
#[derive(Clone, Copy, Debug, PartialEq, Eq, Structural)]
pub enum DialAction {
    /// Agree on keys for an obfuscated connection.
    Negotiate,
    /// Drop the connection and make a plain one.
    Reconnect,
    Greet,
    Install,
    /// The search has failed.
    GiveUp,
}

/// How a buddy may be spoken to.
#[derive(Clone, Copy, Debug, PartialEq, Eq, Structural)]
pub struct BuddyDial {
    pub requires_crypt: bool,
    pub use_obfuscation: bool,
    pub stage: DialStage,
}

/// How a buddy with these options is spoken to: bit 0 says that it can do
/// obfuscation, and bit 2 that it insists on it.
pub open spec fn dial_of(connect_options: u8, knows_hash: bool, allow: bool) -> BuddyDial {
    BuddyDial {
        requires_crypt: (connect_options / 4) % 2 == 1,
        use_obfuscation: allow && connect_options % 2 == 1 && knows_hash,
        stage: DialStage::Connecting,
    }
}

impl BuddyDial {
    /// The stage after a step that succeeded or failed.
    pub open spec fn next_stage(self, ok: bool) -> DialStage {
        match self.stage {
            DialStage::Connecting => if !ok || (self.requires_crypt && !self.use_obfuscation) {
                DialStage::GivenUp
            } else if self.use_obfuscation {
                DialStage::Negotiating
            } else {
                DialStage::Greeting { obfuscated: false }
            },
            DialStage::Negotiating => if ok {
                DialStage::Greeting { obfuscated: true }
            } else if self.requires_crypt {
                DialStage::GivenUp
            } else {
                DialStage::Reconnecting
            },
            DialStage::Reconnecting => if ok {
                DialStage::Greeting { obfuscated: false }
            } else {
                DialStage::GivenUp
            },
            DialStage::Greeting { obfuscated } => if ok {
                DialStage::Connected { obfuscated }
            } else {
                DialStage::GivenUp
            },
            DialStage::Connected { obfuscated } => DialStage::Connected { obfuscated },
            DialStage::GivenUp => DialStage::GivenUp,
        }
    }

    /// Begins to connect to a buddy with these options. `peer_user_hash` is all
    /// zeros where it is not known.
    pub fn begin(connect_options: u8, peer_user_hash: &[u8; 16], allow_obfuscation: bool) -> (r:
        BuddyDial)
        ensures
            r == dial_of(
                connect_options,
                KadId(*peer_user_hash) != KadId::zero_spec(),
                allow_obfuscation,
            ),
    {
        let knows_hash = KadId(*peer_user_hash) != KadId::zero();
        BuddyDial {
            requires_crypt: (connect_options / 4) % 2 == 1,
            use_obfuscation: allow_obfuscation && connect_options % 2 == 1 && knows_hash,
            stage: DialStage::Connecting,
        }
    }

    /// Takes in whether the last step succeeded, and says what to do next.
    pub fn step(&mut self, ok: bool) -> (r: DialAction)
        ensures
            *final(self) == (BuddyDial { stage: old(self).next_stage(ok), ..*old(self) }),
            r == match final(self).stage {
                DialStage::Negotiating => DialAction::Negotiate,
                DialStage::Reconnecting => DialAction::Reconnect,
                DialStage::Greeting { .. } => DialAction::Greet,
                DialStage::Connected { .. } => DialAction::Install,
                _ => DialAction::GiveUp,
            },
    {
        let (stage, action): (DialStage, DialAction) = match self.stage {
            DialStage::Connecting => if !ok || (self.requires_crypt && !self.use_obfuscation) {
                (DialStage::GivenUp, DialAction::GiveUp)
            } else if self.use_obfuscation {
                (DialStage::Negotiating, DialAction::Negotiate)
            } else {
                (DialStage::Greeting { obfuscated: false }, DialAction::Greet)
            },
            DialStage::Negotiating => if ok {
                (DialStage::Greeting { obfuscated: true }, DialAction::Greet)
            } else if self.requires_crypt {
                (DialStage::GivenUp, DialAction::GiveUp)
            } else {
                (DialStage::Reconnecting, DialAction::Reconnect)
            },
            DialStage::Reconnecting => if ok {
                (DialStage::Greeting { obfuscated: false }, DialAction::Greet)
            } else {
                (DialStage::GivenUp, DialAction::GiveUp)
            },
            DialStage::Greeting { obfuscated } => if ok {
                (DialStage::Connected { obfuscated }, DialAction::Install)
            } else {
                (DialStage::GivenUp, DialAction::GiveUp)
            },
            DialStage::Connected { obfuscated } => (
                DialStage::Connected { obfuscated },
                DialAction::Install,
            ),
            DialStage::GivenUp => (DialStage::GivenUp, DialAction::GiveUp),
        };
        self.stage = stage;
        action
    }

    /// What holds at every stage of a connection to a buddy that insists on
    /// obfuscation: it is not greeted on a plain one.
    pub open spec fn keeps_promise(self) -> bool {
        self.requires_crypt ==> match self.stage {
            DialStage::Greeting { obfuscated } => obfuscated,
            DialStage::Connected { obfuscated } => obfuscated,
            DialStage::Reconnecting => false,
            _ => true,
        }
    }
}

/// A buddy that insists on obfuscation is never greeted on a plain connection.
pub proof fn lemma_dial_keeps_promise(d: BuddyDial, ok: bool)
    requires
        d.keeps_promise(),
    ensures
        (BuddyDial { stage: d.next_stage(ok), ..d }).keeps_promise(),
{
}

/// Every attempt comes to an end within four steps.
pub proof fn lemma_dial_ends(d: BuddyDial, a: bool, b: bool, c: bool, e: bool)
    requires
        d.stage is Connecting,
    ensures
        ({
            let d1 = BuddyDial { stage: d.next_stage(a), ..d };
            let d2 = BuddyDial { stage: d1.next_stage(b), ..d };
            let d3 = BuddyDial { stage: d2.next_stage(c), ..d };
            let last = d3.next_stage(e);
            last is Connected || last is GivenUp
        }),
{
}

// ---------------------------------------------------------------------------
// Greeting a buddy
// ---------------------------------------------------------------------------
/// The options that we send along with a greeting.
#[derive(Clone, Copy, Debug, PartialEq, Eq, Structural)]
pub struct HelloOptions {
    pub udp_port: u16,
    pub kad_port: u16,
    pub supports_crypt_layer: bool,
    pub requests_crypt_layer: bool,
    pub requires_crypt_layer: bool,
    pub supports_direct_udp_callback: bool,
    pub supports_captcha: bool,
    pub server_ip: u32,
    pub server_port: u16,
    pub kad_version: u8,
}

/// The options that we send along with a greeting to a buddy.
pub fn buddy_hello_options(udp_port: u16, obfuscation_enabled: bool) -> (r: HelloOptions)
    ensures
        r == (HelloOptions {
            udp_port,
            kad_port: udp_port,
            supports_crypt_layer: obfuscation_enabled,
            requests_crypt_layer: obfuscation_enabled,
            requires_crypt_layer: false,
            supports_direct_udp_callback: false,
            supports_captcha: false,
            server_ip: 0,
            server_port: 0,
            kad_version: 0x09,
        }),
{
    HelloOptions {
        udp_port,
        kad_port: udp_port,
        supports_crypt_layer: obfuscation_enabled,
        requests_crypt_layer: obfuscation_enabled,
        requires_crypt_layer: false,
        supports_direct_udp_callback: false,
        supports_captcha: false,
        server_ip: 0,
        server_port: 0,
        kad_version: 0x09,
    }
}

/// Where a greeting is.
#[derive(Clone, Copy, Debug, PartialEq, Eq, Structural)]
pub enum GreetStage {
    /// Our greeting is out.
    AwaitAnswer,
    /// It was answered, and what we are is out.
    AwaitInfo,
    Done,
    /// The answer was something else.
    Failed { protocol: u8, opcode: u8 },
}

/// The stage after a packet. The greeting has to be answered; to what we are
/// any packet will do.
pub open spec fn greeted(stage: GreetStage, protocol: u8, opcode: u8) -> GreetStage {
    match stage {
        GreetStage::AwaitAnswer => if protocol == OP_EDONKEYHEADER && opcode == OP_HELLOANSWER {
            GreetStage::AwaitInfo
        } else {
            GreetStage::Failed { protocol, opcode }
        },
        GreetStage::AwaitInfo => GreetStage::Done,
        other => other,
    }
}

/// The stage after a packet.
pub fn buddy_hello_handshake_outgoing(stage: GreetStage, protocol: u8, opcode: u8) -> (r:
    GreetStage)
    ensures
        r == greeted(stage, protocol, opcode),
{
    match stage {
        GreetStage::AwaitAnswer => if protocol == OP_EDONKEYHEADER && opcode == OP_HELLOANSWER {
            GreetStage::AwaitInfo
        } else {
            GreetStage::Failed { protocol, opcode }
        },
        GreetStage::AwaitInfo => GreetStage::Done,
        other => other,
    }
}

// ---------------------------------------------------------------------------
// Clients that were promised a buddy
// ---------------------------------------------------------------------------
/// The hash of a user.
#[derive(Clone, Copy, Debug, PartialEq, Eq)]
pub struct UserHash(pub [u8; 16]);

impl MapKey for UserHash {
    open spec fn digest_of(self) -> u128 {
        word_of(self.0@)
    }

    fn digest(&self) -> (r: u128) {
        word(&self.0)
    }

    fn same(&self, other: &Self) -> (r: bool) {
        same_16(&self.0, &other.0)
    }
}

/// The clients that were promised a buddy: the token of each, and when.
pub struct PendingBuddies {
    entries: KeyMap<UserHash, (KadId, i64)>,
}

impl View for PendingBuddies {
    type V = Map<UserHash, (KadId, i64)>;

    closed spec fn view(&self) -> Map<UserHash, (KadId, i64)> {
        self.entries@
    }
}

/// Whether every promise was made at a time that the clock can show.
pub open spec fn promises_ok(m: Map<UserHash, (KadId, i64)>) -> bool {
    forall|u: UserHash| #[trigger] m.contains_key(u) ==> clock_time(m[u].1)
}

/// The promises that still hold.
pub open spec fn still_promised(m: Map<UserHash, (KadId, i64)>, now: i64) -> Map<
    UserHash,
    (KadId, i64),
> {
    m.restrict(Set::new(|u: UserHash| now - m[u].1 < PENDING_BUDDY_SECS))
}

impl PendingBuddies {
    pub fn new() -> (r: PendingBuddies)
        ensures
            r@ == Map::<UserHash, (KadId, i64)>::empty(),
    {
        PendingBuddies { entries: KeyMap::new() }
    }

    pub fn clear(&mut self)
        ensures
            final(self)@ == Map::<UserHash, (KadId, i64)>::empty(),
    {
        self.entries = KeyMap::new();
    }

    /// The token of a client that was promised a buddy.
    pub fn get(&self, user_hash: &[u8; 16]) -> (r: Option<KadId>)
        ensures
            r == if self@.contains_key(UserHash(*user_hash)) {
                Some(self@[UserHash(*user_hash)].0)
            } else {
                None
            },
    {
        match self.entries.get(&UserHash(*user_hash)) {
            Some((check, _)) => Some(*check),
            None => None,
        }
    }

    /// Promises a client a buddy now, and forgets promises that are too old.
    pub fn register_pending_buddy(&mut self, user_hash: [u8; 16], callback_check: KadId)
        requires
            promises_ok(old(self)@),
        ensures
            exists|now: i64|
                clock_time(now) && final(self)@ == put(
                    #[trigger] still_promised(old(self)@, now),
                    UserHash(user_hash),
                    (callback_check, now),
                ),
            promises_ok(final(self)@),
    {
        let now: i64 = utc_now();
        self.register_at(user_hash, callback_check, now);
    }

    /// Promises a client a buddy, and forgets promises that are too old.
    pub fn register_at(&mut self, user_hash: [u8; 16], callback_check: KadId, now: i64)
        requires
            promises_ok(old(self)@),
            clock_time(now),
        ensures
            final(self)@ == put(
                still_promised(old(self)@, now),
                UserHash(user_hash),
                (callback_check, now),
            ),
            promises_ok(final(self)@),
    {
        let ghost m0 = self@;
        let keys = self.entries.keys();
        let mut i: usize = 0;
        while i < keys.len()
            invariant
                i <= keys@.len(),
                m0 == old(self)@,
                promises_ok(m0),
                clock_time(now),
                forall|k: UserHash| #[trigger] keys@.contains(k) <==> m0.contains_key(k),
                forall|k: UserHash| #[trigger]
                    self.entries@.contains_key(k) ==> m0.contains_key(k) && self.entries@[k]
                        == m0[k],
                forall|k: UserHash|
                    m0.contains_key(k) && now - m0[k].1 < PENDING_BUDDY_SECS
                        ==> #[trigger] self.entries@.contains_key(k),
                forall|j: int|
                    0 <= j < i && now - m0[#[trigger] keys@[j]].1 >= PENDING_BUDDY_SECS
                        ==> !self.entries@.contains_key(keys@[j]),
            decreases keys@.len() - i,
        {
            let k = keys[i];
            assert(keys@.contains(k));
            let late = match self.entries.get(&k) {
                Some((_, then)) => now - *then >= PENDING_BUDDY_SECS,
                None => false,
            };
            if late {
                self.entries.remove(&k);
            }
            i = i + 1;
        }
        proof {
            let want = still_promised(m0, now);
            assert forall|k: UserHash| self.entries@.contains_key(k) <==> want.contains_key(k) by {
                if m0.contains_key(k) {
                    assert(keys@.contains(k));
                    let j = choose|j: int| 0 <= j < keys@.len() && keys@[j] == k;
                    assert(keys@[j] == k);
                }
            }
            assert(self.entries@ =~= want);
        }
        self.entries.insert(UserHash(user_hash), (callback_check, now));
    }
}

// ---------------------------------------------------------------------------
// The manager
// ---------------------------------------------------------------------------
#[derive(Debug, Clone, Copy, PartialEq, Eq, Structural)]
pub enum BuddyState {
    NoBuddy,
    FindingBuddy,
    Connected,
}

/// Our buddy, and the client that we serve as one.
pub struct BuddyManager {
    pub local_id: KadId,
    pub user_hash: [u8; 16],
    pub nickname: String,
    pub tcp_port: u16,
    pub udp_port: u16,
    pub state: BuddyState,
    pub buddy_id: Option<KadId>,
    pub buddy_addr: Option<SocketAddr>,
    pub last_find_attempt: i64,
    pub find_attempt_count: u32,
    /// Whether the connection to our buddy is open.
    pub buddy_open: bool,
    pub serving_buddy_for: Option<KadId>,
    pub serving_callback_check: Option<KadId>,
    pub serving_callback_budget: u32,
    /// Whether the connection to the client that we serve is open.
    pub serving_open: bool,
}

/// How many seconds have to pass before the next search.
pub open spec fn cooldown(attempts: u32) -> i64 {
    if attempts == 0 {
        0
    } else if attempts == 1 {
        60
    } else if attempts == 2 {
        120
    } else if attempts == 3 {
        240
    } else if attempts == 4 {
        480
    } else {
        600
    }
}

/// Bytes with every bit turned over.
pub open spec fn complement(id: KadId) -> KadId {
    KadId(seq_to_16(Seq::new(16, |i: int| id.0[i] ^ 0xFF)))
}

/// Bytes with every bit turned over.
pub fn invert(id: &KadId) -> (r: KadId)
    ensures
        r == complement(*id),
{
    let mut out: [u8; 16] = [0u8; 16];
    let mut i: usize = 0;
    while i < 16
        invariant
            i <= 16,
            forall|j: int| 0 <= j < i ==> out[j] == id.0[j] ^ 0xFF,
        decreases 16 - i,
    {
        out[i] = id.0[i] ^ 0xFF;
        i = i + 1;
    }
    proof {
        assert(out@ =~= Seq::new(16, |i: int| id.0[i] ^ 0xFF));
        lemma_seq_to_16(out);
    }
    KadId(out)
}

/// What a callback carries: token, file, address, port.
pub open spec fn callback_payload(check: KadId, file_hash: [u8; 16], ip: Ipv4Addr, port: u16) -> Seq<
    u8,
> {
    check.0@ + file_hash@ + le32(ip.bits) + le16(port)
}

impl BuddyManager {
    pub open spec fn wf(&self) -> bool {
        clock_time(self.last_find_attempt)
    }

    pub open spec fn without_buddy(self) -> BuddyManager {
        BuddyManager {
            buddy_open: false,
            buddy_id: None,
            buddy_addr: None,
            state: BuddyState::NoBuddy,
            ..self
        }
    }

    pub open spec fn without_client(self) -> BuddyManager {
        BuddyManager {
            serving_open: false,
            serving_buddy_for: None,
            serving_callback_check: None,
            serving_callback_budget: 0,
            ..self
        }
    }

    /// Whether a search may begin: nobody can reach us on either port, none is
    /// under way, we have no buddy, and the last one is long enough ago.
    pub open spec fn wants_buddy(
        &self,
        tcp_status: FirewallStatus,
        udp_status: FirewallStatus,
        now: i64,
    ) -> bool {
        &&& tcp_status == FirewallStatus::Firewalled
        &&& udp_status == FirewallStatus::Firewalled
        &&& self.state == BuddyState::NoBuddy
        &&& now - self.last_find_attempt > cooldown(self.find_attempt_count)
    }

    pub fn new(
        local_id: KadId,
        user_hash: [u8; 16],
        nickname: String,
        tcp_port: u16,
        udp_port: u16,
    ) -> (r: BuddyManager)
        ensures
            r == (BuddyManager {
                local_id,
                user_hash,
                nickname,
                tcp_port,
                udp_port,
                state: BuddyState::NoBuddy,
                buddy_id: None,
                buddy_addr: None,
                last_find_attempt: 0,
                find_attempt_count: 0,
                buddy_open: false,
                serving_buddy_for: None,
                serving_callback_check: None,
                serving_callback_budget: 0,
                serving_open: false,
            }),
            r.wf(),
    {
        BuddyManager {
            local_id,
            user_hash,
            nickname,
            tcp_port,
            udp_port,
            state: BuddyState::NoBuddy,
            buddy_id: None,
            buddy_addr: None,
            last_find_attempt: 0,
            find_attempt_count: 0,
            buddy_open: false,
            serving_buddy_for: None,
            serving_callback_check: None,
            serving_callback_budget: 0,
            serving_open: false,
        }
    }

    /// Forgets our buddy, the client that we serve, all attempts, and every
    /// promise, unless others hold the promises just now.
    pub fn reset(&mut self, pending: Option<&mut PendingBuddies>)
        ensures
            pending matches Some(p) ==> final(p)@ == Map::<UserHash, (KadId, i64)>::empty(),
            *final(self) == (BuddyManager {
                last_find_attempt: 0,
                find_attempt_count: 0,
                ..old(self).without_buddy().without_client()
            }),
            final(self).wf(),
    {
        self.disconnect_buddy(pending);
        self.disconnect_serving();
        self.last_find_attempt = 0;
        self.find_attempt_count = 0;
    }

    pub fn state(&self) -> (r: BuddyState)
        ensures
            r == self.state,
    {
        self.state
    }

    pub fn local_id(&self) -> (r: &KadId)
        ensures
            *r == self.local_id,
    {
        &self.local_id
    }

    pub fn tcp_port(&self) -> (r: u16)
        ensures
            r == self.tcp_port,
    {
        self.tcp_port
    }

    pub fn buddy_id(&self) -> (r: Option<KadId>)
        ensures
            r == self.buddy_id,
    {
        self.buddy_id
    }

    /// Where our buddy is, if that is an IPv4 address.
    pub fn buddy_addr(&self) -> (r: Option<(Ipv4Addr, u16)>)
        ensures
            r == match self.buddy_addr {
                Some(SocketAddr { ip: IpAddr::V4(ip), port }) => Some((ip, port)),
                _ => None,
            },
    {
        match self.buddy_addr {
            Some(addr) => match addr.ip {
                IpAddr::V4(ip) => Some((ip, addr.port)),
                IpAddr::V6(_) => None,
            },
            None => None,
        }
    }

    /// Where to look for a buddy: as far from us as can be.
    pub fn find_buddy_target(&self) -> (r: KadId)
        ensures
            r == complement(self.local_id),
    {
        invert(&self.local_id)
    }

    /// Whether a search may begin now.
    pub fn should_find_buddy(&self, tcp_status: FirewallStatus, udp_status: FirewallStatus) -> (r:
        bool)
        requires
            self.wf(),
        ensures
            exists|now: i64|
                clock_time(now) && r == #[trigger] self.wants_buddy(tcp_status, udp_status, now),
    {
        let now: i64 = utc_now();
        self.should_find_buddy_at(tcp_status, udp_status, now)
    }

    /// Whether a search may begin.
    pub fn should_find_buddy_at(
        &self,
        tcp_status: FirewallStatus,
        udp_status: FirewallStatus,
        now: i64,
    ) -> (r: bool)
        requires
            self.wf(),
            clock_time(now),
        ensures
            r == self.wants_buddy(tcp_status, udp_status, now),
    {
        if tcp_status != FirewallStatus::Firewalled || udp_status != FirewallStatus::Firewalled {
            return false;
        }
        if self.state != BuddyState::NoBuddy {
            return false;
        }
        let wait: i64 = match self.find_attempt_count {
            0 => 0,
            1 => 60,
            2 => 120,
            3 => 240,
            4 => 480,
            _ => 600,
        };
        now - self.last_find_attempt > wait
    }

    /// Begins a search now.
    pub fn start_finding(&mut self)
        requires
            old(self).find_attempt_count < u32::MAX,
        ensures
            final(self).wf(),
            *final(self) == (BuddyManager {
                state: BuddyState::FindingBuddy,
                last_find_attempt: final(self).last_find_attempt,
                find_attempt_count: (old(self).find_attempt_count + 1) as u32,
                ..*old(self)
            }),
    {
        let now: i64 = utc_now();
        self.start_finding_at(now);
    }

    /// Begins a search.
    pub fn start_finding_at(&mut self, now: i64)
        requires
            old(self).find_attempt_count < u32::MAX,
            clock_time(now),
        ensures
            final(self).wf(),
            *final(self) == (BuddyManager {
                state: BuddyState::FindingBuddy,
                last_find_attempt: now,
                find_attempt_count: (old(self).find_attempt_count + 1) as u32,
                ..*old(self)
            }),
    {
        self.state = BuddyState::FindingBuddy;
        self.last_find_attempt = now;
        self.find_attempt_count = self.find_attempt_count + 1;
    }

    /// A search has failed.
    pub fn find_failed(&mut self)
        ensures
            *final(self) == (BuddyManager { state: BuddyState::NoBuddy, ..*old(self) }),
    {
        self.state = BuddyState::NoBuddy;
    }

    /// Whether a search takes too long now.
    pub fn finding_timed_out(&self) -> (r: bool)
        requires
            self.wf(),
        ensures
            exists|now: i64| #[trigger]
                clock_time(now) && r == (self.state == BuddyState::FindingBuddy && now
                    - self.last_find_attempt > FIND_TIMEOUT_SECS),
    {
        let now: i64 = utc_now();
        self.finding_timed_out_at(now)
    }

    /// Whether a search takes too long.
    pub fn finding_timed_out_at(&self, now: i64) -> (r: bool)
        requires
            self.wf(),
            clock_time(now),
        ensures
            r == (self.state == BuddyState::FindingBuddy && now - self.last_find_attempt
                > FIND_TIMEOUT_SECS),
    {
        self.state == BuddyState::FindingBuddy && now - self.last_find_attempt
            > FIND_TIMEOUT_SECS
    }

    /// Takes in whether a step towards a buddy succeeded, and says what to do
    /// next. An attempt that is given up ends the search.
    pub fn handle_findbuddy_response(&mut self, dial: &mut BuddyDial, ok: bool) -> (r: DialAction)
        ensures
            *final(dial) == (BuddyDial { stage: old(dial).next_stage(ok), ..*old(dial) }),
            r == match final(dial).stage {
                DialStage::Negotiating => DialAction::Negotiate,
                DialStage::Reconnecting => DialAction::Reconnect,
                DialStage::Greeting { .. } => DialAction::Greet,
                DialStage::Connected { .. } => DialAction::Install,
                _ => DialAction::GiveUp,
            },
            *final(self) == if r == DialAction::GiveUp {
                BuddyManager { state: BuddyState::NoBuddy, ..*old(self) }
            } else {
                *old(self)
            },
    {
        let action = dial.step(ok);
        if action == DialAction::GiveUp {
            self.find_failed();
        }
        action
    }

    /// Takes in a connection to a buddy.
    pub fn install_buddy_connection(&mut self, buddy_id: KadId, buddy_ip: Ipv4Addr, buddy_port: u16)
        ensures
            *final(self) == (BuddyManager {
                buddy_id: Some(buddy_id),
                buddy_addr: Some(SocketAddr { ip: IpAddr::V4(buddy_ip), port: buddy_port }),
                buddy_open: true,
                state: BuddyState::Connected,
                find_attempt_count: 0,
                ..*old(self)
            }),
    {
        self.buddy_id = Some(buddy_id);
        self.buddy_addr = Some(SocketAddr { ip: IpAddr::V4(buddy_ip), port: buddy_port });
        self.buddy_open = true;
        self.state = BuddyState::Connected;
        self.find_attempt_count = 0;
    }

    /// Takes in the connection of a client that wants us as its buddy, unless
    /// we serve one already.
    pub fn accept_buddy_connection(&mut self, requester_id: KadId, callback_check: KadId) -> (r:
        bool)
        ensures
            r == (old(self).serving_buddy_for is None),
            *final(self) == if r {
                BuddyManager {
                    serving_buddy_for: Some(requester_id),
                    serving_callback_check: Some(callback_check),
                    serving_callback_budget: CALLBACK_BUDGET_PER_SESSION,
                    serving_open: true,
                    ..*old(self)
                }
            } else {
                *old(self)
            },
    {
        if self.serving_buddy_for.is_some() {
            return false;
        }
        self.serving_buddy_for = Some(requester_id);
        self.serving_callback_check = Some(callback_check);
        self.serving_callback_budget = CALLBACK_BUDGET_PER_SESSION;
        self.serving_open = true;
        true
    }

    /// The ping for our buddy, if we have one.
    pub fn send_buddy_ping(&self) -> (r: Option<Vec<u8>>)
        ensures
            match r {
                Some(p) => self.buddy_open && p@ == framed(
                    OP_EMULEPROT,
                    OP_BUDDYPING,
                    Seq::empty(),
                ),
                None => !self.buddy_open,
            },
    {
        if self.buddy_open {
            Some(bare_packet(OP_BUDDYPING))
        } else {
            None
        }
    }

    /// The answer to a ping of our buddy, if we have one.
    pub fn send_pong_to_buddy(&self) -> (r: Option<Vec<u8>>)
        ensures
            match r {
                Some(p) => self.buddy_open && p@ == framed(
                    OP_EMULEPROT,
                    OP_BUDDYPONG,
                    Seq::empty(),
                ),
                None => !self.buddy_open,
            },
    {
        if self.buddy_open {
            Some(bare_packet(OP_BUDDYPONG))
        } else {
            None
        }
    }

    /// The answer to a ping of the client that we serve, if there is one.
    pub fn send_pong_to_serving(&self) -> (r: Option<Vec<u8>>)
        ensures
            match r {
                Some(p) => self.serving_open && p@ == framed(
                    OP_EMULEPROT,
                    OP_BUDDYPONG,
                    Seq::empty(),
                ),
                None => !self.serving_open,
            },
    {
        if self.serving_open {
            Some(bare_packet(OP_BUDDYPONG))
        } else {
            None
        }
    }

    /// Whether a callback with a token may be passed on to the client that we serve.
    pub open spec fn may_relay(&self, check: KadId) -> bool {
        self.serving_callback_check == Some(check) && self.serving_callback_budget > 0
    }

    /// The callback to pass on to the client that we serve. It has to carry the
    /// client's token, and there may only be so many.
    pub fn send_callback_relay(
        &mut self,
        buddy_kad_id: &KadId,
        client_ip: Ipv4Addr,
        client_port: u16,
        file_hash: [u8; 16],
    ) -> (r: Option<Vec<u8>>)
        ensures
            match r {
                Some(p) => {
                    &&& old(self).may_relay(*buddy_kad_id) && old(self).serving_open
                    &&& p@ == framed(
                        OP_EMULEPROT,
                        OP_CALLBACK,
                        callback_payload(*buddy_kad_id, file_hash, client_ip, client_port),
                    )
                },
                None => !old(self).may_relay(*buddy_kad_id) || !old(self).serving_open,
            },
            *final(self) == if old(self).may_relay(*buddy_kad_id) {
                BuddyManager {
                    serving_callback_budget: (old(self).serving_callback_budget - 1) as u32,
                    ..*old(self)
                }
            } else {
                *old(self)
            },
    {
        let check_id = match self.serving_callback_check {
            Some(k) => k,
            None => {
                return None;
            },
        };
        if *buddy_kad_id != check_id || self.serving_callback_budget == 0 {
            return None;
        }
        self.serving_callback_budget = self.serving_callback_budget - 1;
        if !self.serving_open {
            return None;
        }
        let mut payload: Vec<u8> = Vec::new();
        put_bytes(&mut payload, &check_id.0);
        put_bytes(&mut payload, &file_hash);
        put_u32(&mut payload, client_ip.bits);
        put_u16(&mut payload, client_port);
        assert(payload@ =~= callback_payload(check_id, file_hash, client_ip, client_port));
        Some(build_emule_packet(OP_CALLBACK, payload.as_slice()))
    }

    /// The query to pass on to our buddy: where it came from, and the rest as
    /// it came.
    pub fn forward_reask_callback(&self, sender_ip: Ipv4Addr, sender_port: u16, trailing: &[u8]) -> (r:
        Option<Vec<u8>>)
        ensures
            match r {
                Some(p) => self.buddy_open && p@ == framed(
                    OP_EMULEPROT,
                    OP_REASKCALLBACKTCP,
                    le32(sender_ip.bits) + le16(sender_port) + trailing@,
                ),
                None => !self.buddy_open,
            },
    {
        if !self.buddy_open {
            return None;
        }
        let mut payload: Vec<u8> = Vec::new();
        put_u32(&mut payload, sender_ip.bits);
        put_u16(&mut payload, sender_port);
        put_bytes(&mut payload, trailing);
        assert(payload@ =~= le32(sender_ip.bits) + le16(sender_port) + trailing@);
        Some(build_emule_packet(OP_REASKCALLBACKTCP, payload.as_slice()))
    }

    /// Our buddy is gone, and with it every promise to a client, unless others
    /// hold the promises just now.
    pub fn disconnect_buddy(&mut self, pending: Option<&mut PendingBuddies>)
        ensures
            *final(self) == old(self).without_buddy(),
            pending matches Some(p) ==> final(p)@ == Map::<UserHash, (KadId, i64)>::empty(),
    {
        if let Some(promises) = pending {
            promises.clear();
        }
        self.buddy_open = false;
        self.buddy_id = None;
        self.buddy_addr = None;
        self.state = BuddyState::NoBuddy;
    }

    /// The client that we served is gone, and its token with it.
    pub fn disconnect_serving(&mut self)
        ensures
            *final(self) == old(self).without_client(),
    {
        self.serving_open = false;
        self.serving_buddy_for = None;
        self.serving_callback_check = None;
        self.serving_callback_budget = 0;
    }

    /// Whether we serve a client.
    pub fn is_serving(&self) -> (r: bool)
        ensures
            r == (self.serving_buddy_for is Some),
    {
        self.serving_buddy_for.is_some()
    }

    /// The client that we serve.
    pub fn serving_for(&self) -> (r: Option<KadId>)
        ensures
            r == self.serving_buddy_for,
    {
        self.serving_buddy_for
    }
}

fn bare_packet(opcode: u8) -> (r: Vec<u8>)
    ensures
        r@ == framed(OP_EMULEPROT, opcode, Seq::empty()),
{
    let empty: Vec<u8> = Vec::new();
    assert(empty@ =~= Seq::<u8>::empty());
    build_emule_packet(opcode, empty.as_slice())
}

/// What we pass on as a callback, the client reads as that callback.
pub proof fn lemma_callback_round_trip(
    check: KadId,
    file_hash: [u8; 16],
    ip: Ipv4Addr,
    port: u16,
)
    ensures
        dec_callback(callback_payload(check, file_hash, ip, port)) == Some(
            (check, BuddyEvent::Callback { file_hash, dest_ip: ip, dest_port: port }),
        ),
{
    let s = callback_payload(check, file_hash, ip, port);
    lemma_le32_round_trip(ip.bits, le16(port));
    lemma_le16_round_trip(port, Seq::<u8>::empty());
    assert(s.subrange(0, 16) =~= check.0@);
    assert(s.subrange(16, 32) =~= file_hash@);
    assert(s.skip(32) =~= le32(ip.bits) + le16(port));
    assert(s.skip(36) =~= le16(port) + Seq::<u8>::empty());
    lemma_seq_to_16(check.0);
    lemma_seq_to_16(file_hash);
}

/// The target of a search is found again from itself, and is never ourselves.
pub proof fn lemma_complement(id: KadId)
    ensures
        complement(complement(id)) == id,
        complement(id) != id,
{
    let c = complement(id);
    lemma_16_exists(Seq::new(16, |i: int| id.0[i] ^ 0xFF));
    assert(c.0@ == Seq::new(16, |i: int| id.0[i] ^ 0xFF));
    assert forall|i: int| 0 <= i < 16 implies #[trigger] c.0@[i] ^ 0xFF == id.0[i] by {
        let x: u8 = id.0[i];
        assert((x ^ 0xFF) ^ 0xFF == x) by (bit_vector);
    }
    assert(Seq::new(16, |i: int| c.0[i] ^ 0xFF) =~= id.0@);
    lemma_seq_to_16(id.0);
    let x: u8 = id.0[0];
    assert(x ^ 0xFF != x) by (bit_vector);
    assert(c.0@[0] == x ^ 0xFF);
}

} // verus!
