//! What the overlay's transport knows, and how packets change it.
use vstd::prelude::*;

use snow::HandshakeState;

use crate::clock::elapsed;
use crate::ember::control::{dec_control, enc_control, ControlView};
use crate::ember::eviction::{stamps, trimmed, with_room, younger, Claim, PacketDigest};
use crate::ember::noise::{
    awaited, begun, begun_with, blake3_digest, blake3_keyed, can_write, handshake_stage, heard, ik,
    in_step, known, own_static, public_key, remote_static, transport_of, unharmed, wrote, xx,
};
use crate::ember::session::{packet, NoiseSession, PKT_TRANSPORT};
use crate::net::{IpAddr, SocketAddr};
use crate::rank::Ranked;

verus! {

pub const PKT_IK_INIT: u8 = 0x01;

pub const PKT_IK_RESP: u8 = 0x02;

pub const PKT_XX_MSG1: u8 = 0x03;

pub const PKT_XX_MSG2: u8 = 0x04;

pub const PKT_XX_MSG3: u8 = 0x05;

/// Asks the initiator of a handshake to show that it receives at its address.
pub const PKT_XX_COOKIE: u8 = 0x06;

/// The bytes in front of every packet: two of magic, one of type.
pub const HEADER_LEN: usize = 3;

/// Sessions that were idle this long, in milliseconds, are dropped.
pub const SESSION_TIMEOUT_MS: u64 = 300000;

pub const MAX_SESSIONS: usize = 4096;

pub const MAX_SHADOW_SESSIONS_PER_ADDR: usize = 3;

pub const MAX_SHADOW_SESSIONS: usize = 1024;

pub const MAX_PENDING: usize = 512;

/// How long a handshake may take, in milliseconds.
pub const PENDING_TIMEOUT_MS: u64 = 30000;

/// How long the first packet of a handshake is remembered, in milliseconds.
pub const HANDSHAKE_REPLAY_TTL_MS: u64 = 30000;

pub const MAX_REPLAY_DIGESTS: usize = 8192;

pub const MAX_DEFERRED_IK_PAYLOADS_PER_ADDR: usize = 3;

pub const MAX_DEFERRED_IK_PAYLOADS: usize = 4096;

/// How long a request waits for its sender to prove its address, in milliseconds.
pub const DEFERRED_IK_PAYLOAD_TTL_MS: u64 = 30000;

/// The bytes of an ephemeral key.
pub const XX_MSG1_EPHEMERAL_LEN: usize = 32;

pub const XX_COOKIE_LEN: usize = 16;

/// How long a cookie secret is used, in milliseconds.
pub const XX_COOKIE_ROTATION_MS: u64 = 15000;

/// How many answers per second go to addresses that have proven nothing.
pub const XX_UNVALIDATED_MSG2_PER_SEC: u32 = 16;

/// How many such answers may go out at once.
pub const XX_UNVALIDATED_MSG2_BURST: u32 = 64;

/// The longest packet that is looked at.
pub const MAX_EMBER_DATAGRAM_BYTES: usize = 4096;

/// How many messages wait for a handshake.
pub const MAX_QUEUED_PER_HANDSHAKE: usize = 64;

// ---------------------------------------------------------------------------
// Entries
// ---------------------------------------------------------------------------
/// A handshake that is not done yet.
pub enum PendingView {
    IkInitiator { state: HandshakeState, queued: Seq<Seq<u8>>, created: u64 },
    XxInitiatorMsg1 {
        state: HandshakeState,
        /// The handshake that a cookie replaced.
        prior: Option<HandshakeState>,
        queued: Seq<Seq<u8>>,
        created: u64,
        cookie_retried: bool,
    },
    XxResponderMsg2 { state: HandshakeState, queued: Seq<Seq<u8>>, created: u64 },
}

impl PendingView {
    pub open spec fn created(self) -> u64 {
        match self {
            PendingView::IkInitiator { created, .. } => created,
            PendingView::XxInitiatorMsg1 { created, .. } => created,
            PendingView::XxResponderMsg2 { created, .. } => created,
        }
    }

    pub open spec fn queued(self) -> Seq<Seq<u8>> {
        match self {
            PendingView::IkInitiator { queued, .. } => queued,
            PendingView::XxInitiatorMsg1 { queued, .. } => queued,
            PendingView::XxResponderMsg2 { queued, .. } => queued,
        }
    }

    /// The same handshake with other messages waiting.
    pub open spec fn with_queue(self, q: Seq<Seq<u8>>) -> PendingView {
        match self {
            PendingView::IkInitiator { state, queued, created } => PendingView::IkInitiator {
                state,
                queued: q,
                created,
            },
            PendingView::XxInitiatorMsg1 { state, prior, queued, created, cookie_retried } =>
                PendingView::XxInitiatorMsg1 { state, prior, queued: q, created, cookie_retried },
            PendingView::XxResponderMsg2 { state, queued, created } =>
                PendingView::XxResponderMsg2 { state, queued: q, created },
        }
    }

    /// The handshake is where its kind says.
    pub open spec fn wf(self) -> bool {
        match self {
            PendingView::IkInitiator { state, .. } => handshake_stage(state) == (ik(), true, 1nat),
            PendingView::XxInitiatorMsg1 { state, prior, .. } => {
                &&& handshake_stage(state) == (xx(), true, 1nat)
                &&& prior matches Some(p) ==> handshake_stage(p) == (xx(), true, 1nat)
            },
            PendingView::XxResponderMsg2 { state, .. } => handshake_stage(state) == (
                xx(),
                false,
                2nat,
            ),
        }
    }
}

/// The first packet of a handshake, as it is remembered.
pub struct RecentView {
    pub seen_at: u64,
    pub from: SocketAddr,
    pub response: Option<Seq<u8>>,
}

/// A request that waits for its sender to prove its address.
pub struct DeferredView {
    pub payload: Seq<u8>,
    pub stored: u64,
}

pub open spec fn pending_stamps(m: Map<SocketAddr, PendingView>) -> Map<SocketAddr, u64> {
    Map::new(|k: SocketAddr| m.contains_key(k), |k: SocketAddr| m[k].created())
}

pub open spec fn recent_stamps(m: Map<PacketDigest, RecentView>) -> Map<PacketDigest, u64> {
    Map::new(|k: PacketDigest| m.contains_key(k), |k: PacketDigest| m[k].seen_at)
}

pub open spec fn deferred_stamps(m: Map<Claim, DeferredView>) -> Map<Claim, u64> {
    Map::new(|k: Claim| m.contains_key(k), |k: Claim| m[k].stored)
}

/// What became of a packet.
pub enum IncomingView {
    Message { from: SocketAddr, remote_noise_pub: [u8; 32], payload: Seq<u8> },
    HandshakeResponse { to: SocketAddr, packets: Seq<Seq<u8>> },
    HandshakeComplete {
        peer: SocketAddr,
        remote_noise_pub: [u8; 32],
        packets_to_send: Seq<Seq<u8>>,
        decrypted_payload: Option<Seq<u8>>,
    },
    Rejected,
}

/// Why a message could not be sent.
#[derive(Clone, Copy, Debug, PartialEq, Eq, Structural)]
pub enum NoiseFailure {
    /// No handshake could be set up.
    Init,
    /// The first message of a handshake could not be written.
    Write,
    /// The session could not seal the message.
    Encrypt,
}

/// What became of a message to be sent.
pub enum OutgoingView {
    Ready { packet: Seq<u8> },
    HandshakeStarted { packet: Seq<u8> },
    Queued,
    Error(NoiseFailure),
}

/// What a written handshake message left behind. It holds a fresh key, so
/// that is up to chance.
pub struct Written {
    pub state: HandshakeState,
    pub bytes: Seq<u8>,
}

/// Whether writing a payload can have this outcome.
pub open spec fn possible(h: HandshakeState, payload: Seq<u8>, w: Option<Written>) -> bool {
    &&& w matches Some(w) ==> wrote(h, payload, w.state, w.bytes)
    &&& known(handshake_stage(h).0) ==> (w is Some <==> can_write(h, payload.len()))
}

/// Whether the peer of a public key can follow the handshake that we begin.
pub open spec fn ik_starts(key: Seq<u8>, remote: Seq<u8>) -> bool {
    let h = begun_with(ik(), key, remote);
    &&& handshake_stage(h) == (ik(), true, 0nat)
    &&& own_static(h) == public_key(key)
    &&& forall|k: Seq<u8>|
        k.len() == 32 && remote == public_key(k) ==> in_step(h, #[trigger] awaited(ik(), k))
}

/// Whether every peer can follow the handshake that we begin.
pub open spec fn xx_starts(key: Seq<u8>) -> bool {
    let h = begun(xx(), key);
    &&& handshake_stage(h) == (xx(), true, 0nat)
    &&& own_static(h) == public_key(key)
    &&& forall|k: Seq<u8>| k.len() == 32 ==> in_step(h, #[trigger] awaited(xx(), k))
}

/// A key of 32 bytes.
pub open spec fn seq_to_32(s: Seq<u8>) -> [u8; 32] {
    choose|a: [u8; 32]| #[trigger] a@ == s
}

/// The static key of the other side, where it is known and well formed.
pub open spec fn remote_key(h: HandshakeState) -> Option<[u8; 32]> {
    match remote_static(h) {
        Some(k) => if k.len() == 32 {
            Some(seq_to_32(k))
        } else {
            None
        },
        None => None,
    }
}

/// The digest under which a first packet is remembered. Its type counts.
pub open spec fn packet_digest(kind: u8, data: Seq<u8>) -> PacketDigest {
    PacketDigest { bytes: seq_to_32(blake3_digest(seq![kind] + data)) }
}

// ---------------------------------------------------------------------------
// Cookies
// ---------------------------------------------------------------------------
/// Keeps these digests apart from all others: "ember-xx-retry-cookie-v1".
pub open spec fn cookie_domain() -> Seq<u8> {
    seq![
        0x65u8, 0x6d, 0x62, 0x65, 0x72, 0x2d, 0x78, 0x78, 0x2d, 0x72, 0x65, 0x74, 0x72, 0x79, 0x2d,
        0x63, 0x6f, 0x6f, 0x6b, 0x69, 0x65, 0x2d, 0x76, 0x31,
    ]
}

/// A number as so many bytes, the most significant first.
pub open spec fn be_bytes(x: u128, n: nat) -> Seq<u8>
    decreases n,
{
    if n == 0 {
        Seq::empty()
    } else {
        be_bytes(x / 256, (n - 1) as nat).push((x % 256) as u8)
    }
}

/// An address with its family in front.
pub open spec fn tagged_ip(ip: IpAddr) -> Seq<u8> {
    match ip {
        IpAddr::V4(a) => seq![4u8, a.octet(0), a.octet(1), a.octet(2), a.octet(3)],
        IpAddr::V6(x) => seq![6u8] + be_bytes(x, 16),
    }
}

pub open spec fn cookie_input(addr: SocketAddr) -> Seq<u8> {
    cookie_domain() + tagged_ip(addr.ip) + seq![
        (addr.port / 256) as u8,
        (addr.port % 256) as u8,
    ]
}

/// The cookie of an address under a secret.
pub open spec fn cookie_for(secret: [u8; 32], addr: SocketAddr) -> Seq<u8> {
    blake3_keyed(secret@, cookie_input(addr)).take(XX_COOKIE_LEN as int)
}

// ---------------------------------------------------------------------------
// The state
// ---------------------------------------------------------------------------
pub struct EmberView {
    pub key: [u8; 32],
    pub public: [u8; 32],
    pub sessions: Map<SocketAddr, NoiseSession>,
    pub pending: Map<SocketAddr, PendingView>,
    pub recent: Map<PacketDigest, RecentView>,
    pub deferred: Map<Claim, DeferredView>,
    pub shadows: Map<Claim, NoiseSession>,
    pub secret: [u8; 32],
    pub prev_secret: [u8; 32],
    pub rotated_at: u64,
    pub tokens: u32,
    pub refilled_at: u64,
}

impl EmberView {
    /// Every table keeps within its bound.
    pub open spec fn wf(self) -> bool {
        &&& self.sessions.dom().finite() && self.sessions.dom().len() <= MAX_SESSIONS
        &&& self.pending.dom().finite() && self.pending.dom().len() <= MAX_PENDING
        &&& self.recent.dom().finite() && self.recent.dom().len() <= MAX_REPLAY_DIGESTS
        &&& self.deferred.dom().finite() && self.deferred.dom().len() <= MAX_DEFERRED_IK_PAYLOADS
        &&& self.shadows.dom().finite() && self.shadows.dom().len() <= MAX_SHADOW_SESSIONS
        &&& self.tokens <= XX_UNVALIDATED_MSG2_BURST
        &&& forall|a: SocketAddr| #[trigger] self.pending.contains_key(a) ==> self.pending[a].wf()
    }

    // -- Budget ------------------------------------------------------------
    /// Answers earned since the last time that some were.
    pub open spec fn earned(self, now: u64) -> int {
        elapsed(self.refilled_at, now) * XX_UNVALIDATED_MSG2_PER_SEC / 1000
    }

    /// The budget with what was earned. Less than a whole answer is kept for later.
    pub open spec fn refilled(self, now: u64) -> EmberView {
        let n = self.earned(now);
        if n == 0 {
            self
        } else {
            EmberView {
                tokens: if self.tokens + n > XX_UNVALIDATED_MSG2_BURST {
                    XX_UNVALIDATED_MSG2_BURST
                } else {
                    (self.tokens + n) as u32
                },
                refilled_at: now,
                ..self
            }
        }
    }

    pub open spec fn spent(self) -> EmberView {
        EmberView {
            tokens: if self.tokens == 0 {
                0
            } else {
                (self.tokens - 1) as u32
            },
            ..self
        }
    }

    // -- Cookies -----------------------------------------------------------
    /// The secrets after a turn, if one is due. `fresh` and `fresh_prev` are
    /// new ones; a secret that was not used for two turns is not kept.
    pub open spec fn rotated(self, now: u64, fresh: [u8; 32], fresh_prev: [u8; 32]) -> EmberView {
        let e = elapsed(self.rotated_at, now);
        if e < XX_COOKIE_ROTATION_MS {
            self
        } else {
            EmberView {
                secret: fresh,
                prev_secret: if e < 2 * XX_COOKIE_ROTATION_MS {
                    self.secret
                } else {
                    fresh_prev
                },
                rotated_at: now,
                ..self
            }
        }
    }

    /// Whether these bytes are a cookie that the address was given.
    pub open spec fn honours(self, from: SocketAddr, cookie: Seq<u8>) -> bool {
        cookie.len() == XX_COOKIE_LEN && (cookie == cookie_for(self.secret, from) || cookie
            == cookie_for(self.prev_secret, from))
    }

    pub open spec fn cookie_packet(self, from: SocketAddr) -> Seq<u8> {
        packet(PKT_XX_COOKIE, cookie_for(self.secret, from))
    }

    // -- First packets -----------------------------------------------------
    /// Whether a first packet was seen lately.
    pub open spec fn seen(self, d: PacketDigest, now: u64) -> bool {
        self.recent.contains_key(d) && elapsed(self.recent[d].seen_at, now)
            < HANDSHAKE_REPLAY_TTL_MS
    }

    /// The answer that a repeated first packet gets: the one that it got
    /// before, and only if it comes from where it came.
    pub open spec fn cached(self, d: PacketDigest, from: SocketAddr) -> Option<Seq<u8>> {
        if self.recent[d].from == from {
            self.recent[d].response
        } else {
            None
        }
    }

    pub open spec fn remembered(self, d: PacketDigest, from: SocketAddr, now: u64) -> EmberView {
        EmberView {
            recent: with_room(
                self.recent,
                recent_stamps(self.recent),
                MAX_REPLAY_DIGESTS as nat,
            ).insert(d, RecentView { seen_at: now, from, response: None }),
            ..self
        }
    }

    pub open spec fn answered(self, d: PacketDigest, response: Seq<u8>) -> EmberView {
        if self.recent.contains_key(d) {
            EmberView {
                recent: self.recent.insert(
                    d,
                    RecentView { response: Some(response), ..self.recent[d] },
                ),
                ..self
            }
        } else {
            self
        }
    }

    // -- Sessions ----------------------------------------------------------
    /// Whether we have begun a handshake with an address.
    pub open spec fn dialling(self, a: SocketAddr) -> bool {
        self.pending.contains_key(a) && !(self.pending[a] is XxResponderMsg2)
    }

    /// Whether a proven session of another key holds the address.
    pub open spec fn held_by_other(self, a: SocketAddr, key: [u8; 32]) -> bool {
        self.sessions.contains_key(a) && self.sessions[a].remote_noise_pub != key
            && self.sessions[a].addr_validated
    }

    pub open spec fn shadows_trimmed(self, a: SocketAddr) -> EmberView {
        EmberView {
            shadows: self.shadows.restrict(
                trimmed(
                    stamps(self.shadows),
                    a,
                    MAX_SHADOW_SESSIONS_PER_ADDR as nat,
                    MAX_SHADOW_SESSIONS as nat,
                ).dom(),
            ),
            ..self
        }
    }

    pub open spec fn deferred_trimmed(self, a: SocketAddr) -> EmberView {
        EmberView {
            deferred: self.deferred.restrict(
                trimmed(
                    deferred_stamps(self.deferred),
                    a,
                    MAX_DEFERRED_IK_PAYLOADS_PER_ADDR as nat,
                    MAX_DEFERRED_IK_PAYLOADS as nat,
                ).dom(),
            ),
            ..self
        }
    }

    /// The oldest session gone, if there are as many as there may be.
    pub open spec fn session_room(self) -> EmberView {
        EmberView {
            sessions: with_room(self.sessions, stamps(self.sessions), MAX_SESSIONS as nat),
            ..self
        }
    }

    /// A session put in place. One of another key that held the place is kept
    /// aside, until a frame of its own proves it.
    pub open spec fn installed(self, a: SocketAddr, s: NoiseSession) -> EmberView {
        let v = if self.sessions.contains_key(a) {
            self
        } else {
            self.session_room()
        };
        let cleared = v.shadows.remove(Claim { addr: a, key: s.remote_noise_pub });
        let w = EmberView { sessions: v.sessions.insert(a, s), shadows: cleared, ..v };
        if v.sessions.contains_key(a) && v.sessions[a].remote_noise_pub != s.remote_noise_pub {
            EmberView {
                shadows: cleared.insert(
                    Claim { addr: a, key: v.sessions[a].remote_noise_pub },
                    v.sessions[a],
                ),
                ..w
            }.shadows_trimmed(a)
        } else {
            w
        }
    }

    /// A session from a finished handshake.
    pub open spec fn completed(self, a: SocketAddr, s: NoiseSession) -> EmberView {
        self.session_room().installed(a, s)
    }

    pub open spec fn without_pending(self, a: SocketAddr) -> EmberView {
        EmberView { pending: self.pending.remove(a), ..self }
    }

    pub open spec fn with_pending(self, a: SocketAddr, p: PendingView) -> EmberView {
        EmberView { pending: self.pending.insert(a, p), ..self }
    }

    pub open spec fn pending_room(self) -> EmberView {
        EmberView {
            pending: with_room(self.pending, pending_stamps(self.pending), MAX_PENDING as nat),
            ..self
        }
    }

    // -- Handshakes with a known key ---------------------------------------
    /// A first message that could be read, and the answer to it. Nothing shows
    /// yet that its sender receives at its address, so what it asks for waits,
    /// and a probe goes out with the answer.
    pub open spec fn ik_accepted(
        self,
        from: SocketAddr,
        d: PacketDigest,
        payload: Seq<u8>,
        w: Written,
        probe: u64,
        now: u64,
    ) -> (EmberView, IncomingView) {
        match (remote_key(w.state), transport_of(w.state)) {
            (Some(key), Some(t)) => if self.held_by_other(from, key) {
                (self, IncomingView::Rejected)
            } else {
                let answer = packet(PKT_IK_RESP, w.bytes);
                let claim = Claim { addr: from, key };
                let s = NoiseSession::fresh(t, key, true, false, now);
                let v = self.without_pending(from).answered(d, answer);
                let cleared = EmberView { deferred: v.deferred.remove(claim), ..v };
                if payload.len() == 0 {
                    (
                        cleared.completed(from, s),
                        IncomingView::HandshakeComplete {
                            peer: from,
                            remote_noise_pub: key,
                            packets_to_send: seq![answer],
                            decrypted_payload: None,
                        },
                    )
                } else {
                    let waiting = EmberView {
                        deferred: cleared.deferred.insert(
                            claim,
                            DeferredView { payload, stored: now },
                        ),
                        ..cleared
                    }.deferred_trimmed(from);
                    let (probed, frame) = s.sent(enc_control(ControlView::Ping { nonce: probe }));
                    (
                        waiting.completed(
                            from,
                            match frame {
                                Some(_) => NoiseSession { probe_nonce: Some(probe), ..probed },
                                None => probed,
                            },
                        ),
                        IncomingView::HandshakeComplete {
                            peer: from,
                            remote_noise_pub: key,
                            packets_to_send: match frame {
                                Some(f) => seq![answer, f],
                                None => seq![answer],
                            },
                            decrypted_payload: None,
                        },
                    )
                }
            },
            _ => (self, IncomingView::Rejected),
        }
    }

    /// The answer to a repeated first packet.
    pub open spec fn again(self, d: PacketDigest, from: SocketAddr) -> IncomingView {
        match self.cached(d, from) {
            Some(p) => IncomingView::HandshakeResponse { to: from, packets: seq![p] },
            None => IncomingView::Rejected,
        }
    }

    /// The first message of a peer that knows our key.
    pub open spec fn after_ik_init(
        self,
        from: SocketAddr,
        data: Seq<u8>,
        now: u64,
        w: Option<Written>,
        probe: u64,
    ) -> (EmberView, IncomingView) {
        let d = packet_digest(PKT_IK_INIT, data);
        if self.dialling(from) {
            (self, IncomingView::Rejected)
        } else if self.seen(d, now) {
            (self, self.again(d, from))
        } else {
            let v = self.remembered(d, from, now);
            match (heard(awaited(ik(), self.key@), data).1, w) {
                (Some(payload), Some(w)) => v.ik_accepted(from, d, payload, w, probe, now),
                _ => (v, IncomingView::Rejected),
            }
        }
    }

    /// The outcomes that answering such a message can have, where it is answered.
    pub open spec fn ik_init_writes(
        self,
        from: SocketAddr,
        data: Seq<u8>,
        now: u64,
        w: Option<Written>,
    ) -> bool {
        let (h, payload) = heard(awaited(ik(), self.key@), data);
        !self.dialling(from) && !self.seen(packet_digest(PKT_IK_INIT, data), now) && payload is Some
            ==> possible(h, Seq::empty(), w) && handshake_stage(h) == (ik(), false, 1nat)
            && own_static(h) == public_key(self.key@)
    }

    /// A handshake that we began is done: what waited for it goes out.
    pub open spec fn initiated(
        self,
        from: SocketAddr,
        state: HandshakeState,
        ik_authenticated: bool,
        first: Seq<Seq<u8>>,
        queued: Seq<Seq<u8>>,
        payload: Option<Seq<u8>>,
        now: u64,
    ) -> (EmberView, IncomingView) {
        match (remote_key(state), transport_of(state)) {
            (Some(key), Some(t)) => if self.held_by_other(from, key) {
                (self, IncomingView::Rejected)
            } else {
                let (s, frames) = NoiseSession::fresh(t, key, ik_authenticated, true, now).sent_all(
                    queued,
                );
                (
                    self.completed(from, s),
                    IncomingView::HandshakeComplete {
                        peer: from,
                        remote_noise_pub: key,
                        packets_to_send: first + frames,
                        decrypted_payload: payload,
                    },
                )
            },
            _ => (self, IncomingView::Rejected),
        }
    }

    /// The answer to a first message of ours.
    pub open spec fn after_ik_resp(self, from: SocketAddr, data: Seq<u8>, now: u64) -> (
        EmberView,
        IncomingView,
    ) {
        if !self.pending.contains_key(from) {
            (self, IncomingView::Rejected)
        } else {
            match self.pending[from] {
                PendingView::IkInitiator { state, queued, created } => {
                    let (next, payload) = heard(state, data);
                    if payload is None {
                        (
                            self.with_pending(
                                from,
                                PendingView::IkInitiator { state: next, queued, created },
                            ),
                            IncomingView::Rejected,
                        )
                    } else {
                        self.without_pending(from).initiated(
                            from,
                            next,
                            true,
                            Seq::empty(),
                            queued,
                            None,
                            now,
                        )
                    }
                },
                _ => (self, IncomingView::Rejected),
            }
        }
    }

    /// Whether a packet of this type is what a handshake of ours waits for.
    pub open spec fn awaits_answer(self, from: SocketAddr, kind: u8) -> bool {
        self.pending.contains_key(from) && ((kind == PKT_IK_RESP
            && self.pending[from] is IkInitiator) || (kind == PKT_XX_MSG2
            && self.pending[from] is XxInitiatorMsg1))
    }

    /// Whether an answer to a first message of ours, should it be forged, leaves
    /// the handshakes that wait able to read the true one.
    pub open spec fn forgery_spoils_nothing(self, from: SocketAddr, data: Seq<u8>) -> bool {
        self.pending.contains_key(from) ==> match self.pending[from] {
            PendingView::IkInitiator { state, .. } => unharmed(state, data),
            PendingView::XxInitiatorMsg1 { state, prior, .. } => {
                &&& unharmed(state, data)
                &&& heard(state, data).1 is None ==> (prior matches Some(p) ==> unharmed(p, data))
            },
            PendingView::XxResponderMsg2 { .. } => true,
        }
    }

    // -- Handshakes with an unknown key ------------------------------------
    /// A first message that is answered with the second one.
    pub open spec fn xx_answered(
        self,
        from: SocketAddr,
        d: PacketDigest,
        w: Written,
        proven: bool,
        now: u64,
    ) -> (EmberView, IncomingView) {
        let answer = packet(PKT_XX_MSG2, w.bytes);
        let v = self.pending_room().with_pending(
            from,
            PendingView::XxResponderMsg2 { state: w.state, queued: Seq::empty(), created: now },
        ).answered(d, answer);
        (
            if proven {
                v
            } else {
                v.spent()
            },
            IncomingView::HandshakeResponse { to: from, packets: seq![answer] },
        )
    }

    /// A first message whose cookie, or whose place in the budget, is in order.
    pub open spec fn xx_admitted(
        self,
        from: SocketAddr,
        data: Seq<u8>,
        proven: bool,
        now: u64,
        w: Option<Written>,
    ) -> (EmberView, IncomingView) {
        let d = packet_digest(PKT_XX_MSG1, data);
        if self.seen(d, now) {
            (
                if self.cached(d, from) is Some && !proven {
                    self.spent()
                } else {
                    self
                },
                self.again(d, from),
            )
        } else {
            let v = self.remembered(d, from, now);
            match (heard(awaited(xx(), self.key@), data).1, w) {
                (Some(_), Some(w)) => v.xx_answered(from, d, w, proven, now),
                _ => (v, IncomingView::Rejected),
            }
        }
    }

    /// Whether a first message is let in, and whether with a cookie. `fresh`
    /// and `fresh_prev` are new cookie secrets, should a turn be due.
    pub open spec fn xx_gate(
        self,
        from: SocketAddr,
        data: Seq<u8>,
        now: u64,
        fresh: [u8; 32],
        fresh_prev: [u8; 32],
    ) -> (EmberView, Option<bool>) {
        let cookie = data.skip(XX_MSG1_EPHEMERAL_LEN as int);
        let v = if cookie.len() == XX_COOKIE_LEN {
            self.rotated(now, fresh, fresh_prev)
        } else {
            self
        };
        if v.honours(from, cookie) {
            (v, Some(true))
        } else if v.refilled(now).tokens > 0 {
            (v.refilled(now), Some(false))
        } else {
            (v.refilled(now).rotated(now, fresh, fresh_prev), None)
        }
    }

    /// The first message of a peer that does not know our key.
    pub open spec fn after_xx_msg1(
        self,
        from: SocketAddr,
        data: Seq<u8>,
        now: u64,
        fresh: [u8; 32],
        fresh_prev: [u8; 32],
        w: Option<Written>,
    ) -> (EmberView, IncomingView) {
        if self.dialling(from) || data.len() < XX_MSG1_EPHEMERAL_LEN {
            (self, IncomingView::Rejected)
        } else {
            match self.xx_gate(from, data, now, fresh, fresh_prev) {
                (v, Some(proven)) => v.xx_admitted(from, data, proven, now, w),
                (v, None) => (
                    v,
                    IncomingView::HandshakeResponse {
                        to: from,
                        packets: seq![v.cookie_packet(from)],
                    },
                ),
            }
        }
    }

    /// The outcomes that answering such a message can have, where it is answered.
    pub open spec fn xx_msg1_writes(
        self,
        from: SocketAddr,
        data: Seq<u8>,
        now: u64,
        fresh: [u8; 32],
        fresh_prev: [u8; 32],
        w: Option<Written>,
    ) -> bool {
        let (h, payload) = heard(awaited(xx(), self.key@), data);
        !self.dialling(from) && data.len() >= XX_MSG1_EPHEMERAL_LEN && self.xx_gate(
            from,
            data,
            now,
            fresh,
            fresh_prev,
        ).1 is Some && !self.seen(packet_digest(PKT_XX_MSG1, data), now) && payload is Some
            ==> possible(h, Seq::empty(), w) && handshake_stage(h) == (xx(), false, 1nat)
            && own_static(h) == public_key(self.key@)
    }

    /// A cookie for a handshake of ours: the first message goes out again with
    /// it. The packet proves nothing, so the handshake it replaces is kept, and
    /// one handshake follows one cookie only.
    pub open spec fn after_xx_cookie(
        self,
        from: SocketAddr,
        data: Seq<u8>,
        now: u64,
        w: Option<Written>,
    ) -> (EmberView, IncomingView) {
        if data.len() != XX_COOKIE_LEN || !self.pending.contains_key(from) {
            (self, IncomingView::Rejected)
        } else {
            match (self.pending[from], w) {
                (
                    PendingView::XxInitiatorMsg1 { state, prior, queued, created, cookie_retried },
                    Some(w),
                ) => if cookie_retried {
                    (self, IncomingView::Rejected)
                } else {
                    (
                        self.with_pending(
                            from,
                            PendingView::XxInitiatorMsg1 {
                                state: w.state,
                                prior: Some(
                                    match prior {
                                        Some(p) => p,
                                        None => state,
                                    },
                                ),
                                queued,
                                created: now,
                                cookie_retried: true,
                            },
                        ),
                        IncomingView::HandshakeResponse {
                            to: from,
                            packets: seq![packet(PKT_XX_MSG1, w.bytes)],
                        },
                    )
                },
                _ => (self, IncomingView::Rejected),
            }
        }
    }

    /// What can have been written for a cookie: the first message of a new
    /// handshake, with the cookie in it.
    pub open spec fn xx_cookie_writes(
        self,
        from: SocketAddr,
        data: Seq<u8>,
        w: Option<Written>,
    ) -> bool {
        data.len() == XX_COOKIE_LEN && self.pending.contains_key(from) && (self.pending[from]
            matches PendingView::XxInitiatorMsg1 { cookie_retried, .. } && !cookie_retried)
            ==> possible(begun(xx(), self.key@), data, w) && xx_starts(self.key@)
    }

    /// The handshake that reads a second message, of the two that may wait for
    /// it; none if neither does.
    pub open spec fn xx_reader(
        state: HandshakeState,
        prior: Option<HandshakeState>,
        data: Seq<u8>,
    ) -> Option<HandshakeState> {
        if heard(state, data).1 is Some {
            Some(heard(state, data).0)
        } else {
            match prior {
                Some(p) => if heard(p, data).1 is Some {
                    Some(heard(p, data).0)
                } else {
                    None
                },
                None => None,
            }
        }
    }

    /// The second message of a handshake that we began.
    pub open spec fn after_xx_msg2(
        self,
        from: SocketAddr,
        data: Seq<u8>,
        now: u64,
        w: Option<Written>,
    ) -> (EmberView, IncomingView) {
        if !self.pending.contains_key(from) {
            (self, IncomingView::Rejected)
        } else {
            match self.pending[from] {
                PendingView::XxInitiatorMsg1 { state, prior, queued, created, cookie_retried } =>
                    match EmberView::xx_reader(state, prior, data) {
                        None => (
                            self.with_pending(
                                from,
                                PendingView::XxInitiatorMsg1 {
                                    state: heard(state, data).0,
                                    prior: match prior {
                                        Some(p) => Some(heard(p, data).0),
                                        None => None,
                                    },
                                    queued,
                                    created,
                                    cookie_retried,
                                },
                            ),
                            IncomingView::Rejected,
                        ),
                        Some(_) => match w {
                            None => (self.without_pending(from), IncomingView::Rejected),
                            Some(w) => self.without_pending(from).initiated(
                                from,
                                w.state,
                                false,
                                seq![packet(PKT_XX_MSG3, w.bytes)],
                                if queued.len() == 0 {
                                    queued
                                } else {
                                    queued.skip(1)
                                },
                                None,
                                now,
                            ),
                        },
                    },
                _ => (self, IncomingView::Rejected),
            }
        }
    }

    /// The third message carries the first of the messages that wait.
    pub open spec fn xx_msg2_writes(self, from: SocketAddr, data: Seq<u8>, w: Option<Written>) -> bool {
        self.pending.contains_key(from) ==> match self.pending[from] {
            PendingView::XxInitiatorMsg1 { state, prior, queued, .. } => match EmberView::xx_reader(
                state,
                prior,
                data,
            ) {
                Some(h) => {
                    &&& possible(
                        h,
                        if queued.len() == 0 {
                            Seq::empty()
                        } else {
                            queued[0]
                        },
                        w,
                    )
                    &&& handshake_stage(h) == (xx(), true, 2nat)
                    &&& heard(state, data).1 is Some ==> own_static(h) == own_static(state)
                },
                None => true,
            },
            _ => true,
        }
    }

    /// The third message of a handshake that the peer began.
    pub open spec fn after_xx_msg3(self, from: SocketAddr, data: Seq<u8>, now: u64) -> (
        EmberView,
        IncomingView,
    ) {
        if !self.pending.contains_key(from) {
            (self, IncomingView::Rejected)
        } else {
            match self.pending[from] {
                PendingView::XxResponderMsg2 { state, queued, created } => {
                    let (next, payload) = heard(state, data);
                    match payload {
                        None => (
                            self.with_pending(
                                from,
                                PendingView::XxResponderMsg2 { state: next, queued, created },
                            ),
                            IncomingView::Rejected,
                        ),
                        Some(p) => self.without_pending(from).initiated(
                            from,
                            next,
                            false,
                            Seq::empty(),
                            queued,
                            if p.len() > 0 {
                                Some(p)
                            } else {
                                None
                            },
                            now,
                        ),
                    }
                },
                _ => (self, IncomingView::Rejected),
            }
        }
    }

    // -- Frames ------------------------------------------------------------
    /// Whether a session that was set aside opens a frame.
    pub open spec fn shadow_opens(self, c: Claim, from: SocketAddr, nonce: u64, bytes: Seq<u8>) -> bool {
        self.shadows.contains_key(c) && c.addr == from && self.shadows[c].opens(nonce, bytes)
            is Some
    }

    /// Of the sessions set aside that open a frame, the one whose key ranks first.
    pub open spec fn is_opener(self, c: Claim, from: SocketAddr, nonce: u64, bytes: Seq<u8>) -> bool {
        &&& self.shadow_opens(c, from, nonce, bytes)
        &&& forall|o: Claim| #[trigger]
            self.shadow_opens(o, from, nonce, bytes) ==> c.rank() <= o.rank()
    }

    pub open spec fn shadow_opener(self, from: SocketAddr, nonce: u64, bytes: Seq<u8>) -> Option<Claim> {
        if exists|c: Claim| self.is_opener(c, from, nonce, bytes) {
            Some(choose|c: Claim| self.is_opener(c, from, nonce, bytes))
        } else {
            None
        }
    }

    /// A frame for the sessions set aside: one that opens it is proven, and
    /// takes its place back.
    pub open spec fn after_shadow_frame(
        self,
        from: SocketAddr,
        nonce: u64,
        bytes: Seq<u8>,
        now: u64,
    ) -> (EmberView, IncomingView) {
        match self.shadow_opener(from, nonce, bytes) {
            Some(c) => {
                let s = self.shadows[c];
                (
                    EmberView { shadows: self.shadows.remove(c), ..self }.installed(
                        from,
                        s.after_opened(nonce, now),
                    ),
                    IncomingView::Message {
                        from,
                        remote_noise_pub: s.remote_noise_pub,
                        payload: s.opens(nonce, bytes)->Some_0,
                    },
                )
            },
            None => (self, IncomingView::Rejected),
        }
    }

    /// A frame: its nonce, and what is sealed.
    pub open spec fn after_frame(self, from: SocketAddr, data: Seq<u8>, now: u64) -> (
        EmberView,
        IncomingView,
    ) {
        if data.len() < 8 {
            (self, IncomingView::Rejected)
        } else {
            let nonce = crate::bytes::from_le64(data);
            let bytes = data.skip(8);
            if self.sessions.contains_key(from) && self.sessions[from].opens(nonce, bytes)
                is Some {
                let s = self.sessions[from];
                (
                    EmberView {
                        sessions: self.sessions.insert(from, s.after_opened(nonce, now)),
                        ..self
                    },
                    IncomingView::Message {
                        from,
                        remote_noise_pub: s.remote_noise_pub,
                        payload: s.opens(nonce, bytes)->Some_0,
                    },
                )
            } else {
                self.after_shadow_frame(from, nonce, bytes, now)
            }
        }
    }
}

/// What is up to chance when a packet comes in: new cookie secrets, a written
/// handshake message, and the nonce of a probe.
pub struct Luck {
    pub fresh: [u8; 32],
    pub fresh_prev: [u8; 32],
    pub written: Option<Written>,
    pub probe: u64,
}

/// Everything that a packet gave rise to.
pub struct OutcomeView {
    pub responses: Seq<Seq<u8>>,
    pub controls: Seq<ControlView>,
    pub app_payloads: Seq<Seq<u8>>,
    pub remote_noise_pub: Option<[u8; 32]>,
    pub rejected: bool,
}

impl OutcomeView {
    pub open spec fn nothing() -> OutcomeView {
        OutcomeView {
            responses: Seq::empty(),
            controls: Seq::empty(),
            app_payloads: Seq::empty(),
            remote_noise_pub: None,
            rejected: false,
        }
    }
}

/// Whether a packet has the overlay's magic and is not too long to look at.
pub open spec fn is_framed(data: Seq<u8>) -> bool {
    HEADER_LEN <= data.len() <= MAX_EMBER_DATAGRAM_BYTES && data[0] == 0xEB && data[1] == 0x3E
}

impl EmberView {
    /// What a packet does, and what becomes of it.
    pub open spec fn after_packet(self, data: Seq<u8>, from: SocketAddr, now: u64, luck: Luck) -> (
        EmberView,
        IncomingView,
    ) {
        let body = data.skip(HEADER_LEN as int);
        if !is_framed(data) {
            (self, IncomingView::Rejected)
        } else if data[2] == PKT_IK_INIT {
            self.after_ik_init(from, body, now, luck.written, luck.probe)
        } else if data[2] == PKT_IK_RESP {
            self.after_ik_resp(from, body, now)
        } else if data[2] == PKT_XX_MSG1 {
            self.after_xx_msg1(from, body, now, luck.fresh, luck.fresh_prev, luck.written)
        } else if data[2] == PKT_XX_MSG2 {
            self.after_xx_msg2(from, body, now, luck.written)
        } else if data[2] == PKT_XX_MSG3 {
            self.after_xx_msg3(from, body, now)
        } else if data[2] == PKT_XX_COOKIE {
            self.after_xx_cookie(from, body, now, luck.written)
        } else if data[2] == PKT_TRANSPORT {
            self.after_frame(from, body, now)
        } else {
            (self, IncomingView::Rejected)
        }
    }

    /// What can have been written for a packet.
    pub open spec fn writes(self, data: Seq<u8>, from: SocketAddr, now: u64, luck: Luck) -> bool {
        let body = data.skip(HEADER_LEN as int);
        let w = luck.written;
        is_framed(data) ==> if data[2] == PKT_IK_INIT {
            self.ik_init_writes(from, body, now, w)
        } else if data[2] == PKT_XX_MSG1 {
            self.xx_msg1_writes(from, body, now, luck.fresh, luck.fresh_prev, w)
        } else if data[2] == PKT_XX_MSG2 {
            self.xx_msg2_writes(from, body, w)
        } else if data[2] == PKT_XX_COOKIE {
            self.xx_cookie_writes(from, body, w)
        } else {
            true
        }
    }

    // -- Sending -----------------------------------------------------------
    /// Whether the session at an address has proven nothing and is not that of
    /// the key that we want to reach.
    pub open spec fn squatted(self, peer: SocketAddr, want: Option<[u8; 32]>) -> bool {
        match want {
            Some(key) => self.sessions.contains_key(peer) && !self.sessions[peer].addr_validated
                && self.sessions[peer].remote_noise_pub != key,
            None => false,
        }
    }

    pub open spec fn unsquatted(self, peer: SocketAddr, want: Option<[u8; 32]>) -> EmberView {
        if self.squatted(peer, want) {
            EmberView {
                sessions: self.sessions.remove(peer),
                deferred: self.deferred.remove(
                    Claim { addr: peer, key: self.sessions[peer].remote_noise_pub },
                ),
                ..self
            }
        } else {
            self
        }
    }

    /// Whether a message to a peer begins a handshake.
    pub open spec fn begins(self, peer: SocketAddr, want: Option<[u8; 32]>) -> bool {
        let v = self.unsquatted(peer, want);
        !v.sessions.contains_key(peer) && !v.pending.contains_key(peer)
    }

    /// A message put into a queue. A full one loses its oldest message.
    pub open spec fn queued_with(q: Seq<Seq<u8>>, message: Seq<u8>) -> Seq<Seq<u8>> {
        if q.len() >= MAX_QUEUED_PER_HANDSHAKE {
            q.skip(1).push(message)
        } else {
            q.push(message)
        }
    }

    pub open spec fn began(
        self,
        peer: SocketAddr,
        want: Option<[u8; 32]>,
        message: Seq<u8>,
        now: u64,
        w: Option<Written>,
    ) -> (EmberView, OutgoingView) {
        match (w, want) {
            (None, _) => (self, OutgoingView::Error(NoiseFailure::Write)),
            (Some(w), Some(_)) => (
                self.with_pending(
                    peer,
                    PendingView::IkInitiator {
                        state: w.state,
                        queued: Seq::empty(),
                        created: now,
                    },
                ),
                OutgoingView::HandshakeStarted { packet: packet(PKT_IK_INIT, w.bytes) },
            ),
            (Some(w), None) => (
                self.with_pending(
                    peer,
                    PendingView::XxInitiatorMsg1 {
                        state: w.state,
                        prior: None,
                        queued: seq![message],
                        created: now,
                        cookie_retried: false,
                    },
                ),
                OutgoingView::HandshakeStarted { packet: packet(PKT_XX_MSG1, w.bytes) },
            ),
        }
    }

    /// What a message to a peer does: it goes out on the session that there is,
    /// waits for the handshake under way, or begins one.
    pub open spec fn after_outgoing(
        self,
        peer: SocketAddr,
        want: Option<[u8; 32]>,
        message: Seq<u8>,
        now: u64,
        w: Option<Written>,
    ) -> (EmberView, OutgoingView) {
        let v = self.unsquatted(peer, want);
        if v.sessions.contains_key(peer) {
            let (s, frame) = NoiseSession { last_activity: now, ..v.sessions[peer] }.sent(message);
            match frame {
                Some(f) => (
                    EmberView { sessions: v.sessions.insert(peer, s), ..v },
                    OutgoingView::Ready { packet: f },
                ),
                None => (
                    EmberView { sessions: v.sessions.remove(peer), ..v },
                    OutgoingView::Error(NoiseFailure::Encrypt),
                ),
            }
        } else if v.pending.contains_key(peer) {
            let p = v.pending[peer];
            (
                v.with_pending(
                    peer,
                    p.with_queue(EmberView::queued_with(p.queued(), message)),
                ),
                OutgoingView::Queued,
            )
        } else {
            v.pending_room().began(peer, want, message, now, w)
        }
    }

    /// What can have been written to begin a handshake: the message itself for
    /// a peer whose key is known, nothing for another.
    pub open spec fn outgoing_writes(
        self,
        peer: SocketAddr,
        want: Option<[u8; 32]>,
        message: Seq<u8>,
        w: Option<Written>,
    ) -> bool {
        self.begins(peer, want) ==> match want {
            Some(key) => possible(begun_with(ik(), self.key@, key@), message, w) && ik_starts(
                self.key@,
                key@,
            ),
            None => possible(begun(xx(), self.key@), Seq::empty(), w) && xx_starts(self.key@),
        }
    }

    // -- Dispatch ----------------------------------------------------------
    /// The request that waited for a peer to prove its address.
    pub open spec fn released(self, from: SocketAddr, key: [u8; 32], now: u64) -> (
        EmberView,
        Option<Seq<u8>>,
    ) {
        let c = Claim { addr: from, key };
        (
            EmberView { deferred: self.deferred.remove(c), ..self },
            if self.deferred.contains_key(c) && elapsed(self.deferred[c].stored, now)
                < DEFERRED_IK_PAYLOAD_TTL_MS {
                Some(self.deferred[c].payload)
            } else {
                None
            },
        )
    }

    /// Whether a payload answers our probe. If so, none is expected any more.
    pub open spec fn probe_answered(self, from: SocketAddr, payload: Seq<u8>) -> (EmberView, bool) {
        if self.sessions.contains_key(from) && self.sessions[from].probe_nonce is Some
            && dec_control(payload) == Some(
            ControlView::Pong { nonce: self.sessions[from].probe_nonce->Some_0 },
        ) {
            (
                EmberView {
                    sessions: self.sessions.insert(
                        from,
                        NoiseSession { probe_nonce: None, ..self.sessions[from] },
                    ),
                    ..self
                },
                true,
            )
        } else {
            (self, false)
        }
    }

    /// A payload handed up: a control message, which is answered if it is a
    /// ping, or something of the layer above.
    pub open spec fn surfaced(
        self,
        o: OutcomeView,
        from: SocketAddr,
        payload: Seq<u8>,
        now: u64,
        w: Option<Written>,
    ) -> (EmberView, OutcomeView) {
        match dec_control(payload) {
            None => (self, OutcomeView { app_payloads: o.app_payloads.push(payload), ..o }),
            Some(m) => {
                let q = OutcomeView { controls: o.controls.push(m), ..o };
                match m {
                    ControlView::Ping { nonce } => {
                        let (v, r) = self.after_outgoing(
                            from,
                            None,
                            enc_control(ControlView::Pong { nonce }),
                            now,
                            w,
                        );
                        (
                            v,
                            match r {
                                OutgoingView::Ready { packet } => OutcomeView {
                                    responses: q.responses.push(packet),
                                    ..q
                                },
                                _ => q,
                            },
                        )
                    },
                    _ => (self, q),
                }
            },
        }
    }

    pub open spec fn surface_writes(self, from: SocketAddr, payload: Seq<u8>, w: Option<Written>) -> bool {
        match dec_control(payload) {
            Some(ControlView::Ping { nonce }) => self.outgoing_writes(
                from,
                None,
                enc_control(ControlView::Pong { nonce }),
                w,
            ),
            _ => true,
        }
    }

    /// Payloads handed up in the order in which they were sent: the request
    /// that waited, and the one that came now, unless it answers our probe.
    pub open spec fn delivered(
        self,
        o: OutcomeView,
        from: SocketAddr,
        waited: Option<Seq<u8>>,
        payload: Seq<u8>,
        now: u64,
        w1: Option<Written>,
        w2: Option<Written>,
    ) -> (EmberView, OutcomeView) {
        let (v, answer) = self.probe_answered(from, payload);
        let (v1, o1) = match waited {
            Some(p) => v.surfaced(o, from, p, now, w1),
            None => (v, o),
        };
        if answer {
            (v1, o1)
        } else {
            v1.surfaced(o1, from, payload, now, w2)
        }
    }

    pub open spec fn delivery_writes(
        self,
        o: OutcomeView,
        from: SocketAddr,
        waited: Option<Seq<u8>>,
        payload: Seq<u8>,
        now: u64,
        w1: Option<Written>,
        w2: Option<Written>,
    ) -> bool {
        let (v, answer) = self.probe_answered(from, payload);
        let (v1, o1) = match waited {
            Some(p) => v.surfaced(o, from, p, now, w1),
            None => (v, o),
        };
        &&& waited matches Some(p) ==> v.surface_writes(from, p, w1)
        &&& !answer ==> v1.surface_writes(from, payload, w2)
    }

    /// What is left to do once a packet has been looked at.
    pub open spec fn dispatched(
        self,
        r: IncomingView,
        from: SocketAddr,
        now: u64,
        w1: Option<Written>,
        w2: Option<Written>,
    ) -> (EmberView, OutcomeView) {
        let o = OutcomeView::nothing();
        match r {
            IncomingView::Rejected => (self, OutcomeView { rejected: true, ..o }),
            IncomingView::HandshakeResponse { packets, .. } => (
                self,
                OutcomeView { responses: packets, ..o },
            ),
            IncomingView::Message { remote_noise_pub, payload, .. } => {
                let (v, waited) = self.released(from, remote_noise_pub, now);
                v.delivered(
                    OutcomeView { remote_noise_pub: Some(remote_noise_pub), ..o },
                    from,
                    waited,
                    payload,
                    now,
                    w1,
                    w2,
                )
            },
            IncomingView::HandshakeComplete {
                remote_noise_pub,
                packets_to_send,
                decrypted_payload,
                ..
            } => {
                let q = OutcomeView {
                    responses: packets_to_send,
                    remote_noise_pub: Some(remote_noise_pub),
                    ..o
                };
                match decrypted_payload {
                    Some(p) => self.delivered(q, from, None, p, now, w1, w2),
                    None => (self, q),
                }
            },
        }
    }

    pub open spec fn dispatch_writes(
        self,
        r: IncomingView,
        from: SocketAddr,
        now: u64,
        w1: Option<Written>,
        w2: Option<Written>,
    ) -> bool {
        let o = OutcomeView::nothing();
        match r {
            IncomingView::Message { remote_noise_pub, payload, .. } => {
                let (v, waited) = self.released(from, remote_noise_pub, now);
                v.delivery_writes(
                    OutcomeView { remote_noise_pub: Some(remote_noise_pub), ..o },
                    from,
                    waited,
                    payload,
                    now,
                    w1,
                    w2,
                )
            },
            IncomingView::HandshakeComplete {
                remote_noise_pub,
                packets_to_send,
                decrypted_payload: Some(p),
                ..
            } => self.delivery_writes(
                OutcomeView {
                    responses: packets_to_send,
                    remote_noise_pub: Some(remote_noise_pub),
                    ..o
                },
                from,
                None,
                p,
                now,
                w1,
                w2,
            ),
            _ => true,
        }
    }

    /// What a packet does, and everything that it gives rise to.
    pub open spec fn after_dispatch(
        self,
        data: Seq<u8>,
        from: SocketAddr,
        now: u64,
        luck: Luck,
        w1: Option<Written>,
        w2: Option<Written>,
    ) -> (EmberView, OutcomeView) {
        let (v, r) = self.after_packet(data, from, now, luck);
        v.dispatched(r, from, now, w1, w2)
    }

    /// What can have been written on the way.
    pub open spec fn all_writes(
        self,
        data: Seq<u8>,
        from: SocketAddr,
        now: u64,
        luck: Luck,
        w1: Option<Written>,
        w2: Option<Written>,
    ) -> bool {
        let (v, r) = self.after_packet(data, from, now, luck);
        self.writes(data, from, now, luck) && v.dispatch_writes(r, from, now, w1, w2)
    }

    // -- Cleaning ----------------------------------------------------------
    /// What is left of everything that has a time limit.
    pub open spec fn cleaned(self, now: u64) -> EmberView {
        EmberView {
            sessions: younger(self.sessions, stamps(self.sessions), now, SESSION_TIMEOUT_MS),
            shadows: younger(self.shadows, stamps(self.shadows), now, SESSION_TIMEOUT_MS),
            pending: younger(
                self.pending,
                pending_stamps(self.pending),
                now,
                PENDING_TIMEOUT_MS,
            ),
            recent: younger(
                self.recent,
                recent_stamps(self.recent),
                now,
                HANDSHAKE_REPLAY_TTL_MS,
            ),
            deferred: younger(
                self.deferred,
                deferred_stamps(self.deferred),
                now,
                DEFERRED_IK_PAYLOAD_TTL_MS,
            ),
            ..self
        }
    }

    /// Everything about an address forgotten, but for its first packets.
    pub open spec fn forgotten(self, a: SocketAddr) -> EmberView {
        EmberView {
            sessions: self.sessions.remove(a),
            shadows: self.shadows.remove_keys(Set::new(|c: Claim| c.addr == a)),
            pending: self.pending.remove(a),
            deferred: self.deferred.remove_keys(Set::new(|c: Claim| c.addr == a)),
            ..self
        }
    }

    /// Nothing left but the keys, the cookie secrets and the budget.
    pub open spec fn emptied(self) -> EmberView {
        EmberView {
            sessions: Map::empty(),
            shadows: Map::empty(),
            pending: Map::empty(),
            recent: Map::empty(),
            deferred: Map::empty(),
            ..self
        }
    }
}

} // verus!
