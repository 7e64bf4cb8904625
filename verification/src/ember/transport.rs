//! The transport of the overlay: handshakes, sessions and what they carry.
//!
//! Times are in milliseconds of a clock that does not run back.
use vstd::prelude::*;

use snow::{HandshakeState, StatelessTransportState};

use crate::bytes::{lemma_le64_round_trip, put_bytes};
use crate::clock::{elapsed, ms_since};
use crate::ember::control::{copy_from, enc_control, read_u64, ControlView, EmberControlMessage};
use crate::ember::eviction::{
    keep_younger, make_room, same_key, stamps, trim_claims, Claim, PacketDigest, Stamped,
};
use crate::ember::noise::{
    await_peer, awaited, begin, begin_with, begun, blake3_hash, blake3_keyed_hash, finish_handshake,
    get_remote_static, handshake_stage, heard, ik_name, own_static, public_key, random_u64,
    read_handshake, write_handshake, xx, xx_name, MAX_NOISE_MESSAGE,
};
use crate::ember::session::{
    bodies, make_packet, open_and_note, packet, seal_queue, total_len, NoiseSession, EMBER_MAGIC,
    PKT_TRANSPORT,
};
use crate::ember::state::{
    be_bytes, cookie_domain, cookie_for, cookie_input, deferred_stamps, is_framed, packet_digest,
    pending_stamps, possible, recent_stamps, remote_key, seq_to_32, tagged_ip, xx_starts,
    DeferredView, EmberView, IncomingView, Luck, NoiseFailure, OutcomeView, OutgoingView,
    PendingView, RecentView, Written, DEFERRED_IK_PAYLOAD_TTL_MS, HANDSHAKE_REPLAY_TTL_MS,
    HEADER_LEN, MAX_DEFERRED_IK_PAYLOADS, MAX_DEFERRED_IK_PAYLOADS_PER_ADDR,
    MAX_EMBER_DATAGRAM_BYTES, MAX_PENDING, MAX_QUEUED_PER_HANDSHAKE, MAX_REPLAY_DIGESTS,
    MAX_SESSIONS, MAX_SHADOW_SESSIONS, MAX_SHADOW_SESSIONS_PER_ADDR, PENDING_TIMEOUT_MS,
    PKT_IK_INIT, PKT_IK_RESP, PKT_XX_COOKIE, PKT_XX_MSG1, PKT_XX_MSG2, PKT_XX_MSG3,
    SESSION_TIMEOUT_MS, XX_COOKIE_LEN, XX_COOKIE_ROTATION_MS, XX_MSG1_EPHEMERAL_LEN,
    XX_UNVALIDATED_MSG2_BURST, XX_UNVALIDATED_MSG2_PER_SEC,
};
use crate::kad::obfuscation::os_random_bytes;
use crate::key_map::KeyMap;
use crate::net::{IpAddr, SocketAddr};
use crate::rank::Ranked;

verus! {

// ---------------------------------------------------------------------------
// Entries
// ---------------------------------------------------------------------------
/// A handshake that is not done yet.
pub enum PendingHandshake {
    /// We sent the first message to a peer whose key we know.
    IkInitiator { state: HandshakeState, queued: Vec<Vec<u8>>, created: u64 },
    /// We sent the first message to a peer whose key we do not know.
    XxInitiatorMsg1 {
        state: HandshakeState,
        /// The handshake that a cookie replaced.
        prior: Option<HandshakeState>,
        queued: Vec<Vec<u8>>,
        created: u64,
        cookie_retried: bool,
    },
    /// We sent the second message.
    XxResponderMsg2 { state: HandshakeState, queued: Vec<Vec<u8>>, created: u64 },
}

impl View for PendingHandshake {
    type V = PendingView;

    open spec fn view(&self) -> PendingView {
        match self {
            PendingHandshake::IkInitiator { state, queued, created } => PendingView::IkInitiator {
                state: *state,
                queued: bodies(queued@),
                created: *created,
            },
            PendingHandshake::XxInitiatorMsg1 { state, prior, queued, created, cookie_retried } =>
                PendingView::XxInitiatorMsg1 {
                    state: *state,
                    prior: *prior,
                    queued: bodies(queued@),
                    created: *created,
                    cookie_retried: *cookie_retried,
                },
            PendingHandshake::XxResponderMsg2 { state, queued, created } =>
                PendingView::XxResponderMsg2 {
                    state: *state,
                    queued: bodies(queued@),
                    created: *created,
                },
        }
    }
}

impl Stamped for PendingHandshake {
    open spec fn stamp(self) -> u64 {
        self@.created()
    }

    fn get_stamp(&self) -> (r: u64) {
        match self {
            PendingHandshake::IkInitiator { created, .. } => *created,
            PendingHandshake::XxInitiatorMsg1 { created, .. } => *created,
            PendingHandshake::XxResponderMsg2 { created, .. } => *created,
        }
    }
}

/// The first packet of a handshake, as it is remembered.
pub struct RecentHandshake {
    pub seen_at: u64,
    pub from: SocketAddr,
    /// What was answered, if the handshake got that far.
    pub response: Option<Vec<u8>>,
}

impl View for RecentHandshake {
    type V = RecentView;

    open spec fn view(&self) -> RecentView {
        RecentView {
            seen_at: self.seen_at,
            from: self.from,
            response: match self.response {
                Some(p) => Some(p@),
                None => None,
            },
        }
    }
}

impl Stamped for RecentHandshake {
    open spec fn stamp(self) -> u64 {
        self.seen_at
    }

    fn get_stamp(&self) -> (r: u64) {
        self.seen_at
    }
}

/// A request that waits for its sender to prove its address.
pub struct DeferredIkPayload {
    pub payload: Vec<u8>,
    pub stored: u64,
}

impl View for DeferredIkPayload {
    type V = DeferredView;

    open spec fn view(&self) -> DeferredView {
        DeferredView { payload: self.payload@, stored: self.stored }
    }
}

impl Stamped for DeferredIkPayload {
    open spec fn stamp(self) -> u64 {
        self.stored
    }

    fn get_stamp(&self) -> (r: u64) {
        self.stored
    }
}

/// Whether the first packet of a handshake is new, and if not, what was
/// answered before.
pub enum HandshakeReplay {
    Fresh { digest: PacketDigest },
    Seen { response: Option<Vec<u8>> },
}

/// What became of a packet.
pub enum IncomingResult {
    /// A message from a peer with a session.
    Message { from: SocketAddr, remote_noise_pub: [u8; 32], payload: Vec<u8> },
    /// A handshake went on; packets have to be sent.
    HandshakeResponse { to: SocketAddr, packets: Vec<Vec<u8>> },
    /// A handshake is done; packets have to be sent, and it may have brought a message.
    HandshakeComplete {
        peer: SocketAddr,
        remote_noise_pub: [u8; 32],
        packets_to_send: Vec<Vec<u8>>,
        decrypted_payload: Option<Vec<u8>>,
    },
    /// The packet was malformed, or nobody waits for it.
    Rejected,
}

impl View for IncomingResult {
    type V = IncomingView;

    open spec fn view(&self) -> IncomingView {
        match self {
            IncomingResult::Message { from, remote_noise_pub, payload } => IncomingView::Message {
                from: *from,
                remote_noise_pub: *remote_noise_pub,
                payload: payload@,
            },
            IncomingResult::HandshakeResponse { to, packets } =>
                IncomingView::HandshakeResponse { to: *to, packets: bodies(packets@) },
            IncomingResult::HandshakeComplete {
                peer,
                remote_noise_pub,
                packets_to_send,
                decrypted_payload,
            } => IncomingView::HandshakeComplete {
                peer: *peer,
                remote_noise_pub: *remote_noise_pub,
                packets_to_send: bodies(packets_to_send@),
                decrypted_payload: opt_bytes(*decrypted_payload),
            },
            IncomingResult::Rejected => IncomingView::Rejected,
        }
    }
}

/// What became of a message to be sent.
pub enum OutgoingResult {
    /// It is sealed and can be sent.
    Ready { packet: Vec<u8> },
    /// A handshake was begun, and the message goes with it or waits for it.
    HandshakeStarted { packet: Vec<u8> },
    /// It waits for the handshake under way.
    Queued,
    /// It could not be sealed, or no handshake could be begun.
    Error(NoiseFailure),
}

impl View for OutgoingResult {
    type V = OutgoingView;

    open spec fn view(&self) -> OutgoingView {
        match self {
            OutgoingResult::Ready { packet } => OutgoingView::Ready { packet: packet@ },
            OutgoingResult::HandshakeStarted { packet } => OutgoingView::HandshakeStarted {
                packet: packet@,
            },
            OutgoingResult::Queued => OutgoingView::Queued,
            OutgoingResult::Error(e) => OutgoingView::Error(*e),
        }
    }
}

pub open spec fn key_value(o: Option<&[u8; 32]>) -> Option<[u8; 32]> {
    match o {
        Some(k) => Some(*k),
        None => None,
    }
}

pub open spec fn opt_bytes(o: Option<Vec<u8>>) -> Option<Seq<u8>> {
    match o {
        Some(b) => Some(b@),
        None => None,
    }
}

pub open spec fn control_views(v: Seq<EmberControlMessage>) -> Seq<ControlView> {
    v.map_values(|m: EmberControlMessage| m@)
}

/// Everything that a packet gave rise to.
#[derive(Debug)]
pub struct DispatchOutcome {
    /// Packets to send back.
    pub responses: Vec<Vec<u8>>,
    /// Control messages, in the order in which they were sent.
    pub controls: Vec<EmberControlMessage>,
    /// Other messages, in the order in which they were sent.
    pub app_payloads: Vec<Vec<u8>>,
    /// The peer's static key, where the packet brought a message or ended a handshake.
    pub remote_noise_pub: Option<[u8; 32]>,
    pub rejected: bool,
}

impl View for DispatchOutcome {
    type V = OutcomeView;

    open spec fn view(&self) -> OutcomeView {
        OutcomeView {
            responses: bodies(self.responses@),
            controls: control_views(self.controls@),
            app_payloads: bodies(self.app_payloads@),
            remote_noise_pub: self.remote_noise_pub,
            rejected: self.rejected,
        }
    }
}

impl Default for DispatchOutcome {
    fn default() -> (r: DispatchOutcome)
        ensures
            r@ == OutcomeView::nothing(),
    {
        let r = DispatchOutcome {
            responses: Vec::new(),
            controls: Vec::new(),
            app_payloads: Vec::new(),
            remote_noise_pub: None,
            rejected: false,
        };
        assert(bodies(r.responses@) =~= Seq::<Seq<u8>>::empty());
        assert(bodies(r.app_payloads@) =~= Seq::<Seq<u8>>::empty());
        assert(control_views(r.controls@) =~= Seq::<ControlView>::empty());
        r
    }
}

// ---------------------------------------------------------------------------
// Tables and their views
// ---------------------------------------------------------------------------
/// A table by the views of its values.
pub open spec fn views<K, V: View>(m: Map<K, V>) -> Map<K, V::V> {
    Map::new(|k: K| m.contains_key(k), |k: K| m[k]@)
}

pub broadcast proof fn lemma_views_insert<K, V: View>(m: Map<K, V>, k: K, v: V)
    ensures
        #[trigger] views(m.insert(k, v)) == views(m).insert(k, v@),
{
    assert(views(m.insert(k, v)) =~= views(m).insert(k, v@));
}

pub broadcast proof fn lemma_views_remove<K, V: View>(m: Map<K, V>, k: K)
    ensures
        #[trigger] views(m.remove(k)) == views(m).remove(k),
{
    assert(views(m.remove(k)) =~= views(m).remove(k));
}

pub broadcast proof fn lemma_views_restrict<K, V: View>(m: Map<K, V>, s: Set<K>)
    ensures
        #[trigger] views(m.restrict(s)) == views(m).restrict(s),
{
    assert(views(m.restrict(s)) =~= views(m).restrict(s));
}

pub broadcast proof fn lemma_views_dom<K, V: View>(m: Map<K, V>)
    ensures
        (#[trigger] views(m)).dom() == m.dom(),
{
    assert(views(m).dom() =~= m.dom());
}

pub broadcast group group_views {
    lemma_views_insert,
    lemma_views_remove,
    lemma_views_restrict,
    lemma_views_dom,
}

proof fn lemma_pending_stamps(m: Map<SocketAddr, PendingHandshake>)
    ensures
        stamps(m) == pending_stamps(views(m)),
{
    assert(stamps(m) =~= pending_stamps(views(m)));
}

proof fn lemma_recent_stamps(m: Map<PacketDigest, RecentHandshake>)
    ensures
        stamps(m) == recent_stamps(views(m)),
{
    assert(stamps(m) =~= recent_stamps(views(m)));
}

proof fn lemma_deferred_stamps(m: Map<Claim, DeferredIkPayload>)
    ensures
        stamps(m) == deferred_stamps(views(m)),
{
    assert(stamps(m) =~= deferred_stamps(views(m)));
}

pub proof fn lemma_seq_to_32(a: [u8; 32])
    ensures
        seq_to_32(a@) == a,
{
    let b = seq_to_32(a@);
    assert(a@ == a@);
    assert(b@ =~= a@);
    assert(b =~= a);
}

fn vec_to_32(v: &Vec<u8>) -> (r: [u8; 32])
    requires
        v@.len() == 32,
    ensures
        r == seq_to_32(v@),
        r@ == v@,
{
    let mut r: [u8; 32] = [0;32];
    let mut i: usize = 0;
    while i < 32
        invariant
            i <= 32,
            v@.len() == 32,
            forall|j: int| 0 <= j < i ==> r@[j] == v@[j],
        decreases 32 - i,
    {
        r[i] = v[i];
        i = i + 1;
    }
    assert(r@ =~= v@);
    proof {
        lemma_seq_to_32(r);
    }
    r
}

// ---------------------------------------------------------------------------
// The transport
// ---------------------------------------------------------------------------
/// The sessions of a node and the handshakes that lead to them.
pub struct EmberTransport {
    local_noise_key: [u8; 32],
    local_noise_pub: [u8; 32],
    sessions: KeyMap<SocketAddr, NoiseSession>,
    pending: KeyMap<SocketAddr, PendingHandshake>,
    recent_handshakes: KeyMap<PacketDigest, RecentHandshake>,
    deferred_ik: KeyMap<Claim, DeferredIkPayload>,
    shadow_sessions: KeyMap<Claim, NoiseSession>,
    cookie_secret: [u8; 32],
    prev_cookie_secret: [u8; 32],
    cookie_rotated_at: u64,
    xx_msg2_tokens: u32,
    xx_msg2_refilled_at: u64,
}

impl View for EmberTransport {
    type V = EmberView;

    closed spec fn view(&self) -> EmberView {
        EmberView {
            key: self.local_noise_key,
            public: self.local_noise_pub,
            sessions: self.sessions@,
            pending: views(self.pending@),
            recent: views(self.recent_handshakes@),
            deferred: views(self.deferred_ik@),
            shadows: self.shadow_sessions@,
            secret: self.cookie_secret,
            prev_secret: self.prev_cookie_secret,
            rotated_at: self.cookie_rotated_at,
            tokens: self.xx_msg2_tokens,
            refilled_at: self.xx_msg2_refilled_at,
        }
    }
}

fn fresh_cookie_secret() -> (r: [u8; 32])
{
    let bytes = os_random_bytes(32);
    vec_to_32(&bytes)
}

fn be_vec(x: u128, n: usize) -> (r: Vec<u8>)
    ensures
        r@ == be_bytes(x, n as nat),
    decreases n,
{
    if n == 0 {
        Vec::new()
    } else {
        let mut v = be_vec(x / 256, n - 1);
        v.push((x % 256) as u8);
        v
    }
}

/// The cookie of an address under a secret.
fn xx_cookie_for(secret: &[u8; 32], addr: SocketAddr) -> (r: Vec<u8>)
    ensures
        r@ == cookie_for(*secret, addr),
        r@.len() == XX_COOKIE_LEN,
{
    let mut input: Vec<u8> = vec![
        0x65, 0x6d, 0x62, 0x65, 0x72, 0x2d, 0x78, 0x78, 0x2d, 0x72, 0x65, 0x74, 0x72, 0x79, 0x2d,
        0x63, 0x6f, 0x6f, 0x6b, 0x69, 0x65, 0x2d, 0x76, 0x31,
    ];
    assert(input@ =~= cookie_domain());
    match addr.ip {
        IpAddr::V4(a) => {
            let o = a.octets();
            input.push(4);
            input.push(o[0]);
            input.push(o[1]);
            input.push(o[2]);
            input.push(o[3]);
            assert(input@ =~= cookie_domain() + tagged_ip(addr.ip));
        },
        IpAddr::V6(x) => {
            let o = be_vec(x, 16);
            input.push(6);
            put_bytes(&mut input, o.as_slice());
            assert(input@ =~= cookie_domain() + tagged_ip(addr.ip));
        },
    }
    input.push((addr.port / 256) as u8);
    input.push((addr.port % 256) as u8);
    assert(input@ =~= cookie_input(addr));
    let tag = blake3_keyed_hash(secret, input.as_slice());
    let mut out: Vec<u8> = Vec::new();
    let mut i: usize = 0;
    while i < XX_COOKIE_LEN
        invariant
            i <= XX_COOKIE_LEN,
            out@ == tag@.take(i as int),
        decreases XX_COOKIE_LEN - i,
    {
        out.push(tag[i]);
        assert(out@ =~= tag@.take(i as int + 1));
        i = i + 1;
    }
    out
}

/// Whether a peer echoed a cookie. All bytes are looked at, whatever they are,
/// so that the time that this takes tells nothing.
fn cookie_tags_match(expected: &Vec<u8>, got: &[u8]) -> (r: bool)
    requires
        expected@.len() == XX_COOKIE_LEN,
    ensures
        r == (expected@ == got@),
{
    if got.len() != XX_COOKIE_LEN {
        return false;
    }
    let mut diff: u8 = 0;
    let mut i: usize = 0;
    while i < XX_COOKIE_LEN
        invariant
            i <= XX_COOKIE_LEN,
            expected@.len() == XX_COOKIE_LEN,
            got@.len() == XX_COOKIE_LEN,
            diff == 0 <==> (forall|j: int| 0 <= j < i ==> expected@[j] == got@[j]),
        decreases XX_COOKIE_LEN - i,
    {
        let (a, b): (u8, u8) = (expected[i], got[i]);
        let next: u8 = diff | (a ^ b);
        assert(next == 0 <==> diff == 0 && a == b) by (bit_vector)
            requires
                next == diff | (a ^ b),
        ;
        diff = next;
        i = i + 1;
    }
    assert(diff == 0 ==> expected@ =~= got@);
    diff == 0
}

impl EmberTransport {
    /// A transport with our pair of static keys, at a time.
    pub fn new(local_noise_key: [u8; 32], local_noise_pub: [u8; 32], now: u64) -> (r: EmberTransport)
        ensures
            r@.wf(),
            r@.key == local_noise_key,
            r@.public == local_noise_pub,
            r@.sessions == Map::<SocketAddr, NoiseSession>::empty(),
            r@.pending == Map::<SocketAddr, PendingView>::empty(),
            r@.recent == Map::<PacketDigest, RecentView>::empty(),
            r@.deferred == Map::<Claim, DeferredView>::empty(),
            r@.shadows == Map::<Claim, NoiseSession>::empty(),
            r@.rotated_at == now,
            r@.tokens == XX_UNVALIDATED_MSG2_BURST,
            r@.refilled_at == now,
    {
        let r = EmberTransport {
            local_noise_key,
            local_noise_pub,
            sessions: KeyMap::new(),
            pending: KeyMap::new(),
            recent_handshakes: KeyMap::new(),
            deferred_ik: KeyMap::new(),
            shadow_sessions: KeyMap::new(),
            cookie_secret: fresh_cookie_secret(),
            prev_cookie_secret: fresh_cookie_secret(),
            cookie_rotated_at: now,
            xx_msg2_tokens: XX_UNVALIDATED_MSG2_BURST,
            xx_msg2_refilled_at: now,
        };
        assert(r@.pending =~= Map::empty());
        assert(r@.recent =~= Map::empty());
        assert(r@.deferred =~= Map::empty());
        r
    }

    // -- Budget ------------------------------------------------------------
    fn refill_xx_msg2_budget(&mut self, now: u64)
        ensures
            final(self)@ == old(self)@.refilled(now),
    {
        let elapsed: u64 = ms_since(self.xx_msg2_refilled_at, now);
        let earned: u128 = elapsed as u128 * XX_UNVALIDATED_MSG2_PER_SEC as u128 / 1000;
        if earned == 0 {
            return;
        }
        let total: u128 = self.xx_msg2_tokens as u128 + earned;
        self.xx_msg2_tokens = if total > XX_UNVALIDATED_MSG2_BURST as u128 {
            XX_UNVALIDATED_MSG2_BURST
        } else {
            total as u32
        };
        self.xx_msg2_refilled_at = now;
    }

    /// Whether an address that has proven nothing may still be answered.
    fn xx_msg2_budget_available(&mut self, now: u64) -> (r: bool)
        ensures
            final(self)@ == old(self)@.refilled(now),
            r == (final(self)@.tokens > 0),
    {
        self.refill_xx_msg2_budget(now);
        self.xx_msg2_tokens > 0
    }

    fn spend_xx_msg2_budget(&mut self)
        ensures
            final(self)@ == old(self)@.spent(),
    {
        self.xx_msg2_tokens = self.xx_msg2_tokens.saturating_sub(1);
    }

    // -- Cookies -----------------------------------------------------------
    /// Turns the cookie secrets, if that is due.
    fn rotate_cookie_secret_if_due(&mut self, now: u64)
        ensures
            exists|fresh: [u8; 32], prev: [u8; 32]|
                final(self)@ == #[trigger] old(self)@.rotated(now, fresh, prev),
    {
        let ghost v = self@;
        if ms_since(self.cookie_rotated_at, now) < XX_COOKIE_ROTATION_MS {
            assert(self@ == v.rotated(now, v.secret, v.secret));
            return;
        }
        let fresh = fresh_cookie_secret();
        let fresh_prev = fresh_cookie_secret();
        self.turn_secrets(now, fresh, fresh_prev);
        assert(self@ == v.rotated(now, fresh, fresh_prev));
    }

    /// Turns the cookie secrets, if that is due, with new ones.
    fn turn_secrets(&mut self, now: u64, fresh: [u8; 32], fresh_prev: [u8; 32])
        ensures
            final(self)@ == old(self)@.rotated(now, fresh, fresh_prev),
    {
        let elapsed: u64 = ms_since(self.cookie_rotated_at, now);
        if elapsed < XX_COOKIE_ROTATION_MS {
            return;
        }
        self.prev_cookie_secret = if elapsed < 2 * XX_COOKIE_ROTATION_MS {
            self.cookie_secret
        } else {
            fresh_prev
        };
        self.cookie_secret = fresh;
        self.cookie_rotated_at = now;
    }

    fn xx_cookie_packet(&self, from: SocketAddr) -> (r: Vec<u8>)
        ensures
            r@ == self@.cookie_packet(from),
            r@.len() == HEADER_LEN + XX_COOKIE_LEN,
    {
        let cookie = xx_cookie_for(&self.cookie_secret, from);
        make_packet(PKT_XX_COOKIE, cookie.as_slice())
    }

    /// Whether these bytes are a cookie that the address was given.
    fn xx_cookie_is_valid(&self, from: SocketAddr, cookie: &[u8]) -> (r: bool)
        ensures
            r == self@.honours(from, cookie@),
    {
        if cookie.len() != XX_COOKIE_LEN {
            return false;
        }
        let a = cookie_tags_match(&xx_cookie_for(&self.cookie_secret, from), cookie);
        let b = cookie_tags_match(&xx_cookie_for(&self.prev_cookie_secret, from), cookie);
        a || b
    }

    // -- First packets -----------------------------------------------------
    /// Looks a first packet up, and remembers it where it is new.
    fn check_handshake_replay(&mut self, pkt_type: u8, from: SocketAddr, data: &[u8], now: u64) -> (r:
        HandshakeReplay)
        requires
            old(self)@.wf(),
        ensures
            ({
                let v = old(self)@;
                let d = packet_digest(pkt_type, data@);
                match r {
                    HandshakeReplay::Seen { response } => {
                        &&& v.seen(d, now)
                        &&& opt_bytes(response) == v.cached(d, from)
                        &&& final(self)@ == v
                    },
                    HandshakeReplay::Fresh { digest } => {
                        &&& !v.seen(d, now)
                        &&& digest == d
                        &&& final(self)@ == v.remembered(d, from, now)
                    },
                }
            }),
            final(self)@.wf(),
    {
        broadcast use group_views;

        let mut input: Vec<u8> = Vec::new();
        input.push(pkt_type);
        put_bytes(&mut input, data);
        assert(input@ =~= seq![pkt_type] + data@);
        let digest = PacketDigest { bytes: blake3_hash(input.as_slice()) };
        proof {
            lemma_seq_to_32(digest.bytes);
        }
        if let Some(entry) = self.recent_handshakes.get(&digest) {
            if ms_since(entry.seen_at, now) < HANDSHAKE_REPLAY_TTL_MS {
                let response = if entry.from == from {
                    copy_option(&entry.response)
                } else {
                    None
                };
                return HandshakeReplay::Seen { response };
            }
        }
        let ghost v = self@;
        proof {
            lemma_recent_stamps(self.recent_handshakes@);
        }
        make_room(&mut self.recent_handshakes, MAX_REPLAY_DIGESTS);
        self.recent_handshakes.insert(digest, RecentHandshake { seen_at: now, from, response: None });
        assert(self@.recent =~= v.remembered(digest, from, now).recent);
        HandshakeReplay::Fresh { digest }
    }

    /// Remembers the answer to a first packet.
    fn remember_handshake_response(&mut self, digest: PacketDigest, response: Vec<u8>)
        requires
            old(self)@.wf(),
        ensures
            final(self)@ == old(self)@.answered(digest, response@),
            final(self)@.wf(),
    {
        broadcast use group_views;

        let ghost v = self@;
        match self.recent_handshakes.remove(&digest) {
            Some(entry) => {
                self.recent_handshakes.insert(
                    digest,
                    RecentHandshake {
                        seen_at: entry.seen_at,
                        from: entry.from,
                        response: Some(response),
                    },
                );
                assert(self@.recent =~= v.answered(digest, response@).recent);
            },
            None => {
                assert(self@.recent =~= v.recent);
            },
        }
    }
    // -- Sessions ----------------------------------------------------------
    /// Whether these bytes begin like a packet of the overlay.
    pub fn is_ember_packet(data: &[u8]) -> (r: bool)
        ensures
            r == (data@.len() >= HEADER_LEN && data@[0] == 0xEB && data@[1] == 0x3E && (data@[2]
                == PKT_IK_INIT || data@[2] == PKT_IK_RESP || data@[2] == PKT_XX_MSG1 || data@[2]
                == PKT_XX_MSG2 || data@[2] == PKT_XX_MSG3 || data@[2] == PKT_XX_COOKIE || data@[2]
                == PKT_TRANSPORT)),
    {
        data.len() >= HEADER_LEN && data[0] == EMBER_MAGIC[0] && data[1] == EMBER_MAGIC[1] && (
        data[2] == PKT_IK_INIT || data[2] == PKT_IK_RESP || data[2] == PKT_XX_MSG1 || data[2]
            == PKT_XX_MSG2 || data[2] == PKT_XX_MSG3 || data[2] == PKT_XX_COOKIE || data[2]
            == PKT_TRANSPORT)
    }

    /// Our public static key.
    pub fn local_noise_public_key(&self) -> (r: &[u8; 32])
        ensures
            *r == self@.public,
    {
        &self.local_noise_pub
    }

    /// How many sessions there are.
    pub fn session_count(&self) -> (n: usize)
        ensures
            n == self@.sessions.dom().len(),
    {
        self.sessions.len()
    }

    /// How many handshakes are under way.
    pub fn pending_count(&self) -> (n: usize)
        ensures
            n == self@.pending.dom().len(),
    {
        broadcast use group_views;

        self.pending.len()
    }

    /// How many first packets are remembered.
    pub fn remembered_count(&self) -> (n: usize)
        ensures
            n == self@.recent.dom().len(),
    {
        broadcast use group_views;

        self.recent_handshakes.len()
    }

    /// Whether there is a session with an address.
    pub fn has_session(&self, addr: &SocketAddr) -> (r: bool)
        ensures
            r == self@.sessions.contains_key(*addr),
    {
        self.sessions.contains_key(addr)
    }

    /// Whether a handshake with an address is under way.
    pub fn has_pending(&self, addr: &SocketAddr) -> (r: bool)
        ensures
            r == self@.pending.contains_key(*addr),
    {
        self.pending.contains_key(addr)
    }

    /// Whether the session with an address began with a known key.
    pub fn peer_is_ik_authenticated(&self, addr: &SocketAddr) -> (r: bool)
        ensures
            r == (self@.sessions.contains_key(*addr) && self@.sessions[*addr].ik_authenticated),
    {
        match self.sessions.get(addr) {
            Some(s) => s.ik_authenticated,
            None => false,
        }
    }

    /// Whether a proven session of another key holds an address.
    fn held_by_other(&self, addr: &SocketAddr, key: &[u8; 32]) -> (r: bool)
        ensures
            r == self@.held_by_other(*addr, *key),
    {
        match self.sessions.get(addr) {
            Some(s) => !same_key(&s.remote_noise_pub, key) && s.addr_validated,
            None => false,
        }
    }

    fn is_dialling(&self, addr: &SocketAddr) -> (r: bool)
        ensures
            r == self@.dialling(*addr),
    {
        match self.pending.get(addr) {
            Some(PendingHandshake::XxResponderMsg2 { .. }) => false,
            Some(_) => true,
            None => false,
        }
    }

    fn evict_oldest_session(&mut self)
        requires
            old(self)@.wf(),
        ensures
            final(self)@ == old(self)@.session_room(),
            final(self)@.wf(),
            final(self)@.sessions.dom().len() < MAX_SESSIONS,
    {
        make_room(&mut self.sessions, MAX_SESSIONS);
    }

    fn evict_oldest_pending(&mut self)
        requires
            old(self)@.wf(),
        ensures
            final(self)@ == old(self)@.pending_room(),
            final(self)@.wf(),
            final(self)@.pending.dom().len() < MAX_PENDING,
    {
        broadcast use group_views;

        let ghost v = self@;
        proof {
            lemma_pending_stamps(self.pending@);
        }
        make_room(&mut self.pending, MAX_PENDING);
        assert(self@.pending =~= v.pending_room().pending);
        assert forall|a: SocketAddr| #[trigger] self@.pending.contains_key(
            a,
        ) implies self@.pending[a].wf() by {
            assert(v.pending.contains_key(a));
        }
    }

    /// Puts a session in place. One of another key that held the place is set
    /// aside.
    fn install_session(&mut self, addr: SocketAddr, session: NoiseSession)
        requires
            old(self)@.wf(),
        ensures
            final(self)@ == old(self)@.installed(addr, session),
            final(self)@.wf(),
    {
        let ghost v0 = self@;
        if !self.sessions.contains_key(&addr) {
            self.evict_oldest_session();
        }
        let ghost v = self@;
        let arriving_key = session.remote_noise_pub;
        self.shadow_sessions.remove(&Claim { addr, key: arriving_key });
        let displaced = self.sessions.remove(&addr);
        self.sessions.insert(addr, session);
        assert(self@.sessions =~= v.sessions.insert(addr, session));
        if let Some(displaced) = displaced {
            if !same_key(&displaced.remote_noise_pub, &arriving_key) {
                let claim = Claim { addr, key: displaced.remote_noise_pub };
                self.shadow_sessions.insert(claim, displaced);
                self.trim_shadow_sessions(addr);
            }
        }
    }

    fn trim_shadow_sessions(&mut self, addr: SocketAddr)
        ensures
            final(self)@ == old(self)@.shadows_trimmed(addr),
            final(self)@.shadows.dom().finite(),
            final(self)@.shadows.dom().len() <= MAX_SHADOW_SESSIONS,
    {
        trim_claims(
            &mut self.shadow_sessions,
            addr,
            MAX_SHADOW_SESSIONS_PER_ADDR,
            MAX_SHADOW_SESSIONS,
        );
    }

    fn trim_deferred_ik(&mut self, addr: SocketAddr)
        ensures
            final(self)@ == old(self)@.deferred_trimmed(addr),
            final(self)@.deferred.dom().finite(),
            final(self)@.deferred.dom().len() <= MAX_DEFERRED_IK_PAYLOADS,
    {
        broadcast use group_views;

        proof {
            lemma_deferred_stamps(self.deferred_ik@);
        }
        trim_claims(
            &mut self.deferred_ik,
            addr,
            MAX_DEFERRED_IK_PAYLOADS_PER_ADDR,
            MAX_DEFERRED_IK_PAYLOADS,
        );
    }

    /// Puts the session of a finished handshake in place.
    fn complete_session(&mut self, addr: SocketAddr, session: NoiseSession)
        requires
            old(self)@.wf(),
        ensures
            final(self)@ == old(self)@.completed(addr, session),
            final(self)@.wf(),
    {
        self.evict_oldest_session();
        self.install_session(addr, session);
    }

    fn drop_pending(&mut self, addr: &SocketAddr) -> (r: Option<PendingHandshake>)
        requires
            old(self)@.wf(),
        ensures
            final(self)@ == old(self)@.without_pending(*addr),
            final(self)@.wf(),
            match r {
                Some(p) => old(self)@.pending.contains_key(*addr) && p@ == old(
                    self,
                )@.pending[*addr],
                None => !old(self)@.pending.contains_key(*addr),
            },
    {
        broadcast use group_views;

        let ghost v = self@;
        let r = self.pending.remove(addr);
        assert forall|a: SocketAddr| #[trigger] self@.pending.contains_key(
            a,
        ) implies self@.pending[a].wf() by {
            assert(v.pending.contains_key(a));
        }
        r
    }

    fn put_pending(&mut self, addr: SocketAddr, p: PendingHandshake)
        requires
            old(self)@.wf(),
            p@.wf(),
            old(self)@.pending.contains_key(addr) || old(self)@.pending.dom().len() < MAX_PENDING,
        ensures
            final(self)@ == old(self)@.with_pending(addr, p@),
            final(self)@.wf(),
    {
        broadcast use group_views;

        let ghost v = self@;
        self.pending.insert(addr, p);
        assert forall|a: SocketAddr| #[trigger] self@.pending.contains_key(
            a,
        ) implies self@.pending[a].wf() by {
            if a != addr {
                assert(v.pending.contains_key(a));
            }
        }
    }
    // -- Handshakes with a known key ---------------------------------------
    /// Takes in a first message that could be read, with the answer to it that
    /// was written. `state` is the handshake after both.
    pub fn accept_ik(
        &mut self,
        from: SocketAddr,
        digest: PacketDigest,
        payload: Vec<u8>,
        state: HandshakeState,
        bytes: Vec<u8>,
        probe: u64,
        now: u64,
    ) -> (r: IncomingResult)
        requires
            old(self)@.wf(),
        ensures
            (final(self)@, r@) == old(self)@.ik_accepted(
                from,
                digest,
                payload@,
                Written { state, bytes: bytes@ },
                probe,
                now,
            ),
            r@ matches IncomingView::HandshakeComplete { packets_to_send, .. } ==> total_len(
                packets_to_send,
            ) <= bytes@.len() + 40,
            final(self)@.wf(),
    {
        broadcast use group_views;

        let remote_noise_pub: [u8; 32] = match extract_remote_static(&state) {
            Some(k) => k,
            None => {
                return IncomingResult::Rejected;
            },
        };
        let transport: StatelessTransportState = match finish_handshake(state) {
            Ok(t) => t,
            Err(_) => {
                return IncomingResult::Rejected;
            },
        };
        if self.held_by_other(&from, &remote_noise_pub) {
            return IncomingResult::Rejected;
        }
        let claim = Claim { addr: from, key: remote_noise_pub };
        let mut session = NoiseSession::new(transport, remote_noise_pub, true, now);
        let _ = self.drop_pending(&from);
        let answer = make_packet(PKT_IK_RESP, bytes.as_slice());
        let ghost answer_bytes = answer@;
        let kept = copy_from(answer.as_slice(), 0);
        assert(kept@ =~= answer@);
        self.remember_handshake_response(digest, kept);
        let ghost v = self@;
        self.deferred_ik.remove(&claim);
        let ghost cleared = EmberView { deferred: v.deferred.remove(claim), ..v };
        assert(self@ == cleared);
        let mut packets: Vec<Vec<u8>> = Vec::new();
        packets.push(answer);
        if payload.len() > 0 {
            let ghost pay = payload@;
            self.deferred_ik.insert(claim, DeferredIkPayload { payload, stored: now });
            proof {
                assert(self@.deferred =~= cleared.deferred.insert(
                    claim,
                    DeferredView { payload: pay, stored: now },
                ));
            }
            self.trim_deferred_ik(from);
            let ping = EmberControlMessage::Ping { nonce: probe }.encode();
            match session.seal(ping.as_slice()) {
                Some(frame) => {
                    session.probe_nonce = Some(probe);
                    let ghost f = frame@;
                    packets.push(frame);
                    assert(bodies(packets@) =~= seq![answer_bytes, f]);
                },
                None => {
                    assert(bodies(packets@) =~= seq![answer_bytes]);
                },
            }
        } else {
            assert(bodies(packets@) =~= seq![answer_bytes]);
        }
        proof {
            let all = bodies(packets@);
            reveal_with_fuel(total_len, 3);
            assert(all.drop_last() =~= all.take(all.len() - 1));
            assert(enc_control(ControlView::Ping { nonce: probe }).len() == 10) by {
                lemma_le64_round_trip(probe, Seq::<u8>::empty());
            }
            assert(all[0] == answer_bytes);
        }
        self.complete_session(from, session);
        IncomingResult::HandshakeComplete {
            peer: from,
            remote_noise_pub,
            packets_to_send: packets,
            decrypted_payload: None,
        }
    }

    /// The answer to a repeated first packet.
    fn answer_again(from: SocketAddr, response: Option<Vec<u8>>) -> (r: IncomingResult)
        ensures
            r@ == match opt_bytes(response) {
                Some(p) => IncomingView::HandshakeResponse { to: from, packets: seq![p] },
                None => IncomingView::Rejected,
            },
    {
        match response {
            Some(p) => {
                let ghost bytes = p@;
                let mut packets: Vec<Vec<u8>> = Vec::new();
                packets.push(p);
                assert(bodies(packets@) =~= seq![bytes]);
                IncomingResult::HandshakeResponse { to: from, packets }
            },
            None => IncomingResult::Rejected,
        }
    }

    /// The first message of a peer that knows our key.
    fn handle_ik_init(&mut self, from: SocketAddr, data: &[u8], now: u64) -> (r: IncomingResult)
        requires
            old(self)@.wf(),
        ensures
            exists|w: Option<Written>, probe: u64|
                {
                    &&& old(self)@.ik_init_writes(from, data@, now, w)
                    &&& (final(self)@, r@) == #[trigger] old(self)@.after_ik_init(
                        from,
                        data@,
                        now,
                        w,
                        probe,
                    )
                },
            r@ matches IncomingView::HandshakeComplete { packets_to_send, .. } ==> total_len(
                packets_to_send,
            ) < data@.len(),
            final(self)@.wf(),
    {
        let ghost v = self@;
        if self.is_dialling(&from) {
            assert((self@, IncomingView::Rejected) == v.after_ik_init(from, data@, now, None, 0));
            return IncomingResult::Rejected;
        }
        let digest = match self.check_handshake_replay(PKT_IK_INIT, from, data, now) {
            HandshakeReplay::Fresh { digest } => digest,
            HandshakeReplay::Seen { response } => {
                let r = EmberTransport::answer_again(from, response);
                assert((self@, r@) == v.after_ik_init(from, data@, now, None, 0));
                return r;
            },
        };
        let mut responder = match await_peer(ik_name(), &self.local_noise_key) {
            Ok(h) => h,
            Err(_) => {
                return IncomingResult::Rejected;
            },
        };
        let payload = match read_handshake(&mut responder, data) {
            Ok(p) => p,
            Err(_) => {
                assert((self@, IncomingView::Rejected) == v.after_ik_init(from, data@, now, None, 0));
                return IncomingResult::Rejected;
            },
        };
        let empty: Vec<u8> = Vec::new();
        let ghost before = responder;
        assert(empty@ =~= Seq::<u8>::empty());
        match write_message(&mut responder, empty.as_slice()) {
            Some(bytes) => {
                let probe: u64 = random_u64();
                let ghost w = Written { state: responder, bytes: bytes@ };
                let r = self.accept_ik(from, digest, payload, responder, bytes, probe, now);
                assert((self@, r@) == v.after_ik_init(from, data@, now, Some(w), probe));
                r
            },
            None => {
                assert((self@, IncomingView::Rejected) == v.after_ik_init(from, data@, now, None, 0));
                IncomingResult::Rejected
            },
        }
    }

    /// Takes in the end of a handshake: the session is put in place, and what
    /// waited for it is sealed after `first`.
    pub fn accept_session(
        &mut self,
        from: SocketAddr,
        state: HandshakeState,
        ik_authenticated: bool,
        first: Vec<Vec<u8>>,
        queued: Vec<Vec<u8>>,
        skip: usize,
        payload: Option<Vec<u8>>,
        now: u64,
    ) -> (r: IncomingResult)
        requires
            old(self)@.wf(),
            skip <= queued@.len(),
        ensures
            (final(self)@, r@) == old(self)@.initiated(
                from,
                state,
                ik_authenticated,
                bodies(first@),
                bodies(queued@).skip(skip as int),
                opt_bytes(payload),
                now,
            ),
            final(self)@.wf(),
    {
        let remote_noise_pub: [u8; 32] = match extract_remote_static(&state) {
            Some(k) => k,
            None => {
                return IncomingResult::Rejected;
            },
        };
        let transport: StatelessTransportState = match finish_handshake(state) {
            Ok(t) => t,
            Err(_) => {
                return IncomingResult::Rejected;
            },
        };
        if self.held_by_other(&from, &remote_noise_pub) {
            return IncomingResult::Rejected;
        }
        let mut session = NoiseSession::new(
            transport,
            remote_noise_pub,
            ik_authenticated,
            now,
        ).validated();
        let mut frames = seal_queue(&mut session, &queued, skip);
        let mut packets = first;
        let ghost (a, b) = (packets@, frames@);
        packets.append(&mut frames);
        assert(bodies(packets@) =~= bodies(a) + bodies(b));
        self.complete_session(from, session);
        IncomingResult::HandshakeComplete {
            peer: from,
            remote_noise_pub,
            packets_to_send: packets,
            decrypted_payload: payload,
        }
    }

    /// The answer to a first message of ours. One that proves nothing leaves
    /// the handshake waiting.
    fn handle_ik_resp(&mut self, from: SocketAddr, data: &[u8], now: u64) -> (r: IncomingResult)
        requires
            old(self)@.wf(),
        ensures
            (final(self)@, r@) == old(self)@.after_ik_resp(from, data@, now),
            old(self)@.pending.contains_key(from) && old(self)@.pending[from] is IkInitiator
                ==> old(self)@.forgery_spoils_nothing(from, data@),
            final(self)@.wf(),
    {
        let ghost v = self@;
        match self.drop_pending(&from) {
            Some(PendingHandshake::IkInitiator { state, queued, created }) => {
                let mut state = state;
                match read_handshake(&mut state, data) {
                    Ok(_) => {
                        let first: Vec<Vec<u8>> = Vec::new();
                        proof {
                            assert(bodies(first@) =~= Seq::<Seq<u8>>::empty());
                            assert(bodies(queued@).skip(0) =~= bodies(queued@));
                        }
                        self.accept_session(from, state, true, first, queued, 0, None, now)
                    },
                    Err(_) => {
                        self.put_pending(
                            from,
                            PendingHandshake::IkInitiator { state, queued, created },
                        );
                        assert(self@.pending =~= v.after_ik_resp(from, data@, now).0.pending);
                        IncomingResult::Rejected
                    },
                }
            },
            Some(p) => {
                self.put_pending(from, p);
                assert(self@.pending =~= v.pending);
                IncomingResult::Rejected
            },
            None => {
                assert(self@.pending =~= v.pending);
                IncomingResult::Rejected
            },
        }
    }
    // -- Handshakes with an unknown key ------------------------------------
    /// Writes a first message that carries a cookie, or nothing.
    fn build_xx_msg1(&self, cookie: &[u8]) -> (r: Result<(HandshakeState, Vec<u8>), NoiseFailure>)
        ensures
            match r {
                Ok((state, bytes)) => possible(
                    begun(xx(), self@.key@),
                    cookie@,
                    Some(Written { state, bytes: bytes@ }),
                ) && handshake_stage(state) == (xx(), true, 1nat) && xx_starts(self@.key@),
                Err(e) => possible(begun(xx(), self@.key@), cookie@, None) && e
                    == NoiseFailure::Write && xx_starts(self@.key@),
            },
    {
        let mut initiator = match begin(xx_name(), &self.local_noise_key) {
            Ok(h) => h,
            Err(_) => {
                return Err(NoiseFailure::Init);
            },
        };
        match write_message(&mut initiator, cookie) {
            Some(bytes) => Ok((initiator, bytes)),
            None => Err(NoiseFailure::Write),
        }
    }

    /// Whether a handshake of ours may follow a cookie.
    fn may_retry(&self, from: &SocketAddr) -> (r: bool)
        ensures
            r == (self@.pending.contains_key(*from) && (self@.pending[*from]
                matches PendingView::XxInitiatorMsg1 { cookie_retried, .. } && !cookie_retried)),
    {
        match self.pending.get(from) {
            Some(PendingHandshake::XxInitiatorMsg1 { cookie_retried, .. }) => !*cookie_retried,
            _ => false,
        }
    }

    /// A cookie for a handshake of ours: the first message goes out again with it.
    fn handle_xx_cookie(&mut self, from: SocketAddr, data: &[u8], now: u64) -> (r: IncomingResult)
        requires
            old(self)@.wf(),
        ensures
            exists|w: Option<Written>|
                {
                    &&& old(self)@.xx_cookie_writes(from, data@, w)
                    &&& (final(self)@, r@) == #[trigger] old(self)@.after_xx_cookie(
                        from,
                        data@,
                        now,
                        w,
                    )
                },
            final(self)@.wf(),
    {
        let ghost v = self@;
        if data.len() != XX_COOKIE_LEN || !self.may_retry(&from) {
            assert((self@, IncomingView::Rejected) == v.after_xx_cookie(from, data@, now, None));
            return IncomingResult::Rejected;
        }
        let (initiator, bytes) = match self.build_xx_msg1(data) {
            Ok(built) => built,
            Err(_) => {
                assert((self@, IncomingView::Rejected) == v.after_xx_cookie(
                    from,
                    data@,
                    now,
                    None,
                ));
                return IncomingResult::Rejected;
            },
        };
        let ghost w = Written { state: initiator, bytes: bytes@ };
        match self.drop_pending(&from) {
            Some(PendingHandshake::XxInitiatorMsg1 { state, prior, queued, .. }) => {
                let kept = match prior {
                    Some(p) => p,
                    None => state,
                };
                self.put_pending(
                    from,
                    PendingHandshake::XxInitiatorMsg1 {
                        state: initiator,
                        prior: Some(kept),
                        queued,
                        created: now,
                        cookie_retried: true,
                    },
                );
                let msg1 = make_packet(PKT_XX_MSG1, bytes.as_slice());
                let r = EmberTransport::answer_again(from, Some(msg1));
                proof {
                    let (u, q) = v.after_xx_cookie(from, data@, now, Some(w));
                    assert(self@.pending =~= u.pending);
                    assert((self@, r@) == v.after_xx_cookie(from, data@, now, Some(w)));
                }
                r
            },
            _ => IncomingResult::Rejected,
        }
    }

    /// Takes in a first message with the second one that was written for it.
    pub fn accept_xx(
        &mut self,
        from: SocketAddr,
        digest: PacketDigest,
        state: HandshakeState,
        bytes: Vec<u8>,
        proven: bool,
        now: u64,
    ) -> (r: IncomingResult)
        requires
            old(self)@.wf(),
            handshake_stage(state) == (xx(), false, 2nat),
        ensures
            (final(self)@, r@) == old(self)@.xx_answered(
                from,
                digest,
                Written { state, bytes: bytes@ },
                proven,
                now,
            ),
            final(self)@.wf(),
    {
        let ghost v = self@;
        self.evict_oldest_pending();
        let queued: Vec<Vec<u8>> = Vec::new();
        assert(bodies(queued@) =~= Seq::<Seq<u8>>::empty());
        self.put_pending(from, PendingHandshake::XxResponderMsg2 { state, queued, created: now });
        let answer = make_packet(PKT_XX_MSG2, bytes.as_slice());
        let kept = copy_from(answer.as_slice(), 0);
        assert(kept@ =~= answer@);
        self.remember_handshake_response(digest, kept);
        if !proven {
            self.spend_xx_msg2_budget();
        }
        EmberTransport::answer_again(from, Some(answer))
    }

    /// A first message that is let in.
    fn admit_xx(&mut self, from: SocketAddr, data: &[u8], proven: bool, now: u64) -> (r:
        IncomingResult)
        requires
            old(self)@.wf(),
        ensures
            exists|w: Option<Written>|
                {
                    &&& !old(self)@.seen(packet_digest(PKT_XX_MSG1, data@), now) && heard(
                        awaited(xx(), old(self)@.key@),
                        data@,
                    ).1 is Some ==> answers_xx(old(self)@.key@, data@, w)
                    &&& (final(self)@, r@) == #[trigger] old(self)@.xx_admitted(
                        from,
                        data@,
                        proven,
                        now,
                        w,
                    )
                },
            final(self)@.wf(),
    {
        let ghost v = self@;
        let digest = match self.check_handshake_replay(PKT_XX_MSG1, from, data, now) {
            HandshakeReplay::Fresh { digest } => digest,
            HandshakeReplay::Seen { response } => {
                if response.is_some() && !proven {
                    self.spend_xx_msg2_budget();
                }
                let r = EmberTransport::answer_again(from, response);
                assert((self@, r@) == v.xx_admitted(from, data@, proven, now, None));
                return r;
            },
        };
        let mut responder = match await_peer(xx_name(), &self.local_noise_key) {
            Ok(h) => h,
            Err(_) => {
                return IncomingResult::Rejected;
            },
        };
        if read_handshake(&mut responder, data).is_err() {
            assert((self@, IncomingView::Rejected) == v.xx_admitted(
                from,
                data@,
                proven,
                now,
                None,
            ));
            return IncomingResult::Rejected;
        }
        let empty: Vec<u8> = Vec::new();
        assert(empty@ =~= Seq::<u8>::empty());
        match write_message(&mut responder, empty.as_slice()) {
            Some(bytes) => {
                let ghost w = Written { state: responder, bytes: bytes@ };
                let r = self.accept_xx(from, digest, responder, bytes, proven, now);
                assert((self@, r@) == v.xx_admitted(from, data@, proven, now, Some(w)));
                r
            },
            None => {
                assert((self@, IncomingView::Rejected) == v.xx_admitted(
                    from,
                    data@,
                    proven,
                    now,
                    None,
                ));
                IncomingResult::Rejected
            },
        }
    }

    /// The first message of a peer that does not know our key. One with a
    /// cookie of ours, or within the budget, is answered with the second
    /// message; any other with a cookie.
    fn handle_xx_msg1(&mut self, from: SocketAddr, data: &[u8], now: u64) -> (r: IncomingResult)
        requires
            old(self)@.wf(),
        ensures
            exists|fresh: [u8; 32], prev: [u8; 32], w: Option<Written>|
                {
                    &&& old(self)@.xx_msg1_writes(from, data@, now, fresh, prev, w)
                    &&& (final(self)@, r@) == #[trigger] old(self)@.after_xx_msg1(
                        from,
                        data@,
                        now,
                        fresh,
                        prev,
                        w,
                    )
                },
            final(self)@.wf(),
    {
        let ghost v = self@;
        if self.is_dialling(&from) || data.len() < XX_MSG1_EPHEMERAL_LEN {
            assert((self@, IncomingView::Rejected) == v.after_xx_msg1(
                from,
                data@,
                now,
                v.secret,
                v.secret,
                None,
            ));
            return IncomingResult::Rejected;
        }
        let cookie = copy_from(data, XX_MSG1_EPHEMERAL_LEN);
        let ghost mut fresh = v.secret;
        let ghost mut prev = v.secret;
        if cookie.len() == XX_COOKIE_LEN {
            self.rotate_cookie_secret_if_due(now);
            proof {
                let (f, p) = choose|f: [u8; 32], p: [u8; 32]| self@ == #[trigger] v.rotated(now, f, p);
                fresh = f;
                prev = p;
            }
        }
        let proven = self.xx_cookie_is_valid(from, cookie.as_slice());
        if !proven && !self.xx_msg2_budget_available(now) {
            let ghost u = self@;
            self.rotate_cookie_secret_if_due(now);
            proof {
                let (f, p) = choose|f: [u8; 32], p: [u8; 32]| self@ == #[trigger] u.rotated(now, f, p);
                if cookie@.len() != XX_COOKIE_LEN {
                    fresh = f;
                    prev = p;
                }
                assert(self@ == u.rotated(now, fresh, prev));
            }
            let r = EmberTransport::answer_again(from, Some(self.xx_cookie_packet(from)));
            assert((self@, r@) == v.after_xx_msg1(from, data@, now, fresh, prev, None));
            return r;
        }
        let ghost u = self@;
        let r = self.admit_xx(from, data, proven, now);
        proof {
            let w = choose|w: Option<Written>|
                {
                    &&& !u.seen(packet_digest(PKT_XX_MSG1, data@), now) && heard(
                        awaited(xx(), u.key@),
                        data@,
                    ).1 is Some ==> answers_xx(u.key@, data@, w)
                    &&& (self@, r@) == #[trigger] u.xx_admitted(from, data@, proven, now, w)
                };
            assert(v.xx_gate(from, data@, now, fresh, prev) == (u, Some(proven)));
            assert((self@, r@) == v.after_xx_msg1(from, data@, now, fresh, prev, w));
        }
        r
    }

    /// The second message of a handshake that we began. One that proves nothing
    /// leaves the handshake waiting.
    fn handle_xx_msg2(&mut self, from: SocketAddr, data: &[u8], now: u64) -> (r: IncomingResult)
        requires
            old(self)@.wf(),
        ensures
            exists|w: Option<Written>|
                {
                    &&& old(self)@.xx_msg2_writes(from, data@, w)
                    &&& (final(self)@, r@) == #[trigger] old(self)@.after_xx_msg2(
                        from,
                        data@,
                        now,
                        w,
                    )
                },
            old(self)@.pending.contains_key(from) && old(self)@.pending[from] is XxInitiatorMsg1
                ==> old(self)@.forgery_spoils_nothing(from, data@),
            final(self)@.wf(),
    {
        let ghost v = self@;
        match self.drop_pending(&from) {
            Some(
                PendingHandshake::XxInitiatorMsg1 { state, prior, queued, created, cookie_retried },
            ) => {
                let mut state = state;
                let mut prior = prior;
                let mut reader: Option<HandshakeState> = None;
                if read_handshake(&mut state, data).is_ok() {
                    reader = Some(state);
                } else {
                    let mut spare: Option<HandshakeState> = None;
                    if let Some(p) = prior {
                        let mut p = p;
                        if read_handshake(&mut p, data).is_ok() {
                            reader = Some(p);
                        } else {
                            spare = Some(p);
                        }
                    }
                    if reader.is_none() {
                        self.put_pending(
                            from,
                            PendingHandshake::XxInitiatorMsg1 {
                                state,
                                prior: spare,
                                queued,
                                created,
                                cookie_retried,
                            },
                        );
                        assert(self@.pending =~= v.after_xx_msg2(
                            from,
                            data@,
                            now,
                            None,
                        ).0.pending);
                        assert((self@, IncomingView::Rejected) == v.after_xx_msg2(
                            from,
                            data@,
                            now,
                            None,
                        ));
                        return IncomingResult::Rejected;
                    }
                }
                match reader {
                    Some(h) => self.finish_xx(from, data, h, queued, now, Ghost(v)),
                    None => IncomingResult::Rejected,
                }
            },
            Some(p) => {
                self.put_pending(from, p);
                assert(self@.pending =~= v.pending);
                assert((self@, IncomingView::Rejected) == v.after_xx_msg2(from, data@, now, None));
                IncomingResult::Rejected
            },
            None => {
                assert(self@.pending =~= v.pending);
                assert((self@, IncomingView::Rejected) == v.after_xx_msg2(from, data@, now, None));
                IncomingResult::Rejected
            },
        }
    }

    /// Writes the third message with the first of those that wait, and takes
    /// in the end of the handshake. `v` is the state before the second message.
    fn finish_xx(
        &mut self,
        from: SocketAddr,
        data: &[u8],
        state: HandshakeState,
        queued: Vec<Vec<u8>>,
        now: u64,
        v: Ghost<EmberView>,
    ) -> (r: IncomingResult)
        requires
            old(self)@.wf(),
            old(self)@ == v@.without_pending(from),
            v@.pending.contains_key(from),
            v@.pending[from] matches PendingView::XxInitiatorMsg1 { state: s, prior, queued: q, .. }
                && EmberView::xx_reader(s, prior, data@) == Some(state) && q == bodies(queued@) && (
            heard(s, data@).1 is Some ==> own_static(state) == own_static(s)),
            handshake_stage(state) == (xx(), true, 2nat),
        ensures
            exists|w: Option<Written>|
                {
                    &&& v@.xx_msg2_writes(from, data@, w)
                    &&& (final(self)@, r@) == #[trigger] v@.after_xx_msg2(from, data@, now, w)
                },
            final(self)@.wf(),
    {
        let ghost q = bodies(queued@);
        let mut state = state;
        let payload = if queued.len() > 0 {
            copy_from(queued[0].as_slice(), 0)
        } else {
            Vec::new()
        };
        proof {
            if q.len() > 0 {
                assert(q[0] == queued@[0]@);
                assert(payload@ =~= q[0]);
            } else {
                assert(payload@ =~= Seq::<u8>::empty());
            }
        }
        match write_message(&mut state, payload.as_slice()) {
            Some(bytes) => {
                let ghost w = Written { state, bytes: bytes@ };
                let msg3 = make_packet(PKT_XX_MSG3, bytes.as_slice());
                let ghost m = msg3@;
                let mut first: Vec<Vec<u8>> = Vec::new();
                first.push(msg3);
                assert(bodies(first@) =~= seq![m]);
                let skip: usize = if queued.len() > 0 {
                    1
                } else {
                    0
                };
                assert(q.len() == 0 ==> q.skip(0) =~= q);
                let r = self.accept_session(from, state, false, first, queued, skip, None, now);
                assert((self@, r@) == v@.after_xx_msg2(from, data@, now, Some(w)));
                r
            },
            None => {
                assert((self@, IncomingView::Rejected) == v@.after_xx_msg2(
                    from,
                    data@,
                    now,
                    None,
                ));
                IncomingResult::Rejected
            },
        }
    }

    /// The third message of a handshake that the peer began. One that proves
    /// nothing leaves the handshake waiting.
    fn handle_xx_msg3(&mut self, from: SocketAddr, data: &[u8], now: u64) -> (r: IncomingResult)
        requires
            old(self)@.wf(),
        ensures
            (final(self)@, r@) == old(self)@.after_xx_msg3(from, data@, now),
            final(self)@.wf(),
    {
        let ghost v = self@;
        match self.drop_pending(&from) {
            Some(PendingHandshake::XxResponderMsg2 { state, queued, created }) => {
                let mut state = state;
                match read_handshake(&mut state, data) {
                    Ok(payload) => {
                        let first: Vec<Vec<u8>> = Vec::new();
                        proof {
                            assert(bodies(first@) =~= Seq::<Seq<u8>>::empty());
                            assert(bodies(queued@).skip(0) =~= bodies(queued@));
                        }
                        let payload = if payload.len() > 0 {
                            Some(payload)
                        } else {
                            None
                        };
                        self.accept_session(from, state, false, first, queued, 0, payload, now)
                    },
                    Err(_) => {
                        self.put_pending(
                            from,
                            PendingHandshake::XxResponderMsg2 { state, queued, created },
                        );
                        assert(self@.pending =~= v.after_xx_msg3(from, data@, now).0.pending);
                        IncomingResult::Rejected
                    },
                }
            },
            Some(p) => {
                self.put_pending(from, p);
                assert(self@.pending =~= v.pending);
                IncomingResult::Rejected
            },
            None => {
                assert(self@.pending =~= v.pending);
                IncomingResult::Rejected
            },
        }
    }
    // -- Frames ------------------------------------------------------------
    /// A frame: its nonce, and what is sealed. Where the session in place does
    /// not open it, those that were set aside are tried.
    fn handle_transport(&mut self, from: SocketAddr, data: &[u8], now: u64) -> (r: IncomingResult)
        requires
            old(self)@.wf(),
        ensures
            (final(self)@, r@) == old(self)@.after_frame(from, data@, now),
            final(self)@.wf(),
    {
        if data.len() < 8 {
            return IncomingResult::Rejected;
        }
        let ghost v = self@;
        assert(data@.skip(0) =~= data@);
        let nonce: u64 = read_u64(data, 0);
        let bytes = copy_from(data, 8);
        if let Some(session) = self.sessions.remove(&from) {
            let mut session = session;
            let remote_noise_pub = session.remote_noise_pub;
            let opened = open_and_note(&mut session, nonce, bytes.as_slice(), now);
            self.sessions.insert(from, session);
            match opened {
                Some(payload) => {
                    assert(self@.sessions =~= v.after_frame(from, data@, now).0.sessions);
                    return IncomingResult::Message { from, remote_noise_pub, payload };
                },
                None => {
                    assert(self@.sessions =~= v.sessions);
                },
            }
        } else {
            assert(self@.sessions =~= v.sessions);
        }
        self.open_with_shadow_session(from, nonce, bytes.as_slice(), now)
    }

    /// Of the sessions set aside at an address that open a frame, the one whose
    /// key ranks first, with what the frame holds.
    fn find_opener(&self, from: SocketAddr, nonce: u64, bytes: &[u8]) -> (r: Option<
        (Claim, Vec<u8>),
    >)
        ensures
            match r {
                Some((c, p)) => self@.shadow_opener(from, nonce, bytes@) == Some(c)
                    && self@.is_opener(c, from, nonce, bytes@) && self@.shadows[c].opens(
                    nonce,
                    bytes@,
                ) == Some(p@),
                None => self@.shadow_opener(from, nonce, bytes@) is None,
            },
    {
        let keys = self.shadow_sessions.keys();
        let ghost v = self@;
        let mut best: Option<(Claim, Vec<u8>)> = None;
        let mut i: usize = 0;
        while i < keys.len()
            invariant
                i <= keys@.len(),
                v == self@,
                forall|c: Claim| #[trigger]
                    keys@.contains(c) <==> self.shadow_sessions@.contains_key(c),
                match best {
                    Some((b, p)) => {
                        &&& v.shadow_opens(b, from, nonce, bytes@)
                        &&& v.shadows[b].opens(nonce, bytes@) == Some(p@)
                        &&& forall|j: int|
                            0 <= j < i && v.shadow_opens(
                                #[trigger] keys@[j],
                                from,
                                nonce,
                                bytes@,
                            ) ==> b.rank() <= keys@[j].rank()
                    },
                    None => forall|j: int|
                        0 <= j < i ==> !v.shadow_opens(#[trigger] keys@[j], from, nonce, bytes@),
                },
            decreases keys@.len() - i,
        {
            let c = keys[i];
            assert(keys@.contains(c));
            let better = match &best {
                Some((b, _)) => c.before(b),
                None => true,
            };
            if c.addr == from && better {
                if let Some(s) = self.shadow_sessions.get(&c) {
                    if let Some(p) = s.open(nonce, bytes) {
                        best = Some((c, p));
                    }
                }
            }
            i = i + 1;
        }
        proof {
            match best {
                Some((b, _)) => {
                    assert forall|o: Claim| #[trigger]
                        v.shadow_opens(o, from, nonce, bytes@) implies b.rank() <= o.rank() by {
                        assert(keys@.contains(o));
                        let j = choose|j: int| 0 <= j < keys@.len() && keys@[j] == o;
                        assert(v.shadow_opens(keys@[j], from, nonce, bytes@));
                    }
                    assert(v.is_opener(b, from, nonce, bytes@));
                    let o = choose|c: Claim| v.is_opener(c, from, nonce, bytes@);
                    assert(v.shadow_opens(o, from, nonce, bytes@));
                    assert(b.rank() == o.rank());
                    b.lemma_rank(o);
                },
                None => {
                    assert forall|c: Claim| !v.is_opener(c, from, nonce, bytes@) by {
                        if v.shadow_opens(c, from, nonce, bytes@) {
                            assert(keys@.contains(c));
                            let j = choose|j: int| 0 <= j < keys@.len() && keys@[j] == c;
                            assert(v.shadow_opens(keys@[j], from, nonce, bytes@));
                        }
                    }
                },
            }
        }
        best
    }

    /// Tries a frame on the sessions set aside at an address. One that opens it
    /// takes its place back.
    fn open_with_shadow_session(
        &mut self,
        from: SocketAddr,
        nonce: u64,
        bytes: &[u8],
        now: u64,
    ) -> (r: IncomingResult)
        requires
            old(self)@.wf(),
        ensures
            (final(self)@, r@) == old(self)@.after_shadow_frame(from, nonce, bytes@, now),
            final(self)@.wf(),
    {
        match self.find_opener(from, nonce, bytes) {
            Some((claim, payload)) => match self.shadow_sessions.remove(&claim) {
                Some(session) => {
                    let mut session = session;
                    let remote_noise_pub = session.remote_noise_pub;
                    session.note_opened(nonce, now);
                    self.install_session(from, session);
                    IncomingResult::Message { from, remote_noise_pub, payload }
                },
                None => IncomingResult::Rejected,
            },
            None => IncomingResult::Rejected,
        }
    }

    /// Looks at a packet. A first message that is taken in earns fewer bytes
    /// than it has, so a forged address gains nothing; and an answer that is
    /// forged spoils nothing for the true one.
    pub fn process_incoming(&mut self, data: &[u8], from: SocketAddr, now: u64) -> (r:
        IncomingResult)
        requires
            old(self)@.wf(),
        ensures
            exists|luck: Luck|
                {
                    &&& old(self)@.writes(data@, from, now, luck)
                    &&& (final(self)@, r@) == #[trigger] old(self)@.after_packet(
                        data@,
                        from,
                        now,
                        luck,
                    )
                },
            is_framed(data@) && old(self)@.awaits_answer(from, data@[2])
                ==> old(self)@.forgery_spoils_nothing(from, data@.skip(HEADER_LEN as int)),
            r@ is HandshakeComplete && data@[2] == PKT_IK_INIT ==> total_len(
                r@->packets_to_send,
            ) < data@.len(),
            final(self)@.wf(),
    {
        let ghost v = self@;
        let ghost none = Luck {
            fresh: v.secret,
            fresh_prev: v.secret,
            written: None,
            probe: 0,
        };
        if data.len() > MAX_EMBER_DATAGRAM_BYTES || data.len() < HEADER_LEN || data[0]
            != EMBER_MAGIC[0] || data[1] != EMBER_MAGIC[1] {
            assert((self@, IncomingView::Rejected) == v.after_packet(data@, from, now, none));
            return IncomingResult::Rejected;
        }
        let pkt_type: u8 = data[2];
        let body = copy_from(data, HEADER_LEN);
        if pkt_type == PKT_IK_INIT {
            let r = self.handle_ik_init(from, body.as_slice(), now);
            proof {
                let (w, probe) = choose|w: Option<Written>, probe: u64|
                    {
                        &&& v.ik_init_writes(from, body@, now, w)
                        &&& (self@, r@) == #[trigger] v.after_ik_init(from, body@, now, w, probe)
                    };
                let luck = Luck { written: w, probe, ..none };
                assert((self@, r@) == v.after_packet(data@, from, now, luck));
            }
            r
        } else if pkt_type == PKT_IK_RESP {
            let r = self.handle_ik_resp(from, body.as_slice(), now);
            assert((self@, r@) == v.after_packet(data@, from, now, none));
            r
        } else if pkt_type == PKT_XX_MSG1 {
            let r = self.handle_xx_msg1(from, body.as_slice(), now);
            proof {
                let (f, p, w) = choose|f: [u8; 32], p: [u8; 32], w: Option<Written>|
                    {
                        &&& v.xx_msg1_writes(from, body@, now, f, p, w)
                        &&& (self@, r@) == #[trigger] v.after_xx_msg1(from, body@, now, f, p, w)
                    };
                let luck = Luck { fresh: f, fresh_prev: p, written: w, probe: 0 };
                assert((self@, r@) == v.after_packet(data@, from, now, luck));
            }
            r
        } else if pkt_type == PKT_XX_MSG2 {
            let r = self.handle_xx_msg2(from, body.as_slice(), now);
            proof {
                let w = choose|w: Option<Written>|
                    {
                        &&& v.xx_msg2_writes(from, body@, w)
                        &&& (self@, r@) == #[trigger] v.after_xx_msg2(from, body@, now, w)
                    };
                let luck = Luck { written: w, ..none };
                assert((self@, r@) == v.after_packet(data@, from, now, luck));
            }
            r
        } else if pkt_type == PKT_XX_MSG3 {
            let r = self.handle_xx_msg3(from, body.as_slice(), now);
            assert((self@, r@) == v.after_packet(data@, from, now, none));
            r
        } else if pkt_type == PKT_XX_COOKIE {
            let r = self.handle_xx_cookie(from, body.as_slice(), now);
            proof {
                let w = choose|w: Option<Written>|
                    {
                        &&& v.xx_cookie_writes(from, body@, w)
                        &&& (self@, r@) == #[trigger] v.after_xx_cookie(from, body@, now, w)
                    };
                let luck = Luck { written: w, ..none };
                assert((self@, r@) == v.after_packet(data@, from, now, luck));
            }
            r
        } else if pkt_type == PKT_TRANSPORT {
            let r = self.handle_transport(from, body.as_slice(), now);
            assert((self@, r@) == v.after_packet(data@, from, now, none));
            r
        } else {
            assert((self@, IncomingView::Rejected) == v.after_packet(data@, from, now, none));
            IncomingResult::Rejected
        }
    }

    // -- Sending -----------------------------------------------------------
    /// Drops a session that has proven nothing and is not that of the key that
    /// we want to reach.
    fn discard_squatter(&mut self, peer: SocketAddr, want: Option<[u8; 32]>)
        requires
            old(self)@.wf(),
        ensures
            final(self)@ == old(self)@.unsquatted(peer, want),
            final(self)@.wf(),
    {
        broadcast use group_views;

        let ghost v = self@;
        let squatted = match (want, self.sessions.get(&peer)) {
            (Some(key), Some(s)) => !s.addr_validated && !same_key(&s.remote_noise_pub, &key),
            _ => false,
        };
        if squatted {
            if let Some(displaced) = self.sessions.remove(&peer) {
                self.deferred_ik.remove(&Claim { addr: peer, key: displaced.remote_noise_pub });
            }
        }
    }

    /// Seals a message for a peer, or queues it behind the handshake that is
    /// under way, or begins one: with the peer's static key where it is given.
    pub fn prepare_outgoing(
        &mut self,
        peer: SocketAddr,
        remote_noise_pub: Option<&[u8; 32]>,
        message: &[u8],
        now: u64,
    ) -> (r: OutgoingResult)
        requires
            old(self)@.wf(),
        ensures
            exists|w: Option<Written>|
                {
                    &&& old(self)@.outgoing_writes(peer, key_value(remote_noise_pub), message@, w)
                    &&& (final(self)@, r@) == #[trigger] old(self)@.after_outgoing(
                        peer,
                        key_value(remote_noise_pub),
                        message@,
                        now,
                        w,
                    )
                },
            r is Ready ==> old(self)@.sessions[peer].round_trips(message@),
            final(self)@.wf(),
    {
        let want: Option<[u8; 32]> = match remote_noise_pub {
            Some(k) => Some(*k),
            None => None,
        };
        let ghost v0 = self@;
        self.discard_squatter(peer, want);
        let ghost v = self@;
        if let Some(session) = self.sessions.remove(&peer) {
            let mut session = session;
            let ghost s0 = session;
            session.last_activity = now;
            match session.seal(message) {
                Some(packet) => {
                    self.sessions.insert(peer, session);
                    proof {
                        let (u, _) = v0.after_outgoing(
                            peer,
                            want,
                            message@,
                            now,
                            None,
                        );
                        assert(self@.sessions =~= u.sessions);
                        assert((self@, OutgoingView::Ready { packet: packet@ })
                            == v0.after_outgoing(peer, want, message@, now, None));
                        assert(s0.round_trips(message@)) by {
                            let s1 = NoiseSession { last_activity: now, ..s0 };
                            assert(s1.round_trips(message@));
                        }
                    }
                    return OutgoingResult::Ready { packet };
                },
                None => {
                    assert((self@, OutgoingView::Error(NoiseFailure::Encrypt))
                        == v0.after_outgoing(peer, want, message@, now, None));
                    return OutgoingResult::Error(NoiseFailure::Encrypt);
                },
            }
        }
        assert(self@.sessions =~= v.sessions);
        if let Some(p) = self.drop_pending(&peer) {
            let ghost before = p@;
            let waiting = queue_behind(p, message);
            self.put_pending(peer, waiting);
            proof {
                let (u, _) = v0.after_outgoing(peer, want, message@, now, None);
                assert(self@.pending =~= u.pending);
                assert((self@, OutgoingView::Queued) == v0.after_outgoing(
                    peer,
                    want,
                    message@,
                    now,
                    None,
                ));
            }
            return OutgoingResult::Queued;
        }
        assert(self@.pending =~= v.pending);
        self.evict_oldest_pending();
        match remote_noise_pub {
            Some(key) => self.start_ik_handshake(peer, key, message, now, Ghost(v0)),
            None => self.start_xx_handshake(peer, message, now, Ghost(v0)),
        }
    }

    /// Begins a handshake with a peer whose static key is known. The first
    /// message carries ours. `v` is the state before the message came.
    fn start_ik_handshake(
        &mut self,
        peer: SocketAddr,
        remote_pub: &[u8; 32],
        first_message: &[u8],
        now: u64,
        v: Ghost<EmberView>,
    ) -> (r: OutgoingResult)
        requires
            old(self)@.wf(),
            old(self)@.pending.dom().len() < MAX_PENDING,
            v@.begins(peer, Some(*remote_pub)),
            old(self)@ == v@.unsquatted(peer, Some(*remote_pub)).pending_room(),
        ensures
            exists|w: Option<Written>|
                {
                    &&& v@.outgoing_writes(peer, Some(*remote_pub), first_message@, w)
                    &&& (final(self)@, r@) == #[trigger] v@.after_outgoing(
                        peer,
                        Some(*remote_pub),
                        first_message@,
                        now,
                        w,
                    )
                },
            !(r is Ready),
            final(self)@.wf(),
    {
        let mut initiator = match begin_with(ik_name(), &self.local_noise_key, remote_pub) {
            Ok(h) => h,
            Err(_) => {
                return OutgoingResult::Error(NoiseFailure::Init);
            },
        };
        match write_message(&mut initiator, first_message) {
            Some(bytes) => {
                let queued: Vec<Vec<u8>> = Vec::new();
                assert(bodies(queued@) =~= Seq::<Seq<u8>>::empty());
                let ghost w = Written { state: initiator, bytes: bytes@ };
                self.put_pending(
                    peer,
                    PendingHandshake::IkInitiator { state: initiator, queued, created: now },
                );
                let packet = make_packet(PKT_IK_INIT, bytes.as_slice());
                assert((self@, OutgoingView::HandshakeStarted { packet: packet@ })
                    == v@.after_outgoing(peer, Some(*remote_pub), first_message@, now, Some(w)));
                OutgoingResult::HandshakeStarted { packet }
            },
            None => {
                assert((self@, OutgoingView::Error(NoiseFailure::Write)) == v@.after_outgoing(
                    peer,
                    Some(*remote_pub),
                    first_message@,
                    now,
                    None,
                ));
                OutgoingResult::Error(NoiseFailure::Write)
            },
        }
    }

    /// Begins a handshake with a peer whose static key is not known. The
    /// message waits for it. `v` is the state before the message came.
    fn start_xx_handshake(
        &mut self,
        peer: SocketAddr,
        first_message: &[u8],
        now: u64,
        v: Ghost<EmberView>,
    ) -> (r: OutgoingResult)
        requires
            old(self)@.wf(),
            old(self)@.pending.dom().len() < MAX_PENDING,
            v@.begins(peer, None),
            old(self)@ == v@.unsquatted(peer, None).pending_room(),
        ensures
            exists|w: Option<Written>|
                {
                    &&& v@.outgoing_writes(peer, None, first_message@, w)
                    &&& (final(self)@, r@) == #[trigger] v@.after_outgoing(
                        peer,
                        None,
                        first_message@,
                        now,
                        w,
                    )
                },
            !(r is Ready),
            final(self)@.wf(),
    {
        let empty: Vec<u8> = Vec::new();
        assert(empty@ =~= Seq::<u8>::empty());
        match self.build_xx_msg1(empty.as_slice()) {
            Ok((initiator, bytes)) => {
                let mut queued: Vec<Vec<u8>> = Vec::new();
                let m = copy_from(first_message, 0);
                assert(m@ =~= first_message@);
                queued.push(m);
                assert(bodies(queued@) =~= seq![first_message@]);
                let ghost w = Written { state: initiator, bytes: bytes@ };
                self.put_pending(
                    peer,
                    PendingHandshake::XxInitiatorMsg1 {
                        state: initiator,
                        prior: None,
                        queued,
                        created: now,
                        cookie_retried: false,
                    },
                );
                let packet = make_packet(PKT_XX_MSG1, bytes.as_slice());
                assert((self@, OutgoingView::HandshakeStarted { packet: packet@ })
                    == v@.after_outgoing(peer, None, first_message@, now, Some(w)));
                OutgoingResult::HandshakeStarted { packet }
            },
            Err(e) => {
                assert((self@, OutgoingView::Error(e)) == v@.after_outgoing(
                    peer,
                    None,
                    first_message@,
                    now,
                    None,
                ));
                OutgoingResult::Error(e)
            },
        }
    }
    // -- Dispatch ----------------------------------------------------------
    /// Takes out the request that waited for a peer to prove its address.
    fn take_deferred_ik(&mut self, from: SocketAddr, remote_noise_pub: &[u8; 32], now: u64) -> (r:
        Option<Vec<u8>>)
        requires
            old(self)@.wf(),
        ensures
            (final(self)@, opt_bytes(r)) == old(self)@.released(from, *remote_noise_pub, now),
            final(self)@.wf(),
    {
        broadcast use group_views;

        match self.deferred_ik.remove(&Claim { addr: from, key: *remote_noise_pub }) {
            Some(entry) => if ms_since(entry.stored, now) < DEFERRED_IK_PAYLOAD_TTL_MS {
                Some(entry.payload)
            } else {
                None
            },
            None => None,
        }
    }

    /// Whether a payload answers the probe that went out on a session. If so,
    /// none is expected any more.
    fn consume_probe_answer(&mut self, from: SocketAddr, payload: &[u8]) -> (r: bool)
        requires
            old(self)@.wf(),
        ensures
            (final(self)@, r) == old(self)@.probe_answered(from, payload@),
            final(self)@.wf(),
    {
        let ghost v = self@;
        let expected: u64 = match self.sessions.get(&from) {
            Some(s) => match s.probe_nonce {
                Some(n) => n,
                None => {
                    return false;
                },
            },
            None => {
                return false;
            },
        };
        let answered = match EmberControlMessage::decode(payload) {
            Some(EmberControlMessage::Pong { nonce }) => nonce == expected,
            _ => false,
        };
        if !answered {
            return false;
        }
        if let Some(session) = self.sessions.remove(&from) {
            let mut session = session;
            session.probe_nonce = None;
            self.sessions.insert(from, session);
            assert(self@.sessions =~= v.probe_answered(from, payload@).0.sessions);
        }
        true
    }

    /// Hands a payload up. A ping is answered here.
    fn surface(&mut self, o: DispatchOutcome, from: SocketAddr, payload: Vec<u8>, now: u64) -> (r:
        DispatchOutcome)
        requires
            old(self)@.wf(),
        ensures
            exists|w: Option<Written>|
                {
                    &&& old(self)@.surface_writes(from, payload@, w)
                    &&& (final(self)@, r@) == #[trigger] old(self)@.surfaced(
                        o@,
                        from,
                        payload@,
                        now,
                        w,
                    )
                },
            final(self)@.wf(),
    {
        let ghost v = self@;
        let ghost bytes = payload@;
        let mut out = o;
        match EmberControlMessage::decode(payload.as_slice()) {
            None => {
                out.app_payloads.push(payload);
                proof {
                    assert(bodies(out.app_payloads@) =~= o@.app_payloads.push(bytes));
                    assert((self@, out@) == v.surfaced(o@, from, bytes, now, None));
                }
                out
            },
            Some(message) => {
                let ghost m = message@;
                let mut asked: Option<u64> = None;
                if let EmberControlMessage::Ping { nonce } = &message {
                    asked = Some(*nonce);
                }
                out.controls.push(message);
                assert(control_views(out.controls@) =~= o@.controls.push(m));
                let nonce: u64 = match asked {
                    Some(n) => n,
                    None => {
                        assert((self@, out@) == v.surfaced(o@, from, bytes, now, None));
                        return out;
                    },
                };
                let pong = EmberControlMessage::Pong { nonce }.encode();
                let ghost q = out@;
                let r = self.prepare_outgoing(from, None, pong.as_slice(), now);
                let ghost w = choose|w: Option<Written>|
                    {
                        &&& v.outgoing_writes(from, None, pong@, w)
                        &&& (self@, r@) == #[trigger] v.after_outgoing(from, None, pong@, now, w)
                    };
                if let OutgoingResult::Ready { packet } = r {
                    let ghost p = packet@;
                    out.responses.push(packet);
                    assert(bodies(out.responses@) =~= q.responses.push(p));
                }
                assert((self@, out@) == v.surfaced(o@, from, bytes, now, w));
                out
            },
        }
    }

    /// Hands up the request that waited and the payload that came now, unless
    /// that answers our probe.
    fn deliver(
        &mut self,
        o: DispatchOutcome,
        from: SocketAddr,
        waited: Option<Vec<u8>>,
        payload: Vec<u8>,
        now: u64,
    ) -> (r: DispatchOutcome)
        requires
            old(self)@.wf(),
        ensures
            exists|w1: Option<Written>, w2: Option<Written>|
                {
                    &&& old(self)@.delivery_writes(
                        o@,
                        from,
                        opt_bytes(waited),
                        payload@,
                        now,
                        w1,
                        w2,
                    )
                    &&& (final(self)@, r@) == #[trigger] old(self)@.delivered(
                        o@,
                        from,
                        opt_bytes(waited),
                        payload@,
                        now,
                        w1,
                        w2,
                    )
                },
            final(self)@.wf(),
    {
        let ghost v0 = self@;
        let ghost wait = opt_bytes(waited);
        let ghost bytes = payload@;
        let answered = self.consume_probe_answer(from, payload.as_slice());
        let ghost v = self@;
        let ghost mut w1: Option<Written> = None;
        let mut out = o;
        if let Some(p) = waited {
            let ghost pb = p@;
            out = self.surface(out, from, p, now);
            proof {
                w1 =
                choose|w: Option<Written>|
                    {
                        &&& v.surface_writes(from, pb, w)
                        &&& (self@, out@) == #[trigger] v.surfaced(o@, from, pb, now, w)
                    };
            }
        }
        if answered {
            assert((self@, out@) == v0.delivered(o@, from, wait, bytes, now, w1, None));
            return out;
        }
        let ghost v1 = self@;
        let ghost o1 = out@;
        let r = self.surface(out, from, payload, now);
        proof {
            let w2 = choose|w: Option<Written>|
                {
                    &&& v1.surface_writes(from, bytes, w)
                    &&& (self@, r@) == #[trigger] v1.surfaced(o1, from, bytes, now, w)
                };
            assert((self@, r@) == v0.delivered(o@, from, wait, bytes, now, w1, w2));
        }
        r
    }

    /// Does what a packet that was looked at asks for.
    pub fn dispatch_result(&mut self, result: IncomingResult, from: SocketAddr, now: u64) -> (r:
        DispatchOutcome)
        requires
            old(self)@.wf(),
        ensures
            exists|w1: Option<Written>, w2: Option<Written>|
                {
                    &&& old(self)@.dispatch_writes(result@, from, now, w1, w2)
                    &&& (final(self)@, r@) == #[trigger] old(self)@.dispatched(
                        result@,
                        from,
                        now,
                        w1,
                        w2,
                    )
                },
            final(self)@.wf(),
    {
        let ghost v = self@;
        let mut outcome = DispatchOutcome::default();
        match result {
            IncomingResult::Rejected => {
                outcome.rejected = true;
                assert((self@, outcome@) == v.dispatched(result@, from, now, None, None));
                outcome
            },
            IncomingResult::HandshakeResponse { packets, .. } => {
                outcome.responses = packets;
                assert((self@, outcome@) == v.dispatched(result@, from, now, None, None));
                outcome
            },
            IncomingResult::Message { remote_noise_pub, payload, .. } => {
                let waited = self.take_deferred_ik(from, &remote_noise_pub, now);
                let ghost u = self@;
                let ghost wait = opt_bytes(waited);
                let ghost bytes = payload@;
                outcome.remote_noise_pub = Some(remote_noise_pub);
                let ghost o = outcome@;
                let r = self.deliver(outcome, from, waited, payload, now);
                proof {
                    let (w1, w2) = choose|w1: Option<Written>, w2: Option<Written>|
                        {
                            &&& u.delivery_writes(o, from, wait, bytes, now, w1, w2)
                            &&& (self@, r@) == #[trigger] u.delivered(
                                o,
                                from,
                                wait,
                                bytes,
                                now,
                                w1,
                                w2,
                            )
                        };
                    assert((self@, r@) == v.dispatched(result@, from, now, w1, w2));
                }
                r
            },
            IncomingResult::HandshakeComplete {
                remote_noise_pub,
                packets_to_send,
                decrypted_payload,
                ..
            } => {
                outcome.responses = packets_to_send;
                outcome.remote_noise_pub = Some(remote_noise_pub);
                let ghost o = outcome@;
                match decrypted_payload {
                    Some(payload) => {
                        let ghost bytes = payload@;
                        let r = self.deliver(outcome, from, None, payload, now);
                        proof {
                            let (w1, w2) = choose|w1: Option<Written>, w2: Option<Written>|
                                {
                                    &&& v.delivery_writes(o, from, None, bytes, now, w1, w2)
                                    &&& (self@, r@) == #[trigger] v.delivered(
                                        o,
                                        from,
                                        None,
                                        bytes,
                                        now,
                                        w1,
                                        w2,
                                    )
                                };
                            assert((self@, r@) == v.dispatched(result@, from, now, w1, w2));
                        }
                        r
                    },
                    None => {
                        assert((self@, outcome@) == v.dispatched(result@, from, now, None, None));
                        outcome
                    },
                }
            },
        }
    }

    /// Looks at a packet and does all that it asks for. Nothing is sent: what
    /// has to be is in the outcome.
    pub fn dispatch_incoming(&mut self, data: &[u8], from: SocketAddr, now: u64) -> (r:
        DispatchOutcome)
        requires
            old(self)@.wf(),
        ensures
            exists|luck: Luck, w1: Option<Written>, w2: Option<Written>|
                {
                    &&& old(self)@.all_writes(data@, from, now, luck, w1, w2)
                    &&& (final(self)@, r@) == #[trigger] old(self)@.after_dispatch(
                        data@,
                        from,
                        now,
                        luck,
                        w1,
                        w2,
                    )
                },
            final(self)@.wf(),
    {
        let ghost v = self@;
        let result = self.process_incoming(data, from, now);
        let ghost u = self@;
        let ghost seen = result@;
        let r = self.dispatch_result(result, from, now);
        proof {
            let luck = choose|luck: Luck|
                {
                    &&& v.writes(data@, from, now, luck)
                    &&& (u, seen) == #[trigger] v.after_packet(data@, from, now, luck)
                };
            let (w1, w2) = choose|w1: Option<Written>, w2: Option<Written>|
                {
                    &&& u.dispatch_writes(seen, from, now, w1, w2)
                    &&& (self@, r@) == #[trigger] u.dispatched(seen, from, now, w1, w2)
                };
            assert((self@, r@) == v.after_dispatch(data@, from, now, luck, w1, w2));
        }
        r
    }

    // -- Cleaning ----------------------------------------------------------
    /// Drops everything that has lasted too long.
    pub fn cleanup(&mut self, now: u64)
        requires
            old(self)@.wf(),
        ensures
            final(self)@ == old(self)@.cleaned(now),
            final(self)@.wf(),
    {
        broadcast use group_views;

        let ghost v = self@;
        proof {
            lemma_pending_stamps(self.pending@);
            lemma_recent_stamps(self.recent_handshakes@);
            lemma_deferred_stamps(self.deferred_ik@);
        }
        keep_younger(&mut self.sessions, now, SESSION_TIMEOUT_MS);
        keep_younger(&mut self.shadow_sessions, now, SESSION_TIMEOUT_MS);
        keep_younger(&mut self.pending, now, PENDING_TIMEOUT_MS);
        keep_younger(&mut self.recent_handshakes, now, HANDSHAKE_REPLAY_TTL_MS);
        keep_younger(&mut self.deferred_ik, now, DEFERRED_IK_PAYLOAD_TTL_MS);
        assert forall|a: SocketAddr| #[trigger] self@.pending.contains_key(
            a,
        ) implies self@.pending[a].wf() by {
            assert(v.pending.contains_key(a));
        }
    }

    /// Forgets a peer.
    pub fn remove_session(&mut self, addr: &SocketAddr)
        requires
            old(self)@.wf(),
        ensures
            final(self)@ == old(self)@.forgotten(*addr),
            final(self)@.wf(),
    {
        broadcast use group_views;

        let ghost v = self@;
        self.sessions.remove(addr);
        drop_claims(&mut self.shadow_sessions, *addr);
        let _ = self.drop_pending(addr);
        drop_claims(&mut self.deferred_ik, *addr);
        assert(self@.deferred =~= v.forgotten(*addr).deferred);
    }

    /// Forgets every peer.
    pub fn cleanup_all(&mut self)
        requires
            old(self)@.wf(),
        ensures
            final(self)@ == old(self)@.emptied(),
            final(self)@.wf(),
    {
        self.sessions = KeyMap::new();
        self.shadow_sessions = KeyMap::new();
        self.pending = KeyMap::new();
        self.recent_handshakes = KeyMap::new();
        self.deferred_ik = KeyMap::new();
        assert(self@.pending =~= Map::empty());
        assert(self@.recent =~= Map::empty());
        assert(self@.deferred =~= Map::empty());
    }
}

fn copy_option(o: &Option<Vec<u8>>) -> (r: Option<Vec<u8>>)
    ensures
        opt_bytes(r) == opt_bytes(*o),
{
    match o {
        Some(b) => {
            let v = copy_from(b.as_slice(), 0);
            assert(v@ =~= b@);
            Some(v)
        },
        None => None,
    }
}

/// The static key of the other side, where it is known and well formed.
fn extract_remote_static(h: &HandshakeState) -> (r: Option<[u8; 32]>)
    ensures
        r == remote_key(*h),
{
    match get_remote_static(h) {
        Some(k) => {
            if k.len() != 32 {
                return None;
            }
            Some(vec_to_32(&k))
        },
        None => None,
    }
}

/// What writing gave, as the outcome that it is.
pub open spec fn outcome(h: HandshakeState, r: Option<Vec<u8>>) -> Option<Written> {
    match r {
        Some(b) => Some(Written { state: h, bytes: b@ }),
        None => None,
    }
}

/// Writes the next message of a handshake.
fn write_message(h: &mut HandshakeState, payload: &[u8]) -> (r: Option<Vec<u8>>)
    ensures
        possible(*old(h), payload@, outcome(*final(h), r)),
{
    let len: usize = if payload.len() > MAX_NOISE_MESSAGE {
        MAX_NOISE_MESSAGE
    } else {
        payload.len()
    };
    match write_handshake(h, payload, len + 256) {
        Ok(b) => Some(b),
        Err(_) => None,
    }
}

/// Whether this can be the second message of a handshake after its first.
spec fn answers_xx(key: Seq<u8>, data: Seq<u8>, w: Option<Written>) -> bool {
    let h = heard(awaited(xx(), key), data).0;
    possible(h, Seq::empty(), w) && handshake_stage(h) == (xx(), false, 1nat) && own_static(h)
        == public_key(key)
}

/// Queues a message behind a handshake.
fn queue_behind(p: PendingHandshake, message: &[u8]) -> (r: PendingHandshake)
    ensures
        r@ == p@.with_queue(EmberView::queued_with(p@.queued(), message@)),
{
    match p {
        PendingHandshake::IkInitiator { state, queued, created } => PendingHandshake::IkInitiator {
            state,
            queued: push_bounded(queued, message),
            created,
        },
        PendingHandshake::XxInitiatorMsg1 { state, prior, queued, created, cookie_retried } =>
            PendingHandshake::XxInitiatorMsg1 {
                state,
                prior,
                queued: push_bounded(queued, message),
                created,
                cookie_retried,
            },
        PendingHandshake::XxResponderMsg2 { state, queued, created } =>
            PendingHandshake::XxResponderMsg2 {
                state,
                queued: push_bounded(queued, message),
                created,
            },
    }
}

fn push_bounded(queued: Vec<Vec<u8>>, message: &[u8]) -> (r: Vec<Vec<u8>>)
    ensures
        bodies(r@) == EmberView::queued_with(bodies(queued@), message@),
{
    let mut q = queued;
    let ghost before = bodies(q@);
    let m = copy_from(message, 0);
    assert(m@ =~= message@);
    if q.len() >= MAX_QUEUED_PER_HANDSHAKE {
        let _ = q.remove(0);
        assert(bodies(q@) =~= before.skip(1));
    }
    let ghost rest = bodies(q@);
    q.push(m);
    assert(bodies(q@) =~= rest.push(message@));
    q
}

/// Drops all that claim an address.
fn drop_claims<V>(m: &mut KeyMap<Claim, V>, addr: SocketAddr)
    ensures
        final(m)@ == old(m)@.remove_keys(Set::new(|c: Claim| c.addr == addr)),
        old(m)@.dom().finite() ==> final(m)@.dom().len() <= old(m)@.dom().len(),
        final(m)@.dom().finite(),
{
    let ghost m0 = m@;
    let keys = m.keys();
    let n: usize = m.len();
    let mut i: usize = 0;
    while i < keys.len()
        invariant
            i <= keys@.len(),
            forall|c: Claim| #[trigger] keys@.contains(c) <==> m0.contains_key(c),
            forall|c: Claim| #[trigger]
                m@.contains_key(c) <==> m0.contains_key(c) && !(c.addr == addr && keys@.take(
                    i as int,
                ).contains(c)),
            forall|c: Claim| #[trigger] m@.contains_key(c) ==> m@[c] == m0[c],
        decreases keys@.len() - i,
    {
        let c = keys[i];
        if c.addr == addr {
            m.remove(&c);
        }
        proof {
            let (a, b) = (keys@.take(i as int), keys@.take(i as int + 1));
            assert(b =~= a.push(c));
            assert forall|q: Claim| b.contains(q) <==> a.contains(q) || q == c by {
                if a.contains(q) {
                    let j = choose|j: int| 0 <= j < a.len() && a[j] == q;
                    assert(b[j] == q);
                }
                assert(b[i as int] == c);
            }
        }
        i = i + 1;
    }
    proof {
        assert(keys@.take(i as int) =~= keys@);
        let want = m0.remove_keys(Set::new(|c: Claim| c.addr == addr));
        assert forall|c: Claim| m@.contains_key(c) <==> want.contains_key(c) by {
            assert(keys@.contains(c) <==> m0.contains_key(c));
        }
        assert(m@ =~= want);
        assert(m@.dom().subset_of(m0.dom()));
        vstd::set_lib::lemma_len_subset(m@.dom(), m0.dom());
    }
}

} // verus!
