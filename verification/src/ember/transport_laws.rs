//! What holds of the transport as a whole.
use vstd::prelude::*;

use crate::bytes::{from_le64, le64, lemma_le64_round_trip};
use crate::clock::elapsed;
use crate::ember::control::dec_control;
use crate::ember::eviction::{
    claims_at, excess, is_newest_at, newest_at, no_newer, stamps, trimmed, without_newest,
    without_oldest, Claim,
};
use crate::ember::noise::{
    awaited, begun, begun_with, handshake_stage, heard, ik, in_step, lemma_patterns_differ,
    own_static, paired, public_key, remote_static, sealed, sending_key, transport_of, xx,
};
use crate::ember::session::{lemma_frame_once, packet, NoiseSession};
use crate::ember::state::{
    cookie_for, packet_digest, possible, remote_key, xx_starts, EmberView, IncomingView, Luck,
    OutcomeView, PendingView, Written, HANDSHAKE_REPLAY_TTL_MS, HEADER_LEN,
    MAX_EMBER_DATAGRAM_BYTES, MAX_SHADOW_SESSIONS, MAX_SHADOW_SESSIONS_PER_ADDR, PKT_IK_INIT,
    PKT_XX_MSG1, XX_COOKIE_LEN, XX_COOKIE_ROTATION_MS, XX_MSG1_EPHEMERAL_LEN,
};
use crate::net::SocketAddr;
use crate::rank::Ranked;

verus! {

// ---------------------------------------------------------------------------
// Frames
// ---------------------------------------------------------------------------
/// A peer whose session has the matching keys, and has not seen the nonce yet,
/// reads from a frame exactly the message that was sealed into it.
pub proof fn lemma_frame_delivered(
    s: NoiseSession,
    message: Seq<u8>,
    peer: EmberView,
    from: SocketAddr,
    now: u64,
    luck: Luck,
)
    requires
        s.round_trips(message),
        s.frame(message).len() <= MAX_EMBER_DATAGRAM_BYTES,
        peer.sessions.contains_key(from),
        paired(s.transport, peer.sessions[from].transport),
        peer.sessions[from].accepts(s.send_nonce),
    ensures
        peer.after_packet(s.frame(message), from, now, luck).1 == (IncomingView::Message {
            from,
            remote_noise_pub: peer.sessions[from].remote_noise_pub,
            payload: message,
        }),
        peer.after_packet(s.frame(message), from, now, luck).0.sessions[from].addr_validated,
{
    let inner = sealed(sending_key(s.transport)->Some_0, s.send_nonce, message);
    let body = le64(s.send_nonce) + inner;
    let data = s.frame(message);
    assert(data.skip(HEADER_LEN as int) =~= body);
    lemma_le64_round_trip(s.send_nonce, inner);
    assert(body.skip(8) =~= inner);
    assert(from_le64(body) == s.send_nonce);
}

/// A frame that is not taken changes nothing: no datagram, forged or stray,
/// tears a session down.
pub proof fn lemma_rejected_frame_harmless(v: EmberView, from: SocketAddr, data: Seq<u8>, now: u64)
    requires
        v.after_frame(from, data, now).1 is Rejected,
    ensures
        v.after_frame(from, data, now).0 == v,
{
}

/// A frame that the session in place has taken is not taken again.
pub proof fn lemma_replayed_frame_rejected(
    v: EmberView,
    from: SocketAddr,
    data: Seq<u8>,
    now: u64,
    later: u64,
)
    requires
        data.len() >= 8,
        v.sessions.contains_key(from),
        v.sessions[from].opens(from_le64(data), data.skip(8)) is Some,
        v.shadow_opener(from, from_le64(data), data.skip(8)) is None,
    ensures
        v.after_frame(from, data, now).1 is Message,
        v.after_frame(from, data, now).0.after_frame(from, data, later) == (
            v.after_frame(from, data, now).0,
            IncomingView::Rejected,
        ),
{
    let (nonce, bytes) = (from_le64(data), data.skip(8));
    let w = v.after_frame(from, data, now).0;
    lemma_frame_once(v.sessions[from], nonce, bytes, now);
    assert(w.shadows == v.shadows);
    assert forall|c: Claim| w.shadow_opens(c, from, nonce, bytes) == v.shadow_opens(
        c,
        from,
        nonce,
        bytes,
    ) by {}
    assert forall|c: Claim| !w.is_opener(c, from, nonce, bytes) by {
        if w.is_opener(c, from, nonce, bytes) {
            assert(v.shadow_opens(c, from, nonce, bytes));
            assert forall|o: Claim| #[trigger] v.shadow_opens(o, from, nonce, bytes) implies c.rank()
                <= o.rank() by {
                assert(w.shadow_opens(o, from, nonce, bytes));
            }
            assert(v.is_opener(c, from, nonce, bytes));
        }
    }
}

// ---------------------------------------------------------------------------
// Handshakes
// ---------------------------------------------------------------------------
/// First contact with a known key works: the peer of that key reads our
/// message from the first packet and learns our key; we read its answer; and
/// the keys that both ends then hold match.
pub proof fn lemma_ik_first_contact(
    a: EmberView,
    b: EmberView,
    peer: SocketAddr,
    key: [u8; 32],
    message: Seq<u8>,
    w1: Written,
    w2: Written,
)
    requires
        a.begins(peer, Some(key)),
        a.outgoing_writes(peer, Some(key), message, Some(w1)),
        key@ == public_key(b.key@),
        possible(heard(awaited(ik(), b.key@), w1.bytes).0, Seq::empty(), Some(w2)),
    ensures
        heard(awaited(ik(), b.key@), w1.bytes).1 == Some(message),
        remote_static(w2.state) == Some(public_key(a.key@)),
        heard(w1.state, w2.bytes).1 == Some(Seq::<u8>::empty()),
        transport_of(w2.state) is Some && transport_of(heard(w1.state, w2.bytes).0) is Some
            ==> paired(
            transport_of(heard(w1.state, w2.bytes).0)->Some_0,
            transport_of(w2.state)->Some_0,
        ),
{
    let h = begun_with(ik(), a.key@, key@);
    let r = awaited(ik(), b.key@);
    assert(in_step(h, r));
    let q = heard(r, w1.bytes).0;
    assert(in_step(q, w1.state));
}

/// First contact with an unknown key works: each end reads what the other
/// wrote, the third message brings our message, each learns the other's key,
/// and the keys that both ends then hold match.
pub proof fn lemma_xx_first_contact(
    a_key: Seq<u8>,
    b_key: Seq<u8>,
    message: Seq<u8>,
    w1: Written,
    w2: Written,
    w3: Written,
)
    requires
        b_key.len() == 32,
        xx_starts(a_key),
        possible(begun(xx(), a_key), Seq::empty(), Some(w1)),
        possible(heard(awaited(xx(), b_key), w1.bytes).0, Seq::empty(), Some(w2)),
        handshake_stage(heard(awaited(xx(), b_key), w1.bytes).0) == (
            xx(),
            false,
            1nat,
        ),
        own_static(heard(awaited(xx(), b_key), w1.bytes).0) == public_key(b_key),
        possible(heard(w1.state, w2.bytes).0, message, Some(w3)),
        handshake_stage(heard(w1.state, w2.bytes).0) == (xx(), true, 2nat),
        own_static(heard(w1.state, w2.bytes).0) == own_static(w1.state),
    ensures
        heard(awaited(xx(), b_key), w1.bytes).1 == Some(Seq::<u8>::empty()),
        heard(w1.state, w2.bytes).1 == Some(Seq::<u8>::empty()),
        remote_static(w3.state) == Some(public_key(b_key)),
        heard(w2.state, w3.bytes).1 == Some(message),
        remote_static(heard(w2.state, w3.bytes).0) == Some(public_key(a_key)),
        transport_of(w3.state) is Some && transport_of(heard(w2.state, w3.bytes).0) is Some
            ==> paired(
            transport_of(heard(w2.state, w3.bytes).0)->Some_0,
            transport_of(w3.state)->Some_0,
        ),
{
    lemma_patterns_differ();
    let h = begun(xx(), a_key);
    let r = awaited(xx(), b_key);
    assert(in_step(h, r));
    let q = heard(r, w1.bytes).0;
    assert(in_step(q, w1.state));
    let p = heard(w1.state, w2.bytes).0;
    assert(in_step(p, w2.state));
}

/// An answer that proves nothing ends no handshake: it still waits, with all
/// that waits for it.
pub proof fn lemma_forged_answer_harmless(
    v: EmberView,
    from: SocketAddr,
    data: Seq<u8>,
    now: u64,
    w: Option<Written>,
)
    requires
        v.pending.contains_key(from),
        match v.pending[from] {
            PendingView::IkInitiator { state, .. } => heard(state, data).1 is None,
            PendingView::XxInitiatorMsg1 { state, prior, .. } => EmberView::xx_reader(
                state,
                prior,
                data,
            ) is None,
            PendingView::XxResponderMsg2 { state, .. } => heard(state, data).1 is None,
        },
    ensures
        ({
            let x = v.after_ik_resp(from, data, now);
            let y = v.after_xx_msg2(from, data, now, w);
            let z = v.after_xx_msg3(from, data, now);
            &&& x.1 is Rejected && y.1 is Rejected && z.1 is Rejected
            &&& x.0.pending.contains_key(from) && y.0.pending.contains_key(from)
                && z.0.pending.contains_key(from)
            &&& x.0.pending[from].queued() == v.pending[from].queued()
            &&& y.0.pending[from].queued() == v.pending[from].queued()
            &&& z.0.pending[from].queued() == v.pending[from].queued()
            &&& x.0.sessions == v.sessions && y.0.sessions == v.sessions && z.0.sessions
                == v.sessions
        }),
{
}

/// After a forged answer the true one is read as if the forgery had not come.
pub proof fn lemma_true_answer_still_read(
    v: EmberView,
    from: SocketAddr,
    forged: Seq<u8>,
    answer: Seq<u8>,
    now: u64,
    w: Option<Written>,
)
    requires
        v.forgery_spoils_nothing(from, forged),
        v.pending.contains_key(from),
        match v.pending[from] {
            PendingView::IkInitiator { state, .. } => heard(state, forged).1 is None && heard(
                state,
                answer,
            ).1 is Some,
            PendingView::XxInitiatorMsg1 { state, prior, .. } => EmberView::xx_reader(
                state,
                prior,
                forged,
            ) is None && heard(state, answer).1 is Some,
            PendingView::XxResponderMsg2 { .. } => false,
        },
    ensures
        v.pending[from] is IkInitiator ==> v.after_ik_resp(from, forged, now).0.after_ik_resp(
            from,
            answer,
            now,
        ).1 == v.after_ik_resp(from, answer, now).1,
        v.pending[from] is XxInitiatorMsg1 ==> v.after_xx_msg2(
            from,
            forged,
            now,
            None,
        ).0.after_xx_msg2(from, answer, now, w).1 == v.after_xx_msg2(from, answer, now, w).1,
{
    match v.pending[from] {
        PendingView::IkInitiator { .. } => {
            let u = v.after_ik_resp(from, forged, now).0;
            assert(u.without_pending(from).pending =~= v.without_pending(from).pending);
        },
        PendingView::XxInitiatorMsg1 { .. } => {
            let u = v.after_xx_msg2(from, forged, now, None).0;
            assert(u.without_pending(from).pending =~= v.without_pending(from).pending);
        },
        _ => {},
    }
}

/// A cookie costs a handshake nothing: an answer that it could read before it
/// can still read. A second cookie is ignored.
pub proof fn lemma_cookie_harmless(
    v: EmberView,
    from: SocketAddr,
    cookie: Seq<u8>,
    now: u64,
    w: Option<Written>,
    data: Seq<u8>,
)
    requires
        v.pending.contains_key(from),
        v.pending[from] matches PendingView::XxInitiatorMsg1 { state, prior, cookie_retried, .. }
            && prior is None && heard(state, data).1 is Some,
    ensures
        ({
            let u = v.after_xx_cookie(from, cookie, now, w).0;
            &&& u.pending.contains_key(from)
            &&& u.pending[from] matches PendingView::XxInitiatorMsg1 { state, prior, .. }
                && EmberView::xx_reader(state, prior, data) is Some
            &&& u.pending[from].queued() == v.pending[from].queued()
            &&& v.after_xx_cookie(from, cookie, now, w).1 is Rejected || u.after_xx_cookie(
                from,
                cookie,
                now,
                w,
            ) == (u, IncomingView::Rejected)
        }),
{
}

/// The first cookie for a handshake that waits is never left unanswered: a new
/// first message goes back, it carries the cookie, and every peer can read it.
pub proof fn lemma_cookie_answered(
    v: EmberView,
    from: SocketAddr,
    cookie: Seq<u8>,
    now: u64,
    w: Option<Written>,
    peer_key: Seq<u8>,
)
    requires
        cookie.len() == XX_COOKIE_LEN,
        v.pending.contains_key(from),
        v.pending[from] matches PendingView::XxInitiatorMsg1 { cookie_retried, .. }
            && !cookie_retried,
        v.xx_cookie_writes(from, cookie, w),
        peer_key.len() == 32,
    ensures
        w matches Some(w) && {
            &&& v.after_xx_cookie(from, cookie, now, Some(w)).1
                == (IncomingView::HandshakeResponse {
                to: from,
                packets: seq![packet(PKT_XX_MSG1, w.bytes)],
            })
            &&& w.bytes.len() == XX_MSG1_EPHEMERAL_LEN + XX_COOKIE_LEN
            &&& w.bytes.skip(XX_MSG1_EPHEMERAL_LEN as int) == cookie
            &&& heard(awaited(xx(), peer_key), w.bytes).1 == Some(cookie)
            &&& own_static(w.state) == public_key(v.key@)
        },
{
    lemma_patterns_differ();
    assert(in_step(begun(xx(), v.key@), awaited(xx(), peer_key)));
}

/// A first packet never hands its request up: it waits until the address is
/// proven.
pub proof fn lemma_ik_init_surfaces_nothing(
    v: EmberView,
    from: SocketAddr,
    data: Seq<u8>,
    now: u64,
    w: Option<Written>,
    probe: u64,
    w1: Option<Written>,
    w2: Option<Written>,
)
    ensures
        ({
            let (u, r) = v.after_ik_init(from, data, now, w, probe);
            let (_, o) = u.dispatched(r, from, now, w1, w2);
            o.controls.len() == 0 && o.app_payloads.len() == 0
        }),
{
}

/// A repeated first packet is answered with the same bytes, and only to where
/// it first came from; nothing else happens.
pub proof fn lemma_repeat_gets_same_answer(
    v: EmberView,
    from: SocketAddr,
    other: SocketAddr,
    data: Seq<u8>,
    now: u64,
    later: u64,
    w: Option<Written>,
    probe: u64,
    w_later: Option<Written>,
    probe_later: u64,
)
    requires
        v.after_ik_init(from, data, now, w, probe).1 is HandshakeComplete,
        now <= later,
        later - now < HANDSHAKE_REPLAY_TTL_MS,
        from != other,
        !v.dialling(other),
    ensures
        ({
            let (u, r) = v.after_ik_init(from, data, now, w, probe);
            let again = u.after_ik_init(from, data, later, w_later, probe_later);
            let elsewhere = u.after_ik_init(other, data, later, w_later, probe_later);
            &&& again.0 == u && elsewhere.0 == u
            &&& again.1 == (IncomingView::HandshakeResponse {
                to: from,
                packets: seq![r->packets_to_send[0]],
            })
            &&& elsewhere.1 is Rejected
        }),
{
}

/// Whoever has proven to hold an address keeps it: no handshake of another key
/// completes there.
pub proof fn lemma_no_takeover(
    v: EmberView,
    from: SocketAddr,
    data: Seq<u8>,
    now: u64,
    luck: Luck,
)
    requires
        v.after_packet(data, from, now, luck).1 is HandshakeComplete,
        v.sessions.contains_key(from),
        v.sessions[from].addr_validated,
    ensures
        v.after_packet(data, from, now, luck).1->HandshakeComplete_remote_noise_pub
            == v.sessions[from].remote_noise_pub,
{
}

/// A session that has proven nothing locks nobody out: another key's first
/// packet is taken in, and its session takes the place.
pub proof fn lemma_squatter_yields(
    v: EmberView,
    from: SocketAddr,
    data: Seq<u8>,
    now: u64,
    w: Written,
    probe: u64,
)
    requires
        !v.dialling(from),
        !v.seen(packet_digest(PKT_IK_INIT, data), now),
        heard(awaited(ik(), v.key@), data).1 is Some,
        remote_key(w.state) is Some,
        transport_of(w.state) is Some,
        v.sessions.contains_key(from) ==> !v.sessions[from].addr_validated,
    ensures
        ({
            let (u, r) = v.after_ik_init(from, data, now, Some(w), probe);
            &&& r is HandshakeComplete
            &&& u.sessions.contains_key(from)
            &&& u.sessions[from].remote_noise_pub == remote_key(w.state)->Some_0
        }),
{
}

// ---------------------------------------------------------------------------
// Sessions set aside
// ---------------------------------------------------------------------------
/// A session that another key displaces is kept, while there is room for it.
pub proof fn lemma_displaced_kept(v: EmberView, a: SocketAddr, s: NoiseSession)
    requires
        v.wf(),
        v.sessions.contains_key(a),
        v.sessions[a].remote_noise_pub != s.remote_noise_pub,
        claims_at(stamps(v.shadows), a).len() < MAX_SHADOW_SESSIONS_PER_ADDR,
        v.shadows.dom().len() < MAX_SHADOW_SESSIONS,
    ensures
        ({
            let c = Claim { addr: a, key: v.sessions[a].remote_noise_pub };
            let u = v.installed(a, s);
            u.shadows.contains_key(c) && u.shadows[c] == v.sessions[a]
        }),
{
    let c = Claim { addr: a, key: v.sessions[a].remote_noise_pub };
    let cleared = v.shadows.remove(Claim { addr: a, key: s.remote_noise_pub });
    let m = cleared.insert(c, v.sessions[a]);
    let t = stamps(m);
    let old = claims_at(stamps(v.shadows), a);
    assert(t.dom() =~= m.dom());
    assert(claims_at(t, a).subset_of(old.insert(c)));
    assert(stamps(v.shadows).dom() =~= v.shadows.dom());
    assert(old.finite());
    vstd::set_lib::lemma_len_subset(claims_at(t, a), old.insert(c));
    assert(t.dom().subset_of(v.shadows.dom().insert(c)));
    vstd::set_lib::lemma_len_subset(t.dom(), v.shadows.dom().insert(c));
    assert(trimmed(
        t,
        a,
        MAX_SHADOW_SESSIONS_PER_ADDR as nat,
        MAX_SHADOW_SESSIONS as nat,
    ) == t);
    assert(m.restrict(t.dom()) =~= m);
}

/// However many keys claim an address in turn, the claims that came first
/// stay: where there is one too many, the newest leaves.
pub proof fn lemma_first_claims_stay(
    t: Map<Claim, u64>,
    a: SocketAddr,
    per_addr: nat,
    total: nat,
    newest: Claim,
)
    requires
        t.dom().finite(),
        is_newest_at(t, a, newest),
        claims_at(t, a).len() == per_addr + 1,
        t.dom().len() <= total + 1,
    ensures
        trimmed(t, a, per_addr, total) == t.remove(newest),
{
    let n = newest_at(t, a);
    assert(is_newest_at(t, a, n));
    assert(no_newer(t, n, newest) && no_newer(t, newest, n));
    n.lemma_rank(newest);
    reveal_with_fuel(without_newest, 2);
    let t1 = t.remove(newest);
    assert(t1.dom() =~= t.dom().remove(newest));
    assert(without_newest(t, a, 1) == t1);
    assert(without_oldest(t1, excess(t1.dom().len(), total)) == t1);
}

// ---------------------------------------------------------------------------
// Cookies and the budget
// ---------------------------------------------------------------------------
/// A cookie is honoured at the address that it was given to, at once and after
/// one turn of the secrets.
pub proof fn lemma_cookie_honoured(
    v: EmberView,
    from: SocketAddr,
    later: u64,
    fresh: [u8; 32],
    fresh_prev: [u8; 32],
)
    requires
        cookie_for(v.secret, from).len() == XX_COOKIE_LEN,
        elapsed(v.rotated_at, later) < 2 * XX_COOKIE_ROTATION_MS,
    ensures
        v.honours(from, cookie_for(v.secret, from)),
        v.rotated(later, fresh, fresh_prev).honours(from, cookie_for(v.secret, from)),
{
}

/// Two turns of the secrets leave nothing of the old ones.
pub proof fn lemma_secrets_retire(
    v: EmberView,
    now: u64,
    later: u64,
    f: [u8; 32],
    p: [u8; 32],
    g: [u8; 32],
    q: [u8; 32],
)
    requires
        elapsed(v.rotated_at, now) >= XX_COOKIE_ROTATION_MS,
        elapsed(now, later) >= XX_COOKIE_ROTATION_MS,
    ensures
        v.rotated(now, f, p).rotated(later, g, q).secret == g,
        v.rotated(now, f, p).rotated(later, g, q).prev_secret == f || v.rotated(now, f, p).rotated(
            later,
            g,
            q,
        ).prev_secret == q,
{
}

/// A first message without a valid cookie, once the budget is spent, is
/// answered with a cookie and leaves nothing behind.
pub proof fn lemma_flood_leaves_nothing(
    v: EmberView,
    from: SocketAddr,
    data: Seq<u8>,
    now: u64,
    fresh: [u8; 32],
    fresh_prev: [u8; 32],
    w: Option<Written>,
)
    requires
        !v.dialling(from),
        data.len() >= XX_MSG1_EPHEMERAL_LEN,
        data.len() != XX_MSG1_EPHEMERAL_LEN + XX_COOKIE_LEN,
        v.refilled(now).tokens == 0,
    ensures
        ({
            let (u, r) = v.after_xx_msg1(from, data, now, fresh, fresh_prev, w);
            &&& r == (IncomingView::HandshakeResponse {
                to: from,
                packets: seq![u.cookie_packet(from)],
            })
            &&& u.sessions == v.sessions && u.pending == v.pending && u.recent == v.recent
                && u.deferred == v.deferred && u.shadows == v.shadows
        }),
{
}

/// Every answer to an address that has proven nothing costs one of the budget,
/// a repeated one too; a valid cookie costs nothing.
pub proof fn lemma_answers_cost(
    v: EmberView,
    from: SocketAddr,
    data: Seq<u8>,
    proven: bool,
    now: u64,
    w: Option<Written>,
)
    requires
        v.tokens > 0,
    ensures
        v.xx_admitted(from, data, proven, now, w).1 is HandshakeResponse ==> v.xx_admitted(
            from,
            data,
            proven,
            now,
            w,
        ).0.tokens == if proven {
            v.tokens as int
        } else {
            v.tokens - 1
        },
{
}

// ---------------------------------------------------------------------------
// What is handed up
// ---------------------------------------------------------------------------
/// The request that waited and the one that proved the address both arrive, in
/// the order in which they were sent.
pub proof fn lemma_both_delivered(
    v: EmberView,
    o: OutcomeView,
    from: SocketAddr,
    waited: Seq<u8>,
    payload: Seq<u8>,
    now: u64,
    w1: Option<Written>,
    w2: Option<Written>,
)
    requires
        dec_control(waited) is None,
        dec_control(payload) is None,
    ensures
        v.delivered(o, from, Some(waited), payload, now, w1, w2).1.app_payloads
            == o.app_payloads.push(waited).push(payload),
{
}

/// The answer to our own probe is not handed up, and is expected once.
pub proof fn lemma_probe_swallowed(
    v: EmberView,
    o: OutcomeView,
    from: SocketAddr,
    payload: Seq<u8>,
    now: u64,
    w1: Option<Written>,
    w2: Option<Written>,
)
    requires
        v.probe_answered(from, payload).1,
    ensures
        v.delivered(o, from, None, payload, now, w1, w2).1 == o,
        !v.delivered(o, from, None, payload, now, w1, w2).0.probe_answered(from, payload).1,
{
}

/// A request that waited is released once.
pub proof fn lemma_released_once(v: EmberView, from: SocketAddr, key: [u8; 32], now: u64, later: u64)
    ensures
        v.released(from, key, now).0.released(from, key, later).1 is None,
{
}

} // verus!
