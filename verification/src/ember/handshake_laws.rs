//! What handshakes lead to, and what becomes of what arrives.
use vstd::prelude::*;

use crate::bytes::{from_le64, le64};
use crate::clock::elapsed;
use crate::ember::control::{dec_control, enc_control, ControlView};
use crate::ember::eviction::Claim;
use crate::ember::noise::{awaited, heard, ik, sending_key, transport_of, xx};
use crate::ember::sending_laws::{frame_of, lemma_frame_of, lemma_packet_bytes, lemma_sent_in_order};
use crate::ember::session::{lemma_noted, NoiseSession};
use crate::ember::state::{
    cookie_for, packet_digest, remote_key, EmberView, IncomingView, OutcomeView, PendingView,
    Written,
};
use crate::net::SocketAddr;

verus! {

// ---------------------------------------------------------------------------
// Handshakes that a peer begins
// ---------------------------------------------------------------------------
/// When a peer has finished the handshake that it began, what waited for it goes out,
/// one frame for each message, in order. What its last message carries is handed up,
/// unless that is nothing.
pub proof fn lemma_caller_gets_all(
    v: EmberView,
    from: SocketAddr,
    data: Seq<u8>,
    now: u64,
    payload: Seq<u8>,
)
    requires
        v.after_xx_msg3(from, data, now).1 is HandshakeComplete,
        v.pending[from] matches PendingView::XxResponderMsg2 { state, .. } ==> heard(state, data).1
            == Some(payload) && (transport_of(heard(state, data).0) matches Some(t) && sending_key(
            t,
        ) is Some),
        v.pending[from].queued().len() <= 64,
        forall|i: int|
            0 <= i < v.pending[from].queued().len() ==> (#[trigger] v.pending[from].queued()[i]).len()
                + 16 <= 65535,
    ensures
        v.pending.contains_key(from),
        v.pending[from] is XxResponderMsg2,
        !v.after_xx_msg3(from, data, now).0.pending.contains_key(from),
        v.after_xx_msg3(from, data, now).1 matches IncomingView::HandshakeComplete {
            peer,
            packets_to_send,
            decrypted_payload,
            ..
        } && {
            let q = v.pending[from].queued();
            let t = transport_of(heard(v.pending[from]->XxResponderMsg2_state, data).0)->Some_0;
            &&& peer == from
            &&& payload.len() == 0 ==> decrypted_payload is None
            &&& payload.len() > 0 ==> decrypted_payload == Some(payload)
            &&& packets_to_send.len() == q.len()
            &&& forall|i: int|
                0 <= i < q.len() ==> #[trigger] packets_to_send[i] == frame_of(
                    sending_key(t)->Some_0,
                    i as u64,
                    q[i],
                )
        },
        v.after_xx_msg3(from, data, now).0.sessions.contains_key(from),
        ({
            let s = v.after_xx_msg3(from, data, now).0.sessions[from];
            s.addr_validated && !s.ik_authenticated && s.last_activity == now && s.send_nonce
                == v.pending[from].queued().len()
        }),
{
    if let PendingView::XxResponderMsg2 { state, queued, .. } = v.pending[from] {
        let h = heard(state, data).0;
        if let (Some(key), Some(t)) = (remote_key(h), transport_of(h)) {
            let s = NoiseSession::fresh(t, key, false, true, now);
            lemma_sent_in_order(s, queued);
            assert(Seq::<Seq<u8>>::empty() + s.sent_all(queued).1 =~= s.sent_all(queued).1);
        }
    }
}

/// A first message that is let in, is new and can be read is answered with the second
/// one, and the handshake waits with an empty queue. A peer that showed no cookie
/// costs one answer of the budget.
pub proof fn lemma_caller_answered(
    v: EmberView,
    from: SocketAddr,
    data: Seq<u8>,
    proven: bool,
    now: u64,
    w: Written,
)
    requires
        !v.seen(packet_digest(3, data), now),
        heard(awaited(xx(), v.key@), data).1 is Some,
    ensures
        ({
            let (r, o) = v.xx_admitted(from, data, proven, now, Some(w));
            &&& o == (IncomingView::HandshakeResponse {
                to: from,
                packets: seq![seq![0xEBu8, 0x3E, 0x04] + w.bytes],
            })
            &&& r.pending.contains_key(from)
            &&& r.pending[from] == (PendingView::XxResponderMsg2 {
                state: w.state,
                queued: Seq::empty(),
                created: now,
            })
            &&& proven ==> r.tokens == v.tokens
            &&& !proven && v.tokens > 0 ==> r.tokens == v.tokens - 1
            &&& r.sessions == v.sessions
            &&& r.cached(packet_digest(3, data), from) == Some(seq![0xEBu8, 0x3E, 0x04] + w.bytes)
        }),
{
    lemma_packet_bytes(0x04, w.bytes);
    assert(seq![crate::ember::session::packet(0x04, w.bytes)] =~= seq![
        seq![0xEBu8, 0x3E, 0x04] + w.bytes,
    ]);
}

/// A first message is let in with the cookie of its address behind its first 32 bytes,
/// without cost, or while the budget lasts. Else it is answered with a cookie: 16 bytes
/// behind the type 6.
pub proof fn lemma_caller_let_in(
    v: EmberView,
    from: SocketAddr,
    data: Seq<u8>,
    now: u64,
    fresh: [u8; 32],
    fresh_prev: [u8; 32],
    w: Option<Written>,
)
    requires
        elapsed(v.rotated_at, now) < 15000,
        data.len() >= 32,
    ensures
        ({
            let cookie = data.skip(32);
            let known = data.len() == 48 && (cookie == cookie_for(v.secret, from) || cookie
                == cookie_for(v.prev_secret, from));
            let (r, admitted) = v.xx_gate(from, data, now, fresh, fresh_prev);
            &&& known ==> admitted == Some(true) && r == v
            &&& !known && v.refilled(now).tokens > 0 ==> admitted == Some(false)
            &&& !known && v.refilled(now).tokens == 0 ==> admitted is None
            &&& !known && v.refilled(now).tokens == 0 && !v.dialling(from) ==> v.after_xx_msg1(
                from,
                data,
                now,
                fresh,
                fresh_prev,
                w,
            ).1 == (IncomingView::HandshakeResponse {
                to: from,
                packets: seq![seq![0xEBu8, 0x3E, 0x06] + cookie_for(v.secret, from)],
            })
        }),
        v.dialling(from) ==> v.after_xx_msg1(from, data, now, fresh, fresh_prev, w) == (
            v,
            IncomingView::Rejected,
        ),
{
    lemma_packet_bytes(0x06, cookie_for(v.secret, from));
    assert(seq![crate::ember::session::packet(0x06, cookie_for(v.secret, from))] =~= seq![
        seq![0xEBu8, 0x3E, 0x06] + cookie_for(v.secret, from),
    ]);
}

/// A cookie makes our first message go out once more, and takes none of the messages
/// that wait. The handshake that began first can still be answered.
pub proof fn lemma_cookie_keeps_queue(
    v: EmberView,
    from: SocketAddr,
    cookie: Seq<u8>,
    now: u64,
    w: Written,
)
    requires
        cookie.len() == 16,
        v.pending.contains_key(from),
        v.pending[from] matches PendingView::XxInitiatorMsg1 { cookie_retried, .. }
            && !cookie_retried,
    ensures
        ({
            let (r, o) = v.after_xx_cookie(from, cookie, now, Some(w));
            &&& r.pending.contains_key(from)
            &&& r.pending[from].queued() == v.pending[from].queued()
            &&& r.pending[from] matches PendingView::XxInitiatorMsg1 {
                state,
                prior,
                cookie_retried,
                ..
            } && state == w.state && cookie_retried && (v.pending[from]->XxInitiatorMsg1_prior is None
                ==> prior == Some(v.pending[from]->XxInitiatorMsg1_state))
            &&& o == (IncomingView::HandshakeResponse {
                to: from,
                packets: seq![seq![0xEBu8, 0x3E, 0x03] + w.bytes],
            })
        }),
{
    lemma_packet_bytes(0x03, w.bytes);
    assert(seq![crate::ember::session::packet(0x03, w.bytes)] =~= seq![
        seq![0xEBu8, 0x3E, 0x03] + w.bytes,
    ]);
}

/// A peer that knows our key and asks for something gets the answer of the handshake
/// and a probe: a sealed ping with a nonce of ours. Until it answers from its address
/// nothing is handed up, and the session counts as unproven.
pub proof fn lemma_known_caller_probed(
    v: EmberView,
    from: SocketAddr,
    data: Seq<u8>,
    now: u64,
    w: Written,
    probe: u64,
    request: Seq<u8>,
)
    requires
        !v.dialling(from),
        !v.seen(packet_digest(1, data), now),
        heard(awaited(ik(), v.key@), data).1 == Some(request),
        request.len() > 0,
        remote_key(w.state) matches Some(key) && !v.held_by_other(from, key),
        transport_of(w.state) matches Some(t) && sending_key(t) is Some,
    ensures
        ({
            let (r, o) = v.after_ik_init(from, data, now, Some(w), probe);
            let key = sending_key(transport_of(w.state)->Some_0)->Some_0;
            &&& o matches IncomingView::HandshakeComplete {
                peer,
                remote_noise_pub,
                packets_to_send,
                decrypted_payload,
            } && peer == from && Some(remote_noise_pub) == remote_key(w.state)
                && decrypted_payload is None && packets_to_send.len() == 2 && packets_to_send[0]
                == seq![0xEBu8, 0x3E, 0x02] + w.bytes && packets_to_send[1] == frame_of(
                key,
                0,
                seq![0xC1u8, 1] + le64(probe),
            )
            &&& r.sessions.contains_key(from)
            &&& r.sessions[from].probe_nonce == Some(probe)
            &&& r.sessions[from].send_nonce == 1
            &&& !r.sessions[from].addr_validated && r.sessions[from].ik_authenticated
            &&& r.sessions[from].last_activity == now
        }),
{
    lemma_packet_bytes(0x02, w.bytes);
    let t = transport_of(w.state)->Some_0;
    let s = NoiseSession::fresh(t, remote_key(w.state)->Some_0, true, false, now);
    let ping = enc_control(ControlView::Ping { nonce: probe });
    assert(ping =~= seq![0xC1u8, 1] + le64(probe));
    crate::bytes::lemma_le64_round_trip(probe, Seq::empty());
    assert(s.can_send(ping.len()));
    lemma_frame_of(s, ping);
}

// ---------------------------------------------------------------------------
// What arrives
// ---------------------------------------------------------------------------
/// A ping that was opened is answered with its own nonce, in the next frame of the
/// session, and is handed up as a control message; nothing goes to the layer above.
pub proof fn lemma_ping_answered(
    v: EmberView,
    o: OutcomeView,
    from: SocketAddr,
    nonce: u64,
    now: u64,
    w: Option<Written>,
)
    requires
        v.sessions.contains_key(from),
        sending_key(v.sessions[from].transport) is Some,
        v.sessions[from].send_nonce < u64::MAX,
    ensures
        ({
            let (r, q) = v.surfaced(o, from, enc_control(ControlView::Ping { nonce }), now, w);
            &&& q.responses == o.responses.push(
                frame_of(
                    sending_key(v.sessions[from].transport)->Some_0,
                    v.sessions[from].send_nonce,
                    seq![0xC1u8, 2] + le64(nonce),
                ),
            )
            &&& q.controls == o.controls.push(ControlView::Ping { nonce })
            &&& q.app_payloads == o.app_payloads
            &&& q.rejected == o.rejected && q.remote_noise_pub == o.remote_noise_pub
            &&& r.sessions[from].send_nonce == v.sessions[from].send_nonce + 1
        }),
{
    crate::ember::control::lemma_control_round_trip(ControlView::Ping { nonce });
    let pong = enc_control(ControlView::Pong { nonce });
    assert(pong =~= seq![0xC1u8, 2] + le64(nonce));
    crate::bytes::lemma_le64_round_trip(nonce, Seq::empty());
    crate::ember::sending_laws::lemma_session_sends(v, from, pong, now, w);
}

/// What is no control message goes to the layer above as it is, and nothing is sent.
/// Other control messages are handed up, and nothing is sent.
pub proof fn lemma_handed_up(
    v: EmberView,
    o: OutcomeView,
    from: SocketAddr,
    payload: Seq<u8>,
    now: u64,
    w: Option<Written>,
)
    ensures
        dec_control(payload) is None ==> v.surfaced(o, from, payload, now, w) == (
            v,
            OutcomeView { app_payloads: o.app_payloads.push(payload), ..o },
        ),
        dec_control(payload) matches Some(m) ==> !(m is Ping) ==> v.surfaced(
            o,
            from,
            payload,
            now,
            w,
        ) == (v, OutcomeView { controls: o.controls.push(m), ..o }),
{
}

/// The answer to a probe is one whose nonce is that of the probe. It is expected once,
/// and everything else is left as it is.
pub proof fn lemma_probe(v: EmberView, from: SocketAddr, nonce: u64, payload: Seq<u8>)
    requires
        v.sessions.contains_key(from),
        v.sessions[from].probe_nonce == Some(nonce),
    ensures
        v.probe_answered(from, payload).1 <==> dec_control(payload) == Some(
            ControlView::Pong { nonce },
        ),
        !v.probe_answered(from, payload).1 ==> v.probe_answered(from, payload).0 == v,
        v.probe_answered(from, payload).1 ==> v.probe_answered(from, payload).0.sessions
            == v.sessions.insert(from, NoiseSession { probe_nonce: None, ..v.sessions[from] }),
{
}

/// A request that waits for its sender to prove its address is handed out once, and
/// only within half a minute, to the key and address that it came from.
pub proof fn lemma_request_released(v: EmberView, from: SocketAddr, key: [u8; 32], now: u64)
    ensures
        ({
            let c = Claim { addr: from, key };
            let (r, waited) = v.released(from, key, now);
            &&& waited is Some <==> v.deferred.contains_key(c) && elapsed(v.deferred[c].stored, now)
                < 30000
            &&& waited is Some ==> waited == Some(v.deferred[c].payload)
            &&& !r.deferred.contains_key(c)
            &&& forall|d: Claim|
                #![trigger r.deferred.contains_key(d)]
                d != c ==> (r.deferred.contains_key(d) <==> v.deferred.contains_key(d))
                    && r.deferred[d] == v.deferred[d]
        }),
{
}

/// A frame has eight bytes of nonce, the low one first, and what is sealed behind them.
/// It is read by the session of its address if that accepts the nonce and opens it, and
/// proves the address.
pub proof fn lemma_frame_read(v: EmberView, from: SocketAddr, data: Seq<u8>, now: u64)
    requires
        data.len() >= 8,
        v.sessions.contains_key(from),
        v.sessions[from].opens(from_le64(data), data.skip(8)) is Some,
    ensures
        ({
            let (r, o) = v.after_frame(from, data, now);
            let s = v.sessions[from];
            &&& o == (IncomingView::Message {
                from,
                remote_noise_pub: s.remote_noise_pub,
                payload: s.opens(from_le64(data), data.skip(8))->Some_0,
            })
            &&& r.sessions[from].addr_validated && r.sessions[from].last_activity == now
            &&& r.sessions[from].send_nonce == s.send_nonce
            &&& r.sessions[from].probe_nonce == s.probe_nonce
            &&& r.sessions.remove(from) == v.sessions.remove(from)
            &&& r.pending == v.pending && r.shadows == v.shadows
        }),
{
    let r = v.after_frame(from, data, now).0;
    assert(r.sessions.remove(from) =~= v.sessions.remove(from));
}

/// A session that is new accepts every nonce. Later every nonce beyond the highest is
/// accepted, and none that lies 64 or more behind it; one that was taken is not accepted
/// again.
pub proof fn lemma_nonces_accepted(s: NoiseSession, nonce: u64, taken: u64)
    ensures
        nonce > s.recv_high ==> s.accepts(nonce),
        nonce + 64 <= s.recv_high ==> !s.accepts(nonce),
        !s.noted(nonce).accepts(nonce),
        s.noted(taken).accepts(nonce) <==> s.accepts(nonce) && nonce != taken && nonce + 64 > taken,
        NoiseSession::fresh(s.transport, s.remote_noise_pub, true, true, 0).accepts(nonce),
{
    lemma_noted(s, nonce);
    lemma_noted(s, taken);
    let w = 0u64;
    assert(w & (1u64 << 0u64) == 0) by (bit_vector)
        requires
            w == 0,
    ;
}

/// Forgetting an address drops its session, its handshake, and all that was set aside
/// or waits for it, and leaves everything of other addresses.
pub proof fn lemma_address_forgotten(v: EmberView, a: SocketAddr, b: SocketAddr, c: Claim)
    ensures
        ({
            let r = v.forgotten(a);
            &&& !r.sessions.contains_key(a) && !r.pending.contains_key(a)
            &&& c.addr == a ==> !r.shadows.contains_key(c) && !r.deferred.contains_key(c)
            &&& b != a ==> (r.sessions.contains_key(b) <==> v.sessions.contains_key(b))
                && r.sessions[b] == v.sessions[b]
            &&& b != a ==> (r.pending.contains_key(b) <==> v.pending.contains_key(b))
                && r.pending[b] == v.pending[b]
            &&& c.addr != a ==> (r.shadows.contains_key(c) <==> v.shadows.contains_key(c)) && (
            r.deferred.contains_key(c) <==> v.deferred.contains_key(c))
            &&& r.recent == v.recent && r.secret == v.secret && r.tokens == v.tokens
        }),
        ({
            let r = v.emptied();
            &&& !r.sessions.contains_key(b) && !r.pending.contains_key(b)
            &&& !r.shadows.contains_key(c) && !r.deferred.contains_key(c)
            &&& r.key == v.key && r.secret == v.secret && r.tokens == v.tokens
        }),
{
}

} // verus!
