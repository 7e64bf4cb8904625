//! What becomes of the messages that are handed over for sending.
use vstd::prelude::*;

use crate::bytes::le64;
use crate::clock::elapsed;
use crate::ember::noise::{heard, sealed, sending_key, transport_of, wrote};
use crate::ember::session::NoiseSession;
use crate::ember::state::{EmberView, IncomingView, OutgoingView, PendingView, Written};
use crate::net::SocketAddr;

verus! {

/// The frame of a message: two bytes of magic, the type of a frame, the nonce,
/// and the message sealed under the sending key and that nonce.
pub open spec fn frame_of(key: Seq<u8>, nonce: u64, message: Seq<u8>) -> Seq<u8> {
    seq![0xEBu8, 0x3E, 0x10] + le64(nonce) + sealed(key, nonce, message)
}

/// A session seals a message into such a frame, under its next nonce.
pub proof fn lemma_frame_of(s: NoiseSession, message: Seq<u8>)
    requires
        sending_key(s.transport) is Some,
    ensures
        s.frame(message) == frame_of(sending_key(s.transport)->Some_0, s.send_nonce, message),
{
    let a = s.frame(message);
    let b = frame_of(sending_key(s.transport)->Some_0, s.send_nonce, message);
    assert(crate::ember::session::EMBER_MAGIC[0] == 0xEB);
    assert(crate::ember::session::EMBER_MAGIC[1] == 0x3E);
    assert(a =~= b);
}

// ---------------------------------------------------------------------------
// Waiting for a handshake
// ---------------------------------------------------------------------------
/// A message to a peer with which there is no session, but a handshake under way,
/// waits for that handshake.
pub proof fn lemma_waits_for_handshake(
    v: EmberView,
    peer: SocketAddr,
    want: Option<[u8; 32]>,
    message: Seq<u8>,
    now: u64,
    w: Option<Written>,
)
    requires
        v.pending.contains_key(peer),
        !v.sessions.contains_key(peer),
    ensures
        v.after_outgoing(peer, want, message, now, w).1 is Queued,
        !v.after_outgoing(peer, want, message, now, w).0.sessions.contains_key(peer),
{
}

/// A message that waits leaves every message that waited before it in the queue,
/// in the same order, and comes last. Only where 64 messages wait does one leave,
/// and that is the oldest. The handshake goes on as it was, and so do all others.
pub proof fn lemma_queue_keeps_all(
    v: EmberView,
    peer: SocketAddr,
    want: Option<[u8; 32]>,
    message: Seq<u8>,
    now: u64,
    w: Option<Written>,
)
    requires
        v.after_outgoing(peer, want, message, now, w).1 is Queued,
    ensures
        v.pending.contains_key(peer),
        v.after_outgoing(peer, want, message, now, w).0.pending.contains_key(peer),
        ({
            let q = v.pending[peer].queued();
            let t = v.after_outgoing(peer, want, message, now, w).0.pending[peer].queued();
            &&& t.len() > 0 && t[t.len() - 1] == message
            &&& q.len() < 64 ==> t.len() == q.len() + 1 && (forall|i: int|
                0 <= i < q.len() ==> #[trigger] t[i] == q[i])
            &&& q.len() >= 64 ==> t.len() == q.len() && (forall|i: int|
                0 <= i < q.len() - 1 ==> #[trigger] t[i] == q[i + 1])
        }),
        match (
            v.pending[peer],
            v.after_outgoing(peer, want, message, now, w).0.pending[peer],
        ) {
            (
                PendingView::IkInitiator { state: a, created: s, .. },
                PendingView::IkInitiator { state: b, created: t, .. },
            ) => a == b && s == t,
            (
                PendingView::XxInitiatorMsg1 {
                    state: a,
                    prior: c,
                    created: s,
                    cookie_retried: e,
                    ..
                },
                PendingView::XxInitiatorMsg1 {
                    state: b,
                    prior: d,
                    created: t,
                    cookie_retried: f,
                    ..
                },
            ) => a == b && c == d && s == t && e == f,
            (
                PendingView::XxResponderMsg2 { state: a, created: s, .. },
                PendingView::XxResponderMsg2 { state: b, created: t, .. },
            ) => a == b && s == t,
            _ => false,
        },
        forall|a: SocketAddr|
            #![trigger v.after_outgoing(peer, want, message, now, w).0.pending.contains_key(a)]
            a != peer ==> (v.after_outgoing(peer, want, message, now, w).0.pending.contains_key(a)
                <==> v.pending.contains_key(a))
                && v.after_outgoing(peer, want, message, now, w).0.pending[a] == v.pending[a],
{
    let p = v.pending[peer];
    let q = p.queued();
    let t = v.after_outgoing(peer, want, message, now, w).0.pending[peer].queued();
    if q.len() < 64 {
        assert(t =~= q.push(message));
    } else {
        assert(t =~= q.subrange(1, q.len() as int).push(message));
    }
}

/// A state after messages to one peer, one after the other.
pub open spec fn after_messages(
    v: EmberView,
    peer: SocketAddr,
    want: Option<[u8; 32]>,
    messages: Seq<Seq<u8>>,
    now: u64,
) -> EmberView
    decreases messages.len(),
{
    if messages.len() == 0 {
        v
    } else {
        after_messages(v, peer, want, messages.drop_last(), now).after_outgoing(
            peer,
            want,
            messages.last(),
            now,
            None,
        ).0
    }
}

/// Of messages that come while a handshake is under way, none is lost as long as
/// no more than 64 wait: they stand behind those that waited, in their order.
pub proof fn lemma_all_wait_in_order(
    v: EmberView,
    peer: SocketAddr,
    want: Option<[u8; 32]>,
    messages: Seq<Seq<u8>>,
    now: u64,
)
    requires
        v.pending.contains_key(peer),
        !v.sessions.contains_key(peer),
        v.pending[peer].queued().len() + messages.len() <= 64,
    ensures
        after_messages(v, peer, want, messages, now).pending.contains_key(peer),
        !after_messages(v, peer, want, messages, now).sessions.contains_key(peer),
        after_messages(v, peer, want, messages, now).pending[peer].queued()
            == v.pending[peer].queued() + messages,
    decreases messages.len(),
{
    let q = v.pending[peer].queued();
    if messages.len() == 0 {
        assert(q + messages =~= q);
    } else {
        lemma_all_wait_in_order(v, peer, want, messages.drop_last(), now);
        let u = after_messages(v, peer, want, messages.drop_last(), now);
        lemma_waits_for_handshake(u, peer, want, messages.last(), now, None);
        lemma_queue_keeps_all(u, peer, want, messages.last(), now, None);
        let t = after_messages(v, peer, want, messages, now).pending[peer].queued();
        assert(t =~= q + messages);
    }
}

// ---------------------------------------------------------------------------
// The end of a handshake
// ---------------------------------------------------------------------------
/// A session sends each of its messages in a frame of its own, in order, the
/// nonces counting up, if each fits into a frame.
pub proof fn lemma_sent_in_order(s: NoiseSession, queue: Seq<Seq<u8>>)
    requires
        sending_key(s.transport) is Some,
        s.send_nonce + queue.len() < u64::MAX,
        forall|i: int| 0 <= i < queue.len() ==> (#[trigger] queue[i]).len() + 16 <= 65535,
    ensures
        s.sent_all(queue).1.len() == queue.len(),
        forall|i: int|
            0 <= i < queue.len() ==> #[trigger] s.sent_all(queue).1[i] == frame_of(
                sending_key(s.transport)->Some_0,
                (s.send_nonce + i) as u64,
                queue[i],
            ),
        s.sent_all(queue).0 == (NoiseSession {
            send_nonce: (s.send_nonce + queue.len()) as u64,
            ..s
        }),
    decreases queue.len(),
{
    if queue.len() > 0 {
        let front = queue.drop_last();
        assert forall|i: int| 0 <= i < front.len() implies (#[trigger] front[i]).len() + 16
            <= 65535 by {
            assert(front[i] == queue[i]);
        }
        lemma_sent_in_order(s, front);
        let t = s.sent_all(front).0;
        assert(queue[queue.len() - 1].len() + 16 <= 65535);
        assert(t.can_send(queue.last().len()));
        lemma_frame_of(t, queue.last());
        assert forall|i: int| 0 <= i < queue.len() implies #[trigger] s.sent_all(queue).1[i]
            == frame_of(
            sending_key(s.transport)->Some_0,
            (s.send_nonce + i) as u64,
            queue[i],
        ) by {
            if i < front.len() {
                assert(s.sent_all(queue).1[i] == s.sent_all(front).1[i]);
                assert(front[i] == queue[i]);
            }
        }
    }
}

/// When the peer has answered our first message, whatever waited goes out: one
/// frame for each message, in the order in which they came, and none is left
/// behind.
pub proof fn lemma_known_peer_gets_all(v: EmberView, from: SocketAddr, data: Seq<u8>, now: u64)
    requires
        v.after_ik_resp(from, data, now).1 is HandshakeComplete,
        v.pending[from].queued().len() <= 64,
        forall|i: int|
            0 <= i < v.pending[from].queued().len() ==> (#[trigger] v.pending[from].queued()[i]).len()
                + 16 <= 65535,
        v.pending[from] matches PendingView::IkInitiator { state, .. } ==> transport_of(
            heard(state, data).0,
        ) matches Some(t) && sending_key(t) is Some,
    ensures
        v.pending.contains_key(from),
        v.pending[from] is IkInitiator,
        !v.after_ik_resp(from, data, now).0.pending.contains_key(from),
        v.after_ik_resp(from, data, now).1 matches IncomingView::HandshakeComplete {
            peer,
            packets_to_send,
            decrypted_payload,
            ..
        } && {
            let q = v.pending[from].queued();
            let t = transport_of(heard(v.pending[from]->IkInitiator_state, data).0)->Some_0;
            &&& peer == from
            &&& decrypted_payload is None
            &&& packets_to_send.len() == q.len()
            &&& forall|i: int|
                0 <= i < q.len() ==> #[trigger] packets_to_send[i] == frame_of(
                    sending_key(t)->Some_0,
                    i as u64,
                    q[i],
                )
        },
        v.after_ik_resp(from, data, now).0.sessions.contains_key(from),
        ({
            let s = v.after_ik_resp(from, data, now).0.sessions[from];
            &&& s.send_nonce == v.pending[from].queued().len()
            &&& s.addr_validated && s.ik_authenticated
            &&& s.last_activity == now
        }),
{
    if let PendingView::IkInitiator { state, queued, .. } = v.pending[from] {
        let h = heard(state, data).0;
        if let (Some(key), Some(t)) = (crate::ember::state::remote_key(h), transport_of(h)) {
            let s = NoiseSession::fresh(t, key, true, true, now);
            lemma_sent_in_order(s, queued);
            assert(Seq::<Seq<u8>>::empty() + s.sent_all(queued).1 =~= s.sent_all(queued).1);
        }
    }
}

/// When a peer whose key we did not know has answered, our third message carries
/// the first of the messages that waited, and each of the others goes out in a
/// frame of its own behind it, in the order in which they came.
pub proof fn lemma_unknown_peer_gets_all(
    v: EmberView,
    from: SocketAddr,
    data: Seq<u8>,
    now: u64,
    w: Written,
)
    requires
        v.after_xx_msg2(from, data, now, Some(w)).1 is HandshakeComplete,
        v.xx_msg2_writes(from, data, Some(w)),
        0 < v.pending[from].queued().len() <= 64,
        forall|i: int|
            0 <= i < v.pending[from].queued().len() ==> (#[trigger] v.pending[from].queued()[i]).len()
                + 16 <= 65535,
        transport_of(w.state) matches Some(t) ==> sending_key(t) is Some,
    ensures
        v.pending.contains_key(from),
        v.pending[from] is XxInitiatorMsg1,
        !v.after_xx_msg2(from, data, now, Some(w)).0.pending.contains_key(from),
        transport_of(w.state) is Some,
        v.after_xx_msg2(from, data, now, Some(w)).1 matches IncomingView::HandshakeComplete {
            peer,
            packets_to_send,
            decrypted_payload,
            ..
        } && {
            let q = v.pending[from].queued();
            let t = transport_of(w.state)->Some_0;
            &&& peer == from
            &&& decrypted_payload is None
            &&& packets_to_send.len() == q.len()
            &&& packets_to_send[0] == seq![0xEBu8, 0x3E, 0x05] + w.bytes
            &&& forall|i: int|
                1 <= i < q.len() ==> #[trigger] packets_to_send[i] == frame_of(
                    sending_key(t)->Some_0,
                    (i - 1) as u64,
                    q[i],
                )
        },
        ({
            let (state, prior, q) = (
                v.pending[from]->XxInitiatorMsg1_state,
                v.pending[from]->XxInitiatorMsg1_prior,
                v.pending[from].queued(),
            );
            if heard(state, data).1 is Some {
                wrote(heard(state, data).0, q[0], w.state, w.bytes)
            } else {
                prior matches Some(p) && heard(p, data).1 is Some && wrote(
                    heard(p, data).0,
                    q[0],
                    w.state,
                    w.bytes,
                )
            }
        }),
{
    if let PendingView::XxInitiatorMsg1 { queued, .. } = v.pending[from] {
        let h = w.state;
        if let (Some(key), Some(t)) = (crate::ember::state::remote_key(h), transport_of(h)) {
            let s = NoiseSession::fresh(t, key, false, true, now);
            let rest = queued.skip(1);
            assert forall|i: int| 0 <= i < rest.len() implies (#[trigger] rest[i]).len() + 16
                <= 65535 by {
                assert(rest[i] == v.pending[from].queued()[i + 1]);
            }
            lemma_sent_in_order(s, rest);
            lemma_packet_bytes(0x05, w.bytes);
            let first = seq![crate::ember::session::packet(0x05, w.bytes)];
            let all = first + s.sent_all(rest).1;
            assert forall|i: int| 1 <= i < queued.len() implies #[trigger] all[i] == frame_of(
                sending_key(t)->Some_0,
                (i - 1) as u64,
                queued[i],
            ) by {
                assert(all[i] == s.sent_all(rest).1[i - 1]);
                assert(rest[i - 1] == queued[i]);
            }
        }
    }
}

/// The bytes of a packet: two of magic, its type, and the body.
pub proof fn lemma_packet_bytes(kind: u8, body: Seq<u8>)
    ensures
        crate::ember::session::packet(kind, body) == seq![0xEBu8, 0x3E, kind] + body,
{
    assert(crate::ember::session::EMBER_MAGIC[0] == 0xEB);
    assert(crate::ember::session::EMBER_MAGIC[1] == 0x3E);
    assert(crate::ember::session::packet(kind, body) =~= seq![0xEBu8, 0x3E, kind] + body);
}

// ---------------------------------------------------------------------------
// With a session, and with nothing
// ---------------------------------------------------------------------------
/// A message to a peer with which there is a session goes out at once, in a frame
/// under the next nonce, and the nonce counts up. One that does not fit into a
/// frame ends the session.
pub proof fn lemma_session_sends(
    v: EmberView,
    peer: SocketAddr,
    message: Seq<u8>,
    now: u64,
    w: Option<Written>,
)
    requires
        v.sessions.contains_key(peer),
        sending_key(v.sessions[peer].transport) is Some,
        v.sessions[peer].send_nonce < u64::MAX,
    ensures
        message.len() + 16 <= 65535 ==> v.after_outgoing(peer, None, message, now, w).1 == (
        OutgoingView::Ready {
            packet: frame_of(
                sending_key(v.sessions[peer].transport)->Some_0,
                v.sessions[peer].send_nonce,
                message,
            ),
        }),
        message.len() + 16 <= 65535 ==> v.after_outgoing(peer, None, message, now, w).0.sessions
            == v.sessions.insert(
            peer,
            NoiseSession {
                send_nonce: (v.sessions[peer].send_nonce + 1) as u64,
                last_activity: now,
                ..v.sessions[peer]
            },
        ),
        message.len() + 16 > 65535 ==> v.after_outgoing(peer, None, message, now, w).1 is Error
            && v.after_outgoing(peer, None, message, now, w).0.sessions == v.sessions.remove(peer),
{
    lemma_frame_of(v.sessions[peer], message);
    let s = NoiseSession { last_activity: now, ..v.sessions[peer] };
    lemma_frame_of(s, message);
}

/// A message to a peer that nothing is known of begins a handshake. With a peer
/// whose key is known, the first packet carries the message, and nothing waits;
/// with another, the message waits alone.
pub proof fn lemma_stranger_is_greeted(
    v: EmberView,
    peer: SocketAddr,
    want: Option<[u8; 32]>,
    message: Seq<u8>,
    now: u64,
    w: Written,
)
    requires
        !v.sessions.contains_key(peer),
        !v.pending.contains_key(peer),
    ensures
        v.after_outgoing(peer, want, message, now, Some(w)).0.pending.contains_key(peer),
        ({
            let (r, o) = v.after_outgoing(peer, want, message, now, Some(w));
            match want {
                Some(_) => {
                    &&& o == (OutgoingView::HandshakeStarted {
                        packet: seq![0xEBu8, 0x3E, 0x01] + w.bytes,
                    })
                    &&& r.pending[peer].queued().len() == 0
                    &&& r.pending[peer] is IkInitiator
                },
                None => {
                    &&& o == (OutgoingView::HandshakeStarted {
                        packet: seq![0xEBu8, 0x3E, 0x03] + w.bytes,
                    })
                    &&& r.pending[peer].queued() == seq![message]
                    &&& r.pending[peer] is XxInitiatorMsg1
                },
            }
        }),
        v.after_outgoing(peer, want, message, now, Some(w)).0.pending[peer].created() == now,
{
    lemma_packet_bytes(0x01, w.bytes);
    lemma_packet_bytes(0x03, w.bytes);
}

// ---------------------------------------------------------------------------
// Time limits
// ---------------------------------------------------------------------------
/// Cleaning up at `now` drops a session that was idle for five minutes, and a
/// handshake, a first packet or a request that waits after half a minute, and
/// nothing else.
pub proof fn lemma_limits_of_time(v: EmberView, now: u64, a: SocketAddr)
    ensures
        v.cleaned(now).sessions.contains_key(a) <==> v.sessions.contains_key(a) && elapsed(
            v.sessions[a].last_activity,
            now,
        ) < 300000,
        v.cleaned(now).pending.contains_key(a) <==> v.pending.contains_key(a) && elapsed(
            v.pending[a].created(),
            now,
        ) < 30000,
        v.cleaned(now).sessions.contains_key(a) ==> v.cleaned(now).sessions[a] == v.sessions[a],
        v.cleaned(now).pending.contains_key(a) ==> v.cleaned(now).pending[a] == v.pending[a],
        forall|c: crate::ember::eviction::Claim|
            #![trigger v.cleaned(now).shadows.contains_key(c)]
            v.cleaned(now).shadows.contains_key(c) <==> v.shadows.contains_key(c) && elapsed(
                v.shadows[c].last_activity,
                now,
            ) < 300000,
        forall|c: crate::ember::eviction::Claim|
            #![trigger v.cleaned(now).deferred.contains_key(c)]
            v.cleaned(now).deferred.contains_key(c) <==> v.deferred.contains_key(c) && elapsed(
                v.deferred[c].stored,
                now,
            ) < 30000,
        forall|d: crate::ember::eviction::PacketDigest|
            #![trigger v.cleaned(now).recent.contains_key(d)]
            v.cleaned(now).recent.contains_key(d) <==> v.recent.contains_key(d) && elapsed(
                v.recent[d].seen_at,
                now,
            ) < 30000,
{
}

/// Answers to addresses that have proven nothing are earned at sixteen a second,
/// and no more than 64 are kept. What is left of a second is not lost: the time is
/// taken only when at least one answer was earned.
pub proof fn lemma_budget(v: EmberView, now: u64)
    requires
        v.tokens <= 64,
    ensures
        ({
            let earned = elapsed(v.refilled_at, now) * 16 / 1000;
            let r = v.refilled(now);
            &&& r.tokens == if v.tokens + earned > 64 {
                64
            } else {
                v.tokens + earned
            }
            &&& r.refilled_at == if earned == 0 {
                v.refilled_at
            } else {
                now
            }
            &&& r.sessions == v.sessions && r.pending == v.pending && r.secret == v.secret
        }),
        v.spent().tokens == if v.tokens == 0 {
            0
        } else {
            v.tokens - 1
        },
{
}

/// A packet counts by its third byte: 1 and 2 are the two messages of a handshake
/// with a known key, 3 to 5 the three of one with an unknown key, 6 a cookie, 16 a
/// frame. One without the magic, longer than 4096 bytes or of another type is
/// rejected, and changes nothing.
pub proof fn lemma_packet_types(
    v: EmberView,
    data: Seq<u8>,
    from: SocketAddr,
    now: u64,
    luck: crate::ember::state::Luck,
)
    ensures
        ({
            let r = v.after_packet(data, from, now, luck);
            let body = data.skip(3);
            if data.len() < 3 || data.len() > 4096 || data[0] != 0xEB || data[1] != 0x3E {
                r == (v, IncomingView::Rejected)
            } else if data[2] == 1 {
                r == v.after_ik_init(from, body, now, luck.written, luck.probe)
            } else if data[2] == 2 {
                r == v.after_ik_resp(from, body, now)
            } else if data[2] == 3 {
                r == v.after_xx_msg1(from, body, now, luck.fresh, luck.fresh_prev, luck.written)
            } else if data[2] == 4 {
                r == v.after_xx_msg2(from, body, now, luck.written)
            } else if data[2] == 5 {
                r == v.after_xx_msg3(from, body, now)
            } else if data[2] == 6 {
                r == v.after_xx_cookie(from, body, now, luck.written)
            } else if data[2] == 16 {
                r == v.after_frame(from, body, now)
            } else {
                r == (v, IncomingView::Rejected)
            }
        }),
{
}

/// At most 4096 sessions, 512 handshakes and 8192 first packets are kept. Where there
/// are as many, the one that is the oldest makes room for a new one, and no other.
pub proof fn lemma_oldest_make_room(
    v: EmberView,
    d: crate::ember::eviction::PacketDigest,
    from: SocketAddr,
    now: u64,
)
    requires
        v.wf(),
    ensures
        v.sessions.dom().len() < 4096 ==> v.session_room().sessions == v.sessions,
        v.sessions.dom().len() == 4096 ==> exists|k: SocketAddr| #[trigger]
            v.sessions.contains_key(k) && v.session_room().sessions == v.sessions.remove(k) && (
            forall|j: SocketAddr| #[trigger]
                v.sessions.contains_key(j) ==> v.sessions[k].last_activity
                    <= v.sessions[j].last_activity),
        v.pending.dom().len() < 512 ==> v.pending_room().pending == v.pending,
        v.pending.dom().len() == 512 ==> exists|k: SocketAddr| #[trigger]
            v.pending.contains_key(k) && v.pending_room().pending == v.pending.remove(k) && (forall|
                j: SocketAddr,
            | #[trigger]
                v.pending.contains_key(j) ==> v.pending[k].created() <= v.pending[j].created()),
        v.remembered(d, from, now).recent.contains_key(d),
        v.remembered(d, from, now).recent[d].seen_at == now,
        v.remembered(d, from, now).recent[d].from == from,
        v.remembered(d, from, now).recent[d].response is None,
        v.recent.dom().len() < 8192 ==> v.remembered(d, from, now).recent == v.recent.insert(
            d,
            crate::ember::state::RecentView { seen_at: now, from, response: None },
        ),
{
    let s = crate::ember::eviction::stamps(v.sessions);
    assert(s.dom() =~= v.sessions.dom());
    crate::ember::eviction::lemma_room_made(v.sessions, s, 4096);
    if v.sessions.dom().len() == 4096 {
        let k = choose|k: SocketAddr| #[trigger]
            v.sessions.contains_key(k) && v.session_room().sessions == v.sessions.remove(k) && (
            forall|j: SocketAddr| #[trigger] v.sessions.contains_key(j) ==> s[k] <= s[j]);
        assert forall|j: SocketAddr| #[trigger] v.sessions.contains_key(j) implies
            v.sessions[k].last_activity <= v.sessions[j].last_activity by {
            assert(s[k] <= s[j]);
        }
        assert(v.sessions.contains_key(k));
    }
    let p = crate::ember::state::pending_stamps(v.pending);
    assert(p.dom() =~= v.pending.dom());
    crate::ember::eviction::lemma_room_made(v.pending, p, 512);
    if v.pending.dom().len() == 512 {
        let k = choose|k: SocketAddr| #[trigger]
            v.pending.contains_key(k) && v.pending_room().pending == v.pending.remove(k) && (forall|
                j: SocketAddr,
            | #[trigger] v.pending.contains_key(j) ==> p[k] <= p[j]);
        assert forall|j: SocketAddr| #[trigger] v.pending.contains_key(j) implies
            v.pending[k].created() <= v.pending[j].created() by {
            assert(p[k] <= p[j]);
        }
        assert(v.pending.contains_key(k));
    }
}

/// A first packet is known again for half a minute, and gets again the answer that it
/// got, if it comes from where it came.
pub proof fn lemma_first_packet_known(
    v: EmberView,
    d: crate::ember::eviction::PacketDigest,
    from: SocketAddr,
    now: u64,
)
    ensures
        v.seen(d, now) <==> v.recent.contains_key(d) && elapsed(v.recent[d].seen_at, now) < 30000,
        v.recent[d].from == from ==> v.cached(d, from) == v.recent[d].response,
        v.recent[d].from != from ==> v.cached(d, from) is None,
        v.cached(d, from) is None ==> v.again(d, from) is Rejected,
        v.cached(d, from) matches Some(p) ==> v.again(d, from) == (
        IncomingView::HandshakeResponse { to: from, packets: seq![p] }),
{
}

/// Cookie secrets take turns every 15 seconds: the one that was used before is
/// honoured for one turn more, unless two turns have gone by.
pub proof fn lemma_secrets_turn(
    v: EmberView,
    now: u64,
    fresh: [u8; 32],
    fresh_prev: [u8; 32],
)
    ensures
        ({
            let e = elapsed(v.rotated_at, now);
            let r = v.rotated(now, fresh, fresh_prev);
            &&& e < 15000 ==> r == v
            &&& e >= 15000 ==> r.secret == fresh && r.rotated_at == now
            &&& 15000 <= e < 30000 ==> r.prev_secret == v.secret
            &&& e >= 30000 ==> r.prev_secret == fresh_prev
        }),
{
}

/// A cookie is the first 16 bytes of the keyed digest of a fixed text, the family and
/// bytes of the address, and the port with its high byte first.
pub proof fn lemma_cookie_bytes(
    secret: [u8; 32],
    ip: crate::net::Ipv4Addr,
    port: u16,
    b: Seq<u8>,
)
    requires
        b.len() == 31,
        b.take(24) == crate::ember::state::cookie_domain(),
        b[24] == 4,
        b[25] == ip.bits / 0x100_0000,
        b[26] == (ip.bits / 0x1_0000) % 256,
        b[27] == (ip.bits / 0x100) % 256,
        b[28] == ip.bits % 256,
        b[29] == port / 256,
        b[30] == port % 256,
    ensures
        crate::ember::state::cookie_for(
            secret,
            SocketAddr { ip: crate::net::IpAddr::V4(ip), port },
        ) == crate::ember::noise::blake3_keyed(secret@, b).take(16),
{
    let a = SocketAddr { ip: crate::net::IpAddr::V4(ip), port };
    let d = crate::ember::state::cookie_domain();
    assert(d.len() == 24);
    assert forall|k: int| 0 <= k < 24 implies b[k] == d[k] by {
        assert(b.take(24)[k] == b[k]);
    }
    assert(b =~= crate::ember::state::cookie_input(a));
}

} // verus!
