//! Sessions and handshakes of the overlay.
use ember_net::ember::control::{
    EmberControlMessage, CONTROL_KIND_EXCHANGE_REQUEST, CONTROL_VERSION,
};
use ember_net::ember::session::EMBER_MAGIC;
use ember_net::ember::state::{
    HEADER_LEN, MAX_DEFERRED_IK_PAYLOADS_PER_ADDR, MAX_SHADOW_SESSIONS_PER_ADDR, PKT_XX_COOKIE,
    PKT_XX_MSG1, PKT_XX_MSG2, XX_COOKIE_LEN, XX_COOKIE_ROTATION_MS,
};
use ember_net::ember::transport::{EmberTransport, IncomingResult, OutgoingResult};
use ember_net::net::{IpAddr, Ipv4Addr, SocketAddr};

const NOW: u64 = 1_000_000;

fn addr(a: u8, b: u8, c: u8, d: u8, port: u16) -> SocketAddr {
    SocketAddr { ip: IpAddr::V4(Ipv4Addr::new(a, b, c, d)), port }
}

fn make_keypair() -> ([u8; 32], [u8; 32]) {
    let params: snow::params::NoiseParams = "Noise_XX_25519_ChaChaPoly_BLAKE2s".parse().unwrap();
    let kp = snow::Builder::new(params).generate_keypair().unwrap();
    let mut priv_key = [0u8; 32];
    let mut pub_key = [0u8; 32];
    priv_key.copy_from_slice(&kp.private);
    pub_key.copy_from_slice(&kp.public);
    (priv_key, pub_key)
}

#[test]
fn is_ember_packet_detects_magic() {
    assert!(EmberTransport::is_ember_packet(&[0xEB, 0x3E, 0x01]));
    assert!(!EmberTransport::is_ember_packet(&[0xEB, 0x3F, 0x01]));
    assert!(!EmberTransport::is_ember_packet(&[0xEB]));
    assert!(!EmberTransport::is_ember_packet(&[]));
}

#[test]
fn ik_handshake_round_trip() {
    let (alice_priv, alice_pub) = make_keypair();
    let (bob_priv, bob_pub) = make_keypair();

    let mut alice = EmberTransport::new(alice_priv, alice_pub, NOW);
    let mut bob = EmberTransport::new(bob_priv, bob_pub, NOW);

    let alice_addr = addr(1, 2, 3, 4, 1000);
    let bob_addr = addr(5, 6, 7, 8, 2000);

    let msg = b"hello from alice";
    let result = alice.prepare_outgoing(bob_addr, Some(&bob_pub), msg, NOW);
    let init_packet = match result {
        OutgoingResult::HandshakeStarted { packet } => packet,
        other => panic!("expected HandshakeStarted, got: {}", variant_name(&other)),
    };

    let result = bob.process_incoming(&init_packet, alice_addr, NOW);
    let (resp_packets, decrypted) = match result {
        IncomingResult::HandshakeComplete {
            packets_to_send,
            decrypted_payload,
            ..
        } => (packets_to_send, decrypted_payload),
        _ => panic!("expected HandshakeComplete"),
    };
    assert_eq!(decrypted, None);
    assert_eq!(resp_packets.len(), 2);

    let result = alice.process_incoming(&resp_packets[0], bob_addr, NOW);
    match result {
        IncomingResult::HandshakeComplete {
            packets_to_send, ..
        } => {
            assert!(packets_to_send.is_empty());
        }
        _ => panic!("expected HandshakeComplete"),
    }

    assert!(alice.has_session(&bob_addr));
    assert!(bob.has_session(&alice_addr));

    let probe_answer = alice.dispatch_incoming(&resp_packets[1], bob_addr, NOW);
    assert_eq!(probe_answer.responses.len(), 1);
    let released = bob.dispatch_incoming(&probe_answer.responses[0], alice_addr, NOW);
    assert_eq!(released.app_payloads, vec![msg.to_vec()]);

    let msg2 = b"subsequent message";
    let packet = match alice.prepare_outgoing(bob_addr, Some(&bob_pub), msg2, NOW) {
        OutgoingResult::Ready { packet } => packet,
        other => panic!("expected Ready, got: {}", variant_name(&other)),
    };
    match bob.process_incoming(&packet, alice_addr, NOW) {
        IncomingResult::Message { payload, .. } => {
            assert_eq!(&payload, msg2);
        }
        _ => panic!("expected Message"),
    }
}

fn established_pair() -> (EmberTransport, EmberTransport, SocketAddr, SocketAddr) {
    let (alice_priv, alice_pub) = make_keypair();
    let (bob_priv, bob_pub) = make_keypair();
    let mut alice = EmberTransport::new(alice_priv, alice_pub, NOW);
    let mut bob = EmberTransport::new(bob_priv, bob_pub, NOW);
    let alice_addr = addr(1, 2, 3, 4, 1000);
    let bob_addr = addr(5, 6, 7, 8, 2000);

    let init = match alice.prepare_outgoing(bob_addr, Some(&bob_pub), b"hi", NOW) {
        OutgoingResult::HandshakeStarted { packet } => packet,
        _ => panic!("expected HandshakeStarted"),
    };
    let resp = match bob.process_incoming(&init, alice_addr, NOW) {
        IncomingResult::HandshakeComplete {
            packets_to_send, ..
        } => packets_to_send,
        _ => panic!("expected HandshakeComplete (responder)"),
    };
    match alice.process_incoming(&resp[0], bob_addr, NOW) {
        IncomingResult::HandshakeComplete { .. } => {}
        _ => panic!("expected HandshakeComplete (initiator)"),
    }
    (alice, bob, alice_addr, bob_addr)
}

fn spend_xx_msg2_budget(t: &mut EmberTransport, count: usize, now: u64) {
    let (priv_key, pub_key) = make_keypair();
    let mut flooder = EmberTransport::new(priv_key, pub_key, now);
    for msg1 in distinct_xx_msg1s(&mut flooder, count) {
        match t.process_incoming(&msg1, addr(7, 7, 7, 7, 7777), now) {
            IncomingResult::HandshakeResponse { packets, .. } => {
                assert_eq!(packets[0][2], PKT_XX_MSG2);
            }
            _ => panic!("expected msg2 within the budget"),
        }
    }
}

fn xx_cookie_round_trip(
    initiator: &mut EmberTransport,
    responder: &mut EmberTransport,
    initiator_addr: SocketAddr,
    responder_addr: SocketAddr,
    msg1: &[u8],
) -> Vec<u8> {
    spend_xx_msg2_budget(responder, 64, NOW);
    let cookie = match responder.process_incoming(msg1, initiator_addr, NOW) {
        IncomingResult::HandshakeResponse { packets, .. } => packets,
        _ => panic!("expected a retry cookie for an unproven XX msg1"),
    };
    assert_eq!(cookie.len(), 1);
    assert_eq!(cookie[0][2], PKT_XX_COOKIE, "expected a cookie packet");

    match initiator.process_incoming(&cookie[0], responder_addr, NOW) {
        IncomingResult::HandshakeResponse { packets, .. } => {
            assert_eq!(packets.len(), 1);
            packets.into_iter().next().expect("retried msg1")
        }
        _ => panic!("expected the initiator to re-send msg1 with the cookie"),
    }
}

fn seal_ready(t: &mut EmberTransport, peer: SocketAddr, msg: &[u8]) -> Vec<u8> {
    match t.prepare_outgoing(peer, None, msg, NOW) {
        OutgoingResult::Ready { packet } => packet,
        _ => panic!("expected Ready on established session"),
    }
}

#[test]
fn transport_tolerates_reorder_and_rejects_replay() {
    let (mut alice, mut bob, alice_addr, bob_addr) = established_pair();
    let p1 = seal_ready(&mut alice, bob_addr, b"one");
    let p2 = seal_ready(&mut alice, bob_addr, b"two");
    let p3 = seal_ready(&mut alice, bob_addr, b"three");

    for (pkt, expect) in [(&p3, &b"three"[..]), (&p1, &b"one"[..]), (&p2, &b"two"[..])] {
        match bob.process_incoming(pkt, alice_addr, NOW) {
            IncomingResult::Message { payload, .. } => assert_eq!(payload, expect),
            _ => panic!("expected Message for reordered packet"),
        }
    }

    assert!(matches!(
        bob.process_incoming(&p1, alice_addr, NOW),
        IncomingResult::Rejected
    ));
    let p4 = seal_ready(&mut alice, bob_addr, b"four");
    assert!(matches!(
        bob.process_incoming(&p4, alice_addr, NOW),
        IncomingResult::Message { .. }
    ));
}

#[test]
fn forged_transport_packet_does_not_tear_down_session() {
    let (mut alice, mut bob, alice_addr, bob_addr) = established_pair();
    let good = seal_ready(&mut alice, bob_addr, b"legit");

    let mut forged = good.clone();
    let last = forged.len() - 1;
    forged[last] ^= 0xFF;
    assert!(matches!(
        bob.process_incoming(&forged, alice_addr, NOW),
        IncomingResult::Rejected
    ));
    assert!(
        bob.has_session(&alice_addr),
        "a single forged/corrupt datagram must not tear down the session"
    );

    match bob.process_incoming(&good, alice_addr, NOW) {
        IncomingResult::Message { payload, .. } => assert_eq!(payload, b"legit"),
        _ => panic!("expected Message after a forged packet was dropped"),
    }
}

#[test]
fn a_replayed_ik_init_gets_the_cached_answer_and_nothing_else() {
    let (alice_priv, alice_pub) = make_keypair();
    let (bob_priv, bob_pub) = make_keypair();
    let mut alice = EmberTransport::new(alice_priv, alice_pub, NOW);
    let mut bob = EmberTransport::new(bob_priv, bob_pub, NOW);
    let alice_addr = addr(1, 2, 3, 4, 1000);
    let bob_addr = addr(5, 6, 7, 8, 2000);

    let init = match alice.prepare_outgoing(bob_addr, Some(&bob_pub), b"req", NOW) {
        OutgoingResult::HandshakeStarted { packet } => packet,
        _ => panic!("expected HandshakeStarted"),
    };
    let original_response = match bob.process_incoming(&init, alice_addr, NOW) {
        IncomingResult::HandshakeComplete {
            decrypted_payload,
            packets_to_send,
            ..
        } => {
            assert_eq!(decrypted_payload, None);
            packets_to_send
        }
        _ => panic!("expected HandshakeComplete"),
    };

    match bob.process_incoming(&init, alice_addr, NOW) {
        IncomingResult::HandshakeResponse { packets, .. } => {
            assert_eq!(
                packets,
                original_response[..1].to_vec(),
                "the repeat must get exactly the handshake answer we already sent"
            );
        }
        _ => panic!("expected the cached answer to be re-sent"),
    }

    assert!(
        matches!(
            bob.prepare_outgoing(alice_addr, Some(&alice_pub), b"after", NOW),
            OutgoingResult::Ready { .. }
        ),
        "the replay must not have disturbed the live session"
    );
}

#[test]
fn xx_handshake_round_trip() {
    let (alice_priv, alice_pub) = make_keypair();
    let (bob_priv, bob_pub) = make_keypair();

    let mut alice = EmberTransport::new(alice_priv, alice_pub, NOW);
    let mut bob = EmberTransport::new(bob_priv, bob_pub, NOW);

    let alice_addr = addr(1, 2, 3, 4, 1000);
    let bob_addr = addr(5, 6, 7, 8, 2000);

    let msg = b"hello via XX";

    let init_packet = match alice.prepare_outgoing(bob_addr, None, msg, NOW) {
        OutgoingResult::HandshakeStarted { packet } => packet,
        other => panic!("expected HandshakeStarted, got: {}", variant_name(&other)),
    };

    let msg2_packets = match bob.process_incoming(&init_packet, alice_addr, NOW) {
        IncomingResult::HandshakeResponse { packets, .. } => packets,
        _ => panic!("expected HandshakeResponse"),
    };
    assert_eq!(msg2_packets.len(), 1);

    let result = alice.process_incoming(&msg2_packets[0], bob_addr, NOW);
    let msg3_packets = match result {
        IncomingResult::HandshakeComplete {
            packets_to_send, ..
        } => packets_to_send,
        _ => panic!("expected HandshakeComplete"),
    };
    assert!(!msg3_packets.is_empty());

    let result = bob.process_incoming(&msg3_packets[0], alice_addr, NOW);
    match result {
        IncomingResult::HandshakeComplete {
            decrypted_payload, ..
        } => {
            assert_eq!(decrypted_payload.as_deref(), Some(msg.as_slice()));
        }
        _ => panic!("expected HandshakeComplete"),
    }

    assert!(alice.has_session(&bob_addr));
    assert!(bob.has_session(&alice_addr));
}

#[test]
fn control_message_crosses_established_noise_session() {
    let (alice_priv, alice_pub) = make_keypair();
    let (bob_priv, bob_pub) = make_keypair();

    let mut alice = EmberTransport::new(alice_priv, alice_pub, NOW);
    let mut bob = EmberTransport::new(bob_priv, bob_pub, NOW);

    let alice_addr = addr(1, 2, 3, 4, 1000);
    let bob_addr = addr(5, 6, 7, 8, 2000);

    let bootstrap = EmberControlMessage::Ping { nonce: 1 }.encode();
    let init_packet = match alice.prepare_outgoing(bob_addr, Some(&bob_pub), &bootstrap, NOW) {
        OutgoingResult::HandshakeStarted { packet } => packet,
        other => panic!("expected HandshakeStarted, got: {}", variant_name(&other)),
    };

    let resp_packets = match bob.process_incoming(&init_packet, alice_addr, NOW) {
        IncomingResult::HandshakeComplete {
            packets_to_send,
            decrypted_payload,
            ..
        } => {
            assert_eq!(decrypted_payload, None);
            packets_to_send
        }
        _ => panic!("expected HandshakeComplete"),
    };
    assert_eq!(resp_packets.len(), 2);

    match alice.process_incoming(&resp_packets[0], bob_addr, NOW) {
        IncomingResult::HandshakeComplete { .. } => {}
        _ => panic!("expected HandshakeComplete"),
    }
    let probe_answer = alice.dispatch_incoming(&resp_packets[1], bob_addr, NOW);
    assert_eq!(
        bob.dispatch_incoming(&probe_answer.responses[0], alice_addr, NOW)
            .controls,
        vec![EmberControlMessage::Ping { nonce: 1 }],
    );

    let pong = EmberControlMessage::Pong { nonce: 1 }.encode();
    let packet = match bob.prepare_outgoing(alice_addr, Some(&alice_pub), &pong, NOW) {
        OutgoingResult::Ready { packet } => packet,
        other => panic!("expected Ready, got: {}", variant_name(&other)),
    };

    match alice.process_incoming(&packet, bob_addr, NOW) {
        IncomingResult::Message { payload, .. } => {
            assert_eq!(
                EmberControlMessage::decode(&payload),
                Some(EmberControlMessage::Pong { nonce: 1 }),
            );
        }
        _ => panic!("expected Message"),
    }
}

#[test]
fn dispatch_surfaces_non_control_payload_as_app_payload() {
    let (alice_priv, alice_pub) = make_keypair();
    let (bob_priv, bob_pub) = make_keypair();
    let mut alice = EmberTransport::new(alice_priv, alice_pub, NOW);
    let mut bob = EmberTransport::new(bob_priv, bob_pub, NOW);
    let alice_addr = addr(1, 2, 3, 4, 1000);
    let bob_addr = addr(5, 6, 7, 8, 2000);

    let dht_like = vec![0x01u8; 90];

    let init = match alice.prepare_outgoing(bob_addr, Some(&bob_pub), &dht_like, NOW) {
        OutgoingResult::HandshakeStarted { packet } => packet,
        other => panic!("expected HandshakeStarted, got {}", variant_name(&other)),
    };

    let handshake = bob.dispatch_incoming(&init, alice_addr, NOW);
    assert!(!handshake.rejected);
    assert!(handshake.app_payloads.is_empty());
    assert_eq!(handshake.responses.len(), 2);

    assert!(
        !alice
            .dispatch_incoming(&handshake.responses[0], bob_addr, NOW)
            .rejected
    );
    let probe_answer = alice.dispatch_incoming(&handshake.responses[1], bob_addr, NOW);
    assert_eq!(probe_answer.responses.len(), 1, "the probe must be answered");

    let outcome = bob.dispatch_incoming(&probe_answer.responses[0], alice_addr, NOW);
    assert!(!outcome.rejected);
    assert!(
        outcome.controls.is_empty(),
        "payload is not a control frame"
    );
    assert_eq!(outcome.app_payloads, vec![dht_like]);
    assert_eq!(
        outcome.remote_noise_pub,
        Some(alice_pub),
        "app payload must carry the peer's Noise key for the reply path"
    );
}

#[test]
fn a_cached_handshake_answer_only_goes_back_to_its_sender() {
    let (alice_priv, alice_pub) = make_keypair();
    let (bob_priv, bob_pub) = make_keypair();
    let mut alice = EmberTransport::new(alice_priv, alice_pub, NOW);
    let mut bob = EmberTransport::new(bob_priv, bob_pub, NOW);
    let alice_addr = addr(1, 2, 3, 4, 1000);
    let victim_addr = addr(9, 9, 9, 9, 9999);
    let bob_addr = addr(5, 6, 7, 8, 2000);

    let init = match alice.prepare_outgoing(bob_addr, Some(&bob_pub), b"req", NOW) {
        OutgoingResult::HandshakeStarted { packet } => packet,
        _ => panic!("expected HandshakeStarted"),
    };
    assert!(matches!(
        bob.process_incoming(&init, alice_addr, NOW),
        IncomingResult::HandshakeComplete { .. }
    ));

    assert!(matches!(
        bob.process_incoming(&init, victim_addr, NOW),
        IncomingResult::Rejected
    ));

    assert!(matches!(
        bob.process_incoming(&init, alice_addr, NOW),
        IncomingResult::HandshakeResponse { .. }
    ));
}

#[test]
fn an_unvalidated_ik_init_is_never_amplified() {
    let (alice_priv, alice_pub) = make_keypair();
    let (bob_priv, bob_pub) = make_keypair();
    let mut alice = EmberTransport::new(alice_priv, alice_pub, NOW);
    let mut bob = EmberTransport::new(bob_priv, bob_pub, NOW);
    let victim_addr = addr(9, 9, 9, 9, 9999);
    let bob_addr = addr(5, 6, 7, 8, 2000);

    let query = vec![0x01u8; 136];
    let init = match alice.prepare_outgoing(bob_addr, Some(&bob_pub), &query, NOW) {
        OutgoingResult::HandshakeStarted { packet } => packet,
        other => panic!("expected HandshakeStarted, got {}", variant_name(&other)),
    };

    let outcome = bob.dispatch_incoming(&init, victim_addr, NOW);
    assert!(!outcome.rejected);
    assert!(
        outcome.app_payloads.is_empty(),
        "the embedded request must not reach the DHT until the address is proven"
    );
    assert!(outcome.controls.is_empty());
    let sent: usize = outcome.responses.iter().map(|p| p.len()).sum();
    assert!(
        sent <= init.len(),
        "forging a source address must never buy more bytes than it costs: \
         {sent} sent for {} received",
        init.len()
    );
}

fn distinct_xx_msg1s(initiator: &mut EmberTransport, count: usize) -> Vec<Vec<u8>> {
    (0..count)
        .map(|i| {
            let target = addr(5, 6, 7, 8, (2000 + i) as u16);
            match initiator.prepare_outgoing(target, None, b"find node", NOW) {
                OutgoingResult::HandshakeStarted { packet } => packet,
                other => panic!("expected HandshakeStarted, got {}", variant_name(&other)),
            }
        })
        .collect()
}

#[test]
fn an_xx_msg1_is_answered_directly_in_the_steady_state() {
    let (alice_priv, alice_pub) = make_keypair();
    let (bob_priv, bob_pub) = make_keypair();
    let mut alice = EmberTransport::new(alice_priv, alice_pub, NOW);
    let mut bob = EmberTransport::new(bob_priv, bob_pub, NOW);
    let alice_addr = addr(1, 2, 3, 4, 1000);
    let bob_addr = addr(5, 6, 7, 8, 2000);

    let msg1 = match alice.prepare_outgoing(bob_addr, None, b"hi", NOW) {
        OutgoingResult::HandshakeStarted { packet } => packet,
        other => panic!("expected HandshakeStarted, got {}", variant_name(&other)),
    };
    match bob.process_incoming(&msg1, alice_addr, NOW) {
        IncomingResult::HandshakeResponse { packets, .. } => {
            assert_eq!(packets.len(), 1);
            assert_eq!(
                packets[0][2], PKT_XX_MSG2,
                "an unattacked responder must not cost an existing peer a round trip"
            );
        }
        _ => panic!("expected msg2"),
    }
}

#[test]
fn an_xx_msg1_flood_falls_back_to_cookies_once_the_budget_is_spent() {
    let (alice_priv, alice_pub) = make_keypair();
    let (bob_priv, bob_pub) = make_keypair();
    let mut alice = EmberTransport::new(alice_priv, alice_pub, NOW);
    let mut bob = EmberTransport::new(bob_priv, bob_pub, NOW);
    let victim_addr = addr(9, 9, 9, 9, 9999);

    const BUDGET: usize = 2;
    spend_xx_msg2_budget(&mut bob, 64 - BUDGET, NOW);

    let flood = distinct_xx_msg1s(&mut alice, BUDGET + 3);
    let mut answers = Vec::new();
    let mut state_at_budget = None;
    for (i, msg1) in flood.iter().enumerate() {
        let outcome = bob.dispatch_incoming(msg1, victim_addr, NOW);
        assert!(!outcome.rejected);
        assert_eq!(outcome.responses.len(), 1);
        answers.push(outcome.responses[0].clone());
        if i + 1 == BUDGET {
            state_at_budget = Some((bob.pending_count(), bob.remembered_count()));
        }
    }

    for (i, (msg1, answer)) in flood.iter().zip(&answers).enumerate() {
        if i < BUDGET {
            assert_eq!(answer[2], PKT_XX_MSG2, "packet {i} is inside the budget");
            assert_eq!((msg1.len(), answer.len()), (35, 99), "the 2.83x we cap");
        } else {
            assert_eq!(answer[2], PKT_XX_COOKIE, "packet {i} is past the budget");
            assert_eq!((msg1.len(), answer.len()), (35, HEADER_LEN + XX_COOKIE_LEN));
            assert!(answer.len() <= msg1.len());
        }
    }

    assert_eq!(
        (bob.pending_count(), bob.remembered_count()),
        state_at_budget.expect("budget boundary observed"),
        "a msg1 answered with a cookie must leave nothing behind"
    );
    assert!(bob.session_count() == 0);
}

#[test]
fn a_replayed_xx_msg1_cannot_re_emit_the_cached_msg2_for_free() {
    let (alice_priv, alice_pub) = make_keypair();
    let (bob_priv, bob_pub) = make_keypair();
    let mut alice = EmberTransport::new(alice_priv, alice_pub, NOW);
    let mut bob = EmberTransport::new(bob_priv, bob_pub, NOW);
    let victim_addr = addr(9, 9, 9, 9, 9999);

    spend_xx_msg2_budget(&mut bob, 62, NOW);
    let msg1 = distinct_xx_msg1s(&mut alice, 1).remove(0);

    let first = bob.dispatch_incoming(&msg1, victim_addr, NOW);
    assert_eq!(first.responses[0][2], PKT_XX_MSG2);

    let second = bob.dispatch_incoming(&msg1, victim_addr, NOW);
    assert_eq!(second.responses[0][2], PKT_XX_MSG2);
    assert_eq!(second.responses[0], first.responses[0]);

    let third = bob.dispatch_incoming(&msg1, victim_addr, NOW);
    assert_eq!(
        third.responses[0][2], PKT_XX_COOKIE,
        "the cached msg2 must not outlive the budget"
    );
}

#[test]
fn a_spoofed_xx_msg2_does_not_strand_the_handshake() {
    let (alice_priv, alice_pub) = make_keypair();
    let (bob_priv, bob_pub) = make_keypair();
    let mut alice = EmberTransport::new(alice_priv, alice_pub, NOW);
    let mut bob = EmberTransport::new(bob_priv, bob_pub, NOW);
    let alice_addr = addr(1, 2, 3, 4, 1000);
    let bob_addr = addr(5, 6, 7, 8, 2000);

    let msg1 = match alice.prepare_outgoing(bob_addr, None, b"hi", NOW) {
        OutgoingResult::HandshakeStarted { packet } => packet,
        other => panic!("expected HandshakeStarted, got {}", variant_name(&other)),
    };
    let msg2 = match bob.process_incoming(&msg1, alice_addr, NOW) {
        IncomingResult::HandshakeResponse { packets, .. } => {
            packets.into_iter().next().expect("msg2")
        }
        _ => panic!("expected msg2"),
    };

    for corrupt in [HEADER_LEN + 36, msg2.len() - 1] {
        let mut forged = msg2.clone();
        forged[corrupt] ^= 0xff;
        assert!(
            matches!(
                alice.process_incoming(&forged, bob_addr, NOW),
                IncomingResult::Rejected
            ),
            "a msg2 that does not authenticate must be rejected"
        );
        assert!(
            alice.has_pending(&bob_addr),
            "the in-flight handshake must survive a packet that proved nothing \
             (corrupted at byte {corrupt})"
        );
    }

    let msg3 = match alice.process_incoming(&msg2, bob_addr, NOW) {
        IncomingResult::HandshakeComplete {
            packets_to_send, ..
        } => packets_to_send,
        _ => panic!("the genuine msg2 must still complete the handshake"),
    };
    assert!(!msg3.is_empty());
    match bob.process_incoming(&msg3[0], alice_addr, NOW) {
        IncomingResult::HandshakeComplete { .. } => {}
        _ => panic!("expected the responder to complete on msg3"),
    }
}

#[test]
fn a_sustained_spoof_cannot_keep_the_address_owner_from_completing() {
    let (alice_priv, alice_pub) = make_keypair();
    let (bob_priv, bob_pub) = make_keypair();
    let mut alice = EmberTransport::new(alice_priv, alice_pub, NOW);
    let mut bob = EmberTransport::new(bob_priv, bob_pub, NOW);
    let alice_addr = addr(1, 2, 3, 4, 1000);
    let bob_addr = addr(5, 6, 7, 8, 2000);

    let alice_init = match alice.prepare_outgoing(bob_addr, Some(&bob_pub), b"genuine", NOW) {
        OutgoingResult::HandshakeStarted { packet } => packet,
        other => panic!("expected HandshakeStarted, got {}", variant_name(&other)),
    };
    let to_alice = match bob.process_incoming(&alice_init, alice_addr, NOW) {
        IncomingResult::HandshakeComplete {
            packets_to_send, ..
        } => packets_to_send,
        _ => panic!("expected Bob to complete the IK handshake"),
    };

    let claims = MAX_SHADOW_SESSIONS_PER_ADDR.max(MAX_DEFERRED_IK_PAYLOADS_PER_ADDR) * 4;
    for i in 0..claims {
        let later = NOW + 1 + i as u64;
        let (squatter_priv, squatter_pub) = make_keypair();
        let mut squatter = EmberTransport::new(squatter_priv, squatter_pub, NOW);
        let squat = match squatter.prepare_outgoing(bob_addr, Some(&bob_pub), b"squat", NOW) {
            OutgoingResult::HandshakeStarted { packet } => packet,
            other => panic!("expected HandshakeStarted, got {}", variant_name(&other)),
        };
        assert!(matches!(
            bob.process_incoming(&squat, alice_addr, later),
            IncomingResult::HandshakeComplete { .. }
        ));
    }

    let mut probe_answer = None;
    for packet in &to_alice {
        let out = alice.dispatch_incoming(packet, bob_addr, NOW);
        assert!(!out.rejected, "Alice must accept Bob's own handshake reply");
        if let Some(response) = out.responses.into_iter().next() {
            probe_answer = Some(response);
        }
    }
    let probe_answer = probe_answer.expect("Alice answers the return-routability probe");

    let released = bob.dispatch_incoming(&probe_answer, alice_addr, NOW + 1_000);
    assert!(
        !released.rejected,
        "a spoof flood must not stop the address owner completing first contact"
    );
    assert_eq!(
        released.app_payloads,
        vec![b"genuine".to_vec()],
        "and her queued request must be released"
    );
}

#[test]
fn a_spoofed_xx_cookie_does_not_strand_the_handshake() {
    let (alice_priv, alice_pub) = make_keypair();
    let (bob_priv, bob_pub) = make_keypair();
    let mut alice = EmberTransport::new(alice_priv, alice_pub, NOW);
    let mut bob = EmberTransport::new(bob_priv, bob_pub, NOW);
    let alice_addr = addr(1, 2, 3, 4, 1000);
    let bob_addr = addr(5, 6, 7, 8, 2000);

    let msg1 = match alice.prepare_outgoing(bob_addr, None, b"hi", NOW) {
        OutgoingResult::HandshakeStarted { packet } => packet,
        other => panic!("expected HandshakeStarted, got {}", variant_name(&other)),
    };
    let msg2 = match bob.process_incoming(&msg1, alice_addr, NOW) {
        IncomingResult::HandshakeResponse { packets, .. } => {
            packets.into_iter().next().expect("msg2")
        }
        _ => panic!("expected msg2"),
    };

    let mut forged = Vec::with_capacity(HEADER_LEN + XX_COOKIE_LEN);
    forged.extend_from_slice(&[EMBER_MAGIC[0], EMBER_MAGIC[1], PKT_XX_COOKIE]);
    forged.extend_from_slice(&[0xAB; XX_COOKIE_LEN]);
    match alice.process_incoming(&forged, bob_addr, NOW) {
        IncomingResult::HandshakeResponse { packets, .. } => {
            assert_eq!(packets[0][2], PKT_XX_MSG1, "the retry is an ordinary msg1");
        }
        _ => panic!("expected the cookie retry"),
    }
    assert!(
        alice.has_pending(&bob_addr),
        "the handshake must still be in flight"
    );

    let msg3 = match alice.process_incoming(&msg2, bob_addr, NOW) {
        IncomingResult::HandshakeComplete {
            packets_to_send, ..
        } => packets_to_send,
        _ => panic!("the genuine msg2 must still complete the handshake"),
    };
    assert!(!msg3.is_empty());
    match bob.process_incoming(&msg3[0], alice_addr, NOW) {
        IncomingResult::HandshakeComplete { .. } => {}
        _ => panic!("expected the responder to complete on msg3"),
    }

    let mut alice2 = EmberTransport::new(make_keypair().0, alice_pub, NOW);
    let _ = alice2.prepare_outgoing(bob_addr, None, b"hi", NOW);
    assert!(matches!(
        alice2.process_incoming(&forged, bob_addr, NOW),
        IncomingResult::HandshakeResponse { .. }
    ));
    assert!(
        matches!(
            alice2.process_incoming(&forged, bob_addr, NOW),
            IncomingResult::Rejected
        ),
        "a handshake gets one cookie retry, not one per forged packet"
    );
}

#[test]
fn an_xx_cookie_is_bound_to_the_address_it_was_issued_to() {
    let (alice_priv, alice_pub) = make_keypair();
    let (bob_priv, bob_pub) = make_keypair();
    let mut alice = EmberTransport::new(alice_priv, alice_pub, NOW);
    let mut bob = EmberTransport::new(bob_priv, bob_pub, NOW);
    let alice_addr = addr(1, 2, 3, 4, 1000);
    let victim_addr = addr(9, 9, 9, 9, 9999);
    let bob_addr = addr(5, 6, 7, 8, 2000);

    let msg1 = match alice.prepare_outgoing(bob_addr, None, b"hi", NOW) {
        OutgoingResult::HandshakeStarted { packet } => packet,
        other => panic!("expected HandshakeStarted, got {}", variant_name(&other)),
    };
    let retried = xx_cookie_round_trip(&mut alice, &mut bob, alice_addr, bob_addr, &msg1);

    match bob.process_incoming(&retried, victim_addr, NOW) {
        IncomingResult::HandshakeResponse { packets, .. } => {
            assert_eq!(packets.len(), 1);
            assert_eq!(
                packets[0][2], PKT_XX_COOKIE,
                "a captured cookie must not buy a handshake from another address"
            );
        }
        _ => panic!("expected a fresh cookie"),
    }

    match bob.process_incoming(&retried, alice_addr, NOW) {
        IncomingResult::HandshakeResponse { packets, .. } => {
            assert_eq!(packets[0][2], PKT_XX_MSG2);
        }
        _ => panic!("the address the cookie was issued to must be served"),
    }
}

#[test]
fn an_xx_cookie_expires_with_its_secret() {
    let (alice_priv, alice_pub) = make_keypair();
    let (bob_priv, bob_pub) = make_keypair();
    let mut alice = EmberTransport::new(alice_priv, alice_pub, NOW);
    let mut bob = EmberTransport::new(bob_priv, bob_pub, NOW);
    let alice_addr = addr(1, 2, 3, 4, 1000);
    let bob_addr = addr(5, 6, 7, 8, 2000);

    let msg1 = match alice.prepare_outgoing(bob_addr, None, b"hi", NOW) {
        OutgoingResult::HandshakeStarted { packet } => packet,
        other => panic!("expected HandshakeStarted, got {}", variant_name(&other)),
    };
    let retried = xx_cookie_round_trip(&mut alice, &mut bob, alice_addr, bob_addr, &msg1);

    let later = NOW + XX_COOKIE_ROTATION_MS;
    match bob.process_incoming(&retried, alice_addr, later) {
        IncomingResult::HandshakeResponse { packets, .. } => {
            assert_eq!(packets[0][2], PKT_XX_MSG2, "one rotation of grace");
        }
        _ => panic!("a cookie one rotation old must still be honoured"),
    }

    let later = later + XX_COOKIE_ROTATION_MS * 3;
    spend_xx_msg2_budget(&mut bob, 64, later);
    match bob.process_incoming(&retried, alice_addr, later) {
        IncomingResult::HandshakeResponse { packets, .. } => {
            assert_eq!(
                packets[0][2], PKT_XX_COOKIE,
                "an expired cookie must earn a fresh one, not a handshake"
            );
        }
        _ => panic!("expected a fresh cookie"),
    }
}

#[test]
fn two_requests_inside_one_round_trip_are_both_delivered() {
    let (alice_priv, alice_pub) = make_keypair();
    let (bob_priv, bob_pub) = make_keypair();
    let mut alice = EmberTransport::new(alice_priv, alice_pub, NOW);
    let mut bob = EmberTransport::new(bob_priv, bob_pub, NOW);
    let alice_addr = addr(1, 2, 3, 4, 1000);
    let bob_addr = addr(5, 6, 7, 8, 2000);

    let first = vec![0xA1u8; 96];
    let second = vec![0xB2u8; 96];

    let init = match alice.prepare_outgoing(bob_addr, Some(&bob_pub), &first, NOW) {
        OutgoingResult::HandshakeStarted { packet } => packet,
        other => panic!("expected HandshakeStarted, got {}", variant_name(&other)),
    };
    assert!(
        matches!(
            alice.prepare_outgoing(bob_addr, Some(&bob_pub), &second, NOW),
            OutgoingResult::Queued
        ),
        "the second request rides behind the in-flight handshake"
    );

    let handshake = bob.dispatch_incoming(&init, alice_addr, NOW);
    assert_eq!(handshake.responses.len(), 2, "IK_RESP plus the probe");

    let flushed = alice.dispatch_incoming(&handshake.responses[0], bob_addr, NOW);
    assert_eq!(
        flushed.responses.len(),
        1,
        "the queued request goes out now"
    );

    let delivered = bob.dispatch_incoming(&flushed.responses[0], alice_addr, NOW);
    assert_eq!(
        delivered.app_payloads,
        vec![first, second],
        "both requests must arrive, in the order Alice sent them"
    );
    assert_eq!(delivered.remote_noise_pub, Some(alice_pub));

    let probe_answer = alice.dispatch_incoming(&handshake.responses[1], bob_addr, NOW);
    assert_eq!(probe_answer.responses.len(), 1);
    let after_probe = bob.dispatch_incoming(&probe_answer.responses[0], alice_addr, NOW);
    assert!(after_probe.controls.is_empty());
    assert!(after_probe.app_payloads.is_empty());

    let third = seal_ready(&mut alice, bob_addr, &[0xC3u8; 96]);
    assert_eq!(
        bob.dispatch_incoming(&third, alice_addr, NOW).app_payloads.len(),
        1
    );
}

#[test]
fn an_unvalidated_session_never_locks_out_the_address_owner() {
    let (alice_priv, alice_pub) = make_keypair();
    let (mallory_priv, mallory_pub) = make_keypair();
    let (bob_priv, bob_pub) = make_keypair();
    let mut alice = EmberTransport::new(alice_priv, alice_pub, NOW);
    let mut mallory = EmberTransport::new(mallory_priv, mallory_pub, NOW);
    let mut bob = EmberTransport::new(bob_priv, bob_pub, NOW);
    let alice_addr = addr(1, 2, 3, 4, 1000);
    let bob_addr = addr(5, 6, 7, 8, 2000);

    let squat = match mallory.prepare_outgoing(bob_addr, Some(&bob_pub), b"squat", NOW) {
        OutgoingResult::HandshakeStarted { packet } => packet,
        other => panic!("expected HandshakeStarted, got {}", variant_name(&other)),
    };
    assert!(matches!(
        bob.process_incoming(&squat, alice_addr, NOW),
        IncomingResult::HandshakeComplete { .. }
    ));

    let genuine = match alice.prepare_outgoing(bob_addr, Some(&bob_pub), b"genuine", NOW) {
        OutgoingResult::HandshakeStarted { packet } => packet,
        other => panic!("expected HandshakeStarted, got {}", variant_name(&other)),
    };
    let responses = match bob.process_incoming(&genuine, alice_addr, NOW) {
        IncomingResult::HandshakeComplete {
            packets_to_send, ..
        } => packets_to_send,
        _ => panic!("an unproven squatter must not lock the address owner out"),
    };

    assert!(!alice.dispatch_incoming(&responses[0], bob_addr, NOW).rejected);
    let probe_answer = alice.dispatch_incoming(&responses[1], bob_addr, NOW);
    let released = bob.dispatch_incoming(&probe_answer.responses[0], alice_addr, NOW);
    assert_eq!(released.app_payloads, vec![b"genuine".to_vec()]);

    mallory.remove_session(&bob_addr);
    let squat_again = match mallory.prepare_outgoing(bob_addr, Some(&bob_pub), b"squat again", NOW) {
        OutgoingResult::HandshakeStarted { packet } => packet,
        other => panic!("expected HandshakeStarted, got {}", variant_name(&other)),
    };
    assert!(
        matches!(
            bob.process_incoming(&squat_again, alice_addr, NOW),
            IncomingResult::Rejected
        ),
        "a validated session is exactly what the takeover guard exists to protect"
    );
}

#[test]
fn dialling_a_peer_discards_an_unvalidated_session_for_another_identity() {
    let (_alice_priv, alice_pub) = make_keypair();
    let (mallory_priv, mallory_pub) = make_keypair();
    let (bob_priv, bob_pub) = make_keypair();
    let mut mallory = EmberTransport::new(mallory_priv, mallory_pub, NOW);
    let mut bob = EmberTransport::new(bob_priv, bob_pub, NOW);
    let alice_addr = addr(1, 2, 3, 4, 1000);
    let bob_addr = addr(5, 6, 7, 8, 2000);

    let squat = match mallory.prepare_outgoing(bob_addr, Some(&bob_pub), b"squat", NOW) {
        OutgoingResult::HandshakeStarted { packet } => packet,
        other => panic!("expected HandshakeStarted, got {}", variant_name(&other)),
    };
    assert!(matches!(
        bob.process_incoming(&squat, alice_addr, NOW),
        IncomingResult::HandshakeComplete { .. }
    ));

    assert!(matches!(
        bob.prepare_outgoing(alice_addr, Some(&mallory_pub), b"for mallory", NOW),
        OutgoingResult::Ready { .. }
    ));
    assert!(
        matches!(
            bob.prepare_outgoing(alice_addr, Some(&alice_pub), b"for alice", NOW),
            OutgoingResult::HandshakeStarted { .. }
        ),
        "an unproven session must not intercept traffic meant for another peer"
    );
}

#[test]
fn handshake_replay_entries_are_scoped_to_their_packet_type() {
    let (alice_priv, alice_pub) = make_keypair();
    let (bob_priv, bob_pub) = make_keypair();
    let mut alice = EmberTransport::new(alice_priv, alice_pub, NOW);
    let mut bob = EmberTransport::new(bob_priv, bob_pub, NOW);
    let alice_addr = addr(1, 2, 3, 4, 1000);
    let bob_addr = addr(5, 6, 7, 8, 2000);

    let init = match alice.prepare_outgoing(bob_addr, Some(&bob_pub), b"req", NOW) {
        OutgoingResult::HandshakeStarted { packet } => packet,
        _ => panic!("expected HandshakeStarted"),
    };

    let mut masquerade = init.clone();
    masquerade[2] = PKT_XX_MSG1;
    let _ = bob.process_incoming(&masquerade, alice_addr, NOW);

    assert!(
        matches!(
            bob.process_incoming(&init, alice_addr, NOW),
            IncomingResult::HandshakeComplete { .. }
        ),
        "an XX-tagged copy must not poison the IK entry"
    );
}

#[test]
fn control_message_encode_decode_round_trip_all_variants() {
    let cases = [
        EmberControlMessage::Ping {
            nonce: 0x0102_0304_0506_0708,
        },
        EmberControlMessage::Pong { nonce: 0 },
        EmberControlMessage::ExchangeRequest,
        EmberControlMessage::ExchangeData {
            payload: vec![1, 2, 3, 4, 5],
        },
        EmberControlMessage::ExchangeData { payload: vec![] },
    ];
    for msg in cases {
        let encoded = msg.encode();
        assert_eq!(
            EmberControlMessage::decode(&encoded),
            Some(msg.clone()),
            "round trip failed for {msg:?}",
        );
    }

    assert_eq!(EmberControlMessage::Ping { nonce: 7 }.encode().len(), 10);
    assert_eq!(EmberControlMessage::Pong { nonce: 7 }.encode().len(), 10);
    assert_eq!(
        EmberControlMessage::ExchangeRequest.encode(),
        vec![CONTROL_VERSION, CONTROL_KIND_EXCHANGE_REQUEST]
    );
}

#[test]
fn control_message_decode_rejects_malformed() {
    const V: u8 = CONTROL_VERSION;
    assert_eq!(
        EmberControlMessage::decode(&[V ^ 0xFF, 1, 0, 0, 0, 0, 0, 0, 0, 0]),
        None
    );
    assert_eq!(EmberControlMessage::decode(&[V, 1, 0, 0]), None);
    assert_eq!(EmberControlMessage::decode(&[V, 3, 0xFF]), None);
    assert_eq!(EmberControlMessage::decode(&[V, 0x7F]), None);
    assert_eq!(EmberControlMessage::decode(&[V]), None);
}

#[test]
fn exchange_messages_cross_established_session() {
    let (alice_priv, alice_pub) = make_keypair();
    let (bob_priv, bob_pub) = make_keypair();

    let mut alice = EmberTransport::new(alice_priv, alice_pub, NOW);
    let mut bob = EmberTransport::new(bob_priv, bob_pub, NOW);

    let alice_addr = addr(1, 2, 3, 4, 1000);
    let bob_addr = addr(5, 6, 7, 8, 2000);

    let req = EmberControlMessage::ExchangeRequest.encode();
    let init = match alice.prepare_outgoing(bob_addr, Some(&bob_pub), &req, NOW) {
        OutgoingResult::HandshakeStarted { packet } => packet,
        other => panic!("expected HandshakeStarted, got {}", variant_name(&other)),
    };

    let bob_outcome = bob.dispatch_incoming(&init, alice_addr, NOW);
    assert!(!bob_outcome.rejected);
    assert!(bob_outcome.controls.is_empty(), "the request is deferred");
    assert_eq!(
        bob_outcome.responses.len(),
        2,
        "the IK handshake response and the routability probe, nothing else"
    );

    let _ = alice.dispatch_incoming(&bob_outcome.responses[0], bob_addr, NOW);
    let probe_answer = alice.dispatch_incoming(&bob_outcome.responses[1], bob_addr, NOW);
    let bob_outcome = bob.dispatch_incoming(&probe_answer.responses[0], alice_addr, NOW);
    assert_eq!(
        bob_outcome.controls,
        vec![EmberControlMessage::ExchangeRequest]
    );
    assert!(
        bob_outcome.responses.is_empty(),
        "no auto-answer to the exchange request"
    );
    assert!(alice.has_session(&bob_addr));
    assert!(bob.has_session(&alice_addr));

    let payload = vec![4u8, 0, 0, 0, 0];
    let data = EmberControlMessage::ExchangeData {
        payload: payload.clone(),
    }
    .encode();
    let pkt = match bob.prepare_outgoing(alice_addr, None, &data, NOW) {
        OutgoingResult::Ready { packet } => packet,
        other => panic!("expected Ready, got {}", variant_name(&other)),
    };
    let alice_outcome = alice.dispatch_incoming(&pkt, bob_addr, NOW);
    assert_eq!(
        alice_outcome.controls,
        vec![EmberControlMessage::ExchangeData { payload }]
    );
}

#[test]
fn xx_responder_flushes_payload_queued_during_msg2_window() {
    let (alice_priv, alice_pub) = make_keypair();
    let (bob_priv, bob_pub) = make_keypair();

    let mut alice = EmberTransport::new(alice_priv, alice_pub, NOW);
    let mut bob = EmberTransport::new(bob_priv, bob_pub, NOW);

    let alice_addr = addr(1, 2, 3, 4, 1000);
    let bob_addr = addr(5, 6, 7, 8, 2000);

    let init_packet = match alice.prepare_outgoing(bob_addr, None, b"first msg from alice", NOW) {
        OutgoingResult::HandshakeStarted { packet } => packet,
        other => panic!("expected HandshakeStarted, got {}", variant_name(&other)),
    };

    let msg2_packets = match bob.process_incoming(&init_packet, alice_addr, NOW) {
        IncomingResult::HandshakeResponse { packets, .. } => packets,
        other => panic!(
            "expected HandshakeResponse after Bob sees msg1, got {:?}",
            std::mem::discriminant(&other)
        ),
    };
    assert_eq!(msg2_packets.len(), 1);

    let bob_msg = b"queued by bob during msg2 window";
    match bob.prepare_outgoing(alice_addr, Some(&alice_pub), bob_msg, NOW) {
        OutgoingResult::Queued => {}
        other => panic!(
            "expected Queued during XxResponderMsg2 window, got {}",
            variant_name(&other)
        ),
    }

    let msg3_packets = match alice.process_incoming(&msg2_packets[0], bob_addr, NOW) {
        IncomingResult::HandshakeComplete {
            packets_to_send, ..
        } => packets_to_send,
        _ => panic!("expected HandshakeComplete on alice after msg2"),
    };
    assert!(!msg3_packets.is_empty());

    let bob_emitted = match bob.process_incoming(&msg3_packets[0], alice_addr, NOW) {
        IncomingResult::HandshakeComplete {
            packets_to_send, ..
        } => packets_to_send,
        _ => panic!("expected HandshakeComplete on bob after msg3"),
    };
    assert_eq!(
        bob_emitted.len(),
        1,
        "responder must emit exactly the one queued message it deferred"
    );

    match alice.process_incoming(&bob_emitted[0], bob_addr, NOW) {
        IncomingResult::Message { payload, .. } => {
            assert_eq!(payload, bob_msg.to_vec());
        }
        other => panic!(
            "expected decrypted Message, got {:?}",
            std::mem::discriminant(&other)
        ),
    }
}

#[test]
fn session_cleanup() {
    let (priv_key, pub_key) = make_keypair();
    let mut transport = EmberTransport::new(priv_key, pub_key, NOW);
    assert_eq!(transport.session_count(), 0);
    transport.cleanup(NOW);
}

#[test]
fn cleanup_all_drops_active_sessions() {
    let (alice_priv, alice_pub) = make_keypair();
    let (bob_priv, bob_pub) = make_keypair();

    let mut alice = EmberTransport::new(alice_priv, alice_pub, NOW);
    let mut bob = EmberTransport::new(bob_priv, bob_pub, NOW);

    let alice_addr = addr(1, 2, 3, 4, 1000);
    let bob_addr = addr(5, 6, 7, 8, 2000);

    let init = match alice.prepare_outgoing(bob_addr, Some(&bob_pub), b"hello", NOW) {
        OutgoingResult::HandshakeStarted { packet } => packet,
        other => panic!("expected HandshakeStarted, got {}", variant_name(&other)),
    };
    let resp = match bob.process_incoming(&init, alice_addr, NOW) {
        IncomingResult::HandshakeComplete {
            packets_to_send, ..
        } => packets_to_send,
        _ => panic!("expected HandshakeComplete on responder side"),
    };
    assert_eq!(resp.len(), 2, "IK message 2 plus the routability probe");
    match alice.process_incoming(&resp[0], bob_addr, NOW) {
        IncomingResult::HandshakeComplete { .. } => {}
        _ => panic!("expected HandshakeComplete on initiator side"),
    }

    assert!(alice.has_session(&bob_addr));
    assert!(bob.has_session(&alice_addr));
    assert_eq!(alice.session_count(), 1);

    alice.cleanup_all();
    bob.cleanup_all();

    assert_eq!(alice.session_count(), 0);
    assert_eq!(bob.session_count(), 0);
    assert!(!alice.has_session(&bob_addr));
    assert!(!bob.has_session(&alice_addr));
}

#[test]
fn ember_magic_is_distinct_from_kad_and_emule_headers() {
    const OP_EDONKEYHEADER: u8 = 0xE3;
    const OP_EMULEPROT: u8 = 0xC5;
    assert_ne!(EMBER_MAGIC[0], OP_EDONKEYHEADER);
    assert_ne!(EMBER_MAGIC[0], OP_EMULEPROT);

    assert!(!EmberTransport::is_ember_packet(&[
        OP_EDONKEYHEADER,
        0x00,
        0x00
    ]));
    assert!(!EmberTransport::is_ember_packet(&[
        OP_EMULEPROT,
        0x00,
        0x00
    ]));
    assert!(!EmberTransport::is_ember_packet(&[EMBER_MAGIC[0]]));
    assert!(!EmberTransport::is_ember_packet(&[]));
    assert!(EmberTransport::is_ember_packet(&[
        EMBER_MAGIC[0],
        EMBER_MAGIC[1],
        0x10,
    ]));
}

fn variant_name(r: &OutgoingResult) -> &'static str {
    match r {
        OutgoingResult::Ready { .. } => "Ready",
        OutgoingResult::HandshakeStarted { .. } => "HandshakeStarted",
        OutgoingResult::Queued => "Queued",
        OutgoingResult::Error(_) => "Error",
    }
}

#[test]
fn ember_native_round_trip_over_real_loopback_udp() {
    let (a_priv, a_pub) = make_keypair();
    let (b_priv, b_pub) = make_keypair();
    let mut transport_a = EmberTransport::new(a_priv, a_pub, NOW);
    let mut transport_b = EmberTransport::new(b_priv, b_pub, NOW);
    let addr_a = addr(127, 0, 0, 1, 40_001);
    let addr_b = addr(127, 0, 0, 1, 40_002);

    let nonce: u64 = 0xDEAD_BEEF_CAFE_F00D;
    let ping = EmberControlMessage::Ping { nonce }.encode();
    let init_packet = match transport_a.prepare_outgoing(addr_b, Some(&b_pub), &ping, NOW) {
        OutgoingResult::HandshakeStarted { packet } => packet,
        other => panic!("expected HandshakeStarted, got {}", variant_name(&other)),
    };

    let outcome_b = transport_b.dispatch_incoming(&init_packet, addr_a, NOW);
    assert!(!outcome_b.rejected, "B rejected the init packet");
    assert!(outcome_b.controls.is_empty());
    assert_eq!(outcome_b.responses.len(), 2);

    let outcome_a_handshake = transport_a.dispatch_incoming(&outcome_b.responses[0], addr_b, NOW);
    assert!(!outcome_a_handshake.rejected);
    assert!(outcome_a_handshake.controls.is_empty());
    assert!(outcome_a_handshake.responses.is_empty());

    let outcome_a_probe = transport_a.dispatch_incoming(&outcome_b.responses[1], addr_b, NOW);
    assert!(!outcome_a_probe.rejected);
    assert_eq!(outcome_a_probe.responses.len(), 1);

    let outcome_b_released =
        transport_b.dispatch_incoming(&outcome_a_probe.responses[0], addr_a, NOW);
    assert_eq!(outcome_b_released.controls, vec![EmberControlMessage::Ping { nonce }]);
    assert_eq!(outcome_b_released.responses.len(), 1);

    let outcome_a_pong =
        transport_a.dispatch_incoming(&outcome_b_released.responses[0], addr_b, NOW);
    assert!(!outcome_a_pong.rejected);
    assert_eq!(outcome_a_pong.controls, vec![EmberControlMessage::Pong { nonce }]);
    assert!(outcome_a_pong.responses.is_empty());

    assert_eq!(transport_a.session_count(), 1);
    assert_eq!(transport_b.session_count(), 1);
    assert!(transport_a.peer_is_ik_authenticated(&addr_b));
    assert_eq!(transport_a.local_noise_public_key(), &a_pub);
}

#[test]
fn frames_of_the_table_are_no_control_frames() {
    for version in 1u8..=0x20 {
        for kind in 0u8..=0x20 {
            let mut frame = vec![0u8; 90];
            frame[0] = version;
            frame[1] = kind;
            assert_eq!(EmberControlMessage::decode(&frame), None);
        }
    }
}

#[test]
fn a_message_too_long_for_a_frame_is_refused() {
    let (mut alice, _bob, _alice_addr, bob_addr) = established_pair();
    let long = vec![0u8; 65_520];
    assert!(matches!(
        alice.prepare_outgoing(bob_addr, None, &long, NOW),
        OutgoingResult::Error(_)
    ));
    assert!(!alice.has_session(&bob_addr));
    let (priv_key, pub_key) = make_keypair();
    let mut carol = EmberTransport::new(priv_key, pub_key, NOW);
    assert!(matches!(
        carol.prepare_outgoing(bob_addr, Some(&pub_key), &vec![0u8; 65_440], NOW),
        OutgoingResult::Error(_)
    ));
}

#[test]
fn a_frame_fits_its_message() {
    let (mut alice, _bob, _alice_addr, bob_addr) = established_pair();
    let frame = seal_ready(&mut alice, bob_addr, b"twelve bytes");
    assert_eq!(frame.len(), 3 + 8 + 12 + 16);
    assert_eq!(frame[..11], [0xEB, 0x3E, 0x10, 0, 0, 0, 0, 0, 0, 0, 0]);
    let frame = seal_ready(&mut alice, bob_addr, b"");
    assert_eq!(frame[3], 1);
}

#[test]
fn frames_that_fall_behind_the_window_are_refused() {
    let (mut alice, mut bob, alice_addr, bob_addr) = established_pair();
    let frames: Vec<Vec<u8>> = (0..66u8)
        .map(|i| seal_ready(&mut alice, bob_addr, &[i]))
        .collect();
    assert!(matches!(
        bob.process_incoming(&frames[65], alice_addr, NOW),
        IncomingResult::Message { .. }
    ));
    assert!(matches!(
        bob.process_incoming(&frames[1], alice_addr, NOW),
        IncomingResult::Rejected
    ));
    assert!(matches!(
        bob.process_incoming(&frames[2], alice_addr, NOW),
        IncomingResult::Message { .. }
    ));
}

#[test]
fn idle_sessions_and_handshakes_are_dropped() {
    let (mut alice, _bob, _alice_addr, bob_addr) = established_pair();
    let other = addr(3, 3, 3, 3, 3333);
    let _ = alice.prepare_outgoing(other, None, b"hi", NOW);
    assert!(alice.has_pending(&other));
    alice.cleanup(NOW + 29_999);
    assert!(alice.has_pending(&other));
    alice.cleanup(NOW + 30_000);
    assert!(!alice.has_pending(&other));
    alice.cleanup(NOW + 299_999);
    assert!(alice.has_session(&bob_addr));
    alice.cleanup(NOW + 300_000);
    assert!(!alice.has_session(&bob_addr));
}

#[test]
fn oversized_and_foreign_packets_are_rejected() {
    let (priv_key, pub_key) = make_keypair();
    let mut t = EmberTransport::new(priv_key, pub_key, NOW);
    let from = addr(1, 2, 3, 4, 5);
    let mut big = vec![0u8; 4097];
    big[..3].copy_from_slice(&[0xEB, 0x3E, 0x01]);
    assert!(t.dispatch_incoming(&big, from, NOW).rejected);
    assert!(t.dispatch_incoming(&[0xEB, 0x3E], from, NOW).rejected);
    assert!(t.dispatch_incoming(&[0xEB, 0x3E, 0x77, 0], from, NOW).rejected);
    assert!(t.dispatch_incoming(&[0xE3, 0x3E, 0x01, 0], from, NOW).rejected);
    assert!(t.dispatch_incoming(&[0xEB, 0x3E, 0x10, 0], from, NOW).rejected);
}

#[test]
fn a_cookie_differs_by_address() {
    let (priv_key, pub_key) = make_keypair();
    let mut t = EmberTransport::new(priv_key, pub_key, NOW);
    spend_xx_msg2_budget(&mut t, 64, NOW);
    let mut ask = |from: SocketAddr| {
        let mut msg1 = vec![0xEB, 0x3E, PKT_XX_MSG1];
        msg1.extend_from_slice(&[7u8; 32]);
        let mut out = t.dispatch_incoming(&msg1, from, NOW);
        out.responses.remove(0)
    };
    let a = ask(addr(1, 2, 3, 4, 1000));
    assert_eq!(a.len(), 19);
    assert_eq!(a, ask(addr(1, 2, 3, 4, 1000)));
    assert_ne!(a, ask(addr(1, 2, 3, 4, 1001)));
    assert_ne!(a, ask(addr(1, 2, 3, 5, 1000)));
    let v6 = SocketAddr { ip: IpAddr::V6(0xFFFF_0102_0304), port: 1000 };
    assert_ne!(a, ask(v6));
}

#[test]
fn a_cookie_goes_back_with_the_next_first_message() {
    let (alice_priv, alice_pub) = make_keypair();
    let mut alice = EmberTransport::new(alice_priv, alice_pub, NOW);
    let bob_addr = addr(5, 6, 7, 8, 2000);
    let msg1 = match alice.prepare_outgoing(bob_addr, None, b"hi", NOW) {
        OutgoingResult::HandshakeStarted { packet } => packet,
        other => panic!("expected HandshakeStarted, got: {}", variant_name(&other)),
    };
    let mut cookie = vec![EMBER_MAGIC[0], EMBER_MAGIC[1], PKT_XX_COOKIE];
    cookie.extend_from_slice(&[0x5A; XX_COOKIE_LEN]);
    match alice.process_incoming(&cookie, bob_addr, NOW) {
        IncomingResult::HandshakeResponse { packets, .. } => {
            assert_eq!(packets.len(), 1);
            assert_eq!(packets[0][..HEADER_LEN], [EMBER_MAGIC[0], EMBER_MAGIC[1], PKT_XX_MSG1]);
            assert_eq!(packets[0].len(), HEADER_LEN + 32 + XX_COOKIE_LEN);
            assert_eq!(packets[0][HEADER_LEN + 32..], [0x5A; XX_COOKIE_LEN]);
            assert_ne!(packets[0][HEADER_LEN..HEADER_LEN + 32], msg1[HEADER_LEN..HEADER_LEN + 32]);
        }
        _ => panic!("expected a new first message"),
    }
    assert!(matches!(alice.process_incoming(&cookie, bob_addr, NOW), IncomingResult::Rejected));
}
