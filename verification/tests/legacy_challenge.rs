//! Challenges to peers that cannot prove their address otherwise.
use ember_net::kad::legacy_challenge::{LegacyChallengeTracker, MAX_CHALLENGES};
use ember_net::kad::types::KadId;
use ember_net::net::Ipv4Addr;

const NOW: u64 = 1_000_000;

fn ip(last: u8) -> Ipv4Addr {
    Ipv4Addr::new(203, 0, 113, last)
}

#[test]
fn req_challenge_round_trips_and_is_consumed_once() {
    let mut tracker = LegacyChallengeTracker::new();
    let contact = KadId([0x11; 16]);
    let challenge = KadId([0x22; 16]);

    assert!(!tracker.has_active(ip(1), NOW));
    tracker.add(contact, challenge, ip(1), LegacyChallengeTracker::OPCODE_REQ, NOW);
    assert!(tracker.has_active(ip(1), NOW));

    assert_eq!(
        tracker.take_match(&challenge, ip(1), LegacyChallengeTracker::OPCODE_REQ, NOW),
        Some(contact)
    );
    assert!(
        !tracker.has_active(ip(1), NOW),
        "a matched challenge must be consumed"
    );
    assert_eq!(
        tracker.take_match(&challenge, ip(1), LegacyChallengeTracker::OPCODE_REQ, NOW),
        None
    );
}

#[test]
fn wrong_answer_and_wrong_opcode_do_not_verify() {
    let mut tracker = LegacyChallengeTracker::new();
    let contact = KadId([0x11; 16]);
    let challenge = KadId([0x22; 16]);
    tracker.add(contact, challenge, ip(2), LegacyChallengeTracker::OPCODE_REQ, NOW);

    assert_eq!(
        tracker.take_match(&KadId([0x33; 16]), ip(2), LegacyChallengeTracker::OPCODE_REQ, NOW),
        None,
        "a wrong target must not verify the contact"
    );
    assert_eq!(
        tracker.take_match(&challenge, ip(2), LegacyChallengeTracker::OPCODE_PING, NOW),
        None,
        "the answer must arrive on the opcode we challenged with"
    );
    assert!(
        tracker.has_active(ip(2), NOW),
        "a failed answer must leave the challenge outstanding"
    );
}

#[test]
fn zero_challenge_matches_any_answer() {
    let mut tracker = LegacyChallengeTracker::new();
    let contact = KadId([0x44; 16]);
    tracker.add(
        contact,
        KadId::zero(),
        ip(3),
        LegacyChallengeTracker::OPCODE_PING, NOW
    );
    assert_eq!(
        tracker.take_match(&KadId([0x99; 16]), ip(3), LegacyChallengeTracker::OPCODE_PING, NOW),
        Some(contact)
    );
}

#[test]
fn flood_is_capped_and_evicts_oldest_first() {
    let mut tracker = LegacyChallengeTracker::new();
    for i in 0..(MAX_CHALLENGES * 4) {
        let addr = Ipv4Addr { bits: i as u32 };
        tracker.add(
            KadId::random(),
            KadId::random(),
            addr,
            LegacyChallengeTracker::OPCODE_REQ, NOW
        );
        assert!(tracker.len() <= MAX_CHALLENGES);
        assert!(tracker.order_len() <= MAX_CHALLENGES);
    }
    assert_eq!(tracker.len(), MAX_CHALLENGES);
    assert!(
        !tracker.has_active(Ipv4Addr { bits: 0 }, NOW),
        "the oldest challenge must be the one evicted"
    );
    assert!(
        tracker.has_active(Ipv4Addr { bits: (MAX_CHALLENGES * 4 - 1) as u32 }, NOW),
        "the newest challenge must survive"
    );
}

#[test]
fn rechallenging_an_ip_replaces_its_entry() {
    let mut tracker = LegacyChallengeTracker::new();
    let contact = KadId([0x55; 16]);
    let first = KadId([0x66; 16]);
    let second = KadId([0x77; 16]);
    tracker.add(contact, first, ip(4), LegacyChallengeTracker::OPCODE_REQ, NOW);
    tracker.add(contact, second, ip(4), LegacyChallengeTracker::OPCODE_REQ, NOW);
    assert_eq!(tracker.len(), 1);
    assert_eq!(
        tracker.take_match(&first, ip(4), LegacyChallengeTracker::OPCODE_REQ, NOW),
        None,
        "the superseded challenge target must no longer answer"
    );
    assert_eq!(
        tracker.take_match(&second, ip(4), LegacyChallengeTracker::OPCODE_REQ, NOW),
        Some(contact)
    );
}

#[test]
fn a_challenge_lapses_after_its_time() {
    let mut tracker = LegacyChallengeTracker::new();
    let contact = KadId([0x11; 16]);
    let challenge = KadId([0x22; 16]);
    tracker.add(contact, challenge, ip(5), LegacyChallengeTracker::OPCODE_REQ, NOW);
    assert!(tracker.has_active(ip(5), NOW + 179_999));
    assert!(!tracker.has_active(ip(5), NOW + 180_000));
    assert_eq!(
        tracker.take_match(&challenge, ip(5), LegacyChallengeTracker::OPCODE_REQ, NOW + 180_000),
        None
    );
}
