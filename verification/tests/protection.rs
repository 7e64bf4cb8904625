//! Flood protection.
use ember_net::kad::protection::{
    FloodProtection, MAX_OPCODE_ENTRIES, OPCODE_WINDOW_MS, SEARCH_RES_BUDGET_PER_REQUEST,
};
use ember_net::net::{IpAddr, Ipv4Addr, SocketAddr};

const NOW: u64 = 1_000_000;

fn peer_addr(last: u8, port: u16) -> SocketAddr {
    SocketAddr { ip: IpAddr::V4(Ipv4Addr::new(203, 0, 113, last)), port }
}

fn filler_ip(i: usize) -> IpAddr {
    IpAddr::V4(Ipv4Addr::new(
        ((i >> 24) & 0xFF) as u8,
        ((i >> 16) & 0xFF) as u8,
        ((i >> 8) & 0xFF) as u8,
        (i & 0xFF) as u8,
    ))
}

#[test]
fn full_opcode_table_reclaims_idle_slots() {
    let mut fp = FloodProtection::new(NOW);
    for i in 0..MAX_OPCODE_ENTRIES {
        let _ = fp.check_rate_limit_with_opcode(filler_ip(i), false, 0x21, NOW);
    }
    assert_eq!(fp.opcode_entries(), MAX_OPCODE_ENTRIES);

    let later = NOW + OPCODE_WINDOW_MS + 1_000;
    let new_ip = IpAddr::V4(Ipv4Addr::new(255, 255, 255, 254));
    assert!(
        !fp.check_rate_limit_with_opcode(new_ip, false, 0x21, later),
        "an elapsed window is a free slot; a fresh peer must be admitted"
    );
    assert_eq!(
        fp.opcode_entries(),
        MAX_OPCODE_ENTRIES,
        "admitting the new peer must reclaim a slot, not grow the table"
    );
}

#[test]
fn full_opcode_table_never_evicts_a_live_counter() {
    let mut fp = FloodProtection::new(NOW);
    let victim = IpAddr::V4(Ipv4Addr::new(198, 51, 100, 7));
    for i in 0..10 {
        assert!(
            !fp.check_opcode_limit(victim, false, 0x21, NOW),
            "KadReq #{} is still inside the per-opcode budget",
            i + 1
        );
    }
    for i in 0..(MAX_OPCODE_ENTRIES - 1) {
        let _ = fp.check_opcode_limit(filler_ip(i), false, 0x21, NOW);
    }
    assert_eq!(fp.opcode_entries(), MAX_OPCODE_ENTRIES);

    let fresh = IpAddr::V4(Ipv4Addr::new(255, 255, 255, 254));
    assert!(
        fp.check_opcode_limit(fresh, false, 0x21, NOW),
        "with no idle slot the packet must be dropped, not admitted by \
         evicting somebody's live counter"
    );
    assert!(
        fp.check_opcode_limit(victim, false, 0x21, NOW),
        "the victim's 11th KadReq must still be refused — its counter \
         must survive a table-full admission attempt"
    );
}

#[test]
fn obfuscated_packet_gets_opcode_limit_enforced_post_decrypt() {
    let mut fp = FloodProtection::new(NOW);
    let ip = IpAddr::V4(Ipv4Addr::new(203, 0, 113, 20));

    for _ in 0..5 {
        assert!(
            !fp.check_rate_limit_with_opcode(ip, false, 0xFF, NOW),
            "pre-decrypt obfuscated hint (0xFF) must not trip Layer 1"
        );
    }

    for i in 0..5 {
        assert!(
            !fp.recheck_opcode_limit_post_decrypt(ip, false, 0x33, NOW),
            "SearchKeyReq #{} should still be within the per-opcode budget",
            i + 1
        );
    }
    assert!(
        fp.recheck_opcode_limit_post_decrypt(ip, false, 0x33, NOW),
        "6th obfuscated SearchKeyReq within the window must be rate-limited, \
         matching the plaintext per-opcode cap instead of only the looser \
         Layer 2 global cap"
    );
}

#[test]
fn compressed_budget_enforced() {
    let mut fp = FloodProtection::new(NOW);
    let ip = IpAddr::V4(Ipv4Addr::new(203, 0, 113, 7));
    for _ in 0..10 {
        assert!(!fp.over_compressed_budget(ip, 1400, NOW));
    }
    assert!(
        fp.over_compressed_budget(ip, 1400, NOW),
        "11th compressed packet must trip the budget"
    );
}

#[test]
fn compressed_byte_budget_is_independent_of_packet_count() {
    let mut fp = FloodProtection::new(NOW);
    let ip = IpAddr::V4(Ipv4Addr::new(203, 0, 113, 8));
    assert!(!fp.over_compressed_budget(ip, 32 * 1024, NOW));
    assert!(fp.over_compressed_budget(ip, 32 * 1024 + 1, NOW));
}

#[test]
fn global_compressed_budget_bounds_spoofed_sources() {
    let mut fp = FloodProtection::new(NOW);
    for i in 0..16 {
        assert!(
            !fp.over_compressed_budget(filler_ip(i), 64 * 1024, NOW),
            "packet {i} from a distinct source is within both budgets"
        );
    }
    assert!(
        fp.over_compressed_budget(filler_ip(16), 64 * 1024, NOW),
        "a fresh source address must not buy more aggregate \
         decompression once the global byte budget is spent"
    );
}

#[test]
fn packets_the_per_ip_budget_refuses_do_not_spend_global_budget() {
    let mut fp = FloodProtection::new(NOW);
    for i in 0..60 {
        for _ in 0..20 {
            fp.over_compressed_budget(filler_ip(i), 400, NOW);
        }
    }
    assert!(
        !fp.over_compressed_budget(filler_ip(1000), 400, NOW),
        "a flood that is already being refused per-IP must not deny \
         service to everyone else"
    );
}

#[test]
fn solicited_sources_survive_an_exhausted_global_budget() {
    let mut fp = FloodProtection::new(NOW);
    let peer = peer_addr(20, 4672);
    fp.track_request(peer, 0x33, NOW);

    for i in 0..17 {
        fp.over_compressed_budget(filler_ip(i), 64 * 1024, NOW);
    }
    assert!(
        fp.over_compressed_budget(filler_ip(100), 1400, NOW),
        "an unsolicited source must be refused once the aggregate budget is spent"
    );
    assert!(
        !fp.over_compressed_budget(peer.ip, 1400, NOW),
        "a SearchRes from a peer we queried must still be decoded"
    );
}

#[test]
fn outgoing_requests_multiset_counts_each_ack() {
    let mut fp = FloodProtection::new(NOW);
    let addr = peer_addr(9, 4672);
    for _ in 0..5 {
        fp.track_request(addr, 0x44, NOW);
    }
    for i in 0..5 {
        assert!(
            fp.validate_response(addr, 0x4B),
            "PublishRes #{} must match a tracked request",
            i + 1
        );
    }
    assert!(
        !fp.validate_response(addr, 0x4B),
        "6th PublishRes must be rejected once all 5 tracked requests are consumed"
    );
}

#[test]
fn validate_response_matches_across_source_ports() {
    let mut fp = FloodProtection::new(NOW);
    let sent_to = peer_addr(9, 4672);
    let reply_from = peer_addr(9, 54321);
    fp.track_request(sent_to, 0x44, NOW);
    assert!(
        fp.validate_response(reply_from, 0x4B),
        "reply from a different source port on the same IP must still validate"
    );
}

#[test]
fn search_response_budget_allows_batches_but_caps_floods() {
    let mut fp = FloodProtection::new(NOW);
    let addr = peer_addr(11, 4672);
    fp.track_request(addr, 0x34, NOW);

    for i in 0..SEARCH_RES_BUDGET_PER_REQUEST {
        assert!(
            fp.validate_response(addr, 0x3B),
            "SearchRes batch {} should consume the request budget",
            i + 1
        );
    }
    assert!(
        !fp.validate_response(addr, 0x3B),
        "SearchRes beyond the per-request budget must be rejected"
    );
}

#[test]
fn responses_bypass_per_opcode_rate_limit() {
    let mut fp = FloodProtection::new(NOW);
    let res_ip: IpAddr = IpAddr::V4(Ipv4Addr::new(203, 0, 113, 42));
    for i in 0..15 {
        assert!(
            !fp.check_rate_limit_with_opcode(res_ip, true, 0x4B, NOW),
            "PublishRes #{} must not be rate-limited by opcode layer",
            i + 1
        );
    }
    let obf_ip: IpAddr = IpAddr::V4(Ipv4Addr::new(203, 0, 113, 43));
    for _ in 0..15 {
        assert!(!fp.check_rate_limit_with_opcode(obf_ip, true, 0xFF, NOW));
    }
    let req_ip: IpAddr = IpAddr::V4(Ipv4Addr::new(203, 0, 113, 44));
    assert!(!fp.check_rate_limit_with_opcode(req_ip, false, 0x01, NOW));
    assert!(!fp.check_rate_limit_with_opcode(req_ip, false, 0x01, NOW));
    assert!(
        fp.check_rate_limit_with_opcode(req_ip, false, 0x01, NOW),
        "3rd BootstrapReq from unknown peer must be rate-limited"
    );
}

#[test]
fn our_own_packets_are_paced_too() {
    let mut fp = FloodProtection::new(NOW);
    let ip = peer_addr(1, 1).ip;
    for _ in 0..30 {
        assert!(!fp.check_outgoing_rate(ip, NOW));
    }
    assert!(fp.check_outgoing_rate(ip, NOW));
    assert!(!fp.check_outgoing_rate(ip, NOW + 1_000));
    assert!(FloodProtection::is_dns_port(&peer_addr(1, 53)));
    assert!(!FloodProtection::is_dns_port(&peer_addr(1, 54)));
}

#[test]
fn a_window_that_is_over_starts_anew() {
    let mut fp = FloodProtection::new(NOW);
    let ip = peer_addr(1, 1).ip;
    for _ in 0..2 {
        assert!(!fp.check_opcode_limit(ip, false, 0x01, NOW));
    }
    assert!(fp.check_opcode_limit(ip, false, 0x01, NOW + 14_999));
    assert!(!fp.check_opcode_limit(ip, false, 0x01, NOW + 15_000));
    let known = peer_addr(2, 1).ip;
    for _ in 0..4 {
        assert!(!fp.check_opcode_limit(known, true, 0x01, NOW));
    }
    assert!(fp.check_opcode_limit(known, true, 0x01, NOW));
}

#[test]
fn answers_find_their_requests() {
    let pairs = [
        (0x09, 0x01), (0x19, 0x11), (0x22, 0x19), (0x29, 0x21), (0x4C, 0x4B), (0x5A, 0x51),
        (0x61, 0x60), (0x58, 0x50), (0x58, 0x53),
    ];
    for (response, request) in pairs {
        let mut fp = FloodProtection::new(NOW);
        let peer = peer_addr(3, 4672);
        assert!(!fp.validate_response(peer, response));
        fp.track_request(peer, request, NOW);
        assert!(!fp.validate_response(peer_addr(4, 4672), response));
        assert!(fp.validate_response(peer, response));
        assert!(!fp.validate_response(peer, response));
    }
    let mut fp = FloodProtection::new(NOW);
    assert!(!fp.validate_response(peer_addr(3, 1), 0x77));
}

#[test]
fn requests_are_forgotten_in_time() {
    let mut fp = FloodProtection::new(NOW);
    let peer = peer_addr(3, 4672);
    fp.track_request(peer, 0x60, NOW);
    assert!(fp.has_recent_ip(peer.ip, NOW + 179_999));
    assert!(!fp.has_recent_ip(peer.ip, NOW + 180_000));
    fp.cleanup(NOW + 180_999);
    assert!(fp.validate_response(peer, 0x61));
    fp.track_request(peer, 0x60, NOW);
    fp.cleanup(NOW + 181_000);
    assert!(!fp.validate_response(peer, 0x61));
}
