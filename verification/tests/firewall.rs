//! Whether others can reach us.
use ember_net::kad::firewall::{FirewallChecker, FirewallStatus};
use ember_net::net::Ipv4Addr;

#[test]
fn note_tcp_firewalled_does_not_wipe_connect_back_open() {
    let mut fw = FirewallChecker::new();
    fw.handle_tcp_connect_back();
    assert_eq!(fw.tcp_status(), FirewallStatus::Open);
    fw.note_tcp_firewalled();
    assert_eq!(
        fw.tcp_status(),
        FirewallStatus::Open,
        "LowID sticky must not erase proven TCP Open"
    );
}

#[test]
fn note_tcp_firewalled_sets_firewalled_without_prior_proof() {
    let mut fw = FirewallChecker::new();
    assert_eq!(fw.tcp_status(), FirewallStatus::Unknown);
    fw.note_tcp_firewalled();
    assert_eq!(fw.tcp_status(), FirewallStatus::Firewalled);
}

#[test]
fn firewalled_response_rejects_documentation_and_cgnat() {
    let mut fw = FirewallChecker::new();
    let reporters = [
        Ipv4Addr::new(8, 8, 8, 8),
        Ipv4Addr::new(1, 1, 1, 1),
        Ipv4Addr::new(9, 9, 9, 9),
    ];
    for reporter in reporters {
        fw.handle_firewalled_response(Ipv4Addr::new(203, 0, 113, 50), reporter);
        fw.handle_firewalled_response(Ipv4Addr::new(100, 64, 0, 1), reporter);
        fw.handle_firewalled_response(Ipv4Addr::new(240, 0, 0, 1), reporter);
    }
    assert!(fw.external_ip().is_none());
}

#[test]
fn server_highid_replaces_conflicting_kad_confirmation() {
    let mut fw = FirewallChecker::new();
    let kad = Ipv4Addr::new(203, 0, 113, 1);
    let highid = Ipv4Addr::new(8, 8, 8, 8);
    fw.handle_firewalled_response(kad, Ipv4Addr::new(1, 0, 0, 1));
    fw.handle_firewalled_response(kad, Ipv4Addr::new(1, 1, 0, 1));
    fw.handle_firewalled_response(kad, Ipv4Addr::new(1, 2, 0, 1));
    assert!(
        fw.external_ip().is_none(),
        "documentation IPs must not confirm via KAD"
    );

    let kad_public = Ipv4Addr::new(4, 4, 4, 4);
    fw.handle_firewalled_response(kad_public, Ipv4Addr::new(1, 0, 0, 1));
    fw.handle_firewalled_response(kad_public, Ipv4Addr::new(1, 1, 0, 1));
    fw.handle_firewalled_response(kad_public, Ipv4Addr::new(1, 2, 0, 1));
    assert_eq!(fw.external_ip(), Some(kad_public));

    fw.handle_server_highid_response(highid);
    assert_eq!(fw.external_ip(), Some(highid));
}

#[test]
fn server_highid_rejects_bogus_addresses() {
    let mut fw = FirewallChecker::new();
    fw.handle_server_highid_response(Ipv4Addr::new(203, 0, 113, 1));
    fw.handle_server_highid_response(Ipv4Addr::new(127, 0, 0, 1));
    fw.handle_server_highid_response(Ipv4Addr::new(240, 0, 0, 1));
    assert!(fw.external_ip().is_none());
    fw.handle_server_highid_response(Ipv4Addr::new(10, 0, 0, 5));
    assert_eq!(
        fw.external_ip(),
        Some(Ipv4Addr::new(10, 0, 0, 5)),
        "LAN HighID from a local server is adoptable"
    );
}

#[test]
fn an_address_needs_three_networks() {
    let mut fw = FirewallChecker::new();
    let ours = Ipv4Addr::new(4, 4, 4, 4);
    for last in 1..=9 {
        fw.handle_firewalled_response(ours, Ipv4Addr::new(1, 2, 3, last));
    }
    assert_eq!(fw.external_ip(), None);
    assert_eq!(fw.ip_vote_count(), 1);
    fw.handle_firewalled_response(ours, Ipv4Addr::new(1, 2, 4, 1));
    assert_eq!(fw.external_ip(), None);
    fw.handle_firewalled_response(ours, Ipv4Addr::new(1, 2, 5, 1));
    assert_eq!(fw.external_ip(), Some(ours));
    assert_eq!(fw.ip_vote_count(), 3);
}

#[test]
fn a_port_needs_three_networks() {
    let mut fw = FirewallChecker::new();
    fw.handle_pong(4672, Ipv4Addr::new(1, 2, 3, 4));
    fw.handle_pong(4672, Ipv4Addr::new(1, 2, 4, 4));
    assert_eq!(fw.external_udp_port(), None);
    fw.handle_pong(4672, Ipv4Addr::new(1, 2, 5, 4));
    assert_eq!(fw.external_udp_port(), Some(4672));
}

#[test]
fn a_check_without_answers_finds_us_firewalled() {
    let mut fw = FirewallChecker::new();
    fw.start_check_at(1_000);
    fw.record_tcp_request_sent(Ipv4Addr::new(1, 2, 3, 4));
    fw.record_udp_firewall_request_sent(Ipv4Addr::new(1, 2, 3, 5));
    assert!(fw.is_firewall_check_ip(Ipv4Addr::new(1, 2, 3, 4)));
    assert!(fw.is_udp_firewall_check_ip(Ipv4Addr::new(1, 2, 3, 5)));
    assert!(fw.needs_udp_firewall_probes());
    assert!(!fw.evaluate_at(1_029));
    assert!(fw.is_checking());
    assert!(fw.evaluate_at(1_030));
    assert!(fw.tcp_firewalled());
    assert!(fw.udp_firewalled());
    assert!(!fw.is_firewall_check_ip(Ipv4Addr::new(1, 2, 3, 4)));
    assert!(!fw.should_recheck_at(4_600));
    assert!(fw.should_recheck_at(4_601));
}

#[test]
fn what_was_open_stays_open() {
    let mut fw = FirewallChecker::new();
    fw.start_check_at(1_000);
    fw.handle_tcp_connect_back();
    fw.handle_udp_firewall_result(true);
    fw.record_tcp_request_sent(Ipv4Addr::new(1, 2, 3, 4));
    assert!(fw.evaluate_at(2_000));
    fw.start_check_at(3_000);
    fw.record_tcp_request_sent(Ipv4Addr::new(1, 2, 3, 4));
    fw.record_udp_firewall_request_sent(Ipv4Addr::new(1, 2, 3, 5));
    assert!(fw.evaluate_at(4_000));
    assert_eq!(fw.tcp_status(), FirewallStatus::Open);
    assert_eq!(fw.udp_status(), FirewallStatus::Open);
}

#[test]
fn the_clock_starts_and_ends_checks() {
    let mut fw = FirewallChecker::new();
    assert!(fw.should_recheck());
    fw.start_check();
    assert!(fw.is_checking());
    assert!(!fw.should_recheck());
    assert!(!fw.evaluate());
    assert!(fw.is_checking());
}
