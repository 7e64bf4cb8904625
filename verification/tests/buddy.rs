//! Buddies.
use ember_net::kad::buddy::{
    build_emule_packet, buddy_hello_handshake_outgoing, buddy_hello_options, ed2k_packet_size,
    read_ed2k_packet, write_ed2k_packet, BuddyDial, BuddyEvent, BuddyManager, BuddyReader,
    BuddyState, DialAction, DialStage, GreetStage, PacketError, PendingBuddies, OP_BUDDYPING,
    OP_BUDDYPONG, OP_CALLBACK, OP_EDONKEYHEADER, OP_EMULEPROT, OP_HELLOANSWER,
    OP_REASKCALLBACKTCP,
};
use ember_net::kad::firewall::FirewallStatus;
use ember_net::kad::types::KadId;
use ember_net::net::Ipv4Addr;

fn test_manager() -> BuddyManager {
    BuddyManager::new(KadId([1u8; 16]), [2u8; 16], "test".to_string(), 4662, 4672)
}

#[test]
fn should_find_buddy_requires_both_ports_firewalled() {
    let mgr = test_manager();
    assert!(mgr.should_find_buddy(FirewallStatus::Firewalled, FirewallStatus::Firewalled));
    assert!(!mgr.should_find_buddy(FirewallStatus::Firewalled, FirewallStatus::Open));
    assert!(!mgr.should_find_buddy(FirewallStatus::Firewalled, FirewallStatus::Unknown));
    assert!(!mgr.should_find_buddy(FirewallStatus::Open, FirewallStatus::Firewalled));
    assert!(!mgr.should_find_buddy(FirewallStatus::Unknown, FirewallStatus::Firewalled));
    assert!(!mgr.should_find_buddy(FirewallStatus::Open, FirewallStatus::Open));
}

#[test]
fn should_find_buddy_false_while_finding() {
    let mut mgr = test_manager();
    mgr.start_finding();
    assert!(!mgr.should_find_buddy(FirewallStatus::Firewalled, FirewallStatus::Firewalled));
}

#[test]
fn packets_are_framed_and_read_back() {
    assert_eq!(build_emule_packet(OP_BUDDYPING, &[]), vec![0xC5, 1, 0, 0, 0, 0x9F]);
    let p = write_ed2k_packet(0xE3, 0x01, &[7, 8, 9]).unwrap();
    assert_eq!(p, vec![0xE3, 4, 0, 0, 0, 0x01, 7, 8, 9]);
    assert_eq!(ed2k_packet_size(&p), Ok(9));
    assert_eq!(read_ed2k_packet(&p), Ok((0xE3, 0x01, vec![7, 8, 9])));
    assert_eq!(read_ed2k_packet(&p[..8]), Err(PacketError::Truncated));
    assert_eq!(read_ed2k_packet(&p[..4]), Err(PacketError::Truncated));
    assert_eq!(read_ed2k_packet(&[0xE3, 0, 0, 0, 0, 1]), Err(PacketError::InvalidLength(0)));
    assert_eq!(
        read_ed2k_packet(&[0xE3, 1, 0, 1, 0, 1]),
        Err(PacketError::InvalidLength(65_537))
    );
}

fn callback(check: u8, ip: Ipv4Addr, port: u16) -> Vec<u8> {
    let mut p = vec![check; 16];
    p.extend_from_slice(&[0x33; 16]);
    p.extend_from_slice(&ip.bits.to_le_bytes());
    p.extend_from_slice(&port.to_le_bytes());
    p
}

#[test]
fn a_callback_is_heard_with_its_token_only() {
    let mut reader = BuddyReader::new(Some(KadId([0x11; 16])));
    let dest = Ipv4Addr::new(8, 8, 8, 8);
    let good = callback(0x11, dest, 4662);
    assert_eq!(
        reader.on_packet(OP_EMULEPROT, OP_CALLBACK, &good),
        Some(BuddyEvent::Callback { file_hash: [0x33; 16], dest_ip: dest, dest_port: 4662 })
    );
    assert_eq!(reader.callback_budget, 63);
    assert_eq!(reader.on_packet(OP_EMULEPROT, OP_CALLBACK, &callback(0x12, dest, 4662)), None);
    assert_eq!(reader.on_packet(OP_EMULEPROT, OP_CALLBACK, &callback(0x11, dest, 0)), None);
    let local = Ipv4Addr::new(192, 168, 1, 1);
    assert_eq!(reader.on_packet(OP_EMULEPROT, OP_CALLBACK, &callback(0x11, local, 4662)), None);
    assert_eq!(reader.on_packet(OP_EMULEPROT, OP_CALLBACK, &good[..37]), None);
    assert_eq!(reader.on_packet(OP_EDONKEYHEADER, OP_CALLBACK, &good), None);
    assert_eq!(reader.callback_budget, 63);
    let mut deaf = BuddyReader::new(None);
    assert_eq!(deaf.on_packet(OP_EMULEPROT, OP_CALLBACK, &good), None);
}

#[test]
fn queries_to_pass_on_run_out() {
    let mut reader = BuddyReader::new(None);
    let mut p = Ipv4Addr::new(8, 8, 8, 8).bits.to_le_bytes().to_vec();
    p.extend_from_slice(&4672u16.to_le_bytes());
    p.extend_from_slice(&[0x44; 16]);
    for _ in 0..16 {
        assert_eq!(
            reader.on_packet(OP_EMULEPROT, OP_REASKCALLBACKTCP, &p),
            Some(BuddyEvent::ReaskCallback {
                dest_ip: Ipv4Addr::new(8, 8, 8, 8),
                dest_port: 4672,
                file_hash: [0x44; 16],
            })
        );
    }
    assert_eq!(reader.on_packet(OP_EMULEPROT, OP_REASKCALLBACKTCP, &p), None);
    assert_eq!(
        reader.on_packet(OP_EMULEPROT, OP_BUDDYPING, &[]),
        Some(BuddyEvent::PingReceived)
    );
    assert_eq!(
        reader.on_packet(OP_EMULEPROT, OP_BUDDYPONG, &[]),
        Some(BuddyEvent::PongReceived)
    );
}

#[test]
fn a_plain_buddy_is_greeted_at_once() {
    let mut mgr = test_manager();
    mgr.start_finding_at(1_000);
    let mut dial = BuddyDial::begin(0, &[0u8; 16], true);
    assert_eq!(mgr.handle_findbuddy_response(&mut dial, true), DialAction::Greet);
    assert_eq!(mgr.handle_findbuddy_response(&mut dial, true), DialAction::Install);
    assert_eq!(dial.stage, DialStage::Connected { obfuscated: false });
    mgr.install_buddy_connection(KadId([9; 16]), Ipv4Addr::new(8, 8, 8, 8), 4662);
    assert_eq!(mgr.state(), BuddyState::Connected);
    assert_eq!(mgr.buddy_addr(), Some((Ipv4Addr::new(8, 8, 8, 8), 4662)));
    assert_eq!(mgr.send_buddy_ping(), Some(vec![0xC5, 1, 0, 0, 0, 0x9F]));
    assert_eq!(mgr.send_pong_to_buddy(), Some(vec![0xC5, 1, 0, 0, 0, 0xA0]));
    let mut pending = PendingBuddies::new();
    pending.register_at([1; 16], KadId([2; 16]), 1_000);
    mgr.disconnect_buddy(Some(&mut pending));
    assert_eq!(pending.get(&[1; 16]), None);
    assert_eq!(mgr.state(), BuddyState::NoBuddy);
    assert_eq!(mgr.send_buddy_ping(), None);
}

#[test]
fn a_buddy_that_insists_is_never_spoken_to_plainly() {
    let mut mgr = test_manager();
    mgr.start_finding_at(1_000);
    let mut dial = BuddyDial::begin(0x05, &[1u8; 16], true);
    assert_eq!(mgr.handle_findbuddy_response(&mut dial, true), DialAction::Negotiate);
    assert_eq!(mgr.handle_findbuddy_response(&mut dial, false), DialAction::GiveUp);
    assert_eq!(mgr.state(), BuddyState::NoBuddy);

    let mut dial = BuddyDial::begin(0x05, &[0u8; 16], true);
    assert_eq!(mgr.handle_findbuddy_response(&mut dial, true), DialAction::GiveUp);
    let mut dial = BuddyDial::begin(0x05, &[1u8; 16], false);
    assert_eq!(mgr.handle_findbuddy_response(&mut dial, true), DialAction::GiveUp);

    let mut dial = BuddyDial::begin(0x01, &[1u8; 16], true);
    assert_eq!(mgr.handle_findbuddy_response(&mut dial, true), DialAction::Negotiate);
    assert_eq!(mgr.handle_findbuddy_response(&mut dial, false), DialAction::Reconnect);
    assert_eq!(mgr.handle_findbuddy_response(&mut dial, true), DialAction::Greet);
    assert_eq!(dial.stage, DialStage::Greeting { obfuscated: false });
}

#[test]
fn a_greeting_needs_its_answer() {
    let s = buddy_hello_handshake_outgoing(
        GreetStage::AwaitAnswer,
        OP_EDONKEYHEADER,
        OP_HELLOANSWER,
    );
    assert_eq!(s, GreetStage::AwaitInfo);
    assert_eq!(buddy_hello_handshake_outgoing(s, 0xC5, 0x77), GreetStage::Done);
    assert_eq!(
        buddy_hello_handshake_outgoing(GreetStage::AwaitAnswer, 0xC5, 0x02),
        GreetStage::Failed { protocol: 0xC5, opcode: 0x02 }
    );
    let o = buddy_hello_options(4672, true);
    assert_eq!((o.udp_port, o.kad_port, o.kad_version), (4672, 4672, 9));
    assert!(o.supports_crypt_layer && o.requests_crypt_layer && !o.requires_crypt_layer);
}

#[test]
fn searches_for_a_buddy_back_off() {
    let mut mgr = test_manager();
    let fw = FirewallStatus::Firewalled;
    assert!(mgr.should_find_buddy_at(fw, fw, 10));
    let mut now = 10_000;
    for wait in [60, 120, 240, 480, 600, 600] {
        mgr.start_finding_at(now);
        assert!(!mgr.finding_timed_out_at(now + 180));
        assert!(mgr.finding_timed_out_at(now + 181));
        mgr.find_failed();
        assert!(!mgr.should_find_buddy_at(fw, fw, now + wait));
        assert!(mgr.should_find_buddy_at(fw, fw, now + wait + 1));
        now += 10_000;
    }
    assert_eq!(mgr.find_buddy_target(), KadId([0xFE; 16]));
}

#[test]
fn one_client_is_served_and_its_callbacks_are_counted() {
    let mut mgr = test_manager();
    let check = KadId([0x22; 16]);
    assert!(mgr.accept_buddy_connection(KadId([0x33; 16]), check));
    assert!(!mgr.accept_buddy_connection(KadId([0x34; 16]), check));
    assert_eq!(mgr.serving_for(), Some(KadId([0x33; 16])));
    assert!(mgr.is_serving());
    let ip = Ipv4Addr::new(10, 2, 3, 4);
    let p = mgr.send_callback_relay(&check, ip, 4662, [0x55; 16]).unwrap();
    assert_eq!(p.len(), 6 + 38);
    assert_eq!(p[..6], [0xC5, 39, 0, 0, 0, 0x99]);
    assert_eq!(p[6..22], [0x22; 16]);
    assert_eq!(p[22..38], [0x55; 16]);
    assert_eq!(p[38..44], [4, 3, 2, 10, 0x36, 0x12]);
    let mut client = BuddyReader::new(Some(check));
    assert_eq!(client.on_packet(p[0], p[5], &p[6..]), None);
    let public = Ipv4Addr::new(8, 8, 4, 4);
    let p = mgr.send_callback_relay(&check, public, 4662, [0x55; 16]).unwrap();
    assert_eq!(
        client.on_packet(p[0], p[5], &p[6..]),
        Some(BuddyEvent::Callback { file_hash: [0x55; 16], dest_ip: public, dest_port: 4662 })
    );
    assert_eq!(mgr.send_callback_relay(&KadId([1; 16]), ip, 1, [0; 16]), None);
    for _ in 0..62 {
        assert!(mgr.send_callback_relay(&check, ip, 1, [0; 16]).is_some());
    }
    assert_eq!(mgr.send_callback_relay(&check, ip, 1, [0; 16]), None);
    mgr.disconnect_serving();
    assert!(!mgr.is_serving());
    assert_eq!(mgr.send_pong_to_serving(), None);
}

#[test]
fn a_query_is_passed_on_as_it_came() {
    let mut mgr = test_manager();
    let ip = Ipv4Addr::new(1, 2, 3, 4);
    assert_eq!(mgr.forward_reask_callback(ip, 5, &[9]), None);
    mgr.install_buddy_connection(KadId([9; 16]), ip, 4662);
    assert_eq!(
        mgr.forward_reask_callback(ip, 5, &[9]),
        Some(vec![0xC5, 8, 0, 0, 0, 0x9A, 4, 3, 2, 1, 5, 0, 9])
    );
    let mut pending = PendingBuddies::new();
    pending.register_at([1; 16], KadId([2; 16]), 1_000);
    mgr.reset(None);
    assert_eq!(pending.get(&[1; 16]), Some(KadId([2; 16])));
    mgr.reset(Some(&mut pending));
    assert_eq!(pending.get(&[1; 16]), None);
    assert_eq!(mgr.buddy_id(), None);
}

#[test]
fn promises_to_clients_lapse() {
    let mut pending = PendingBuddies::new();
    pending.register_at([1; 16], KadId([2; 16]), 1_000);
    assert_eq!(pending.get(&[1; 16]), Some(KadId([2; 16])));
    pending.register_at([3; 16], KadId([4; 16]), 1_119);
    assert_eq!(pending.get(&[1; 16]), Some(KadId([2; 16])));
    pending.register_at([5; 16], KadId([6; 16]), 1_120);
    assert_eq!(pending.get(&[1; 16]), None);
    assert_eq!(pending.get(&[3; 16]), Some(KadId([4; 16])));
    pending.register_pending_buddy([7; 16], KadId([8; 16]));
    assert_eq!(pending.get(&[3; 16]), None);
    pending.clear();
    assert_eq!(pending.get(&[7; 16]), None);
}
