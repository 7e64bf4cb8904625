//! The routing table and its contacts.
use ember_net::kad::dht_common::{is_stale, xor16, Admission, IpAdmissionGate};
use ember_net::kad::ip_filter::{IpFilter, SharedIpFilter};
use ember_net::kad::routing::{kad_version_name, RoutingTable};
use ember_net::kad::types::{
    cuint128_swap, KadContact, KadId, KadUDPKey, CONTACT_TYPE_DEAD, CONTACT_TYPE_NEW,
    CONTACT_TYPE_VERIFIED,
};
use ember_net::net::Ipv4Addr;

const NOW: i64 = 1_700_000_000;

fn contact(id: u8, ip: Ipv4Addr) -> KadContact {
    KadContact {
        id: KadId([id; 16]),
        ip,
        udp_port: 4672,
        tcp_port: 4662,
        version: 9,
        last_seen: NOW,
        verified: false,
        contact_type: CONTACT_TYPE_NEW,
        udp_key: None,
        kad_options: 0,
        created_at: 0,
        expires_at: 0,
        last_type_set: 0,
        received_hello: true,
    }
}

fn table() -> RoutingTable {
    RoutingTable::new_at(KadId([0; 16]), true, NOW)
}

#[test]
fn a_contact_is_added_once_and_found() {
    let mut t = table();
    let c = contact(0x81, Ipv4Addr::new(8, 8, 8, 8));
    assert!(t.is_empty());
    assert!(t.insert_at(c, NOW));
    assert!(!t.insert_at(c, NOW + 1));
    assert_eq!(t.len(), 1);
    assert!(t.has_contact_ip(Ipv4Addr::new(8, 8, 8, 8)));
    assert_eq!(t.get_contact(&KadId([0x81; 16])).unwrap().ip, Ipv4Addr::new(8, 8, 8, 8));
    assert!(t.get_contact(&KadId([0x82; 16])).is_none());
    assert!(t.remove(&KadId([0x81; 16])));
    assert!(!t.remove(&KadId([0x81; 16])));
    assert!(t.is_empty());
    assert!(!t.has_contact_ip(Ipv4Addr::new(8, 8, 8, 8)));
}

#[test]
fn one_address_gets_one_place_and_a_network_ten() {
    let mut t = table();
    assert!(t.insert_at(contact(0x81, Ipv4Addr::new(8, 8, 8, 8)), NOW));
    assert!(!t.insert_at(contact(0x82, Ipv4Addr::new(8, 8, 8, 8)), NOW));
    assert_eq!(t.len(), 1);
}

#[test]
fn unfit_contacts_are_refused() {
    let mut t = table();
    let mut firewalled = contact(0x81, Ipv4Addr::new(8, 8, 8, 8));
    firewalled.kad_options = 1;
    assert!(firewalled.is_udp_firewalled());
    assert!(!t.insert_at(firewalled, NOW));
    assert!(!t.insert_at(contact(0, Ipv4Addr::new(8, 8, 8, 8)), NOW));
    assert!(!t.insert_at(contact(0x83, Ipv4Addr::new(192, 168, 1, 1)), NOW));
    assert!(!t.insert_at(contact(0x84, Ipv4Addr::new(240, 0, 0, 1)), NOW));
    let mut old = contact(0x85, Ipv4Addr::new(8, 8, 8, 8));
    old.version = 1;
    assert!(!old.is_kad2());
    assert!(!t.insert_at(old, NOW));
    assert_eq!(t.len(), 0);
}

#[test]
fn the_filter_keeps_contacts_out() {
    let mut filter = IpFilter::new(true, false);
    filter.mark_ranges_ready();
    filter.add_range(Ipv4Addr::new(9, 0, 0, 0), Ipv4Addr::new(9, 0, 0, 255), String::new());
    let mut t = table();
    t.set_ip_filter(SharedIpFilter::Readable(filter.create_shared_snapshot()));
    assert!(!t.insert_at(contact(0x81, Ipv4Addr::new(9, 0, 0, 7)), NOW));
    assert!(t.insert_at(contact(0x82, Ipv4Addr::new(9, 0, 1, 7)), NOW));
}

#[test]
fn the_filter_of_a_table_is_kept_up_to_date() {
    let ip = |d: u8| Ipv4Addr::new(9, 0, d, 7);
    let mut filter = IpFilter::new(true, false);
    filter.mark_ranges_ready();
    filter.add_range(ip(0), ip(0), "a".to_string());
    let mut t = table();
    assert!(t.take_ip_filter().is_none());
    t.set_ip_filter(SharedIpFilter::Readable(filter.create_shared_snapshot()));
    assert!(!t.insert_at(contact(0x81, ip(0)), NOW));
    filter.add_range(ip(1), ip(1), "b".to_string());
    t.update_ip_filter(&filter);
    assert!(!t.insert_at(contact(0x82, ip(1)), NOW));
    assert!(!t.insert_at(contact(0x83, ip(1)), NOW));
    assert!(t.insert_at(contact(0x84, ip(2)), NOW));
    assert_eq!(filter.get_stats().total_hits, 0);
    t.collect_filter_hits(&mut filter);
    let stats = filter.get_stats();
    assert_eq!(stats.total_hits, 3);
    assert_eq!((stats.entries[0].hits, stats.entries[1].hits), (1, 2));
    t.collect_filter_hits(&mut filter);
    assert_eq!(filter.get_stats().total_hits, 3);

    assert!(!t.insert_at(contact(0x85, ip(0)), NOW));
    let Some(SharedIpFilter::Readable(mut snapshot)) = t.take_ip_filter() else {
        panic!("the table had a filter");
    };
    assert_eq!(snapshot.hit_counter, 1);
    filter.collect_shared_hits(&mut snapshot);
    assert_eq!(filter.get_stats().entries[0].hits, 2);
    assert!(t.insert_at(contact(0x86, ip(0)), NOW));

    t.set_ip_filter(SharedIpFilter::Poisoned);
    t.update_ip_filter(&filter);
    t.collect_filter_hits(&mut filter);
    assert!(!t.insert_at(contact(0x87, ip(3)), NOW));
    assert_eq!(filter.get_stats().total_hits, 4);
}

#[test]
fn a_filter_without_its_ranges_lets_contacts_in() {
    let mut filter = IpFilter::new(true, false);
    let snapshot = filter.create_shared_snapshot();
    assert!(snapshot.enabled);
    assert!(!snapshot.ranges_ready);
    let mut t = table();
    t.set_ip_filter(SharedIpFilter::Readable(snapshot));
    assert!(t.insert_at(contact(0x81, Ipv4Addr::new(8, 8, 8, 8)), NOW));
    assert!(!t.insert_at(contact(0x82, Ipv4Addr::new(240, 0, 0, 1)), NOW));
    let mut shut = table();
    shut.set_ip_filter(SharedIpFilter::Poisoned);
    assert!(!shut.insert_at(contact(0x81, Ipv4Addr::new(8, 8, 8, 8)), NOW));
}

#[test]
fn the_closest_contacts_come_first() {
    let mut t = table();
    for i in 1..=30u8 {
        t.insert_at(contact(i, Ipv4Addr::new(20 + i, 1, 1, 1)), NOW);
    }
    assert!(t.len() > 10);
    let target = KadId([7; 16]);
    let found = t.find_closest(&target, 5);
    assert_eq!(found.len(), 5);
    assert_eq!(found[0].id, target);
    let mut last = 0u128;
    for c in &found {
        let d = c.id.xor_distance(&target).to_u128();
        assert!(d >= last);
        last = d;
    }
    assert_eq!(t.all_contacts().len(), t.len());
    assert!(t.find_closest_verified(&target, 5).is_empty());
    t.mark_verified_at(&target, NOW);
    assert_eq!(t.find_closest_verified(&target, 5).len(), 1);
    t.set_all_contacts_verified();
    assert_eq!(t.find_closest_verified(&target, 100).len(), t.len());
}

#[test]
fn contacts_that_fall_silent_leave() {
    let mut t = table();
    assert!(t.insert_at(contact(0x81, Ipv4Addr::new(8, 8, 8, 8)), NOW));
    assert_eq!(t.remove_stale_at(3_600, NOW + 10), 0);
    assert!(t.touch_contact_by_addr_at(Ipv4Addr::new(8, 8, 8, 8), 4672, NOW + 3_000));
    assert!(!t.touch_contact_by_addr_at(Ipv4Addr::new(8, 8, 8, 8), 4673, NOW + 3_000));
    assert_eq!(t.remove_stale_at(3_600, NOW + 20_000), 1);
    assert_eq!(t.len(), 0);
    assert!(t.insert_at(contact(0x81, Ipv4Addr::new(8, 8, 8, 8)), NOW));
    t.clear_at(NOW);
    assert!(t.is_empty());
}

#[test]
fn an_empty_table_looks_for_somebody() {
    let mut t = table();
    assert_eq!(t.get_contacts_to_probe_at(NOW).len(), 0);
    assert_eq!(t.consolidate_at(NOW), 0);
    assert!(t.try_fire_big_timer(NOW, None).is_none());
    t.reset_big_timer_global(NOW + 100);
    let _ = t.try_fire_big_timer(NOW + 4_000, None);
    assert_eq!(t.estimate_count(), 10);
}

#[test]
fn versions_have_names() {
    assert_eq!(kad_version_name(1), "Kad1 (0.46c)");
    assert_eq!(kad_version_name(5), "Kad2 (0.48a)");
}

#[test]
fn identifiers_and_their_distance() {
    let a = KadId::from_u32(0x0102_0304);
    assert_eq!(a.to_u128(), 0x0102_0304);
    assert_eq!(a.0[12..], [4, 3, 2, 1]);
    assert_eq!(KadId::from_u128(1 << 127).0[..4], [0, 0, 0, 0x80]);
    assert!(KadId::from_u128(1 << 127).get_bit_number(0));
    assert!(!KadId::from_u128(1 << 127).get_bit_number(1));
    let b = KadId::from_u32(5);
    assert_eq!(a.xor_distance(&b).to_u128(), 0x0102_0304 ^ 5);
    assert_eq!(a.xor_distance(&a), KadId::zero());
    let raw: [u8; 16] = [0, 1, 2, 3, 4, 5, 6, 7, 8, 9, 10, 11, 12, 13, 14, 15];
    let wire: [u8; 16] = [3, 2, 1, 0, 7, 6, 5, 4, 11, 10, 9, 8, 15, 14, 13, 12];
    assert_eq!(cuint128_swap(&raw), wire);
    assert_eq!(cuint128_swap(&wire), raw);
    assert_eq!(xor16(&raw, &raw), [0; 16]);
    let p = KadId::random_with_prefix(&KadId::from_u128(0xAB << 120), 8);
    assert_eq!(p.to_u128() >> 120, 0xAB);
    assert_ne!(KadId::random(), KadId::random());
}

#[test]
fn contacts_age() {
    let mut c = contact(1, Ipv4Addr::new(8, 8, 8, 8));
    c.created_at = NOW;
    c.update_type(NOW + 10);
    assert_eq!(c.contact_type, CONTACT_TYPE_VERIFIED);
    assert_eq!(c.expires_at, NOW + 10 + 3_600);
    assert!(!c.is_expired(NOW));
    assert!(c.is_expired(NOW + 10 + 3_600));
    c.checking_type(NOW + 100);
    assert_eq!(c.contact_type, CONTACT_TYPE_VERIFIED + 1);
    c.checking_type(NOW + 105);
    assert_eq!(c.contact_type, CONTACT_TYPE_VERIFIED + 1);
    c.checking_type(NOW + 110);
    assert_eq!(c.contact_type, CONTACT_TYPE_DEAD);
    assert!(c.is_dead());
    let k = KadUDPKey { key: 7, ip: 9 };
    assert_eq!((k.get_key_value(9), k.get_key_value(8)), (7, 0));
}

#[test]
fn admission_follows_the_policy() {
    let mut g = IpAdmissionGate::new(true);
    assert!(matches!(g.admits(Ipv4Addr::new(8, 8, 8, 8)), Admission::Allowed));
    assert!(!matches!(g.admits(Ipv4Addr::new(10, 0, 0, 1)), Admission::Allowed));
    assert!(g.is_definitely_blocked(Ipv4Addr::new(240, 0, 0, 1)));
    g.set_range_filter(SharedIpFilter::Poisoned);
    assert!(!matches!(g.admits(Ipv4Addr::new(8, 8, 8, 8)), Admission::Allowed));
    assert!(!g.is_definitely_blocked(Ipv4Addr::new(8, 8, 8, 8)));
    assert!(is_stale(100, 10, 90));
    assert!(!is_stale(100, 10, 91));
}

#[test]
fn contacts_in_use_stay() {
    let mut t = table();
    let id = KadId([0x81; 16]);
    assert!(t.insert_at(contact(0x81, Ipv4Addr::new(8, 8, 8, 8)), NOW));
    t.get_contact_mut(&id).unwrap().contact_type = CONTACT_TYPE_DEAD;
    t.get_contact_mut(&id).unwrap().expires_at = 0;
    t.mark_contacts_in_use(&[id]);
    assert_eq!(t.remove_dead_contacts_at(NOW + 20_000), 0);
    t.release_contacts_in_use(&[id]);
    assert_eq!(t.remove_dead_contacts_at(NOW + 20_000), 1);
    assert!(t.is_empty());
}

#[test]
fn a_known_contact_can_be_changed_in_place() {
    let mut t = table();
    let id = KadId([0x81; 16]);
    assert!(t.insert_at(contact(0x81, Ipv4Addr::new(8, 8, 8, 8)), NOW));
    t.get_contact_mut(&id).unwrap().tcp_port = 1;
    assert_eq!(t.get_contact(&id).unwrap().tcp_port, 1);
    assert_eq!(t.export_bootstrap_contacts(10).len(), 1);
    assert!(t.is_acceptable_contact(&contact(0x82, Ipv4Addr::new(9, 9, 9, 9))));
    assert!(!t.is_acceptable_contact(&contact(0x82, Ipv4Addr::new(8, 8, 8, 8))));
    let mut old = contact(0x82, Ipv4Addr::new(9, 9, 9, 9));
    old.version = 1;
    assert!(!t.is_acceptable_contact(&old));
}

#[test]
fn the_clock_drives_the_table() {
    let mut t = RoutingTable::new(KadId([0; 16]), true);
    assert!(t.insert(contact(0x81, Ipv4Addr::new(8, 8, 8, 8))));
    t.mark_verified(&KadId([0x81; 16]));
    assert_eq!(t.find_closest_prefer_verified(&KadId([0x81; 16]), 3).len(), 1);
    assert!(t.touch_contact_by_addr(Ipv4Addr::new(8, 8, 8, 8), 4672));
    assert_eq!(t.remove_dead_contacts(), 0);
    assert_eq!(t.remove_stale(1_000_000_000), 0);
    assert_eq!(t.consolidate(), 0);
    let _ = t.get_contacts_to_probe();
    t.clear();
    assert!(t.is_empty());
}
