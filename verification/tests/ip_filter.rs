//! The address filter.
use ember_net::kad::ip_filter::{
    count_valid_entries, is_lan_ip, is_private_or_reserved, is_valid_contact_ip, parse_ipfilter_line,
    parse_p2p_line, IpFilter, MAX_TEXT_FILTER_LINE_BYTES,
};
use ember_net::net::Ipv4Addr;
use ember_net::text::trim;

fn chars(s: &str) -> Vec<char> {
    s.chars().collect()
}

#[test]
fn test_private_ips() {
    assert!(is_private_or_reserved(Ipv4Addr::new(10, 0, 0, 1)));
    assert!(is_private_or_reserved(Ipv4Addr::new(172, 16, 0, 1)));
    assert!(is_private_or_reserved(Ipv4Addr::new(192, 168, 1, 1)));
    assert!(is_private_or_reserved(Ipv4Addr::new(127, 0, 0, 1)));
    assert!(is_private_or_reserved(Ipv4Addr::new(0, 0, 0, 0)));
    assert!(is_private_or_reserved(Ipv4Addr::new(169, 254, 1, 1)));
    assert!(is_private_or_reserved(Ipv4Addr::new(255, 255, 255, 255)));
    assert!(is_private_or_reserved(Ipv4Addr::new(100, 64, 0, 1)));
    assert!(is_private_or_reserved(Ipv4Addr::new(198, 18, 0, 1)));
    assert!(is_private_or_reserved(Ipv4Addr::new(192, 88, 99, 1)));
    assert!(is_private_or_reserved(Ipv4Addr::new(224, 0, 0, 1)));
    assert!(!is_private_or_reserved(Ipv4Addr::new(8, 8, 8, 8)));
    assert!(!is_private_or_reserved(Ipv4Addr::new(93, 184, 216, 34)));
}

#[test]
fn test_ip_filter_with_ranges() {
    let mut filter = IpFilter::new(true, false);
    filter.mark_ranges_ready();
    filter.add_range(
        Ipv4Addr::new(1, 0, 0, 0),
        Ipv4Addr::new(1, 0, 0, 255),
        "test".to_string(),
    );
    assert!(filter.is_blocked(Ipv4Addr::new(1, 0, 0, 50)));
    assert!(!filter.is_blocked(Ipv4Addr::new(2, 0, 0, 50)));
}

#[test]
fn test_ip_filter_disabled() {
    let mut filter = IpFilter::new(false, false);
    filter.add_range(
        Ipv4Addr::new(1, 0, 0, 0),
        Ipv4Addr::new(1, 0, 0, 255),
        String::new(),
    );
    assert!(!filter.is_blocked(Ipv4Addr::new(1, 0, 0, 50)));
    assert!(filter.is_blocked(Ipv4Addr::new(255, 255, 255, 255)));
}

#[test]
fn test_ip_filter_block_private() {
    let mut filter = IpFilter::new(false, true);
    assert!(filter.is_blocked(Ipv4Addr::new(192, 168, 1, 1)));
    assert!(!filter.is_blocked(Ipv4Addr::new(8, 8, 8, 8)));

    let mut filter_no_priv = IpFilter::new(false, false);
    assert!(!filter_no_priv.is_blocked(Ipv4Addr::new(192, 168, 1, 1)));
}

#[test]
fn test_valid_contact_ip() {
    assert!(is_valid_contact_ip(Ipv4Addr::new(8, 8, 8, 8), true));
    assert!(!is_valid_contact_ip(Ipv4Addr::new(192, 168, 1, 1), true));
    assert!(is_valid_contact_ip(Ipv4Addr::new(192, 168, 1, 1), false));
    assert!(!is_valid_contact_ip(Ipv4Addr::new(0, 0, 0, 0), false));
    assert!(!is_valid_contact_ip(Ipv4Addr::new(127, 0, 0, 1), false));
}

#[test]
fn test_valid_contact_ip_rejects_bogus_even_when_private_allowed() {
    for ip in [
        Ipv4Addr::new(0, 1, 2, 3),
        Ipv4Addr::new(240, 0, 0, 1),
        Ipv4Addr::new(255, 255, 255, 255),
        Ipv4Addr::new(224, 0, 0, 1),
        Ipv4Addr::new(192, 0, 2, 5),
        Ipv4Addr::new(198, 51, 100, 7),
        Ipv4Addr::new(203, 0, 113, 9),
        Ipv4Addr::new(198, 18, 0, 1),
        Ipv4Addr::new(192, 0, 0, 1),
        Ipv4Addr::new(192, 88, 99, 1),
    ] {
        assert!(
            !is_valid_contact_ip(ip, false),
            "{ip:?} must be rejected even with block_private = false"
        );
    }
    assert!(is_valid_contact_ip(Ipv4Addr::new(10, 0, 0, 5), false));
    assert!(!is_valid_contact_ip(Ipv4Addr::new(10, 0, 0, 5), true));
    assert!(is_valid_contact_ip(Ipv4Addr::new(1, 1, 1, 1), false));
}

#[test]
fn test_is_blocked_rejects_bogus_when_filter_off_and_private_allowed() {
    let mut filter = IpFilter::new(false, false);
    assert!(filter.is_blocked(Ipv4Addr::new(0, 1, 2, 3)));
    assert!(filter.is_blocked(Ipv4Addr::new(240, 0, 0, 1)));
    assert!(filter.is_blocked(Ipv4Addr::new(192, 0, 2, 5)));
    assert!(!filter.is_blocked(Ipv4Addr::new(8, 8, 8, 8)));
    assert!(!filter.is_blocked(Ipv4Addr::new(192, 168, 1, 1)));
}

#[test]
fn test_hit_counting() {
    let mut filter = IpFilter::new(true, false);
    filter.mark_ranges_ready();
    filter.add_range(
        Ipv4Addr::new(1, 0, 0, 0),
        Ipv4Addr::new(1, 0, 0, 255),
        "test range".to_string(),
    );
    filter.is_blocked(Ipv4Addr::new(1, 0, 0, 1));
    filter.is_blocked(Ipv4Addr::new(1, 0, 0, 2));
    filter.is_blocked(Ipv4Addr::new(1, 0, 0, 3));
    let stats = filter.get_stats();
    assert_eq!(stats.total_hits, 3);
    assert_eq!(stats.entries[0].hits, 3);
    assert_eq!(stats.entries[0].description, "test range");
}

#[test]
fn test_remove_range() {
    let mut filter = IpFilter::new(true, false);
    filter.add_range(
        Ipv4Addr::new(1, 0, 0, 0),
        Ipv4Addr::new(1, 0, 0, 255),
        String::new(),
    );
    assert_eq!(filter.range_count(), 1);
    assert!(filter.remove_range("1.0.0.0", "1.0.0.255"));
    assert_eq!(filter.range_count(), 0);
}

#[test]
fn test_parse_ipfilter_dat_format() {
    let line1 = "1.0.0.0 - 1.0.0.255 , 000 , Test Range";
    let r1 = parse_ipfilter_line(&chars(line1));
    assert!(r1.is_some(), "Failed to parse standard ipfilter.dat line");
    let r1 = r1.unwrap();
    assert_eq!(r1.start, Ipv4Addr::new(1, 0, 0, 0).bits);
    assert_eq!(r1.end, Ipv4Addr::new(1, 0, 0, 255).bits);
    assert_eq!(r1.description, "Test Range");

    let line2 = "003.000.000.000 - 003.255.255.255 , 000 , IANA-ARIN";
    let r2 = parse_ipfilter_line(&chars(line2));
    assert!(
        r2.is_some(),
        "Failed to parse ipfilter.dat line with leading zeros"
    );
    let r2 = r2.unwrap();
    assert_eq!(r2.start, Ipv4Addr::new(3, 0, 0, 0).bits);
    assert_eq!(r2.end, Ipv4Addr::new(3, 255, 255, 255).bits);
    assert_eq!(r2.description, "IANA-ARIN");

    let line3 = "3.0.0.0 - 3.255.255.255 , 000 , IANA-ARIN";
    let r3 = parse_ipfilter_line(&chars(line3));
    assert!(
        r3.is_some(),
        "Failed to parse ipfilter.dat line without leading zeros"
    );

    assert!(
        parse_ipfilter_line(&chars("1.0.0.0 - 1.0.0.255 , 128 , Allowed")).is_none(),
        "Should skip access level 128"
    );
    assert!(
        parse_ipfilter_line(&chars("1.0.0.0 - 1.0.0.255 , 127 , Allowed")).is_none(),
        "Level 127 is permitted in eMule and must be skipped"
    );
    assert!(
        parse_ipfilter_line(&chars("1.0.0.0 - 1.0.0.255 , 126 , Blocked")).is_some(),
        "Level 126 is below the filter level and must be kept"
    );

    let host = parse_ipfilter_line(&chars("1.2.3.4 , 0 , Single host"));
    assert!(host.is_some(), "Failed to parse single-host ipfilter entry");
    let host = host.unwrap();
    assert_eq!(host.start, Ipv4Addr::new(1, 2, 3, 4).bits);
    assert_eq!(host.end, Ipv4Addr::new(1, 2, 3, 4).bits);

    let p2p = "Test Range:1.0.0.0-1.0.0.255";
    let rp = parse_p2p_line(&chars(p2p));
    assert!(rp.is_some(), "Failed to parse P2P line");
}

#[test]
fn test_snapshot_hit_accounting() {
    let mut filter = IpFilter::new(true, true);
    filter.mark_ranges_ready();
    filter.add_range(
        Ipv4Addr::new(5, 0, 0, 0),
        Ipv4Addr::new(5, 0, 0, 255),
        "range".to_string(),
    );
    let mut snap = filter.create_shared_snapshot();
    {
        assert!(snap.is_blocked(Ipv4Addr::new(5, 0, 0, 1)));
        assert!(snap.is_blocked(Ipv4Addr::new(192, 168, 0, 1)));
        assert!(snap.is_blocked(Ipv4Addr::new(240, 0, 0, 1)));
        assert!(!snap.is_blocked(Ipv4Addr::new(8, 8, 8, 8)));
        assert_eq!(snap.hit_counter, 1);
        assert_eq!(snap.special_hit_counter, 2);
    }
    filter.collect_shared_hits(&mut snap);
    let stats = filter.get_stats();
    assert_eq!(stats.total_hits, 3);
    assert_eq!(
        stats.entries[0].hits, 1,
        "shared range hits must show in the Hits column"
    );
}

#[test]
fn test_readonly_hit_counting_attributes_per_range() {
    let mut filter = IpFilter::new(true, false);
    filter.mark_ranges_ready();
    filter.add_range(
        Ipv4Addr::new(1, 0, 0, 0),
        Ipv4Addr::new(1, 0, 0, 255),
        "test range".to_string(),
    );
    assert!(filter.is_blocked_readonly(Ipv4Addr::new(1, 0, 0, 1)));
    assert!(filter.is_blocked_readonly(Ipv4Addr::new(1, 0, 0, 2)));
    let stats = filter.get_stats();
    assert_eq!(stats.total_hits, 2);
    assert_eq!(stats.entries[0].hits, 2);
}

#[test]
fn test_enabled_fail_closed_until_ranges_ready() {
    let mut filter = IpFilter::new(true, false);
    assert!(!filter.ranges_ready());
    assert!(filter.is_blocked(Ipv4Addr::new(8, 8, 8, 8)));
    assert!(filter.is_blocked_readonly(Ipv4Addr::new(1, 1, 1, 1)));

    filter.mark_ranges_ready();
    assert!(filter.ranges_ready());
    assert!(!filter.is_blocked(Ipv4Addr::new(8, 8, 8, 8)));

    let mut snap = filter.create_shared_snapshot();
    assert!(snap.ranges_ready);
    assert!(!snap.is_blocked(Ipv4Addr::new(8, 8, 8, 8)));
}

#[test]
fn test_kad_admission_skips_fail_closed_until_ranges_ready() {
    let mut filter = IpFilter::new(true, false);
    assert!(!filter.ranges_ready());
    assert!(filter.is_blocked_readonly(Ipv4Addr::new(8, 8, 8, 8)));
    assert!(!filter.is_blocked_readonly_for_kad(Ipv4Addr::new(8, 8, 8, 8)));
    let mut snap = filter.create_shared_snapshot();
    assert!(snap.is_blocked(Ipv4Addr::new(8, 8, 8, 8)));
    assert!(!snap.is_blocked_for_kad(Ipv4Addr::new(8, 8, 8, 8)));

    filter.mark_ranges_ready();
    assert!(!filter.is_blocked_readonly_for_kad(Ipv4Addr::new(8, 8, 8, 8)));
}

#[test]
fn test_set_enabled_reopens_fail_closed_gate() {
    let mut filter = IpFilter::new(false, false);
    assert!(filter.ranges_ready());
    filter.set_enabled(true);
    assert!(!filter.ranges_ready());
    assert!(filter.is_blocked(Ipv4Addr::new(8, 8, 8, 8)));
    filter.mark_ranges_ready();
    assert!(!filter.is_blocked(Ipv4Addr::new(8, 8, 8, 8)));
    filter.set_enabled(false);
    assert!(filter.ranges_ready());
}

#[test]
fn test_load_from_file_fully_replaces_old_ranges() {
    let first = b"1.0.0.0 - 1.0.0.255 , 000 , First List\n";

    let mut filter = IpFilter::new(true, false);
    assert_eq!(filter.load_from_file(first, "dat"), Some(1));
    assert!(filter.is_blocked(Ipv4Addr::new(1, 0, 0, 1)));

    filter.add_range(
        Ipv4Addr::new(9, 9, 9, 0),
        Ipv4Addr::new(9, 9, 9, 255),
        "manual".to_string(),
    );
    assert_eq!(filter.range_count(), 2);

    let second = b"2.0.0.0 - 2.0.0.255 , 000 , Second List\n";
    assert_eq!(filter.load_from_file(second, "dat"), Some(1));

    assert_eq!(
        filter.range_count(),
        1,
        "old ranges must not survive a fresh load"
    );
    assert!(
        !filter.is_blocked(Ipv4Addr::new(1, 0, 0, 1)),
        "stale range from the first file must be gone"
    );
    assert!(
        !filter.is_blocked(Ipv4Addr::new(9, 9, 9, 1)),
        "manually-added range must be gone after a fresh load"
    );
    assert!(
        filter.is_blocked(Ipv4Addr::new(2, 0, 0, 1)),
        "the fresh list's range must be active"
    );
}

#[test]
fn test_load_from_file_tolerates_invalid_utf8_mid_file() {
    let mut data = Vec::new();
    data.extend_from_slice(b"1.0.0.0 - 1.0.0.255 , 000 , Before\n");
    data.extend_from_slice(&[0xFF, 0xFE, b'\n']);
    data.extend_from_slice(b"2.0.0.0 - 2.0.0.255 , 000 , After\n");

    let mut filter = IpFilter::new(true, false);
    assert_eq!(filter.load_from_file(&data, "dat"), Some(2));
    assert!(filter.is_blocked(Ipv4Addr::new(1, 0, 0, 1)));
    assert!(
        filter.is_blocked(Ipv4Addr::new(2, 0, 0, 1)),
        "ranges after an invalid-UTF8 line must still load"
    );
}

#[test]
fn test_load_from_file_corrupt_p2b_keeps_existing_ranges() {
    let mut filter = IpFilter::new(true, false);
    filter.add_range(
        Ipv4Addr::new(1, 0, 0, 0),
        Ipv4Addr::new(1, 0, 0, 255),
        "keep me".to_string(),
    );

    assert_eq!(filter.load_from_file(b"not a p2b file", "p2b"), None);
    assert_eq!(
        filter.range_count(),
        1,
        "a corrupt binary header must not clear the existing filter"
    );
}

#[test]
fn test_count_valid_entries_dat_format() {
    let data = b"# comment\n1.0.0.0 - 1.0.0.255 , 000 , Blocked\n1.2.3.4 , 0 , Single host\n";
    assert_eq!(count_valid_entries(data, "dat"), 2);
}

#[test]
fn test_count_valid_entries_rejects_garbage() {
    let html = b"<!DOCTYPE html>\n<html><body>404 Not Found</body></html>\n";
    assert_eq!(count_valid_entries(html, "dat"), 0);
    assert_eq!(count_valid_entries(b"", "dat"), 0);
}

#[test]
fn preflight_rejects_entries_the_loader_drops_for_line_length() {
    let mut data = b"1.2.3.4 - 1.2.3.4 , 0 , ".to_vec();
    data.extend(vec![b'x'; MAX_TEXT_FILTER_LINE_BYTES]);
    data.push(b'\n');

    assert_eq!(count_valid_entries(&data, "dat"), 0);

    data.extend_from_slice(b"8.8.8.8 - 8.8.8.8 , 0 , valid\n");
    assert_eq!(count_valid_entries(&data, "dat"), 1);
}

#[test]
fn test_count_valid_entries_p2p_format() {
    let data = b"Some List:1.0.0.0-1.0.0.255\nAnother:2.0.0.0-2.255.255.255\n";
    assert_eq!(count_valid_entries(data, "p2p"), 2);
}

#[test]
fn test_count_valid_entries_p2b_format() {
    let mut data = Vec::new();
    data.extend_from_slice(b"\xff\xff\xff\xffP2B");
    data.push(1);
    data.extend_from_slice(b"desc\0");
    data.extend_from_slice(&1u32.to_be_bytes());
    data.extend_from_slice(&10u32.to_be_bytes());
    assert_eq!(count_valid_entries(&data, "p2b"), 1);
    assert_eq!(count_valid_entries(b"not a p2b file", "p2b"), 0);
}

#[test]
fn canonical_dat_bytes_preserve_p2b_ranges_across_restart() {
    let mut data = Vec::new();
    data.extend_from_slice(b"\xff\xff\xff\xffP2B");
    data.push(1);
    data.extend_from_slice(b"binary\0");
    data.extend_from_slice(&Ipv4Addr::new(8, 8, 8, 0).bits.to_be_bytes());
    data.extend_from_slice(&Ipv4Addr::new(8, 8, 8, 255).bits.to_be_bytes());

    let mut imported = IpFilter::new(true, false);
    assert_eq!(imported.load_from_file(&data, "p2b"), Some(1));
    let persisted = imported.canonical_dat_bytes();

    let mut restarted = IpFilter::new(true, false);
    assert_eq!(restarted.load_from_file(&persisted, "dat"), Some(1));
    assert!(restarted.is_blocked(Ipv4Addr::new(8, 8, 8, 8)));
}

#[test]
fn local_addresses_are_told_apart() {
    assert!(is_lan_ip(Ipv4Addr::new(192, 168, 1, 1)));
    assert!(is_lan_ip(Ipv4Addr::new(10, 1, 1, 1)));
    assert!(!is_lan_ip(Ipv4Addr::new(8, 8, 8, 8)));
}

#[test]
fn ranges_that_touch_or_overlap_become_one() {
    let mut filter = IpFilter::new(true, false);
    let data = b"1.0.0.10 - 1.0.0.20 , 0 , a\n1.0.0.15 - 1.0.0.30 , 0 , b\n3.0.0.0 - 3.0.0.1 , 0 , c\n";
    assert_eq!(filter.load_from_file(data, "dat"), Some(2));
    assert_eq!(filter.range_count(), 2);
    assert!(filter.is_blocked(Ipv4Addr::new(1, 0, 0, 30)));
    assert!(!filter.is_blocked(Ipv4Addr::new(1, 0, 0, 31)));
    let mut other = IpFilter::new(true, false);
    other.mark_ranges_ready();
    other.merge_ranges_from(&filter);
    assert_eq!(other.range_count(), 2);
    let saved = other.canonical_dat_bytes();
    let mut again = IpFilter::new(true, false);
    assert_eq!(again.load_from_file(&saved, "dat"), Some(2));
    assert_eq!(again.canonical_dat_bytes(), saved);
}

#[test]
fn merging_ranges_keeps_their_hits() {
    let ip = |d: u8| Ipv4Addr::new(9, 0, 0, d);
    let mut filter = IpFilter::new(true, false);
    filter.mark_ranges_ready();
    filter.add_range(ip(0), ip(9), "a".to_string());
    filter.add_range(ip(20), ip(29), "b".to_string());
    for d in [1, 2, 3, 21, 22] {
        assert!(filter.is_blocked(ip(d)));
    }
    let mut other = IpFilter::new(true, false);
    other.mark_ranges_ready();
    other.add_range(ip(10), ip(19), "c".to_string());
    assert!(other.is_blocked(ip(15)));
    filter.merge_ranges_from(&other);
    let stats = filter.get_stats();
    assert_eq!(stats.range_count, 1);
    assert_eq!(stats.entries[0].hits, 6);
    assert!(filter.add_range(ip(5), ip(40), "d".to_string()));
    let stats = filter.get_stats();
    assert_eq!(stats.range_count, 1);
    assert_eq!(stats.entries[0].hits, 6);
}

#[test]
fn a_reloaded_list_is_the_list_that_was_saved() {
    let mut filter = IpFilter::new(true, false);
    let data = b"3.0.0.0 - 3.0.0.1 , 0 , c\n1.0.0.10 - 1.0.0.20 , 0 , a\n2.0.0.5 - 2.0.0.5 , 0 , b\n";
    assert_eq!(filter.load_from_file(data, "dat"), Some(3));
    let mut again = IpFilter::new(true, false);
    assert_eq!(again.load_from_file(&filter.canonical_dat_bytes(), "dat"), Some(3));
    let (a, b) = (filter.get_stats(), again.get_stats());
    assert_eq!(a.entries.len(), b.entries.len());
    for (x, y) in a.entries.iter().zip(b.entries.iter()) {
        assert_eq!(x.start_ip, y.start_ip);
        assert_eq!(x.end_ip, y.end_ip);
        assert_eq!(y.description, "Ember imported range");
    }
}

#[test]
fn white_space_is_what_unicode_says() {
    for n in 0..=0x10FFFFu32 {
        let Some(c) = char::from_u32(n) else {
            continue;
        };
        let listed = matches!(
            n,
            9..=13 | 0x20 | 0x85 | 0xA0 | 0x1680 | 0x2000..=0x200A | 0x2028 | 0x2029 | 0x202F
                | 0x205F | 0x3000
        );
        assert_eq!(trim(&c.to_string()).is_empty(), listed, "{n:x}");
    }
}
