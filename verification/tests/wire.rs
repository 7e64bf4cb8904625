//! Packets, files and keys on the wire.
use ember_net::bytes::WireError;
use ember_net::kad::bootstrap::{
    default_bootstrap_contacts, is_short_load, load_nodes_dat, load_nodes_dat_with_format,
    save_nodes_dat, NodesDatError, NodesDatFormat,
};
use ember_net::kad::messages::{decode_packet, encode_packet, KadMessage};
use ember_net::kad::obfuscation::{
    client_marker_of, encrypt_client_ed2k_packet, encrypt_kad_packet, seal_kad_packet, try_decrypt_kad_packet,
    Rc4State,
};
use ember_net::kad::tags::{KadTag, TagName, TagValue};
use ember_net::kad::types::{KadContact, KadId};
use ember_net::net::Ipv4Addr;

#[test]
fn the_cipher_gives_known_bytes() {
    let mut rc4 = Rc4State::new(b"Key");
    let mut out = [0u8; 9];
    rc4.process(b"Plaintext", &mut out);
    assert_eq!(out, [0xBB, 0xF3, 0x16, 0xE8, 0xD9, 0x40, 0xAF, 0x0A, 0xD3]);
    let mut rc4 = Rc4State::new(b"Key");
    let mut tail = [0u8; 4];
    rc4.skip(5);
    rc4.process(b"text", &mut tail);
    assert_eq!(tail, [0x40, 0xAF, 0x0A, 0xD3]);
}

#[test]
fn a_sealed_packet_opens_for_its_receiver() {
    let node = KadId([0x21; 16]);
    let packet = [0xE4, 0x60, 1, 2, 3];
    for _ in 0..20 {
        let sealed = encrypt_kad_packet(&packet, &node, 0x1122_3344, 0);
        assert_ne!(&sealed[..packet.len()], &packet);
        let opened = try_decrypt_kad_packet(&sealed, &node, &[0; 16], 77, 0x0102_0304).unwrap();
        assert_eq!(opened.payload, packet);
        assert_eq!(opened.sender_udp_key.unwrap().key, 0x1122_3344);
        let other = KadId([0x22; 16]);
        assert!(try_decrypt_kad_packet(&sealed, &other, &[0; 16], 77, 0x0102_0304).is_none());
    }
    assert!(try_decrypt_kad_packet(&packet, &node, &[0; 16], 0, 0).is_none());
}

#[test]
fn a_packet_under_a_verify_key_opens_with_it() {
    let packet = [0xE4, 0x61, 9];
    let sealed = encrypt_kad_packet(&packet, &KadId::zero(), 5, 77);
    let opened = try_decrypt_kad_packet(&sealed, &KadId([1; 16]), &[2; 16], 77, 3).unwrap();
    assert_eq!(opened.payload, packet);
    assert!(opened.valid_receiver_key);
    assert!(try_decrypt_kad_packet(&sealed, &KadId([1; 16]), &[2; 16], 78, 3).is_none());
}

#[test]
fn sealing_depends_on_chance_alone_beyond_its_input() {
    let node = KadId([0x21; 16]);
    let a = seal_kad_packet(&[1, 2, 3], &node, 5, 0, 0x1234, &[], 0x08);
    let b = seal_kad_packet(&[1, 2, 3], &node, 5, 0, 0x1234, &[], 0x08);
    assert_eq!(a, b);
    let expected: [u8; 19] = [
        0x08, 0x34, 0x12, 0x16, 0xc9, 0x89, 0x22, 0x21, 0xb6, 0xe7, 0xad, 0xdc,
        0xa4, 0x7b, 0x13, 0x26, 0xb7, 0xdb, 0xf0,
    ];
    assert_eq!(a, expected);
    assert_eq!(a.len(), 3 + 4 + 1 + 8 + 3);
    let c = seal_kad_packet(&[1, 2, 3], &node, 5, 0, 0x1235, &[], 0x08);
    assert_ne!(a[3..], c[3..]);
}

#[test]
fn a_client_packet_hides_its_payload() {
    let sealed = encrypt_client_ed2k_packet(&[0xC5, 0x90, 1], &[7; 16], [1, 2, 3, 4]);
    assert_eq!(sealed.len(), 3 + 5 + 3);
    assert_eq!(sealed[0] % 2, 1);
}

#[test]
fn a_first_byte_between_clients_is_odd_and_no_header() {
    assert_eq!(client_marker_of(0), Some(0x01));
    assert_eq!(client_marker_of(1), Some(0x01));
    assert_eq!(client_marker_of(0x1234_564C), Some(0x4D));
    assert_eq!(client_marker_of(u32::MAX), Some(0xFF));
    assert_eq!(client_marker_of(0xE4), None);
    assert_eq!(client_marker_of(0xC5), None);
    for x in 0..1024u32 {
        match client_marker_of(x) {
            Some(b) => assert_eq!(b, (x & 0xFF) as u8 | 0x01),
            None => assert!([0xE3u8, 0xE5, 0xC5, 0xA3].contains(&((x & 0xFF) as u8 | 0x01))),
        }
    }
}

#[test]
fn packets_survive_the_wire() {
    let tags = vec![
        KadTag { name: TagName::Id(0x01), value: TagValue::String("na\u{ef}ve".to_string()) },
        KadTag { name: TagName::Str("ember".to_string()), value: TagValue::Uint8(1) },
        KadTag { name: TagName::Id(0x02), value: TagValue::Uint64(1 << 40) },
    ];
    let msg = KadMessage::PublishSourceReq {
        target: KadId([1; 16]),
        sender_id: KadId([2; 16]),
        tags,
    };
    let bytes = encode_packet(&msg).unwrap();
    match decode_packet(&bytes).unwrap() {
        KadMessage::PublishSourceReq { target, sender_id, tags } => {
            assert_eq!((target, sender_id), (KadId([1; 16]), KadId([2; 16])));
            assert_eq!(tags.len(), 3);
            assert!(matches!(&tags[0].value, TagValue::String(s) if s == "na\u{ef}ve"));
            assert!(matches!(&tags[1].name, TagName::Str(s) if s == "ember"));
            assert!(matches!(tags[2].value, TagValue::Uint64(0x100_0000_0000)));
        }
        other => panic!("unexpected message: {other:?}"),
    }
}

#[test]
fn long_packets_are_packed_and_unpacked() {
    let entries = vec![0x41u8; 4_000];
    let msg = KadMessage::SearchKeyReq {
        target: KadId([1; 16]),
        start_position: 0,
        search_terms: entries.clone(),
    };
    let bytes = encode_packet(&msg).unwrap();
    assert!(bytes.len() < 4_000);
    assert_eq!(bytes[0], 0xE5);
    match decode_packet(&bytes).unwrap() {
        KadMessage::SearchKeyReq { search_terms, .. } => assert_eq!(search_terms, entries),
        other => panic!("unexpected message: {other:?}"),
    }
}

#[test]
fn broken_packets_are_refused() {
    assert!(decode_packet(&[]).is_err());
    assert!(decode_packet(&[0xE4]).is_err());
    assert!(decode_packet(&[0x00, 0x60]).is_err());
    assert!(decode_packet(&[0xE5, 0x60, 1, 2, 3]).is_err());
    assert!(matches!(decode_packet(&[0xE4, 0x21, 1]), Err(WireError::UnexpectedEof)));
    assert!(matches!(decode_packet(&[0xE4, 0x60]), Ok(KadMessage::Ping)));
}

fn saved(n: u8) -> Vec<KadContact> {
    let mut v = default_bootstrap_contacts();
    v.truncate(n as usize);
    v
}

#[test]
fn the_built_in_contacts_are_distinct() {
    let v = default_bootstrap_contacts();
    assert_eq!(v.len(), 5);
    assert_eq!(v[0].ip, Ipv4Addr::new(212, 63, 206, 35));
    assert_eq!(v[4].ip, Ipv4Addr::new(95, 217, 44, 50));
    for (i, c) in v.iter().enumerate() {
        assert_eq!((c.udp_port, c.tcp_port), (4672, 4662));
        assert_eq!(c.id.0[0], i as u8 + 1);
    }
}

#[test]
fn a_contact_file_is_read_back() {
    let contacts = saved(3);
    let data = save_nodes_dat(&contacts).unwrap();
    assert_eq!(data.len(), 12 + 3 * 34);
    let loaded = load_nodes_dat_with_format(&data).unwrap();
    assert_eq!(loaded.format, NodesDatFormat::WithVerifiedBit);
    assert_eq!(loaded.expected, 3);
    assert_eq!(loaded.contacts.len(), 3);
    for (a, b) in loaded.contacts.iter().zip(&contacts) {
        assert_eq!((a.id, a.ip, a.udp_port), (b.id, b.ip, b.udp_port));
    }
    assert_eq!(load_nodes_dat(&data).unwrap().len(), 3);
    assert!(!is_short_load(3, 3));
    assert!(is_short_load(0, 10));
    assert!(matches!(load_nodes_dat(&[0, 0]), Err(NodesDatError::TooSmall)));
}
