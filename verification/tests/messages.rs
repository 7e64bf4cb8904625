//! Search expressions, publish answers, and messages on the wire.
use ember_net::kad::messages::{
    build_search_expression, decode_packet, encode_packet, KadMessage, SearchConstraints,
    ED2K_SEARCH_OP_GREATER_EQUAL, ED2K_SEARCH_OP_LESS_EQUAL, FT_FILEFORMAT, KADEMLIA2_PUBLISH_RES,
    OP_KADEMLIAHEADER,
};
use ember_net::kad::types::{KadId, TAG_FILESIZE, TAG_FILETYPE};

fn kw(s: &str) -> Vec<String> {
    vec![s.to_string()]
}

fn string_leaf(s: &str) -> Vec<u8> {
    let mut v = vec![0x01];
    v.extend_from_slice(&(s.len() as u16).to_le_bytes());
    v.extend_from_slice(s.as_bytes());
    v
}

fn meta_string(value: &str, tag: u8) -> Vec<u8> {
    let mut v = vec![0x02];
    v.extend_from_slice(&(value.len() as u16).to_le_bytes());
    v.extend_from_slice(value.as_bytes());
    v.extend_from_slice(&1u16.to_le_bytes());
    v.push(tag);
    v
}

#[test]
fn empty_when_no_keywords_and_no_constraints() {
    assert!(build_search_expression(&[], &SearchConstraints::default()).is_empty());
}

#[test]
fn single_keyword_is_bare_string_leaf() {
    let out = build_search_expression(&kw("movie"), &SearchConstraints::default());
    assert_eq!(out, string_leaf("movie"));
}

#[test]
fn keyword_plus_filetype_matches_legacy_and_layout() {
    let out = build_search_expression(
        &kw("movie"),
        &SearchConstraints {
            file_type: Some("Video"),
            ..Default::default()
        },
    );
    let mut expected = vec![0x00, 0x00];
    expected.extend(string_leaf("movie"));
    expected.extend(meta_string("Video", TAG_FILETYPE));
    assert_eq!(out, expected);
}

#[test]
fn min_size_emits_u32_numeric_ge_filesize() {
    let out = build_search_expression(
        &kw("movie"),
        &SearchConstraints {
            min_size: Some(1024),
            ..Default::default()
        },
    );
    let mut expected = vec![0x00, 0x00];
    expected.extend(string_leaf("movie"));
    expected.push(0x03);
    expected.extend_from_slice(&1024u32.to_le_bytes());
    expected.push(ED2K_SEARCH_OP_GREATER_EQUAL);
    expected.extend_from_slice(&1u16.to_le_bytes());
    expected.push(TAG_FILESIZE);
    assert_eq!(out, expected);
}

#[test]
fn max_size_above_u32_uses_u64_numeric() {
    let big = (u32::MAX as u64) + 1;
    let out = build_search_expression(
        &kw("iso"),
        &SearchConstraints {
            max_size: Some(big),
            ..Default::default()
        },
    );
    let mut expected = vec![0x00, 0x00];
    expected.extend(string_leaf("iso"));
    expected.push(0x08);
    expected.extend_from_slice(&big.to_le_bytes());
    expected.push(ED2K_SEARCH_OP_LESS_EQUAL);
    expected.extend_from_slice(&1u16.to_le_bytes());
    expected.push(TAG_FILESIZE);
    assert_eq!(out, expected);
}

#[test]
fn extension_is_dot_stripped_fileformat_meta() {
    let out = build_search_expression(
        &kw("song"),
        &SearchConstraints {
            file_extension: Some(".mp3"),
            ..Default::default()
        },
    );
    let mut expected = vec![0x00, 0x00];
    expected.extend(string_leaf("song"));
    expected.extend(meta_string("mp3", FT_FILEFORMAT));
    assert_eq!(out, expected);
}

#[test]
fn zero_valued_numeric_constraints_are_omitted() {
    let out = build_search_expression(
        &kw("movie"),
        &SearchConstraints {
            min_size: Some(0),
            max_size: Some(0),
            min_availability: Some(0),
            file_extension: Some(""),
            file_type: Some(""),
        },
    );
    assert_eq!(out, string_leaf("movie"));
}

#[test]
fn constraints_only_no_keywords() {
    let out = build_search_expression(
        &[],
        &SearchConstraints {
            file_type: Some("Audio"),
            ..Default::default()
        },
    );
    assert_eq!(out, meta_string("Audio", TAG_FILETYPE));
}

#[test]
fn multiple_constraints_and_chain_is_parseable_length() {
    let out = build_search_expression(
        &[String::from("big"), String::from("movie")],
        &SearchConstraints {
            file_type: Some("Video"),
            min_size: Some(1_000_000),
            min_availability: Some(5),
            ..Default::default()
        },
    );
    let and_pairs = out.windows(2).filter(|w| w == b"\x00\x00").count();
    assert!(
        and_pairs >= 3,
        "expected at least 3 AND joints, got {and_pairs}"
    );
    assert!(!out.is_empty());
}

#[test]
fn encoded_publish_res_is_bare_target_load() {
    let msg = KadMessage::PublishRes {
        target: KadId([0x33; 16]),
        load: 42,
        request_ack: true,
    };
    let bytes = encode_packet(&msg).unwrap();
    assert_eq!(bytes.len(), 1 + 1 + 16 + 1);
    assert_eq!(bytes[0], OP_KADEMLIAHEADER);
    assert_eq!(bytes[1], KADEMLIA2_PUBLISH_RES);
}

#[test]
fn publish_res_without_options_byte_does_not_request_ack() {
    let msg = KadMessage::PublishRes {
        target: KadId([0x33; 16]),
        load: 42,
        request_ack: false,
    };
    let bytes = encode_packet(&msg).unwrap();
    match decode_packet(&bytes).unwrap() {
        KadMessage::PublishRes {
            target,
            load,
            request_ack,
        } => {
            assert_eq!(target, KadId([0x33; 16]));
            assert_eq!(load, 42);
            assert!(!request_ack, "no trailing options byte => no ack request");
        }
        other => panic!("unexpected message: {other:?}"),
    }
}

#[test]
fn publish_res_options_bit0_requests_ack() {
    let mut bytes = encode_packet(&KadMessage::PublishRes {
        target: KadId([0x44; 16]),
        load: 7,
        request_ack: false,
    })
    .unwrap();
    bytes.push(0x01);
    match decode_packet(&bytes).unwrap() {
        KadMessage::PublishRes { request_ack, .. } => {
            assert!(request_ack, "options bit0 must request an ack");
        }
        other => panic!("unexpected message: {other:?}"),
    }

    let mut bytes = encode_packet(&KadMessage::PublishRes {
        target: KadId([0x44; 16]),
        load: 7,
        request_ack: false,
    })
    .unwrap();
    bytes.push(0x02);
    match decode_packet(&bytes).unwrap() {
        KadMessage::PublishRes { request_ack, .. } => {
            assert!(!request_ack, "options without bit0 must not request an ack");
        }
        other => panic!("unexpected message: {other:?}"),
    }
}
