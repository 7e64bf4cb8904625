//! Publishing shared files.
use digest::Digest;
use ember_net::kad::keywords::{
    choose_keywords, ember_rendezvous_key, extract_keywords, kad_id_to_md4_bytes, keyword_to_kad_id,
    md4_bytes_to_kad_id,
};
use ember_net::kad::messages::KadMessage;
use ember_net::kad::publish::{
    keyword_republish_interval, round_robin_next, PublishManager, PublishableFile, EMBER_CAP_RELAY_PUNCH_V1,
    EMBER_NOISE_PUB_TAG, KEYWORD_REPUBLISH_SAFETY_MARGIN_SECS, KEYWORD_TTL_SECS,
};
use ember_net::kad::tags::{TagName, TagValue};
use ember_net::kad::types::{KadId, TAG_BUDDYHASH};
use ember_net::key_map::KeyMap;

fn md4_of(data: &[u8]) -> Vec<u8> {
    md4::Md4::digest(data).to_vec()
}

fn sample_file() -> PublishableFile {
    PublishableFile {
        file_hash: KadId([0x42; 16]),
        file_name: "ember-test.bin".to_string(),
        file_size: 1024,
        file_type: "Pro".to_string(),
        complete_sources: 0,
        keyword_publishable: true,
        last_source_publish: 0,
    }
}

fn make_publisher(firewalled: bool) -> PublishManager {
    let mut p = PublishManager::new(KadId([0xAA; 16]), [0xBB; 16], 4662, 4672);
    p.firewalled = firewalled;
    p.direct_udp_callback = true;
    p
}

#[test]
fn ember_rendezvous_key_is_stable() {
    let expected = md4_bytes_to_kad_id(&md4_of(b"ember-dht-rendezvous-v1"));
    assert_eq!(ember_rendezvous_key(), expected);
    assert_eq!(ember_rendezvous_key(), ember_rendezvous_key());
}

#[test]
fn has_publishable_files_tracks_the_shared_set() {
    let mut p = make_publisher(false);
    assert!(!p.has_publishable_files());
    p.add_file(sample_file());
    assert!(p.has_publishable_files());
}

#[test]
fn rendezvous_advert_carries_the_noise_pubkey() {
    let mut publisher = make_publisher(false);
    publisher.noise_pub = [7u8; 32];
    let advert = PublishableFile {
        file_hash: ember_rendezvous_key(),
        file_name: String::new(),
        file_size: 0,
        file_type: String::new(),
        complete_sources: 0,
        keyword_publishable: false,
        last_source_publish: 0,
    };
    let tags = match publisher.build_source_publish(&advert).unwrap() {
        KadMessage::PublishSourceReq { tags, .. } => tags,
        _ => panic!("unexpected message type"),
    };
    let npub = tags
        .iter()
        .find(|t| matches!(&t.name, TagName::Str(s) if s == EMBER_NOISE_PUB_TAG))
        .expect("rendezvous advert must carry the Noise pubkey");
    match &npub.value {
        TagValue::Bsob(b) => assert_eq!(b.as_slice(), &[7u8; 32]),
        _ => panic!("ember_npub tag must be a Bsob"),
    }
}

#[test]
fn build_source_publish_includes_ember_capability_tag() {
    let publisher = make_publisher(false);
    let file = sample_file();
    let msg = publisher
        .build_source_publish(&file)
        .expect("HighID publish should not be skipped");
    let tags = match msg {
        KadMessage::PublishSourceReq { tags, .. } => tags,
        _ => panic!("unexpected message type from build_source_publish"),
    };

    let ember_tag = tags
        .iter()
        .find(|t| matches!(&t.name, TagName::Str(s) if s == "ember"))
        .expect("ember capability tag must be present in source publish");
    let value = match ember_tag.value {
        TagValue::Uint8(v) => v,
        _ => panic!("ember tag must be Uint8 (capability bitfield)"),
    };
    assert!(
        value & EMBER_CAP_RELAY_PUNCH_V1 != 0,
        "v1 relay+punch capability bit must be set, got {:#04x}",
        value,
    );
}

#[test]
fn build_source_publish_includes_noise_pubkey_blob() {
    let mut publisher = make_publisher(false);
    let mut npub = [0u8; 32];
    for (i, b) in npub.iter_mut().enumerate() {
        *b = i as u8 + 1;
    }
    publisher.noise_pub = npub;

    let msg = publisher
        .build_source_publish(&sample_file())
        .expect("HighID publish should not be skipped");
    let tags = match msg {
        KadMessage::PublishSourceReq { tags, .. } => tags,
        _ => panic!("unexpected message type"),
    };

    let npub_tag = tags
        .iter()
        .find(|t| matches!(&t.name, TagName::Str(s) if s == EMBER_NOISE_PUB_TAG))
        .expect("ember Noise pubkey tag must be present");
    let blob = match &npub_tag.value {
        TagValue::Bsob(b) => b,
        _ => panic!("ember_npub tag must be a Bsob"),
    };
    assert_eq!(blob.len(), 32, "Noise pubkey wire size");
    assert_eq!(blob.as_slice(), &npub);
}

#[test]
fn build_source_publish_skips_zero_noise_pubkey() {
    let publisher = make_publisher(false);
    let msg = publisher.build_source_publish(&sample_file()).unwrap();
    let tags = match msg {
        KadMessage::PublishSourceReq { tags, .. } => tags,
        _ => panic!("unexpected message type"),
    };
    assert!(
        !tags
            .iter()
            .any(|t| matches!(&t.name, TagName::Str(s) if s == EMBER_NOISE_PUB_TAG)),
        "all-zero Noise pubkey must not be published"
    );
}

#[test]
fn build_source_publish_firewalled_includes_ember_capability_tag() {
    let publisher = make_publisher(true);
    let file = sample_file();
    let msg = publisher
        .build_source_publish(&file)
        .expect("firewalled-with-direct-udp publish should not be skipped");
    let tags = match msg {
        KadMessage::PublishSourceReq { tags, .. } => tags,
        _ => panic!("unexpected message type from build_source_publish"),
    };
    assert!(
        tags.iter()
            .any(|t| matches!(&t.name, TagName::Str(s) if s == "ember")),
        "firewalled publish must still advertise ember capability — \
         the broker uses this to decide whether to attempt LowID-to-LowID",
    );
}

#[test]
fn buddyhash_tag_uses_uppercase_hex_like_emule_md4str() {
    let mut publisher = make_publisher(false);
    publisher.firewalled = true;
    publisher.direct_udp_callback = false;
    publisher.buddy_id = Some(KadId([0x11; 16]));
    publisher.buddy_ip = u32::from_be_bytes([10, 0, 0, 1]);
    publisher.buddy_port = 4662;

    let tags = match publisher.build_source_publish(&sample_file()).unwrap() {
        KadMessage::PublishSourceReq { tags, .. } => tags,
        _ => panic!("unexpected message"),
    };
    let buddyhash = tags
        .iter()
        .find(|t| matches!(&t.name, TagName::Id(TAG_BUDDYHASH)))
        .and_then(|t| match &t.value {
            TagValue::String(s) => Some(s.as_str()),
            _ => None,
        })
        .expect("TAG_BUDDYHASH required for buddy publish");
    assert!(
        buddyhash.chars().all(|c| !c.is_ascii_lowercase()),
        "buddy hash must be uppercase hex like eMule md4str, got {buddyhash}"
    );
    let mut expected = publisher.local_id.0;
    for b in &mut expected {
        *b ^= 0xFF;
    }
    assert_eq!(buddyhash, hex::encode_upper(expected));
}

#[test]
fn next_source_candidate_returns_none_when_not_due() {
    let mut p = make_publisher(false);
    let mut file = sample_file();
    file.last_source_publish = chrono::Utc::now().timestamp();
    p.add_file(file);
    assert!(
        p.next_source_candidate().is_none(),
        "freshly published file should not be due yet"
    );
}

#[test]
fn next_source_candidate_sweeps_all_files_before_repeating() {
    let mut p = make_publisher(false);
    let mut hashes: Vec<KadId> = Vec::new();
    for i in 0u8..5 {
        let mut file = sample_file();
        file.file_hash = KadId([i; 16]);
        file.file_name = format!("file-{i}.bin");
        file.last_source_publish = 0;
        hashes.push(file.file_hash);
        p.add_file(file);
    }

    let first_sweep: Vec<KadId> = (0..hashes.len())
        .map(|_| {
            p.next_source_candidate()
                .expect("all 5 files are due")
                .file_hash
        })
        .collect();
    let mut sorted_first = first_sweep.clone();
    sorted_first.sort_by_key(|h| h.to_u128());
    let mut sorted_expected = hashes.clone();
    sorted_expected.sort_by_key(|h| h.to_u128());
    assert_eq!(
        sorted_first, sorted_expected,
        "one full sweep must visit every file exactly once"
    );

    let second_sweep: Vec<KadId> = (0..hashes.len())
        .map(|_| {
            p.next_source_candidate()
                .expect("still due — mark_source_published was never called")
                .file_hash
        })
        .collect();
    assert_eq!(
        second_sweep, first_sweep,
        "the sweep order must repeat identically, like eMule's wrapping index"
    );
}

#[test]
fn next_keyword_candidate_returns_none_when_not_due() {
    let mut p = make_publisher(false);
    p.add_file(sample_file());
    let hashes: Vec<KadId> = p.keyword_records.keys();
    for h in &hashes {
        p.mark_keyword_published(h);
    }
    assert!(
        p.next_keyword_candidate().is_none(),
        "just-published keyword should not be due yet"
    );
}

#[test]
fn next_keyword_candidate_sweeps_all_keywords_before_repeating() {
    let mut p = make_publisher(false);
    let mut file = sample_file();
    file.file_name = "alpha bravo charlie.dat".to_string();
    p.add_file(file);
    let mut hashes: Vec<KadId> = p.keyword_records.keys();
    hashes.sort_by_key(|h| h.to_u128());
    assert_eq!(
        hashes.len(),
        3,
        "expected 3 distinct keywords from the sample filename"
    );

    let first_sweep: Vec<KadId> = (0..hashes.len())
        .map(|_| {
            p.next_keyword_candidate()
                .expect("all keywords are due")
                .keyword_hash
        })
        .collect();
    let mut sorted_first = first_sweep.clone();
    sorted_first.sort_by_key(|h| h.to_u128());
    assert_eq!(
        sorted_first, hashes,
        "one full sweep must visit every keyword exactly once"
    );

    let second_sweep: Vec<KadId> = (0..hashes.len())
        .map(|_| p.next_keyword_candidate().expect("still due").keyword_hash)
        .collect();
    assert_eq!(
        second_sweep, first_sweep,
        "sweep order must repeat identically"
    );
}

#[test]
fn keyword_republish_interval_never_exceeds_store_ttl_minus_margin() {
    let ceiling = KEYWORD_TTL_SECS - KEYWORD_REPUBLISH_SAFETY_MARGIN_SECS;
    for shift in 0..=10u32 {
        let interval = keyword_republish_interval(shift);
        assert!(
            interval <= ceiling,
            "shift {shift} produced interval {interval}s, exceeding the \
             {ceiling}s ceiling derived from KEYWORD_TTL_SECS"
        );
    }
    for shift in 0..10u32 {
        assert!(
            keyword_republish_interval(shift) <= keyword_republish_interval(shift + 1),
            "backoff interval must be monotonically non-decreasing with shift"
        );
    }
}

#[test]
fn retain_files_preserves_kept_keyword_timestamps_and_prunes_removed() {
    let mut p = PublishManager::new(KadId([0x01; 16]), [0x02; 16], 4662, 4672);
    let file_a = PublishableFile {
        file_hash: KadId([0xA1; 16]),
        file_name: "alpha bravo.dat".to_string(),
        file_size: 100,
        file_type: "Pro".to_string(),
        complete_sources: 0,
        keyword_publishable: true,
        last_source_publish: 0,
    };
    let file_b = PublishableFile {
        file_hash: KadId([0xB2; 16]),
        file_name: "delta echo.dat".to_string(),
        file_size: 200,
        file_type: "Pro".to_string(),
        complete_sources: 0,
        keyword_publishable: true,
        last_source_publish: 0,
    };
    p.add_file(file_a.clone());
    p.add_file(file_b.clone());

    let kw_hashes: Vec<KadId> = p.keyword_records.keys();
    for h in &kw_hashes {
        p.mark_keyword_published(h);
    }
    assert!(kw_hashes.iter().all(|h| p.keyword_records.get(h).unwrap().last_publish > 0));

    p.retain_files(&[file_a.file_hash]);

    assert_eq!(p.file_count(), 1, "only the kept file should remain");
    assert!(p.records.contains_key(&file_a.file_hash));
    assert!(!p.records.contains_key(&file_b.file_hash));

    for kw in ["alpha", "bravo"] {
        let kh = keyword_to_kad_id(kw);
        let rec = p
            .keyword_records
            .get(&kh)
            .unwrap_or_else(|| panic!("kept keyword '{kw}' must survive retain"));
        assert!(
            rec.last_publish > 0,
            "kept keyword '{kw}' lost its publish time on reconcile"
        );
    }
    for kw in ["delta", "echo"] {
        let kh = keyword_to_kad_id(kw);
        assert!(
            !p.keyword_records.contains_key(&kh),
            "orphan keyword '{kw}' must be pruned after retain"
        );
    }
}

#[test]
fn files_for_keyword_finds_matching_publishable_file() {
    let mut p = PublishManager::new(KadId([0x01; 16]), [0x02; 16], 4662, 4672);
    let matching = PublishableFile {
        file_hash: KadId([0xA1; 16]),
        file_name: "ubuntu server iso".to_string(),
        file_size: 100,
        file_type: "Iso".to_string(),
        complete_sources: 3,
        keyword_publishable: true,
        last_source_publish: 0,
    };
    let unrelated = PublishableFile {
        file_hash: KadId([0xB2; 16]),
        file_name: "totally different name".to_string(),
        file_size: 200,
        file_type: "Pro".to_string(),
        complete_sources: 0,
        keyword_publishable: true,
        last_source_publish: 0,
    };
    p.add_file(matching.clone());
    p.add_file(unrelated);

    let hits = p.files_for_keyword(&keyword_to_kad_id("ubuntu"));
    assert_eq!(hits.len(), 1, "only the matching file should be returned");
    assert_eq!(hits[0].file_hash, matching.file_hash);

    let misses = p.files_for_keyword(&keyword_to_kad_id("nonexistent"));
    assert!(
        misses.is_empty(),
        "an unpublished keyword must return no files"
    );
}

#[test]
fn files_for_keyword_excludes_non_publishable_files() {
    let mut p = PublishManager::new(KadId([0x01; 16]), [0x02; 16], 4662, 4672);
    p.add_file(PublishableFile {
        file_hash: KadId([0xC3; 16]),
        file_name: "partial download movie".to_string(),
        file_size: 500,
        file_type: "Video".to_string(),
        complete_sources: 0,
        keyword_publishable: false,
        last_source_publish: 0,
    });

    assert!(
        p.files_for_keyword(&keyword_to_kad_id("movie")).is_empty(),
        "a non-keyword-publishable file must not appear in keyword search"
    );
}

#[test]
fn files_for_keyword_reflects_rename_not_stale_old_name() {
    let mut p = PublishManager::new(KadId([0x01; 16]), [0x02; 16], 4662, 4672);
    let hash = KadId([0xD4; 16]);
    p.add_file(PublishableFile {
        file_hash: hash,
        file_name: "original name".to_string(),
        file_size: 10,
        file_type: "Pro".to_string(),
        complete_sources: 0,
        keyword_publishable: true,
        last_source_publish: 0,
    });
    assert_eq!(p.files_for_keyword(&keyword_to_kad_id("original")).len(), 1);

    p.add_file(PublishableFile {
        file_hash: hash,
        file_name: "renamed file".to_string(),
        file_size: 10,
        file_type: "Pro".to_string(),
        complete_sources: 0,
        keyword_publishable: true,
        last_source_publish: 0,
    });

    assert!(
        p.files_for_keyword(&keyword_to_kad_id("original"))
            .is_empty(),
        "the old keyword must no longer resolve to the renamed file"
    );
    assert_eq!(
        p.files_for_keyword(&keyword_to_kad_id("renamed")).len(),
        1,
        "the new keyword must resolve to the renamed file"
    );
}

#[test]
fn remove_file_prunes_keyword_index() {
    let mut p = PublishManager::new(KadId([0x01; 16]), [0x02; 16], 4662, 4672);
    let hash = KadId([0xE5; 16]);
    p.add_file(PublishableFile {
        file_hash: hash,
        file_name: "removable document".to_string(),
        file_size: 10,
        file_type: "Doc".to_string(),
        complete_sources: 0,
        keyword_publishable: true,
        last_source_publish: 0,
    });
    assert_eq!(
        p.files_for_keyword(&keyword_to_kad_id("removable")).len(),
        1
    );

    p.remove_file(&hash);

    assert!(p
        .files_for_keyword(&keyword_to_kad_id("removable"))
        .is_empty());
    assert!(
        !p.keyword_index
            .contains_key(&keyword_to_kad_id("removable")),
        "an empty keyword bucket must be dropped entirely, not left as an empty Vec/Set"
    );
}

#[test]
fn keywords_are_split_lowered_and_taken_once() {
    assert_eq!(
        extract_keywords("The.Quick-Brown (fox) THE quick.avi"),
        vec!["the", "quick", "brown", "fox"]
    );
    assert_eq!(extract_keywords("ab.mp3"), vec!["mp3"]);
    assert_eq!(extract_keywords("song.mp3"), vec!["song"]);
    assert_eq!(extract_keywords("song.flac"), vec!["song", "flac"]);
    assert!(extract_keywords("a b c").is_empty());
    assert_eq!(extract_keywords("\u{c9}T\u{c9} \u{65e5}"), vec!["\u{e9}t\u{e9}", "\u{65e5}"]);
}

#[test]
fn a_keyword_has_its_digest_as_identifier() {
    let id = keyword_to_kad_id("ABC");
    assert_eq!(
        id.0,
        [
            0x7a, 0x01, 0x48, 0xa4, 0x52, 0xd8, 0x21, 0xaf, 0xe8, 0x0a, 0xc1, 0x5f, 0x9d, 0x72,
            0xa6, 0x7a,
        ]
    );
    assert_eq!(kad_id_to_md4_bytes(&id).to_vec(), md4_of(b"abc"));
    assert_eq!(keyword_to_kad_id("abc"), id);
    assert_eq!(md4_bytes_to_kad_id(&[1, 2, 3, 4, 5]).0[..8], [4, 3, 2, 1, 0, 0, 0, 0]);
}

#[test]
fn a_popular_keyword_is_published_in_packets_of_fifty() {
    let mut p = make_publisher(false);
    let mut files = Vec::new();
    for i in 0..160u32 {
        let mut file = sample_file();
        let mut id = [0u8; 16];
        id[..4].copy_from_slice(&i.to_be_bytes());
        id[15] = 1;
        file.file_hash = KadId(id);
        file.file_name = "holiday".to_string();
        file.complete_sources = i;
        files.push(file);
    }
    p.add_files_batch(files);
    assert_eq!(p.file_count(), 160);
    assert_eq!(p.keywords_needing_publish_count_at(1_000_000), 1);
    let batch = p.next_keyword_candidate_at(1_000_000).unwrap();
    assert_eq!(batch.keyword, "holiday");
    assert_eq!(batch.file_hashes.len(), 150);
    assert_eq!(batch.file_hashes[149].0[..4], 149u32.to_be_bytes());
    assert_eq!(batch.messages.len(), 3);
    match &batch.messages[2] {
        KadMessage::PublishKeyReq { target, entries } => {
            assert_eq!(*target, keyword_to_kad_id("holiday"));
            assert_eq!(entries.len(), 50);
            assert_eq!(entries[49].id, batch.file_hashes[149]);
            assert_eq!(entries[49].tags.len(), 5);
            assert!(matches!(entries[49].tags[3].value, TagValue::Uint32(149)));
        }
        other => panic!("unexpected message: {other:?}"),
    }
    match &batch.messages[0] {
        KadMessage::PublishKeyReq { entries, .. } => {
            assert!(matches!(entries[0].tags[3].value, TagValue::Uint32(1)));
        }
        other => panic!("unexpected message: {other:?}"),
    }
}

#[test]
fn full_nodes_slow_a_keyword_down() {
    let mut p = make_publisher(false);
    let mut file = sample_file();
    file.file_name = "holiday".to_string();
    p.add_file(file);
    let k = keyword_to_kad_id("holiday");
    p.mark_keyword_published_at(&k, 1_000_000);
    assert_eq!(p.keywords_needing_publish_count_at(1_072_000), 0);
    assert_eq!(p.keywords_needing_publish_count_at(1_072_001), 1);
    p.record_keyword_publish_load(&k, 95);
    assert_eq!(p.keywords_needing_publish_count_at(1_079_200), 0);
    assert_eq!(p.keywords_needing_publish_count_at(1_079_201), 1);
    p.record_keyword_publish_load(&k, 70);
    assert_eq!(p.keywords_needing_publish_count_at(1_079_200), 0);
    p.record_keyword_publish_load(&k, 10);
    assert_eq!(p.keywords_needing_publish_count_at(1_072_001), 1);
    p.reset_keyword_publish(&KadId([0x42; 16]));
    assert_eq!(p.keywords_needing_publish_count_at(100_000), 1);
    assert_eq!(keyword_republish_interval(0), 72_000);
    assert_eq!(keyword_republish_interval(1), 79_200);
}

#[test]
fn sources_are_due_after_five_hours() {
    let mut p = make_publisher(false);
    let mut file = sample_file();
    file.last_source_publish = 1_000_000;
    p.add_file(file);
    assert!(p.files_needing_source_publish_at(1_018_000).is_empty());
    assert_eq!(p.files_needing_source_publish_at(1_018_001).len(), 1);
    assert_eq!(p.source_published_md4_hashes(), vec![[0x42; 16]]);
    p.reset_source_publish(&KadId([0x42; 16]));
    assert!(p.source_published_md4_hashes().is_empty());
    p.mark_source_published(&KadId([0x42; 16]));
    assert!(p.next_source_candidate().is_none());
    assert_eq!(p.source_published_md4_hashes().len(), 1);
}

#[test]
fn a_node_that_nobody_reaches_is_no_source() {
    let mut p = make_publisher(true);
    p.direct_udp_callback = false;
    assert!(p.build_source_publish(&sample_file()).is_none());
    p.firewalled = false;
    let mut large = sample_file();
    large.file_size = 1 << 32;
    for (file, kind) in [(sample_file(), 1u8), (large, 4u8)] {
        match p.build_source_publish(&file).unwrap() {
            KadMessage::PublishSourceReq { target, sender_id, tags } => {
                assert_eq!(target, KadId([0x42; 16]));
                assert_eq!(sender_id, KadId([0xBB; 16]));
                assert_eq!(tags.len(), 6);
                assert!(matches!(tags[2].value, TagValue::Uint8(k) if k == kind));
            }
            other => panic!("unexpected message: {other:?}"),
        }
    }
}

fn id_from(first: [u8; 4]) -> KadId {
    let mut id = [0u8; 16];
    id[..4].copy_from_slice(&first);
    id[15] = 1;
    KadId(id)
}

#[test]
fn files_of_a_keyword_go_by_the_value_of_their_hash() {
    let mut p = make_publisher(false);
    let low = id_from([1, 0, 0, 0]);
    let high = id_from([0, 0, 0, 1]);
    assert!(low.to_u128() < high.to_u128());
    for hash in [high, low] {
        let mut file = sample_file();
        file.file_hash = hash;
        file.file_name = "holiday".to_string();
        p.add_file(file);
    }
    let batch = p.next_keyword_candidate_at(1_000_000).unwrap();
    assert_eq!(batch.file_hashes, vec![low, high]);
    match &batch.messages[0] {
        KadMessage::PublishKeyReq { entries, .. } => {
            assert_eq!(entries[0].id, low);
            assert_eq!(entries[1].id, high);
        }
        other => panic!("unexpected message: {other:?}"),
    }
    assert_eq!(p.next_source_candidate().unwrap().file_hash, low);
    assert_eq!(p.next_source_candidate().unwrap().file_hash, high);
    assert_eq!(p.next_source_candidate().unwrap().file_hash, low);
}

#[test]
fn a_sweep_is_full_from_any_cursor() {
    let mut map: KeyMap<KadId, u8> = KeyMap::new();
    let mut nobody = Some(KadId([7; 16]));
    assert_eq!(round_robin_next(&map, &mut nobody), None);
    assert_eq!(nobody, None);
    let keys: Vec<KadId> = (1..=5u32).map(KadId::from_u32).collect();
    for k in &keys {
        map.insert(*k, 0);
    }
    let strangers = [None, Some(KadId::from_u32(0)), Some(KadId::from_u32(99))];
    let cursors = strangers.into_iter().chain(keys.iter().map(|k| Some(*k)));
    for start in cursors {
        let mut cursor = start;
        let mut seen: Vec<KadId> = Vec::new();
        for _ in 0..keys.len() {
            let k = round_robin_next(&map, &mut cursor).unwrap();
            assert_eq!(cursor, Some(k));
            seen.push(k);
        }
        assert_eq!(round_robin_next(&map, &mut cursor), Some(seen[0]));
        seen.sort_by_key(|k| k.to_u128());
        assert_eq!(seen, keys);
    }
    let mut cursor = Some(KadId::from_u32(3));
    assert_eq!(round_robin_next(&map, &mut cursor), Some(KadId::from_u32(4)));
    let mut cursor = Some(KadId::from_u32(99));
    assert_eq!(round_robin_next(&map, &mut cursor), Some(KadId::from_u32(1)));
}

#[test]
fn keywords_are_chosen_by_their_lower_case() {
    let pair = |a: &str, b: &str| (a.to_string(), b.to_string());
    let parts = [pair("One", "x"), pair("two", "y"), pair("ab", "z"), pair("TWO", "y")];
    assert_eq!(choose_keywords(&parts), vec!["x"]);
    let parts = [pair("One", "x"), pair("four", "y"), pair("TWO", "y")];
    assert_eq!(choose_keywords(&parts), vec!["x", "y"]);
    let parts = [pair("mp3", "mp3"), pair("ab", "ab")];
    assert_eq!(choose_keywords(&parts), vec!["mp3"]);
    assert!(choose_keywords(&[]).is_empty());
}

#[test]
fn identifiers_and_digests_give_each_other_back() {
    let digest: [u8; 16] = [0, 1, 2, 3, 4, 5, 6, 7, 8, 9, 10, 11, 12, 13, 14, 15];
    let id = md4_bytes_to_kad_id(&digest);
    assert_eq!(id.0, [3, 2, 1, 0, 7, 6, 5, 4, 11, 10, 9, 8, 15, 14, 13, 12]);
    assert_eq!(kad_id_to_md4_bytes(&id), digest);
    assert_eq!(md4_bytes_to_kad_id(&kad_id_to_md4_bytes(&KadId(digest))), KadId(digest));
}
