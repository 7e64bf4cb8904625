//! What others read from what we publish, and when it is published.
use vstd::prelude::*;

use super::buddy::complement;
use super::keywords::{keywords_of, upper_hex};
use super::messages::{EntryView, MessageView};
use super::publish::{
    found_under, in_packets, keyword_entry, keyword_interval, lemma_packets_whole, next_turn,
    unpacked, FileView, PublishManager, PublishView,
};
use super::tags::{TagNameView, TagValueView, TagView};
use super::types::KadId;
use crate::rank::lemma_lowest;
use crate::set_map::set_at;

verus! {

// ---------------------------------------------------------------------------
// Tags
// ---------------------------------------------------------------------------
/// Whether exactly one tag has a name, and what its value is.
pub open spec fn tells(tags: Seq<TagView>, name: TagNameView, value: TagValueView) -> bool {
    exists|i: int|
        0 <= i < tags.len() && #[trigger] tags[i] == (TagView { name, value }) && forall|j: int|
            0 <= j < tags.len() && (#[trigger] tags[j]).name == name ==> j == i
}

/// Whether no tag has a name.
pub open spec fn silent(tags: Seq<TagView>, name: TagNameView) -> bool {
    forall|j: int| 0 <= j < tags.len() ==> (#[trigger] tags[j]).name != name
}

proof fn lemma_tells(tags: Seq<TagView>, i: int)
    requires
        0 <= i < tags.len(),
        forall|j: int| 0 <= j < tags.len() && j != i ==> (#[trigger] tags[j]).name != tags[i].name,
    ensures
        tells(tags, tags[i].name, tags[i].value),
{
    assert(tags[i] == (TagView { name: tags[i].name, value: tags[i].value }));
}

proof fn lemma_names_differ()
    ensures
        "ember"@ != "ember_npub"@,
{
    reveal_strlit("ember");
    reveal_strlit("ember_npub");
    assert("ember"@.len() == 5);
    assert("ember_npub"@.len() == 10);
}

/// Whoever finds us as a source of a file learns our TCP port, our UDP port, the
/// size of the file and our options, each once and under its own name.
pub proof fn lemma_source_told(m: PublishManager, size: u64)
    requires
        m.source_tags(size) is Some,
    ensures
        tells(m.source_tags(size)->Some_0, TagNameView::Id(0xFD), TagValueView::Uint16(m.tcp_port)),
        tells(m.source_tags(size)->Some_0, TagNameView::Id(0xFC), TagValueView::Uint16(m.udp_port)),
        tells(m.source_tags(size)->Some_0, TagNameView::Id(0x02), TagValueView::Uint64(size)),
        tells(
            m.source_tags(size)->Some_0,
            TagNameView::Id(0xF3),
            TagValueView::Uint8(m.connect_options),
        ),
        tells(m.source_tags(size)->Some_0, TagNameView::Str("ember"@), TagValueView::Uint8(1)),
{
    let t = m.source_tags(size)->Some_0;
    lemma_names_differ();
    let relayed = m.firewalled && !m.direct_udp_callback;
    let n = if relayed {
        6int
    } else {
        3
    };
    lemma_tells(t, 0);
    lemma_tells(t, 1);
    lemma_tells(t, n);
    lemma_tells(t, n + 1);
    lemma_tells(t, n + 2);
}

/// A source is published exactly where somebody can reach it: directly, by a
/// callback over UDP, or through a buddy. It tells which, and whether the file
/// is one of those that old clients cannot count.
pub proof fn lemma_source_reach(m: PublishManager, size: u64)
    ensures
        m.source_tags(size) is None <==> m.firewalled && !m.direct_udp_callback && m.buddy_id
            is None,
        m.source_tags(size) matches Some(t) ==> tells(
            t,
            TagNameView::Id(0xFF),
            TagValueView::Uint8(
                if !m.firewalled {
                    if size >= 0x1_0000_0000 {
                        4
                    } else {
                        1
                    }
                } else if m.direct_udp_callback {
                    6
                } else if size >= 0x1_0000_0000 {
                    5
                } else {
                    3
                },
            ),
        ),
{
    lemma_names_differ();
    if let Some(t) = m.source_tags(size) {
        lemma_tells(t, 2);
    }
}

/// A source that is reached through a buddy tells where the buddy is, and the
/// token that a callback has to carry. No other source does.
pub proof fn lemma_source_buddy(m: PublishManager, size: u64)
    requires
        m.source_tags(size) is Some,
    ensures
        m.firewalled && !m.direct_udp_callback ==> {
            &&& tells(
                m.source_tags(size)->Some_0,
                TagNameView::Id(0xFB),
                TagValueView::Uint32(m.buddy_ip),
            )
            &&& tells(
                m.source_tags(size)->Some_0,
                TagNameView::Id(0xFA),
                TagValueView::Uint16(m.buddy_port),
            )
            &&& tells(
                m.source_tags(size)->Some_0,
                TagNameView::Id(0xF8),
                TagValueView::String(upper_hex(complement(m.local_id).0@)),
            )
        },
        !m.firewalled || m.direct_udp_callback ==> {
            &&& silent(m.source_tags(size)->Some_0, TagNameView::Id(0xFB))
            &&& silent(m.source_tags(size)->Some_0, TagNameView::Id(0xFA))
            &&& silent(m.source_tags(size)->Some_0, TagNameView::Id(0xF8))
        },
{
    let t = m.source_tags(size)->Some_0;
    lemma_names_differ();
    if m.firewalled && !m.direct_udp_callback {
        lemma_tells(t, 3);
        lemma_tells(t, 4);
        lemma_tells(t, 5);
    }
}

/// A source tells its key in the overlay exactly if it has one.
pub proof fn lemma_source_key(m: PublishManager, size: u64)
    requires
        m.source_tags(size) is Some,
    ensures
        (exists|i: int| 0 <= i < 32 && m.noise_pub@[i] != 0) ==> tells(
            m.source_tags(size)->Some_0,
            TagNameView::Str("ember_npub"@),
            TagValueView::Bsob(m.noise_pub@),
        ),
        (forall|i: int| 0 <= i < 32 ==> m.noise_pub@[i] == 0) ==> silent(
            m.source_tags(size)->Some_0,
            TagNameView::Str("ember_npub"@),
        ),
{
    let t = m.source_tags(size)->Some_0;
    lemma_names_differ();
    if !super::publish::is_zero(m.noise_pub@) {
        lemma_tells(t, t.len() - 1);
    }
}

/// A file that is found by keyword tells its name, its size, its kind, and how
/// many sources it has: at least ourselves.
pub proof fn lemma_entry_told(file: FileView)
    ensures
        keyword_entry(file).id == file.hash,
        tells(keyword_entry(file).tags, TagNameView::Id(0x01), TagValueView::String(file.name)),
        tells(keyword_entry(file).tags, TagNameView::Id(0x02), TagValueView::Uint64(file.size)),
        tells(keyword_entry(file).tags, TagNameView::Id(0x03), TagValueView::String(file.file_type)),
        tells(
            keyword_entry(file).tags,
            TagNameView::Id(0x15),
            TagValueView::Uint32(
                if file.complete_sources == 0 {
                    1
                } else {
                    file.complete_sources
                },
            ),
        ),
        tells(
            keyword_entry(file).tags,
            TagNameView::Id(0x30),
            TagValueView::Uint32(
                if file.complete_sources == 0 {
                    1
                } else {
                    file.complete_sources
                },
            ),
        ),
{
    let t = keyword_entry(file).tags;
    lemma_tells(t, 0);
    lemma_tells(t, 1);
    lemma_tells(t, 2);
    lemma_tells(t, 3);
    lemma_tells(t, 4);
}

// ---------------------------------------------------------------------------
// Batches
// ---------------------------------------------------------------------------
/// A keyword is published with the files that are found under it: those with the
/// lowest hashes, up to 150 of them, in ascending order, each once. It is not
/// published where there is none.
pub proof fn lemma_batch_files(v: PublishView, k: KadId)
    requires
        v.wf(),
    ensures
        v.batch(k) is None <==> forall|h: KadId| !found_under(v.files, h, k),
        v.batch(k) matches Some(b) ==> {
            &&& b.keyword_hash == k
            &&& 0 < b.file_hashes.len() <= 150
            &&& forall|i: int|
                0 <= i < b.file_hashes.len() ==> found_under(v.files, #[trigger] b.file_hashes[i], k)
            &&& forall|i: int, j: int|
                #![trigger b.file_hashes[i], b.file_hashes[j]]
                0 <= i < j < b.file_hashes.len() ==> b.file_hashes[i].val() < b.file_hashes[j].val()
            &&& forall|h: KadId|
                #[trigger] found_under(v.files, h, k) && !b.file_hashes.contains(h)
                    ==> b.file_hashes.len() == 150 && b.file_hashes.last().val() < h.val()
        },
{
    let s = set_at(v.index, k);
    if v.index.contains_key(k) {
        assert(s.subset_of(v.files.dom())) by {
            assert forall|h: KadId| s.contains(h) implies v.files.dom().contains(h) by {
                assert(found_under(v.files, h, k));
            }
        }
        vstd::set_lib::lemma_len_subset(s, v.files.dom());
        let h = choose|h: KadId| found_under(v.files, h, k);
        assert(s.contains(h));
        assert(s.len() > 0) by {
            if s.len() == 0 {
                assert(s =~= Set::empty());
            }
        }
        lemma_lowest(s, 150);
        let b = v.batch(k)->Some_0;
        assert forall|i: int| 0 <= i < b.file_hashes.len() implies found_under(
            v.files,
            #[trigger] b.file_hashes[i],
            k,
        ) by {
            assert(s.contains(b.file_hashes[i]));
        }
        assert forall|h: KadId|
            #[trigger] found_under(v.files, h, k) && !b.file_hashes.contains(h) implies
            b.file_hashes.len() == 150 && b.file_hashes.last().val() < h.val() by {
            assert(s.contains(h));
        }
    }
}

/// The packets of a batch carry its files in order and complete: fifty in each,
/// and what is left in the last, all for the same keyword.
pub proof fn lemma_packets_carry_all(target: KadId, entries: Seq<EntryView>)
    ensures
        unpacked(in_packets(target, entries)) == entries,
        in_packets(target, entries).len() == (entries.len() + 49) / 50,
        forall|i: int|
            0 <= i < in_packets(target, entries).len() ==> (#[trigger] in_packets(
                target,
                entries,
            )[i] matches MessageView::PublishKeyReq { target: t, entries: es } && t == target
                && es.len() == (if i + 1 < in_packets(target, entries).len() {
                50
            } else {
                entries.len() - 50 * i
            })),
    decreases entries.len(),
{
    let ms = in_packets(target, entries);
    lemma_packets_whole(target, entries);
    if entries.len() > 50 {
        let rest = entries.skip(50);
        lemma_packets_carry_all(target, rest);
        assert(ms.skip(1) =~= in_packets(target, rest));
        assert forall|i: int| 0 <= i < ms.len() implies (#[trigger] ms[i]
            matches MessageView::PublishKeyReq { target: t, entries: es } && t == target && es.len()
            == (if i + 1 < ms.len() {
            50
        } else {
            entries.len() - 50 * i
        })) by {
            if i > 0 {
                assert(ms[i] == in_packets(target, rest)[i - 1]);
            }
        }
    }
}

/// The packets of a batch hold the entries of its files, in the order of its files.
pub proof fn lemma_batch_entries(v: PublishView, k: KadId)
    requires
        v.wf(),
        v.batch(k) is Some,
    ensures
        ({
            let b = v.batch(k)->Some_0;
            let es = unpacked(b.messages);
            &&& es.len() == b.file_hashes.len()
            &&& forall|i: int|
                0 <= i < es.len() ==> (#[trigger] es[i]).id == b.file_hashes[i] && es[i]
                    == keyword_entry(v.files[b.file_hashes[i]].file)
        }),
{
    let b = v.batch(k)->Some_0;
    let es = v.batch_files(k).map_values(|h: KadId| keyword_entry(v.files[h].file));
    lemma_packets_carry_all(k, es);
    lemma_batch_files(v, k);
    assert forall|i: int| 0 <= i < es.len() implies (#[trigger] es[i]).id == b.file_hashes[i]
        && es[i] == keyword_entry(v.files[b.file_hashes[i]].file) by {
        assert(found_under(v.files, b.file_hashes[i], k));
    }
}

// ---------------------------------------------------------------------------
// Times
// ---------------------------------------------------------------------------
/// A keyword is published again after twenty hours; where nodes are full, after
/// twenty-two, so that its entries never lapse.
pub proof fn lemma_intervals(shift: u32)
    ensures
        keyword_interval(0) == 72000,
        shift > 0 ==> keyword_interval(shift) == 79200,
{
    reveal_with_fuel(super::publish::doubled, 6);
}

/// A source is due more than five hours after it was last published, and a
/// keyword once its interval is over. Times that have not come yet are not over.
pub proof fn lemma_due(v: PublishView, h: KadId, k: KadId, now: i64)
    requires
        0 <= now,
    ensures
        v.files.contains_key(h) && 0 <= v.files[h].last_source_publish ==> (v.source_due(h, now)
            <==> now - v.files[h].last_source_publish > 18000),
        !v.files.contains_key(h) ==> !v.source_due(h, now),
        v.keywords.contains_key(k) && 0 <= v.keywords[k].last_publish ==> (v.keyword_late(k, now)
            <==> now - v.keywords[k].last_publish > (if v.keywords[k].backoff_shift == 0 {
            72000
        } else {
            79200int
        })),
        !v.keywords.contains_key(k) ==> !v.keyword_late(k, now),
{
    lemma_intervals(v.keywords[k].backoff_shift);
}

/// A node that is nearly full slows one keyword down, one with room sets its pace
/// back, and one in between changes nothing. No other keyword notices.
pub proof fn lemma_load(v: PublishView, k: KadId, load: u8)
    requires
        v.wf(),
        v.keywords.contains_key(k),
    ensures
        ({
            let u = v.load_noted(k, load);
            let (a, b) = (v.keywords[k].backoff_shift, u.keywords[k].backoff_shift);
            &&& u.keywords.contains_key(k)
            &&& load >= 90 ==> b == (if a < 4 {
                a + 1
            } else {
                4
            })
            &&& load < 50 ==> b == 0
            &&& 50 <= load < 90 ==> b == a
            &&& u.keywords[k].last_publish == v.keywords[k].last_publish
            &&& u.keywords[k].keyword == v.keywords[k].keyword
            &&& u.keywords.dom() == v.keywords.dom()
            &&& forall|j: KadId| j != k && v.keywords.contains_key(j) ==> #[trigger] u.keywords[j]
                == v.keywords[j]
            &&& u.files == v.files
        }),
{
    let u = v.load_noted(k, load);
    assert(u.keywords.dom() =~= v.keywords.dom());
}

/// A keyword that was published has its time set to now, and nothing else is.
pub proof fn lemma_published(v: PublishView, k: KadId, now: i64)
    requires
        v.keywords.contains_key(k),
    ensures
        ({
            let u = v.keyword_published(k, now);
            &&& u.keywords[k].last_publish == now
            &&& u.keywords[k].backoff_shift == v.keywords[k].backoff_shift
            &&& u.keywords.dom() == v.keywords.dom()
            &&& forall|j: KadId| j != k && v.keywords.contains_key(j) ==> #[trigger] u.keywords[j]
                == v.keywords[j]
            &&& u.files == v.files
        }),
{
    assert(v.keyword_published(k, now).keywords.dom() =~= v.keywords.dom());
}

/// A file that was registered is there as it was given, and stays so until it is
/// registered again or taken out. A source that was published keeps its time.
pub proof fn lemma_registered(v: PublishView, file: FileView, h: KadId)
    ensures
        ({
            let u = v.with_file(file);
            &&& u.files.contains_key(file.hash) && u.files[file.hash].file == file
            &&& h != file.hash ==> (u.files.contains_key(h) <==> v.files.contains_key(h))
            &&& h != file.hash && v.files.contains_key(h) ==> u.files[h] == v.files[h]
            &&& !v.files.contains_key(file.hash) ==> u.files[file.hash].last_source_publish
                == file.last_source_publish
            &&& v.files.contains_key(file.hash) ==> u.files[file.hash].last_source_publish
                >= v.files[file.hash].last_source_publish
        }),
        !v.without_file(h).files.contains_key(h),
        h != file.hash && v.files.contains_key(file.hash) ==> v.without_file(h).files.contains_key(
            file.hash,
        ) && v.without_file(h).files[file.hash] == v.files[file.hash],
{
}

/// Files take turns: whose turn it is comes next in order, and is published if its time
/// has come. Nothing but the turn changes.
pub proof fn lemma_source_turn(v: PublishView, now: i64, h: KadId)
    requires
        next_turn(v.files.dom(), v.source_cursor) == Some(h),
    ensures
        v.after_source_turn(now).0.source_cursor == Some(h),
        v.after_source_turn(now).0.files == v.files,
        v.after_source_turn(now).0.keywords == v.keywords,
        v.source_due(h, now) ==> v.after_source_turn(now).1 == Some(v.files[h].file),
        !v.source_due(h, now) ==> v.after_source_turn(now).1 is None,
{
}

/// A keyword takes its turn likewise, and is published with the files under it.
pub proof fn lemma_keyword_turn(v: PublishView, now: i64, k: KadId)
    requires
        next_turn(v.keywords.dom(), v.keyword_cursor) == Some(k),
    ensures
        v.after_keyword_turn(now).0.keyword_cursor == Some(k),
        v.after_keyword_turn(now).0.files == v.files,
        v.after_keyword_turn(now).0.keywords == v.keywords,
        v.keyword_late(k, now) ==> v.after_keyword_turn(now).1 == v.batch(k),
        !v.keyword_late(k, now) ==> v.after_keyword_turn(now).1 is None,
        v.batch(k) matches Some(b) ==> b.keyword_hash == k && b.keyword == v.keywords[k].keyword,
{
}

/// A file that was published at a time has that as its last time; no other file changes.
pub proof fn lemma_source_noted(v: PublishView, h: KadId, at: i64, j: KadId)
    requires
        v.files.contains_key(h),
    ensures
        v.source_set(h, at).files[h].last_source_publish == at,
        v.source_set(h, at).files[h].file == v.files[h].file,
        j != h ==> (v.source_set(h, at).files.contains_key(j) <==> v.files.contains_key(j))
            && v.source_set(h, at).files[j] == v.files[j],
        v.source_set(h, at).keywords == v.keywords,
{
}

/// Keywords that are reset are as if they had never been published, and no others are.
pub proof fn lemma_keywords_reset(v: PublishView, ids: Seq<KadId>, k: KadId)
    requires
        v.keywords.contains_key(k),
    ensures
        v.keywords_reset(ids).keywords.contains_key(k),
        ids.contains(k) ==> v.keywords_reset(ids).keywords[k].last_publish == 0
            && v.keywords_reset(ids).keywords[k].backoff_shift == 0,
        !ids.contains(k) ==> v.keywords_reset(ids).keywords[k] == v.keywords[k],
        v.keywords_reset(ids).keywords[k].keyword == v.keywords[k].keyword,
        v.keywords_reset(ids).files == v.files,
    decreases ids.len(),
{
    if ids.len() > 0 {
        let f = ids.drop_last();
        lemma_keywords_reset(v, f, k);
        if ids.contains(k) && ids.last() != k {
            let i = choose|i: int| 0 <= i < ids.len() && ids[i] == k;
            assert(f[i] == k);
        }
        if f.contains(k) {
            let i = choose|i: int| 0 <= i < f.len() && f[i] == k;
            assert(ids[i] == k);
        }
        assert(ids[ids.len() - 1] == ids.last());
    }
}

/// Of the files only those of a list are kept, as they are, and of the keywords only
/// those that a file which is kept, and is found by its name, still has.
pub proof fn lemma_only_listed(v: PublishView, keep: Set<KadId>, h: KadId, k: KadId)
    ensures
        v.only(keep).files.contains_key(h) <==> v.files.contains_key(h) && keep.contains(h),
        v.only(keep).files.contains_key(h) ==> v.only(keep).files[h] == v.files[h],
        v.only(keep).keywords.contains_key(k) ==> v.keywords.contains_key(k)
            && v.only(keep).keywords[k] == v.keywords[k],
        v.files.contains_key(h) && keep.contains(h) && v.files[h].file.keyword_publishable
            && v.keywords.contains_key(k) && keywords_of(v.files[h].file.name).contains(
            v.keywords[k].keyword,
        ) ==> v.only(keep).keywords.contains_key(k),
{
    let files = v.files.restrict(keep);
    if v.files.contains_key(h) && keep.contains(h) {
        assert(files.contains_key(h));
    }
}

/// A file that is registered again keeps the later of the two times of its publishing.
pub proof fn lemma_later_time(v: PublishView, file: FileView)
    requires
        v.files.contains_key(file.hash),
        v.files[file.hash].last_source_publish >= 0,
    ensures
        ({
            let (a, b) = (v.files[file.hash].last_source_publish, file.last_source_publish);
            v.with_file(file).files[file.hash].last_source_publish == if b > a {
                b
            } else {
                a
            }
        }),
{
}

} // verus!
