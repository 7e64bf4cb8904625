//! What the bytes of a packet mean, place by place.
use vstd::prelude::*;
use vstd::utf8::*;

use super::bootstrap_laws::{lemma_contact_read, stranger, word16, word32};
use super::messages::{
    and_chain, bare_extension, contact_reader, dec_bootstrap_contacts, dec_entry, dec_message,
    dec_packet, enc_body, enc_packet, entry_reader, keyword_tree, meta_string, numeric_leaf,
    search_operands, string_leaf, MessageView, SearchConstraints,
};
use super::tags::{dec_tag, dec_tag_list, dec_tag_value, TagNameView, TagValueView, TagView};
use super::types::{dec_id, lemma_16_exists, KadContact, KadId};
use crate::bytes::{dec_many, from_le16, from_le32, from_le64, le16, le32, WireError};
use crate::text::text_of;

verus! {

// ---------------------------------------------------------------------------
// Fields
// ---------------------------------------------------------------------------
/// Eight bytes as a number, the low one first.
pub open spec fn word64(s: Seq<u8>, i: int) -> int {
    word32(s, i) + 0x1_0000_0000 * word32(s, i + 4)
}

/// The identifier whose bytes stand at a place.
pub open spec fn id_at(s: Seq<u8>, i: int, id: KadId) -> bool {
    0 <= i && i + 16 <= s.len() && id.0@ == s.subrange(i, i + 16)
}

proof fn lemma_id_read(s: Seq<u8>)
    ensures
        s.len() < 16 ==> dec_id(s) == Err::<(KadId, Seq<u8>), WireError>(WireError::UnexpectedEof),
        s.len() >= 16 ==> (dec_id(s) matches Ok((id, rest)) && id.0@ == s.take(16) && rest
            == s.skip(16)),
{
    if s.len() >= 16 {
        lemma_16_exists(s.take(16));
    }
}

proof fn lemma_words_read(s: Seq<u8>)
    ensures
        s.len() >= 2 ==> from_le16(s) == word16(s, 0),
        s.len() >= 4 ==> from_le32(s) == word32(s, 0),
        s.len() >= 8 ==> from_le64(s) == word64(s, 0),
{
    if s.len() >= 4 {
        let t = s.skip(2);
        assert(t[0] == s[2] && t[1] == s[3]);
        if s.len() >= 8 {
            let u = s.skip(4);
            assert(u[0] == s[4] && u[1] == s[5]);
            assert(u.skip(2)[0] == s[6] && u.skip(2)[1] == s[7]);
        }
    }
}

/// A number read behind some bytes is the number that stands there.
proof fn lemma_words_at(s: Seq<u8>, i: int)
    requires
        0 <= i <= s.len(),
    ensures
        s.len() >= i + 2 ==> from_le16(s.skip(i)) == word16(s, i),
        s.len() >= i + 4 ==> from_le32(s.skip(i)) == word32(s, i),
        s.len() >= i + 8 ==> from_le64(s.skip(i)) == word64(s, i),
{
    let t = s.skip(i);
    lemma_words_read(t);
    assert forall|k: int| 0 <= k < t.len() implies t[k] == s[i + k] by {}
}

/// The contact whose record stands at a place: 16 bytes of identifier, four of
/// address, two of UDP port, two of TCP port, one of version. Nothing else is
/// known of it.
pub open spec fn contact_at(s: Seq<u8>, i: int, c: KadContact) -> bool {
    &&& c == stranger(c.id, c.ip, c.udp_port, c.tcp_port, c.version)
    &&& id_at(s, i, c.id)
    &&& c.ip.bits == word32(s, i + 16)
    &&& c.udp_port == word16(s, i + 20)
    &&& c.tcp_port == word16(s, i + 22)
    &&& c.version == s[i + 24]
}

/// Contacts whose records follow each other.
pub open spec fn contacts_at(s: Seq<u8>, i: int, cs: Seq<KadContact>) -> bool {
    &&& i + 25 * cs.len() <= s.len()
    &&& forall|k: int| 0 <= k < cs.len() ==> contact_at(s, i + 25 * k, #[trigger] cs[k])
}

proof fn lemma_contacts_read(n: nat, s: Seq<u8>)
    ensures
        s.len() >= 25 * n ==> (dec_many(contact_reader(), n, s) matches Ok((cs, rest)) && cs.len()
            == n && contacts_at(s, 0, cs) && rest == s.skip(25 * n as int)),
        s.len() < 25 * n ==> dec_many(contact_reader(), n, s) is Err,
    decreases n,
{
    let p = contact_reader();
    if n == 0 {
        assert(s.skip(0) =~= s);
    } else {
        let m = (n - 1) as nat;
        lemma_contacts_read(m, s);
        if s.len() >= 25 * m {
            let (cs, rest) = dec_many(p, m, s)->Ok_0;
            lemma_contact_read(rest);
            if rest.len() >= 25 {
                let (c, end) = p(rest)->Ok_0;
                assert(rest.take(16) =~= s.subrange(25 * m as int, 25 * m as int + 16));
                assert forall|k: int| 0 <= k < rest.len() implies rest[k] == s[25 * m + k] by {}
                assert(contact_at(s, 25 * m as int, c));
                assert(end =~= s.skip(25 * n as int));
                let all = cs.push(c);
                assert forall|k: int| 0 <= k < all.len() implies contact_at(
                    s,
                    0 + 25 * k,
                    #[trigger] all[k],
                ) by {
                    if k < m {
                        assert(all[k] == cs[k]);
                    }
                }
            }
        }
    }
}

proof fn lemma_contacts_behind(n: nat, s: Seq<u8>, i: int)
    requires
        0 <= i <= s.len(),
    ensures
        s.len() >= i + 25 * n ==> (dec_many(contact_reader(), n, s.skip(i)) matches Ok((cs, _))
            && cs.len() == n && contacts_at(s, i, cs)),
        s.len() < i + 25 * n ==> dec_many(contact_reader(), n, s.skip(i)) is Err,
{
    let t = s.skip(i);
    lemma_contacts_read(n, t);
    if t.len() >= 25 * n {
        let cs = dec_many(contact_reader(), n, t)->Ok_0.0;
        assert forall|k: int| 0 <= k < cs.len() implies contact_at(s, i + 25 * k, #[trigger] cs[k]) by {
            let c = cs[k];
            assert(contact_at(t, 0 + 25 * k, c));
            assert(25 * k + 25 <= 25 * n);
            assert(t.subrange(25 * k, 25 * k + 16) =~= s.subrange(i + 25 * k, i + 25 * k + 16));
            assert forall|j: int| 0 <= j < t.len() implies t[j] == s[i + j] by {}
        }
    }
}

// ---------------------------------------------------------------------------
// Messages of a fixed shape
// ---------------------------------------------------------------------------
/// Messages without a body.
pub proof fn lemma_bare_messages(s: Seq<u8>)
    ensures
        dec_message(0x01, s) == Ok::<MessageView, WireError>(MessageView::BootstrapReq),
        dec_message(0x00, s) == Ok::<MessageView, WireError>(MessageView::BootstrapReq),
        dec_message(0x4C, s) == Ok::<MessageView, WireError>(MessageView::PublishResAck),
        dec_message(0x60, s) == Ok::<MessageView, WireError>(MessageView::Ping),
        dec_message(0x59, s) == Ok::<MessageView, WireError>(MessageView::FirewalledAckRes),
{
}

/// A request for contacts: one byte of purpose, the identifier looked for, and
/// that of the receiver.
pub proof fn lemma_contact_request(s: Seq<u8>)
    ensures
        s.len() < 33 ==> dec_message(0x21, s) is Err,
        s.len() >= 33 ==> (dec_message(0x21, s) matches Ok(
            MessageView::KadReq { search_type, target, receiver },
        ) && search_type == s[0] && id_at(s, 1, target) && id_at(s, 17, receiver)),
{
    if s.len() >= 1 {
        let a = s.skip(1);
        lemma_id_read(a);
        if a.len() >= 16 {
            let b = a.skip(16);
            lemma_id_read(b);
            assert(a.take(16) =~= s.subrange(1, 17));
            if b.len() >= 16 {
                assert(b.take(16) =~= s.subrange(17, 33));
            }
        }
    }
}

/// Searches: the target, and behind it the start position and what is looked
/// for. A keyword search announces its terms with the highest bit of the start;
/// for sources all must be there, for notes the size may be missing.
#[verifier::rlimit(40)]
pub proof fn lemma_search_requests(s: Seq<u8>)
    ensures
        s.len() < 16 ==> dec_message(0x33, s) is Err,
        s.len() >= 16 ==> (dec_message(0x33, s) matches Ok(
            MessageView::SearchKeyReq { target, start_position, search_terms },
        ) && id_at(s, 0, target) && {
            if s.len() < 18 {
                start_position == 0 && search_terms.len() == 0
            } else if word16(s, 16) < 0x8000 {
                start_position == word16(s, 16) && search_terms.len() == 0
            } else {
                start_position == word16(s, 16) - 0x8000 && search_terms == s.skip(18)
            }
        }),
        s.len() < 26 ==> dec_message(0x34, s) is Err,
        s.len() >= 26 ==> (dec_message(0x34, s) matches Ok(
            MessageView::SearchSourceReq { target, start_position, file_size },
        ) && id_at(s, 0, target) && start_position == word16(s, 16) && file_size == word64(s, 18)),
        s.len() < 16 ==> dec_message(0x35, s) is Err,
        s.len() >= 16 ==> (dec_message(0x35, s) matches Ok(
            MessageView::SearchNotesReq { target, file_size },
        ) && id_at(s, 0, target) && file_size == if s.len() < 24 {
            0
        } else {
            word64(s, 16)
        }),
{
    lemma_id_read(s);
    if s.len() >= 16 {
        let a = s.skip(16);
        assert(s.take(16) =~= s.subrange(0, 16));
        lemma_words_at(s, 16);
        if a.len() >= 2 {
            assert(a.skip(2) =~= s.skip(18));
            lemma_words_at(s, 18);
        }
    }
}

/// The answer to a publish: the target, the load, and perhaps a byte whose
/// lowest bit asks for an acknowledgement.
pub proof fn lemma_publish_answer(s: Seq<u8>)
    ensures
        s.len() < 17 ==> dec_message(0x4B, s) is Err,
        s.len() >= 17 ==> (dec_message(0x4B, s) matches Ok(
            MessageView::PublishRes { target, load, request_ack },
        ) && id_at(s, 0, target) && load == s[16] && request_ack == (s.len() >= 18 && s[17] % 2
            == 1)),
{
    lemma_id_read(s);
    if s.len() >= 16 {
        let a = s.skip(16);
        assert(s.take(16) =~= s.subrange(0, 16));
        if a.len() >= 1 {
            let b = a.skip(1);
            assert(a[0] == s[16]);
            if b.len() >= 1 {
                assert(b[0] == s[17]);
            }
        }
    }
}

/// What nodes tell each other about firewalls.
pub proof fn lemma_firewall_messages(s: Seq<u8>)
    ensures
        dec_message(0x61, s) == Ok::<MessageView, WireError>(
            MessageView::Pong {
                udp_port: if s.len() < 2 {
                    0
                } else {
                    word16(s, 0) as u16
                },
            },
        ),
        s.len() < 2 ==> dec_message(0x50, s) is Err,
        s.len() >= 2 ==> (dec_message(0x50, s) matches Ok(
            MessageView::FirewalledReq { tcp_port },
        ) && tcp_port == word16(s, 0)),
        s.len() < 19 ==> dec_message(0x53, s) is Err,
        s.len() >= 19 ==> (dec_message(0x53, s) matches Ok(
            MessageView::Firewalled2Req { tcp_port, user_hash, connect_options },
        ) && tcp_port == word16(s, 0) && user_hash@ == s.subrange(2, 18) && connect_options
            == s[18]),
        s.len() < 4 ==> dec_message(0x58, s) is Err,
        s.len() >= 4 ==> (dec_message(0x58, s) matches Ok(
            MessageView::FirewalledRes { ip },
        ) && ip == word32(s, 0)),
        s.len() < 3 ==> dec_message(0x62, s) is Err,
        s.len() >= 3 ==> (dec_message(0x62, s) matches Ok(
            MessageView::FirewallUdp { error_code, udp_port },
        ) && error_code == s[0] && udp_port == word16(s, 1)),
{
    lemma_words_read(s);
    if s.len() >= 1 {
        lemma_words_at(s, 1);
    }
    if s.len() >= 2 {
        let a = s.skip(2);
        lemma_id_read(a);
        if a.len() >= 16 {
            assert(a.take(16) =~= s.subrange(2, 18));
            let b = a.skip(16);
            if b.len() >= 1 {
                assert(b[0] == s[18]);
            }
        }
    }
}

/// What nodes tell each other about buddies: two identifiers and a TCP port, and
/// in an answer perhaps the options for connecting.
pub proof fn lemma_buddy_messages(s: Seq<u8>)
    ensures
        s.len() < 34 ==> dec_message(0x51, s) is Err && dec_message(0x5A, s) is Err && dec_message(
            0x52,
            s,
        ) is Err,
        s.len() >= 34 ==> (dec_message(0x51, s) matches Ok(
            MessageView::FindBuddyReq { buddy_id, user_id, tcp_port },
        ) && id_at(s, 0, buddy_id) && id_at(s, 16, user_id) && tcp_port == word16(s, 32)),
        s.len() >= 34 ==> (dec_message(0x5A, s) matches Ok(
            MessageView::FindBuddyRes { buddy_id, user_hash, tcp_port, connect_options },
        ) && id_at(s, 0, buddy_id) && user_hash@ == s.subrange(16, 32) && tcp_port == word16(s, 32)
            && connect_options == if s.len() < 35 {
            0
        } else {
            s[34]
        }),
        s.len() >= 34 ==> (dec_message(0x52, s) matches Ok(
            MessageView::CallbackReq { buddy_id, file_id, tcp_port },
        ) && id_at(s, 0, buddy_id) && id_at(s, 16, file_id) && tcp_port == word16(s, 32)),
{
    lemma_id_read(s);
    if s.len() >= 16 {
        let a = s.skip(16);
        assert(s.take(16) =~= s.subrange(0, 16));
        lemma_id_read(a);
        if a.len() >= 16 {
            assert(a.take(16) =~= s.subrange(16, 32));
            let b = a.skip(16);
            assert(b =~= s.skip(32));
            lemma_words_at(s, 32);
            if b.len() >= 2 {
                let c = b.skip(2);
                if c.len() >= 1 {
                    assert(c[0] == s[34]);
                }
            }
        }
    }
}

// ---------------------------------------------------------------------------
// Messages with lists
// ---------------------------------------------------------------------------
/// An answer with contacts: the target, one byte of count, and the contacts.
pub proof fn lemma_contact_answer(s: Seq<u8>)
    ensures
        s.len() < 17 || s.len() < 17 + 25 * s[16] ==> dec_message(0x29, s) is Err,
        s.len() >= 17 && s.len() >= 17 + 25 * s[16] ==> (dec_message(0x29, s) matches Ok(
            MessageView::KadRes { target, contacts },
        ) && id_at(s, 0, target) && contacts.len() == s[16] && contacts_at(s, 17, contacts)),
{
    lemma_id_read(s);
    if s.len() >= 16 {
        let a = s.skip(16);
        assert(s.take(16) =~= s.subrange(0, 16));
        if a.len() >= 1 {
            assert(a[0] == s[16]);
            assert(a.skip(1) =~= s.skip(17));
            lemma_contacts_behind(s[16] as nat, s, 17);
        }
    }
}

/// The contacts of a bootstrap answer: two bytes of count, of which no more than
/// 200 contacts are read.
proof fn lemma_bootstrap_contacts(s: Seq<u8>, i: int)
    requires
        0 <= i <= s.len(),
    ensures
        ({
            let r = dec_bootstrap_contacts(s.skip(i));
            let n = at_most(word16(s, i), 200);
            &&& s.len() < i + 2 || s.len() < i + 2 + 25 * n ==> r is Err
            &&& s.len() >= i + 2 && s.len() >= i + 2 + 25 * n ==> (r matches Ok((cs, _))
                && cs.len() == n && contacts_at(s, i + 2, cs))
        }),
{
    let t = s.skip(i);
    lemma_words_at(s, i);
    if t.len() >= 2 {
        assert(t.skip(2) =~= s.skip(i + 2));
        lemma_contacts_behind(at_most(word16(s, i), 200) as nat, s, i + 2);
    }
}

/// An answer to a bootstrap request: the sender, its TCP port and version, and
/// contacts behind two bytes of count, of which no more than 200 are read.
pub proof fn lemma_bootstrap_answer(s: Seq<u8>)
    ensures
        s.len() < 21 || s.len() < 21 + 25 * at_most(word16(s, 19), 200) ==> dec_message(
            0x09,
            s,
        ) is Err,
        s.len() >= 21 && s.len() >= 21 + 25 * at_most(word16(s, 19), 200) ==> (dec_message(
            0x09,
            s,
        ) matches Ok(
            MessageView::BootstrapRes { sender_id, tcp_port, version, contacts },
        ) && id_at(s, 0, sender_id) && tcp_port == word16(s, 16) && version == s[18]
            && contacts.len() == at_most(word16(s, 19), 200) && contacts_at(s, 21, contacts)),
{
    lemma_id_read(s);
    if s.len() >= 16 {
        let a = s.skip(16);
        assert(s.take(16) =~= s.subrange(0, 16));
        lemma_words_at(s, 16);
        if a.len() >= 2 {
            let b = a.skip(2);
            if b.len() >= 1 {
                assert(b[0] == s[18]);
                assert(b.skip(1) =~= s.skip(19));
                lemma_bootstrap_contacts(s, 19);
            }
        }
    }
}

/// In the first protocol such an answer has the contacts alone. Its sender is not
/// known, and its version is the first.
pub proof fn lemma_old_bootstrap_answer(s: Seq<u8>)
    ensures
        s.len() < 2 || s.len() < 2 + 25 * at_most(word16(s, 0), 200) ==> dec_message(
            0x08,
            s,
        ) is Err,
        s.len() >= 2 && s.len() >= 2 + 25 * at_most(word16(s, 0), 200) ==> (dec_message(
            0x08,
            s,
        ) matches Ok(
            MessageView::BootstrapRes { sender_id, tcp_port, version, contacts },
        ) && sender_id == KadId::zero_spec() && tcp_port == 0 && version == 1 && contacts.len()
            == at_most(word16(s, 0), 200) && contacts_at(s, 2, contacts)),
{
    assert(s.skip(0) =~= s);
    lemma_bootstrap_contacts(s, 0);
}

pub open spec fn at_most(n: int, max: int) -> int {
    if n < max {
        n
    } else {
        max
    }
}

/// Greetings: the sender, its TCP port and version, and its tags; the third one
/// of a greeting has the sender and its tags alone.
pub proof fn lemma_greetings(s: Seq<u8>)
    ensures
        s.len() < 19 ==> dec_message(0x11, s) is Err && dec_message(0x19, s) is Err,
        s.len() < 16 ==> dec_message(0x22, s) is Err,
        s.len() >= 19 ==> match dec_tag_list(s.skip(19)) {
            Err(_) => dec_message(0x11, s) is Err && dec_message(0x19, s) is Err,
            Ok((ts, _)) => {
                &&& dec_message(0x11, s) matches Ok(
                    MessageView::HelloReq { sender_id, tcp_port, version, tags },
                ) && id_at(s, 0, sender_id) && tcp_port == word16(s, 16) && version == s[18] && tags
                    == ts
                &&& dec_message(0x19, s) matches Ok(
                    MessageView::HelloRes { sender_id, tcp_port, version, tags },
                ) && id_at(s, 0, sender_id) && tcp_port == word16(s, 16) && version == s[18] && tags
                    == ts
            },
        },
        s.len() >= 16 ==> match dec_tag_list(s.skip(16)) {
            Err(_) => dec_message(0x22, s) is Err,
            Ok((ts, _)) => (dec_message(0x22, s) matches Ok(
                MessageView::HelloResAck { sender_id, tags },
            ) && id_at(s, 0, sender_id) && tags == ts),
        },
{
    lemma_id_read(s);
    if s.len() >= 16 {
        let a = s.skip(16);
        assert(s.take(16) =~= s.subrange(0, 16));
        lemma_words_at(s, 16);
        if a.len() >= 2 {
            let b = a.skip(2);
            if b.len() >= 1 {
                assert(b[0] == s[18]);
                assert(b.skip(1) =~= s.skip(19));
            }
        }
    }
}

/// Publishing a source or a note: the target, the sender, and the tags.
pub proof fn lemma_source_publishes(s: Seq<u8>)
    ensures
        s.len() < 32 ==> dec_message(0x44, s) is Err && dec_message(0x45, s) is Err,
        s.len() >= 32 ==> match dec_tag_list(s.skip(32)) {
            Err(_) => dec_message(0x44, s) is Err && dec_message(0x45, s) is Err,
            Ok((ts, _)) => {
                &&& dec_message(0x44, s) matches Ok(
                    MessageView::PublishSourceReq { target, sender_id, tags },
                ) && id_at(s, 0, target) && id_at(s, 16, sender_id) && tags == ts
                &&& dec_message(0x45, s) matches Ok(
                    MessageView::PublishNotesReq { target, sender_id, tags },
                ) && id_at(s, 0, target) && id_at(s, 16, sender_id) && tags == ts
            },
        },
{
    lemma_id_read(s);
    if s.len() >= 16 {
        let a = s.skip(16);
        assert(s.take(16) =~= s.subrange(0, 16));
        lemma_id_read(a);
        if a.len() >= 16 {
            assert(a.take(16) =~= s.subrange(16, 32));
            assert(a.skip(16) =~= s.skip(32));
        }
    }
}

/// Answers and publishes with files: the sender and the target, or the target
/// alone, then two bytes of count and the files. No more than 300 files of an
/// answer and 50 of a publish are read.
pub proof fn lemma_file_lists(s: Seq<u8>)
    ensures
        s.len() < 34 ==> dec_message(0x3B, s) is Err,
        s.len() < 18 ==> dec_message(0x43, s) is Err && dec_message(0x38, s) is Err && dec_message(
            0x3A,
            s,
        ) is Err,
        s.len() >= 34 ==> match dec_many(
            entry_reader(),
            at_most(word16(s, 32), 300) as nat,
            s.skip(34),
        ) {
            Err(_) => dec_message(0x3B, s) is Err,
            Ok((xs, _)) => (dec_message(0x3B, s) matches Ok(
                MessageView::SearchRes { sender_id, target, results },
            ) && id_at(s, 0, sender_id) && id_at(s, 16, target) && results == xs),
        },
        s.len() >= 18 ==> match dec_many(
            entry_reader(),
            at_most(word16(s, 16), 50) as nat,
            s.skip(18),
        ) {
            Err(_) => dec_message(0x43, s) is Err,
            Ok((xs, _)) => (dec_message(0x43, s) matches Ok(
                MessageView::PublishKeyReq { target, entries },
            ) && id_at(s, 0, target) && entries == xs),
        },
        s.len() >= 18 ==> match dec_many(
            entry_reader(),
            at_most(word16(s, 16), 300) as nat,
            s.skip(18),
        ) {
            Err(_) => dec_message(0x38, s) is Err && dec_message(0x3A, s) is Err,
            Ok((xs, _)) => (dec_message(0x38, s) matches Ok(
                MessageView::SearchRes { sender_id, target, results },
            ) && sender_id == KadId::zero_spec() && id_at(s, 0, target) && results == xs)
                && dec_message(0x3A, s) == dec_message(0x38, s),
        },
{
    lemma_id_read(s);
    if s.len() >= 16 {
        let a = s.skip(16);
        assert(s.take(16) =~= s.subrange(0, 16));
        lemma_words_at(s, 16);
        if a.len() >= 2 {
            assert(a.skip(2) =~= s.skip(18));
        }
        lemma_id_read(a);
        if a.len() >= 16 {
            assert(a.take(16) =~= s.subrange(16, 32));
            let b = a.skip(16);
            assert(b =~= s.skip(32));
            lemma_words_at(s, 32);
            if b.len() >= 2 {
                assert(b.skip(2) =~= s.skip(34));
            }
        }
    }
}

/// A file is read as the 16 bytes of its identifier and the tags behind them.
pub proof fn lemma_entry_read(s: Seq<u8>)
    ensures
        s.len() < 16 ==> dec_entry(s) is Err,
        s.len() >= 16 ==> match dec_tag_list(s.skip(16)) {
            Err(_) => dec_entry(s) is Err,
            Ok((ts, rest)) => (dec_entry(s) matches Ok((x, left)) && id_at(s, 0, x.id) && x.tags
                == ts && left == rest),
        },
{
    lemma_id_read(s);
    if s.len() >= 16 {
        assert(s.take(16) =~= s.subrange(0, 16));
    }
}

/// The opcodes that mean something.
pub open spec fn known_opcodes() -> Set<u8> {
    set![
        0x00u8, 0x01, 0x08, 0x09, 0x10, 0x11, 0x18, 0x19, 0x20, 0x21, 0x22, 0x28, 0x29, 0x30, 0x32,
        0x33, 0x34, 0x35, 0x38, 0x3A, 0x3B, 0x40, 0x42, 0x43, 0x44, 0x45, 0x48, 0x4A, 0x4B, 0x4C,
        0x50, 0x51, 0x52, 0x53, 0x58, 0x59, 0x5A, 0x60, 0x61, 0x62,
    ]
}

/// Packets of the first protocol that nothing answers are read as such, whatever
/// they hold; the old answer to a publish is read for its target; all other
/// opcodes are unknown.
pub proof fn lemma_other_opcodes(opcode: u8, s: Seq<u8>)
    ensures
        (opcode == 0x10 || opcode == 0x18 || opcode == 0x20 || opcode == 0x28 || opcode == 0x30
            || opcode == 0x32 || opcode == 0x40 || opcode == 0x42 || opcode == 0x4A)
            ==> dec_message(opcode, s) == Ok::<MessageView, WireError>(
            MessageView::IgnoredLegacy { opcode },
        ),
        s.len() < 16 ==> dec_message(0x48, s) is Err,
        s.len() >= 16 ==> (dec_message(0x48, s) matches Ok(
            MessageView::PublishRes { target, load, request_ack },
        ) && id_at(s, 0, target) && load == 0 && !request_ack),
        !known_opcodes().contains(opcode) ==> dec_message(opcode, s) == Err::<
            MessageView,
            WireError,
        >(WireError::UnknownOpcode(opcode)),
{
    lemma_id_read(s);
    if s.len() >= 16 {
        assert(s.take(16) =~= s.subrange(0, 16));
    }
}

/// A packet starts with 0xE4, or with 0xE5 where its body is compressed, and the
/// opcode follows.
pub proof fn lemma_packet_headers(data: Seq<u8>)
    ensures
        data.len() >= 2 && data[0] == 0xE4 ==> dec_packet(data) == dec_message(
            data[1],
            data.skip(2),
        ),
        data.len() == 0 ==> dec_packet(data) is Err,
        data.len() == 1 ==> dec_packet(data) is Err,
        data.len() == 2 && data[0] == 0xE5 ==> dec_packet(data) is Err,
        data.len() >= 3 && data[0] == 0xE5 ==> match super::messages::inflated(data.skip(2)) {
            Ok(body) => dec_packet(data) == dec_message(data[1], body) && body.len() <= 524288,
            Err(_) => dec_packet(data) is Err,
        },
        data.len() > 0 && data[0] != 0xE4 && data[0] != 0xE5 ==> dec_packet(data) == Err::<
            MessageView,
            WireError,
        >(WireError::UnknownHeader(data[0])),
{
}

/// A packet that goes out is at most 1420 bytes long.
pub proof fn lemma_packet_fits(m: MessageView)
    ensures
        enc_packet(m) matches Ok(p) ==> 2 <= p.len() <= 1420 && (p[0] == 0xE4 || p[0] == 0xE5)
            && p[1] == super::messages::opcode_of(m),
{
    if let Ok(p) = enc_packet(m) {
        let q = super::messages::enc_message(m)->Ok_0;
        assert(q[0] == super::messages::opcode_of(m));
    }
}

/// Of more contacts than one byte can count the first 255 are sent.
pub proof fn lemma_contacts_cut(target: KadId, contacts: Seq<KadContact>)
    ensures
        ({
            let b = enc_body(MessageView::KadRes { target, contacts });
            &&& b.take(16) == target.0@
            &&& b[16] == if contacts.len() <= 255 {
                contacts.len() as int
            } else {
                255
            }
            &&& contacts.len() > 255 ==> b == enc_body(
                MessageView::KadRes { target, contacts: contacts.take(255) },
            )
        }),
{
    let b = enc_body(MessageView::KadRes { target, contacts });
    assert(b.take(16) =~= target.0@);
}

// ---------------------------------------------------------------------------
// Tags
// ---------------------------------------------------------------------------
/// A tag starts with its type, two bytes of the length of its name, and the name.
/// A name of one byte is a number, any other a text. The value follows.
pub proof fn lemma_tag_read(s: Seq<u8>)
    requires
        s.len() >= 3,
        s.len() >= 3 + word16(s, 1),
    ensures
        ({
            let n = word16(s, 1);
            let v = dec_tag_value(s[0], s.skip(3 + n));
            match v {
                Err(e) => dec_tag(s) == Err::<(TagView, Seq<u8>), WireError>(e),
                Ok((value, rest)) => dec_tag(s) == Ok::<(TagView, Seq<u8>), WireError>(
                    (
                        TagView {
                            name: if n == 1 {
                                TagNameView::Id(s[3])
                            } else {
                                TagNameView::Str(text_of(s.subrange(3, 3 + n)))
                            },
                            value,
                        },
                        rest,
                    ),
                ),
            }
        }),
{
    let n = word16(s, 1);
    let a = s.skip(1);
    lemma_words_at(s, 1);
    let b = a.skip(2);
    assert(b =~= s.skip(3));
    assert(b.take(n) =~= s.subrange(3, 3 + n));
    assert(b.skip(n) =~= s.skip(3 + n));
    if n == 1 {
        assert(b.take(n)[0] == s[3]);
    }
}

/// The values that a tag can have, by its type.
pub proof fn lemma_tag_values(s: Seq<u8>)
    ensures
        s.len() >= 16 ==> dec_tag_value(1, s) == Ok::<
            (TagValueView, Seq<u8>),
            WireError,
        >((TagValueView::Hash(s.take(16)), s.skip(16))),
        s.len() >= 2 && s.len() >= 2 + word16(s, 0) ==> dec_tag_value(2, s) == Ok::<
            (TagValueView, Seq<u8>),
            WireError,
        >(
            (
                TagValueView::String(text_of(s.subrange(2, 2 + word16(s, 0)))),
                s.skip(2 + word16(s, 0)),
            ),
        ),
        s.len() >= 4 ==> dec_tag_value(3, s) == Ok::<(TagValueView, Seq<u8>), WireError>(
            (TagValueView::Uint32(word32(s, 0) as u32), s.skip(4)),
        ),
        s.len() >= 4 ==> dec_tag_value(4, s) == Ok::<(TagValueView, Seq<u8>), WireError>(
            (TagValueView::Float(word32(s, 0) as u32), s.skip(4)),
        ),
        s.len() >= 1 ==> dec_tag_value(5, s) == Ok::<(TagValueView, Seq<u8>), WireError>(
            (TagValueView::Bool(s[0]), s.skip(1)),
        ),
        s.len() >= 4 && s.len() >= 4 + word32(s, 0) ==> dec_tag_value(7, s) == Ok::<
            (TagValueView, Seq<u8>),
            WireError,
        >((TagValueView::Blob(s.subrange(4, 4 + word32(s, 0))), s.skip(4 + word32(s, 0)))),
        s.len() >= 2 ==> dec_tag_value(8, s) == Ok::<(TagValueView, Seq<u8>), WireError>(
            (TagValueView::Uint16(word16(s, 0) as u16), s.skip(2)),
        ),
        s.len() >= 1 ==> dec_tag_value(9, s) == Ok::<(TagValueView, Seq<u8>), WireError>(
            (TagValueView::Uint8(s[0]), s.skip(1)),
        ),
        s.len() >= 1 && s.len() >= 1 + s[0] ==> dec_tag_value(10, s) == Ok::<
            (TagValueView, Seq<u8>),
            WireError,
        >((TagValueView::Bsob(s.subrange(1, 1 + s[0])), s.skip(1 + s[0]))),
        s.len() >= 8 ==> dec_tag_value(11, s) == Ok::<(TagValueView, Seq<u8>), WireError>(
            (TagValueView::Uint64(word64(s, 0) as u64), s.skip(8)),
        ),
{
    lemma_words_read(s);
    if s.len() >= 2 && s.len() >= 2 + word16(s, 0) {
        let n = word16(s, 0);
        assert(s.skip(2).take(n) =~= s.subrange(2, 2 + n));
        assert(s.skip(2).skip(n) =~= s.skip(2 + n));
    }
    if s.len() >= 4 && s.len() >= 4 + word32(s, 0) {
        let n = word32(s, 0);
        assert(s.skip(4).take(n) =~= s.subrange(4, 4 + n));
        assert(s.skip(4).skip(n) =~= s.skip(4 + n));
    }
    if s.len() >= 1 && s.len() >= 1 + s[0] {
        let n = s[0] as int;
        assert(s.skip(1).take(n) =~= s.subrange(1, 1 + n));
        assert(s.skip(1).skip(n) =~= s.skip(1 + n));
    }
}

/// A list of tags has one byte of count, and the tags stand one behind the other.
pub proof fn lemma_tag_list_read(s: Seq<u8>)
    requires
        s.len() >= 1,
    ensures
        s[0] == 0 ==> dec_tag_list(s) == Ok::<(Seq<TagView>, Seq<u8>), WireError>(
            (Seq::empty(), s.skip(1)),
        ),
        s[0] > 0 ==> match dec_tag(s.skip(1)) {
            Err(e) => dec_tag_list(s) == Err::<(Seq<TagView>, Seq<u8>), WireError>(e),
            Ok((t, rest)) => match dec_tag_list(seq![(s[0] - 1) as u8] + rest) {
                Err(e) => dec_tag_list(s) == Err::<(Seq<TagView>, Seq<u8>), WireError>(e),
                Ok((ts, left)) => dec_tag_list(s) == Ok::<(Seq<TagView>, Seq<u8>), WireError>(
                    (seq![t] + ts, left),
                ),
            },
        },
{
    if s[0] > 0 {
        if let Ok((t, rest)) = dec_tag(s.skip(1)) {
            let u = seq![(s[0] - 1) as u8] + rest;
            assert(u.skip(1) =~= rest);
        }
    }
}

// ---------------------------------------------------------------------------
// Search expressions
// ---------------------------------------------------------------------------
/// A condition on a number: its width, the number, the comparison, and the name of
/// the tag that is compared. Numbers of up to 32 bits take four bytes, others eight.
pub proof fn lemma_number_condition(value: u64, op: u8, tag: u8)
    ensures
        ({
            let b = numeric_leaf(value, op, tag);
            if value <= 0xFFFF_FFFF {
                &&& b.len() == 9
                &&& b[0] == 3
                &&& word32(b, 1) == value
                &&& b[5] == op
                &&& word16(b, 6) == 1
                &&& b[8] == tag
            } else {
                &&& b.len() == 13
                &&& b[0] == 8
                &&& word64(b, 1) == value
                &&& b[9] == op
                &&& word16(b, 10) == 1
                &&& b[12] == tag
            }
        }),
{
    let b = numeric_leaf(value, op, tag);
    if value <= 0xFFFF_FFFF {
        let x = value as u32;
        let rest = seq![op] + le16(1) + seq![tag];
        assert(b =~= seq![3u8] + le32(x) + rest);
        super::bootstrap_laws::lemma_word32_at(seq![3u8], x, rest);
    } else {
        let lo = (value % 0x1_0000_0000) as u32;
        let hi = (value / 0x1_0000_0000) as u32;
        let rest = seq![op] + le16(1) + seq![tag];
        assert(b =~= seq![8u8] + le32(lo) + (le32(hi) + rest));
        super::bootstrap_laws::lemma_word32_at(seq![8u8], lo, le32(hi) + rest);
        assert(b =~= (seq![8u8] + le32(lo)) + le32(hi) + rest);
        super::bootstrap_laws::lemma_word32_at(seq![8u8] + le32(lo), hi, rest);
    }
}

/// A condition on a text: the length and the bytes of the text, and the name of
/// the tag that must hold it.
pub proof fn lemma_text_condition(x: Seq<char>, tag: u8)
    requires
        encode_utf8(x).len() <= 0xFFFF,
    ensures
        ({
            let b = meta_string(x, tag);
            let n = encode_utf8(x).len() as int;
            &&& b.len() == n + 6
            &&& b[0] == 2
            &&& word16(b, 1) == n
            &&& b.subrange(3, 3 + n) == encode_utf8(x)
            &&& word16(b, 3 + n) == 1
            &&& b[5 + n] == tag
        }),
        ({
            let b = string_leaf(x);
            let n = encode_utf8(x).len() as int;
            &&& b.len() == n + 3
            &&& b[0] == 1
            &&& word16(b, 1) == n
            &&& b.subrange(3, 3 + n) == encode_utf8(x)
        }),
{
    let u = encode_utf8(x);
    let n = u.len() as int;
    let b = meta_string(x, tag);
    assert(b.subrange(3, 3 + n) =~= u);
    assert(string_leaf(x).subrange(3, 3 + n) =~= u);
}

/// Two bytes of zero say that both of the expressions that follow must hold.
/// Conditions follow each other in the order in which they are joined.
pub proof fn lemma_conditions_joined(ops: Seq<Seq<u8>>, a: Seq<u8>)
    requires
        ops.len() > 0,
    ensures
        and_chain(seq![a]) == a,
        and_chain(seq![a] + ops) == seq![0u8, 0] + a + and_chain(ops),
{
    assert((seq![a] + ops).skip(1) =~= ops);
}

/// Of keywords the last stands at the end, behind all others.
pub proof fn lemma_keywords_joined(ks: Seq<String>, k: String)
    requires
        ks.len() > 0,
    ensures
        keyword_tree(seq![k]) == string_leaf(k@),
        keyword_tree(ks.push(k)) == seq![0u8, 0] + keyword_tree(ks) + string_leaf(k@),
{
    assert(ks.push(k).drop_last() =~= ks);
}

/// What a search asks for, in order: the keywords; then, each if it is there and
/// not empty, the type of the file in tag 3, its extension in tag 4, its size in
/// tag 2 from below and from above, and the number of its sources in tag 0x15 from
/// below.
pub proof fn lemma_conditions_named(ks: Seq<String>, c: SearchConstraints)
    ensures
        ({
            let ops = search_operands(ks, c);
            let a = if ks.len() > 0 {
                1int
            } else {
                0
            };
            let b = a + if c.file_type is Some && c.file_type->Some_0@.len() > 0 {
                1int
            } else {
                0
            };
            let x = b + if c.file_extension is Some && bare_extension(
                c.file_extension->Some_0@,
            ).len() > 0 {
                1int
            } else {
                0
            };
            let d = x + if c.min_size is Some && c.min_size->Some_0 > 0 {
                1int
            } else {
                0
            };
            let e = d + if c.max_size is Some && c.max_size->Some_0 > 0 {
                1int
            } else {
                0
            };
            let f = e + if c.min_availability is Some && c.min_availability->Some_0 > 0 {
                1int
            } else {
                0
            };
            &&& ops.len() == f
            &&& a == 1 ==> ops[0] == keyword_tree(ks)
            &&& b > a ==> ops[a] == meta_string(c.file_type->Some_0@, 3)
            &&& x > b ==> ops[b] == meta_string(bare_extension(c.file_extension->Some_0@), 4)
            &&& d > x ==> ops[x] == numeric_leaf(c.min_size->Some_0, 3, 2)
            &&& e > d ==> ops[d] == numeric_leaf(c.max_size->Some_0, 4, 2)
            &&& f > e ==> ops[e] == numeric_leaf(c.min_availability->Some_0 as u64, 3, 0x15)
        }),
{
}

} // verus!
