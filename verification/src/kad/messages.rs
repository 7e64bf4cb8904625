//! Kad UDP messages and their wire form.
use vstd::prelude::*;
use vstd::utf8::*;

use std::io::{Read, Write};

use super::tags::{
    dec_tag_list, duplicate_tags, enc_tag_list, lemma_tag_list_round_trip, read_tag_list,
    tag_canonical, tag_list_fits, tag_views, write_tag_list, KadTag, TagView,
};
use super::types::{
    dec_contact, dec_id, enc_contact, lemma_contact_round_trip, lemma_id_round_trip, on_wire,
    KadContact, KadId, TAG_FILESIZE, TAG_FILETYPE, TAG_SOURCES,
};
use crate::bytes::{
    dec_many, dec_u16, dec_u32, dec_u64, dec_u8, enc_many, le16, le32, le64, put_bytes, put_u16,
    put_u32, put_u64, Parsed, Reader, WireError,
};
use crate::bytes::{
    lemma_dec_many_err, lemma_le16_round_trip, lemma_le32_round_trip, lemma_le64_round_trip,
    lemma_many_round_trip, lemma_u8_round_trip,
};

use crate::text::{strip_front, trim, trim_start_matches, trimmed};

verus! {

// Protocol headers.
pub const OP_KADEMLIAHEADER: u8 = 0xE4;

pub const OP_KADEMLIAPACKEDPROT: u8 = 0xE5;

// Kad 2 opcodes.
pub const KADEMLIA2_BOOTSTRAP_REQ: u8 = 0x01;

pub const KADEMLIA2_BOOTSTRAP_RES: u8 = 0x09;

pub const KADEMLIA2_HELLO_REQ: u8 = 0x11;

pub const KADEMLIA2_HELLO_RES: u8 = 0x19;

pub const KADEMLIA2_HELLO_RES_ACK: u8 = 0x22;

pub const KADEMLIA2_REQ: u8 = 0x21;

pub const KADEMLIA2_RES: u8 = 0x29;

pub const KADEMLIA2_SEARCH_KEY_REQ: u8 = 0x33;

pub const KADEMLIA2_SEARCH_SOURCE_REQ: u8 = 0x34;

pub const KADEMLIA2_SEARCH_NOTES_REQ: u8 = 0x35;

pub const KADEMLIA2_SEARCH_RES: u8 = 0x3B;

pub const KADEMLIA2_PUBLISH_KEY_REQ: u8 = 0x43;

pub const KADEMLIA2_PUBLISH_SOURCE_REQ: u8 = 0x44;

pub const KADEMLIA2_PUBLISH_NOTES_REQ: u8 = 0x45;

pub const KADEMLIA2_PUBLISH_RES: u8 = 0x4B;

pub const KADEMLIA2_PUBLISH_RES_ACK: u8 = 0x4C;

pub const KADEMLIA_FIREWALLED_REQ: u8 = 0x50;

pub const KADEMLIA_FIREWALLED_RES: u8 = 0x58;

pub const KADEMLIA_FINDBUDDY_REQ: u8 = 0x51;

pub const KADEMLIA_FINDBUDDY_RES: u8 = 0x5A;

pub const KADEMLIA_FIREWALLED_ACK_RES: u8 = 0x59;

pub const KADEMLIA2_PING: u8 = 0x60;

pub const KADEMLIA2_PONG: u8 = 0x61;

pub const KADEMLIA2_FIREWALLUDP: u8 = 0x62;

// Kad 1 opcodes, which are only read.
pub const KADEMLIA_BOOTSTRAP_REQ_OLD: u8 = 0x00;

pub const KADEMLIA_BOOTSTRAP_RES_OLD: u8 = 0x08;

pub const KADEMLIA_HELLO_REQ_OLD: u8 = 0x10;

pub const KADEMLIA_HELLO_RES_OLD: u8 = 0x18;

pub const KADEMLIA_REQ_OLD: u8 = 0x20;

pub const KADEMLIA_RES_OLD: u8 = 0x28;

pub const KADEMLIA_SEARCH_REQ_OLD: u8 = 0x30;

pub const KADEMLIA_SEARCH_NOTES_REQ_OLD: u8 = 0x32;

pub const KADEMLIA_SEARCH_RES_OLD: u8 = 0x38;

pub const KADEMLIA_SEARCH_NOTES_RES_OLD: u8 = 0x3A;

pub const KADEMLIA_PUBLISH_REQ_OLD: u8 = 0x40;

pub const KADEMLIA_PUBLISH_NOTES_REQ_OLD: u8 = 0x42;

pub const KADEMLIA_PUBLISH_RES_OLD: u8 = 0x48;

pub const KADEMLIA_PUBLISH_NOTES_RES_OLD: u8 = 0x4A;

pub const KADEMLIA_CALLBACK_REQ: u8 = 0x52;

pub const KADEMLIA_FIREWALLED2_REQ: u8 = 0x53;

// Search types of `KADEMLIA2_REQ`.
pub const KADEMLIA_FIND_VALUE: u8 = 0x02;

pub const KADEMLIA_STORE: u8 = 0x04;

pub const KADEMLIA_FIND_NODE: u8 = 0x0B;

/// The longest packet that goes out in one UDP fragment.
pub const UDP_KAD_MAXFRAGMENT: usize = 1420;

/// The longest body that a compressed packet may inflate to.
pub const MAX_DECOMPRESSED_SIZE: usize = 524288;

/// Contacts read from one bootstrap answer at most.
pub const MAX_BOOTSTRAP_CONTACTS: usize = 200;

/// Results read from one search answer at most.
pub const MAX_SEARCH_RESULTS: usize = 300;

/// Entries read from one keyword publish at most.
pub const MAX_PUBLISH_ENTRIES: usize = 50;

/// A file with its tags, as found by a search.
#[derive(Clone, Debug)]
pub struct SearchResultEntry {
    pub id: KadId,
    pub tags: Vec<KadTag>,
}

/// A file with its tags, as published under a keyword.
#[derive(Clone, Debug)]
pub struct PublishEntry {
    pub id: KadId,
    pub tags: Vec<KadTag>,
}

#[derive(Clone, Debug)]
pub enum KadMessage {
    BootstrapReq,
    BootstrapRes { sender_id: KadId, tcp_port: u16, version: u8, contacts: Vec<KadContact> },
    HelloReq { sender_id: KadId, tcp_port: u16, version: u8, tags: Vec<KadTag> },
    HelloRes { sender_id: KadId, tcp_port: u16, version: u8, tags: Vec<KadTag> },
    HelloResAck { sender_id: KadId, tags: Vec<KadTag> },
    KadReq { search_type: u8, target: KadId, receiver: KadId },
    KadRes { target: KadId, contacts: Vec<KadContact> },
    SearchKeyReq { target: KadId, start_position: u16, search_terms: Vec<u8> },
    SearchSourceReq { target: KadId, start_position: u16, file_size: u64 },
    SearchNotesReq { target: KadId, file_size: u64 },
    SearchRes { sender_id: KadId, target: KadId, results: Vec<SearchResultEntry> },
    PublishKeyReq { target: KadId, entries: Vec<PublishEntry> },
    PublishSourceReq { target: KadId, sender_id: KadId, tags: Vec<KadTag> },
    PublishNotesReq { target: KadId, sender_id: KadId, tags: Vec<KadTag> },
    /// `request_ack` is read from an optional trailing byte whose lowest bit
    /// asks for a `PublishResAck`. It is never written.
    PublishRes { target: KadId, load: u8, request_ack: bool },
    PublishResAck,
    Ping,
    Pong { udp_port: u16 },
    FirewalledReq { tcp_port: u16 },
    Firewalled2Req { tcp_port: u16, user_hash: [u8; 16], connect_options: u8 },
    FirewalledRes { ip: u32 },
    FirewallUdp { error_code: u8, udp_port: u16 },
    FindBuddyReq { buddy_id: KadId, user_id: KadId, tcp_port: u16 },
    FindBuddyRes { buddy_id: KadId, user_hash: [u8; 16], tcp_port: u16, connect_options: u8 },
    CallbackReq { buddy_id: KadId, file_id: KadId, tcp_port: u16 },
    /// A peer got our `FirewalledRes`.
    FirewalledAckRes,
    /// A Kad 1 packet that nothing answers.
    IgnoredLegacy { opcode: u8 },
}

/// A file with its tags, as a mathematical value.
pub struct EntryView {
    pub id: KadId,
    pub tags: Seq<TagView>,
}

impl View for SearchResultEntry {
    type V = EntryView;

    open spec fn view(&self) -> EntryView {
        EntryView { id: self.id, tags: tag_views(self.tags@) }
    }
}

impl View for PublishEntry {
    type V = EntryView;

    open spec fn view(&self) -> EntryView {
        EntryView { id: self.id, tags: tag_views(self.tags@) }
    }
}

pub open spec fn result_views(rs: Seq<SearchResultEntry>) -> Seq<EntryView> {
    rs.map_values(|r: SearchResultEntry| r@)
}

pub open spec fn entry_views(es: Seq<PublishEntry>) -> Seq<EntryView> {
    es.map_values(|e: PublishEntry| e@)
}

/// A message as a mathematical value.
pub enum MessageView {
    BootstrapReq,
    BootstrapRes { sender_id: KadId, tcp_port: u16, version: u8, contacts: Seq<KadContact> },
    HelloReq { sender_id: KadId, tcp_port: u16, version: u8, tags: Seq<TagView> },
    HelloRes { sender_id: KadId, tcp_port: u16, version: u8, tags: Seq<TagView> },
    HelloResAck { sender_id: KadId, tags: Seq<TagView> },
    KadReq { search_type: u8, target: KadId, receiver: KadId },
    KadRes { target: KadId, contacts: Seq<KadContact> },
    SearchKeyReq { target: KadId, start_position: u16, search_terms: Seq<u8> },
    SearchSourceReq { target: KadId, start_position: u16, file_size: u64 },
    SearchNotesReq { target: KadId, file_size: u64 },
    SearchRes { sender_id: KadId, target: KadId, results: Seq<EntryView> },
    PublishKeyReq { target: KadId, entries: Seq<EntryView> },
    PublishSourceReq { target: KadId, sender_id: KadId, tags: Seq<TagView> },
    PublishNotesReq { target: KadId, sender_id: KadId, tags: Seq<TagView> },
    PublishRes { target: KadId, load: u8, request_ack: bool },
    PublishResAck,
    Ping,
    Pong { udp_port: u16 },
    FirewalledReq { tcp_port: u16 },
    Firewalled2Req { tcp_port: u16, user_hash: [u8; 16], connect_options: u8 },
    FirewalledRes { ip: u32 },
    FirewallUdp { error_code: u8, udp_port: u16 },
    FindBuddyReq { buddy_id: KadId, user_id: KadId, tcp_port: u16 },
    FindBuddyRes { buddy_id: KadId, user_hash: [u8; 16], tcp_port: u16, connect_options: u8 },
    CallbackReq { buddy_id: KadId, file_id: KadId, tcp_port: u16 },
    FirewalledAckRes,
    IgnoredLegacy { opcode: u8 },
}

impl View for KadMessage {
    type V = MessageView;

    open spec fn view(&self) -> MessageView {
        match *self {
            KadMessage::BootstrapReq => MessageView::BootstrapReq,
            KadMessage::BootstrapRes { sender_id, tcp_port, version, contacts } =>
                MessageView::BootstrapRes { sender_id, tcp_port, version, contacts: contacts@ },
            KadMessage::HelloReq { sender_id, tcp_port, version, tags } => MessageView::HelloReq {
                sender_id,
                tcp_port,
                version,
                tags: tag_views(tags@),
            },
            KadMessage::HelloRes { sender_id, tcp_port, version, tags } => MessageView::HelloRes {
                sender_id,
                tcp_port,
                version,
                tags: tag_views(tags@),
            },
            KadMessage::HelloResAck { sender_id, tags } => MessageView::HelloResAck {
                sender_id,
                tags: tag_views(tags@),
            },
            KadMessage::KadReq { search_type, target, receiver } => MessageView::KadReq {
                search_type,
                target,
                receiver,
            },
            KadMessage::KadRes { target, contacts } => MessageView::KadRes {
                target,
                contacts: contacts@,
            },
            KadMessage::SearchKeyReq { target, start_position, search_terms } =>
                MessageView::SearchKeyReq { target, start_position, search_terms: search_terms@ },
            KadMessage::SearchSourceReq { target, start_position, file_size } =>
                MessageView::SearchSourceReq { target, start_position, file_size },
            KadMessage::SearchNotesReq { target, file_size } => MessageView::SearchNotesReq {
                target,
                file_size,
            },
            KadMessage::SearchRes { sender_id, target, results } => MessageView::SearchRes {
                sender_id,
                target,
                results: result_views(results@),
            },
            KadMessage::PublishKeyReq { target, entries } => MessageView::PublishKeyReq {
                target,
                entries: entry_views(entries@),
            },
            KadMessage::PublishSourceReq { target, sender_id, tags } =>
                MessageView::PublishSourceReq { target, sender_id, tags: tag_views(tags@) },
            KadMessage::PublishNotesReq { target, sender_id, tags } =>
                MessageView::PublishNotesReq { target, sender_id, tags: tag_views(tags@) },
            KadMessage::PublishRes { target, load, request_ack } => MessageView::PublishRes {
                target,
                load,
                request_ack,
            },
            KadMessage::PublishResAck => MessageView::PublishResAck,
            KadMessage::Ping => MessageView::Ping,
            KadMessage::Pong { udp_port } => MessageView::Pong { udp_port },
            KadMessage::FirewalledReq { tcp_port } => MessageView::FirewalledReq { tcp_port },
            KadMessage::Firewalled2Req { tcp_port, user_hash, connect_options } =>
                MessageView::Firewalled2Req { tcp_port, user_hash, connect_options },
            KadMessage::FirewalledRes { ip } => MessageView::FirewalledRes { ip },
            KadMessage::FirewallUdp { error_code, udp_port } => MessageView::FirewallUdp {
                error_code,
                udp_port,
            },
            KadMessage::FindBuddyReq { buddy_id, user_id, tcp_port } => MessageView::FindBuddyReq {
                buddy_id,
                user_id,
                tcp_port,
            },
            KadMessage::FindBuddyRes { buddy_id, user_hash, tcp_port, connect_options } =>
                MessageView::FindBuddyRes { buddy_id, user_hash, tcp_port, connect_options },
            KadMessage::CallbackReq { buddy_id, file_id, tcp_port } => MessageView::CallbackReq {
                buddy_id,
                file_id,
                tcp_port,
            },
            KadMessage::FirewalledAckRes => MessageView::FirewalledAckRes,
            KadMessage::IgnoredLegacy { opcode } => MessageView::IgnoredLegacy { opcode },
        }
    }
}

// ---------------------------------------------------------------------------
// Reading
// ---------------------------------------------------------------------------
pub open spec fn contact_reader() -> spec_fn(Seq<u8>) -> Parsed<KadContact> {
    |s: Seq<u8>| dec_contact(s)
}

pub open spec fn dec_entry(s: Seq<u8>) -> Parsed<EntryView> {
    match dec_id(s) {
        Err(e) => Err(e),
        Ok((id, s)) => match dec_tag_list(s) {
            Err(e) => Err(e),
            Ok((tags, s)) => Ok((EntryView { id, tags }, s)),
        },
    }
}

pub open spec fn entry_reader() -> spec_fn(Seq<u8>) -> Parsed<EntryView> {
    |s: Seq<u8>| dec_entry(s)
}

pub open spec fn capped(n: u16, max: usize) -> nat {
    if n < max {
        n as nat
    } else {
        max as nat
    }
}

/// A contact list with a two-byte count, of which the first 200 are read.
pub open spec fn dec_bootstrap_contacts(s: Seq<u8>) -> Parsed<Seq<KadContact>> {
    match dec_u16(s) {
        Err(e) => Err(e),
        Ok((n, s)) => dec_many(contact_reader(), capped(n, MAX_BOOTSTRAP_CONTACTS), s),
    }
}

/// An entry list with a two-byte count, of which the first `max` are read.
pub open spec fn dec_entry_list(max: usize, s: Seq<u8>) -> Parsed<Seq<EntryView>> {
    match dec_u16(s) {
        Err(e) => Err(e),
        Ok((n, s)) => dec_many(entry_reader(), capped(n, max), s),
    }
}

/// An identifier, a port and a version.
pub open spec fn dec_sender(s: Seq<u8>) -> Parsed<(KadId, u16, u8)> {
    match dec_id(s) {
        Err(e) => Err(e),
        Ok((id, s)) => match dec_u16(s) {
            Err(e) => Err(e),
            Ok((port, s)) => match dec_u8(s) {
                Err(e) => Err(e),
                Ok((version, s)) => Ok(((id, port, version), s)),
            },
        },
    }
}

pub open spec fn dec_two_ids(s: Seq<u8>) -> Parsed<(KadId, KadId)> {
    match dec_id(s) {
        Err(e) => Err(e),
        Ok((a, s)) => match dec_id(s) {
            Err(e) => Err(e),
            Ok((b, s)) => Ok(((a, b), s)),
        },
    }
}

pub open spec fn dec_two_ids_port(s: Seq<u8>) -> Parsed<(KadId, KadId, u16)> {
    match dec_two_ids(s) {
        Err(e) => Err(e),
        Ok((ab, s)) => match dec_u16(s) {
            Err(e) => Err(e),
            Ok((port, s)) => Ok(((ab.0, ab.1, port), s)),
        },
    }
}

pub open spec fn dec_two_ids_tags(s: Seq<u8>) -> Parsed<(KadId, KadId, Seq<TagView>)> {
    match dec_two_ids(s) {
        Err(e) => Err(e),
        Ok((ab, s)) => match dec_tag_list(s) {
            Err(e) => Err(e),
            Ok((tags, s)) => Ok(((ab.0, ab.1, tags), s)),
        },
    }
}

/// A trailing field that counts as zero where it is missing or cut off.
pub open spec fn opt_u8(s: Seq<u8>) -> u8 {
    match dec_u8(s) {
        Err(_) => 0,
        Ok((x, _)) => x,
    }
}

pub open spec fn opt_u16(s: Seq<u8>) -> u16 {
    match dec_u16(s) {
        Err(_) => 0,
        Ok((x, _)) => x,
    }
}

pub open spec fn opt_u64(s: Seq<u8>) -> u64 {
    match dec_u64(s) {
        Err(_) => 0,
        Ok((x, _)) => x,
    }
}

/// Whether the opcode is one of Kad 1 that nothing answers.
pub open spec fn is_ignored_legacy(opcode: u8) -> bool {
    ||| opcode == KADEMLIA_HELLO_REQ_OLD
    ||| opcode == KADEMLIA_HELLO_RES_OLD
    ||| opcode == KADEMLIA_REQ_OLD
    ||| opcode == KADEMLIA_RES_OLD
    ||| opcode == KADEMLIA_SEARCH_REQ_OLD
    ||| opcode == KADEMLIA_SEARCH_NOTES_REQ_OLD
    ||| opcode == KADEMLIA_PUBLISH_REQ_OLD
    ||| opcode == KADEMLIA_PUBLISH_NOTES_REQ_OLD
    ||| opcode == KADEMLIA_PUBLISH_NOTES_RES_OLD
}

/// The message that an opcode and the body after it stand for.
pub open spec fn dec_message(opcode: u8, s: Seq<u8>) -> Result<MessageView, WireError> {
    if opcode == KADEMLIA2_BOOTSTRAP_REQ || opcode == KADEMLIA_BOOTSTRAP_REQ_OLD {
        Ok(MessageView::BootstrapReq)
    } else if opcode == KADEMLIA2_BOOTSTRAP_RES {
        match dec_sender(s) {
            Err(e) => Err(e),
            Ok(((sender_id, tcp_port, version), s)) => match dec_bootstrap_contacts(s) {
                Err(e) => Err(e),
                Ok((contacts, _)) => Ok(
                    MessageView::BootstrapRes { sender_id, tcp_port, version, contacts },
                ),
            },
        }
    } else if opcode == KADEMLIA2_HELLO_REQ {
        match dec_sender(s) {
            Err(e) => Err(e),
            Ok(((sender_id, tcp_port, version), s)) => match dec_tag_list(s) {
                Err(e) => Err(e),
                Ok((tags, _)) => Ok(MessageView::HelloReq { sender_id, tcp_port, version, tags }),
            },
        }
    } else if opcode == KADEMLIA2_HELLO_RES {
        match dec_sender(s) {
            Err(e) => Err(e),
            Ok(((sender_id, tcp_port, version), s)) => match dec_tag_list(s) {
                Err(e) => Err(e),
                Ok((tags, _)) => Ok(MessageView::HelloRes { sender_id, tcp_port, version, tags }),
            },
        }
    } else if opcode == KADEMLIA2_HELLO_RES_ACK {
        match dec_entry(s) {
            Err(e) => Err(e),
            Ok((x, _)) => Ok(MessageView::HelloResAck { sender_id: x.id, tags: x.tags }),
        }
    } else if opcode == KADEMLIA2_REQ {
        match dec_u8(s) {
            Err(e) => Err(e),
            Ok((search_type, s)) => match dec_two_ids(s) {
                Err(e) => Err(e),
                Ok(((target, receiver), _)) => Ok(
                    MessageView::KadReq { search_type, target, receiver },
                ),
            },
        }
    } else if opcode == KADEMLIA2_RES {
        match dec_id(s) {
            Err(e) => Err(e),
            Ok((target, s)) => match dec_u8(s) {
                Err(e) => Err(e),
                Ok((n, s)) => match dec_many(contact_reader(), n as nat, s) {
                    Err(e) => Err(e),
                    Ok((contacts, _)) => Ok(MessageView::KadRes { target, contacts }),
                },
            },
        }
    } else if opcode == KADEMLIA2_SEARCH_KEY_REQ {
        match dec_id(s) {
            Err(e) => Err(e),
            Ok((target, s)) => {
                let start = opt_u16(s);
                Ok(
                    MessageView::SearchKeyReq {
                        target,
                        start_position: (start % 0x8000) as u16,
                        search_terms: if start >= 0x8000 {
                            s.skip(2)
                        } else {
                            Seq::empty()
                        },
                    },
                )
            },
        }
    } else if opcode == KADEMLIA2_SEARCH_SOURCE_REQ {
        match dec_id(s) {
            Err(e) => Err(e),
            Ok((target, s)) => match dec_u16(s) {
                Err(e) => Err(e),
                Ok((start_position, s)) => match dec_u64(s) {
                    Err(e) => Err(e),
                    Ok((file_size, _)) => Ok(
                        MessageView::SearchSourceReq { target, start_position, file_size },
                    ),
                },
            },
        }
    } else if opcode == KADEMLIA2_SEARCH_RES {
        match dec_two_ids(s) {
            Err(e) => Err(e),
            Ok(((sender_id, target), s)) => match dec_entry_list(MAX_SEARCH_RESULTS, s) {
                Err(e) => Err(e),
                Ok((results, _)) => Ok(MessageView::SearchRes { sender_id, target, results }),
            },
        }
    } else if opcode == KADEMLIA2_PUBLISH_KEY_REQ {
        match dec_id(s) {
            Err(e) => Err(e),
            Ok((target, s)) => match dec_entry_list(MAX_PUBLISH_ENTRIES, s) {
                Err(e) => Err(e),
                Ok((entries, _)) => Ok(MessageView::PublishKeyReq { target, entries }),
            },
        }
    } else if opcode == KADEMLIA2_PUBLISH_SOURCE_REQ {
        match dec_two_ids_tags(s) {
            Err(e) => Err(e),
            Ok(((target, sender_id, tags), _)) => Ok(
                MessageView::PublishSourceReq { target, sender_id, tags },
            ),
        }
    } else if opcode == KADEMLIA2_PUBLISH_RES {
        match dec_id(s) {
            Err(e) => Err(e),
            Ok((target, s)) => match dec_u8(s) {
                Err(e) => Err(e),
                Ok((load, s)) => Ok(
                    MessageView::PublishRes { target, load, request_ack: opt_u8(s) % 2 == 1 },
                ),
            },
        }
    } else if opcode == KADEMLIA2_SEARCH_NOTES_REQ {
        match dec_id(s) {
            Err(e) => Err(e),
            Ok((target, s)) => Ok(MessageView::SearchNotesReq { target, file_size: opt_u64(s) }),
        }
    } else if opcode == KADEMLIA2_PUBLISH_NOTES_REQ {
        match dec_two_ids_tags(s) {
            Err(e) => Err(e),
            Ok(((target, sender_id, tags), _)) => Ok(
                MessageView::PublishNotesReq { target, sender_id, tags },
            ),
        }
    } else if opcode == KADEMLIA2_PUBLISH_RES_ACK {
        Ok(MessageView::PublishResAck)
    } else if opcode == KADEMLIA2_PING {
        Ok(MessageView::Ping)
    } else if opcode == KADEMLIA2_PONG {
        Ok(MessageView::Pong { udp_port: opt_u16(s) })
    } else if opcode == KADEMLIA_FIREWALLED_REQ {
        match dec_u16(s) {
            Err(e) => Err(e),
            Ok((tcp_port, _)) => Ok(MessageView::FirewalledReq { tcp_port }),
        }
    } else if opcode == KADEMLIA_FIREWALLED2_REQ {
        match dec_u16(s) {
            Err(e) => Err(e),
            Ok((tcp_port, s)) => match dec_id(s) {
                Err(e) => Err(e),
                Ok((user_hash, s)) => match dec_u8(s) {
                    Err(e) => Err(e),
                    Ok((connect_options, _)) => Ok(
                        MessageView::Firewalled2Req {
                            tcp_port,
                            user_hash: user_hash.0,
                            connect_options,
                        },
                    ),
                },
            },
        }
    } else if opcode == KADEMLIA_FIREWALLED_RES {
        match dec_u32(s) {
            Err(e) => Err(e),
            Ok((ip, _)) => Ok(MessageView::FirewalledRes { ip }),
        }
    } else if opcode == KADEMLIA2_FIREWALLUDP {
        match dec_u8(s) {
            Err(e) => Err(e),
            Ok((error_code, s)) => match dec_u16(s) {
                Err(e) => Err(e),
                Ok((udp_port, _)) => Ok(MessageView::FirewallUdp { error_code, udp_port }),
            },
        }
    } else if opcode == KADEMLIA_FINDBUDDY_REQ {
        match dec_two_ids_port(s) {
            Err(e) => Err(e),
            Ok(((buddy_id, user_id, tcp_port), _)) => Ok(
                MessageView::FindBuddyReq { buddy_id, user_id, tcp_port },
            ),
        }
    } else if opcode == KADEMLIA_FINDBUDDY_RES {
        match dec_two_ids_port(s) {
            Err(e) => Err(e),
            Ok(((buddy_id, user_hash, tcp_port), s)) => Ok(
                MessageView::FindBuddyRes {
                    buddy_id,
                    user_hash: user_hash.0,
                    tcp_port,
                    connect_options: opt_u8(s),
                },
            ),
        }
    } else if opcode == KADEMLIA_CALLBACK_REQ {
        match dec_two_ids_port(s) {
            Err(e) => Err(e),
            Ok(((buddy_id, file_id, tcp_port), _)) => Ok(
                MessageView::CallbackReq { buddy_id, file_id, tcp_port },
            ),
        }
    } else if opcode == KADEMLIA_FIREWALLED_ACK_RES {
        Ok(MessageView::FirewalledAckRes)
    } else if opcode == KADEMLIA_BOOTSTRAP_RES_OLD {
        match dec_bootstrap_contacts(s) {
            Err(e) => Err(e),
            Ok((contacts, _)) => Ok(
                MessageView::BootstrapRes {
                    sender_id: KadId::zero_spec(),
                    tcp_port: 0,
                    version: 1,
                    contacts,
                },
            ),
        }
    } else if opcode == KADEMLIA_SEARCH_RES_OLD || opcode == KADEMLIA_SEARCH_NOTES_RES_OLD {
        match dec_id(s) {
            Err(e) => Err(e),
            Ok((target, s)) => match dec_entry_list(MAX_SEARCH_RESULTS, s) {
                Err(e) => Err(e),
                Ok((results, _)) => Ok(
                    MessageView::SearchRes { sender_id: KadId::zero_spec(), target, results },
                ),
            },
        }
    } else if opcode == KADEMLIA_PUBLISH_RES_OLD {
        match dec_id(s) {
            Err(e) => Err(e),
            Ok((target, _)) => Ok(MessageView::PublishRes { target, load: 0, request_ack: false }),
        }
    } else if is_ignored_legacy(opcode) {
        Ok(MessageView::IgnoredLegacy { opcode })
    } else {
        Err(WireError::UnknownOpcode(opcode))
    }
}

fn read_contacts(r: &mut Reader, n: usize) -> (res: Result<Vec<KadContact>, WireError>)
    ensures
        match dec_many(contact_reader(), n as nat, old(r).rest()) {
            Ok((v, rest)) => res is Ok && res->Ok_0@ == v && final(r).rest() == rest,
            Err(e) => res is Err && res->Err_0 == e,
        },
{
    let ghost p = contact_reader();
    let ghost s0 = r.rest();
    let mut out: Vec<KadContact> = Vec::new();
    let mut i: usize = 0;
    while i < n
        invariant
            i <= n,
            p == contact_reader(),
            s0 == old(r).rest(),
            dec_many(p, i as nat, s0) == Ok::<(Seq<KadContact>, Seq<u8>), WireError>(
                (out@, r.rest()),
            ),
        decreases n - i,
    {
        proof {
            if dec_many(p, i as nat + 1, s0) is Err {
                lemma_dec_many_err(p, i as nat + 1, n as nat, s0);
            }
        }
        let c = KadContact::read_from(r)?;
        out.push(c);
        i = i + 1;
    }
    Ok(out)
}

fn read_results(r: &mut Reader, n: usize) -> (res: Result<Vec<SearchResultEntry>, WireError>)
    ensures
        match dec_many(entry_reader(), n as nat, old(r).rest()) {
            Ok((v, rest)) => res is Ok && result_views(res->Ok_0@) == v && final(r).rest() == rest,
            Err(e) => res is Err && res->Err_0 == e,
        },
{
    let ghost p = entry_reader();
    let ghost s0 = r.rest();
    let mut out: Vec<SearchResultEntry> = Vec::new();
    let mut i: usize = 0;
    assert(result_views(out@) =~= Seq::<EntryView>::empty());
    while i < n
        invariant
            i <= n,
            p == entry_reader(),
            s0 == old(r).rest(),
            dec_many(p, i as nat, s0) == Ok::<(Seq<EntryView>, Seq<u8>), WireError>(
                (result_views(out@), r.rest()),
            ),
        decreases n - i,
    {
        let ghost before = out@;
        proof {
            if dec_many(p, i as nat + 1, s0) is Err {
                lemma_dec_many_err(p, i as nat + 1, n as nat, s0);
            }
        }
        let id = KadId::read_from(r)?;
        let tags = read_tag_list(r)?;
        let x = SearchResultEntry { id, tags };
        out.push(x);
        assert(result_views(out@) =~= result_views(before).push(x@));
        i = i + 1;
    }
    Ok(out)
}

fn read_entries(r: &mut Reader, n: usize) -> (res: Result<Vec<PublishEntry>, WireError>)
    ensures
        match dec_many(entry_reader(), n as nat, old(r).rest()) {
            Ok((v, rest)) => res is Ok && entry_views(res->Ok_0@) == v && final(r).rest() == rest,
            Err(e) => res is Err && res->Err_0 == e,
        },
{
    let ghost p = entry_reader();
    let ghost s0 = r.rest();
    let mut out: Vec<PublishEntry> = Vec::new();
    let mut i: usize = 0;
    assert(entry_views(out@) =~= Seq::<EntryView>::empty());
    while i < n
        invariant
            i <= n,
            p == entry_reader(),
            s0 == old(r).rest(),
            dec_many(p, i as nat, s0) == Ok::<(Seq<EntryView>, Seq<u8>), WireError>(
                (entry_views(out@), r.rest()),
            ),
        decreases n - i,
    {
        let ghost before = out@;
        proof {
            if dec_many(p, i as nat + 1, s0) is Err {
                lemma_dec_many_err(p, i as nat + 1, n as nat, s0);
            }
        }
        let id = KadId::read_from(r)?;
        let tags = read_tag_list(r)?;
        let x = PublishEntry { id, tags };
        out.push(x);
        assert(entry_views(out@) =~= entry_views(before).push(x@));
        i = i + 1;
    }
    Ok(out)
}

fn cap(n: u16, max: usize) -> (r: usize)
    ensures
        r == capped(n, max),
{
    if (n as usize) < max {
        n as usize
    } else {
        max
    }
}

fn read_opt_u8(r: &mut Reader) -> (x: u8)
    ensures
        x == opt_u8(old(r).rest()),
{
    match r.u8() {
        Ok(x) => x,
        Err(_) => 0,
    }
}

fn read_opt_u16(r: &mut Reader) -> (x: u16)
    ensures
        x == opt_u16(old(r).rest()),
        old(r).rest().len() >= 2 ==> final(r).rest() == old(r).rest().skip(2),
{
    match r.u16() {
        Ok(x) => x,
        Err(_) => 0,
    }
}

fn read_opt_u64(r: &mut Reader) -> (x: u64)
    ensures
        x == opt_u64(old(r).rest()),
{
    match r.u64() {
        Ok(x) => x,
        Err(_) => 0,
    }
}

/// Reads the body that follows an opcode.
pub fn decode_message(opcode: u8, r: &mut Reader) -> (res: Result<KadMessage, WireError>)
    ensures
        match dec_message(opcode, old(r).rest()) {
            Ok(m) => res is Ok && res->Ok_0@ == m,
            Err(e) => res is Err && res->Err_0 == e,
        },
{
    if opcode == KADEMLIA2_BOOTSTRAP_REQ || opcode == KADEMLIA_BOOTSTRAP_REQ_OLD {
        Ok(KadMessage::BootstrapReq)
    } else if opcode == KADEMLIA2_BOOTSTRAP_RES {
        let sender_id = KadId::read_from(r)?;
        let tcp_port: u16 = r.u16()?;
        let version: u8 = r.u8()?;
        let n: u16 = r.u16()?;
        let contacts = read_contacts(r, cap(n, MAX_BOOTSTRAP_CONTACTS))?;
        Ok(KadMessage::BootstrapRes { sender_id, tcp_port, version, contacts })
    } else if opcode == KADEMLIA2_HELLO_REQ {
        let sender_id = KadId::read_from(r)?;
        let tcp_port: u16 = r.u16()?;
        let version: u8 = r.u8()?;
        let tags = read_tag_list(r)?;
        Ok(KadMessage::HelloReq { sender_id, tcp_port, version, tags })
    } else if opcode == KADEMLIA2_HELLO_RES {
        let sender_id = KadId::read_from(r)?;
        let tcp_port: u16 = r.u16()?;
        let version: u8 = r.u8()?;
        let tags = read_tag_list(r)?;
        Ok(KadMessage::HelloRes { sender_id, tcp_port, version, tags })
    } else if opcode == KADEMLIA2_HELLO_RES_ACK {
        let sender_id = KadId::read_from(r)?;
        let tags = read_tag_list(r)?;
        Ok(KadMessage::HelloResAck { sender_id, tags })
    } else if opcode == KADEMLIA2_REQ {
        let search_type: u8 = r.u8()?;
        let target = KadId::read_from(r)?;
        let receiver = KadId::read_from(r)?;
        Ok(KadMessage::KadReq { search_type, target, receiver })
    } else if opcode == KADEMLIA2_RES {
        let target = KadId::read_from(r)?;
        let n: u8 = r.u8()?;
        let contacts = read_contacts(r, n as usize)?;
        Ok(KadMessage::KadRes { target, contacts })
    } else if opcode == KADEMLIA2_SEARCH_KEY_REQ {
        let target = KadId::read_from(r)?;
        let start: u16 = read_opt_u16(r);
        let search_terms = if start >= 0x8000 {
            r.to_end()
        } else {
            Vec::new()
        };
        Ok(KadMessage::SearchKeyReq { target, start_position: start % 0x8000, search_terms })
    } else if opcode == KADEMLIA2_SEARCH_SOURCE_REQ {
        let target = KadId::read_from(r)?;
        let start_position: u16 = r.u16()?;
        let file_size: u64 = r.u64()?;
        Ok(KadMessage::SearchSourceReq { target, start_position, file_size })
    } else if opcode == KADEMLIA2_SEARCH_RES {
        let sender_id = KadId::read_from(r)?;
        let target = KadId::read_from(r)?;
        let n: u16 = r.u16()?;
        let results = read_results(r, cap(n, MAX_SEARCH_RESULTS))?;
        Ok(KadMessage::SearchRes { sender_id, target, results })
    } else if opcode == KADEMLIA2_PUBLISH_KEY_REQ {
        let target = KadId::read_from(r)?;
        let n: u16 = r.u16()?;
        let entries = read_entries(r, cap(n, MAX_PUBLISH_ENTRIES))?;
        Ok(KadMessage::PublishKeyReq { target, entries })
    } else if opcode == KADEMLIA2_PUBLISH_SOURCE_REQ {
        let target = KadId::read_from(r)?;
        let sender_id = KadId::read_from(r)?;
        let tags = read_tag_list(r)?;
        Ok(KadMessage::PublishSourceReq { target, sender_id, tags })
    } else if opcode == KADEMLIA2_PUBLISH_RES {
        let target = KadId::read_from(r)?;
        let load: u8 = r.u8()?;
        let request_ack = read_opt_u8(r) % 2 == 1;
        Ok(KadMessage::PublishRes { target, load, request_ack })
    } else if opcode == KADEMLIA2_SEARCH_NOTES_REQ {
        let target = KadId::read_from(r)?;
        let file_size: u64 = read_opt_u64(r);
        Ok(KadMessage::SearchNotesReq { target, file_size })
    } else if opcode == KADEMLIA2_PUBLISH_NOTES_REQ {
        let target = KadId::read_from(r)?;
        let sender_id = KadId::read_from(r)?;
        let tags = read_tag_list(r)?;
        Ok(KadMessage::PublishNotesReq { target, sender_id, tags })
    } else {
        decode_small_message(opcode, r)
    }
}

/// The part of [`decode_message`] for bodies of fixed size and for Kad 1.
fn decode_small_message(opcode: u8, r: &mut Reader) -> (res: Result<KadMessage, WireError>)
    requires
        opcode != KADEMLIA2_BOOTSTRAP_REQ && opcode != KADEMLIA_BOOTSTRAP_REQ_OLD,
        opcode != KADEMLIA2_BOOTSTRAP_RES && opcode != KADEMLIA2_HELLO_REQ,
        opcode != KADEMLIA2_HELLO_RES && opcode != KADEMLIA2_HELLO_RES_ACK,
        opcode != KADEMLIA2_REQ && opcode != KADEMLIA2_RES && opcode != KADEMLIA2_SEARCH_KEY_REQ,
        opcode != KADEMLIA2_SEARCH_SOURCE_REQ && opcode != KADEMLIA2_SEARCH_RES,
        opcode != KADEMLIA2_PUBLISH_KEY_REQ && opcode != KADEMLIA2_PUBLISH_SOURCE_REQ,
        opcode != KADEMLIA2_PUBLISH_RES && opcode != KADEMLIA2_SEARCH_NOTES_REQ,
        opcode != KADEMLIA2_PUBLISH_NOTES_REQ,
    ensures
        match dec_message(opcode, old(r).rest()) {
            Ok(m) => res is Ok && res->Ok_0@ == m,
            Err(e) => res is Err && res->Err_0 == e,
        },
{
    if opcode == KADEMLIA2_PUBLISH_RES_ACK {
        Ok(KadMessage::PublishResAck)
    } else if opcode == KADEMLIA2_PING {
        Ok(KadMessage::Ping)
    } else if opcode == KADEMLIA2_PONG {
        let udp_port: u16 = read_opt_u16(r);
        Ok(KadMessage::Pong { udp_port })
    } else if opcode == KADEMLIA_FIREWALLED_REQ {
        let tcp_port: u16 = r.u16()?;
        Ok(KadMessage::FirewalledReq { tcp_port })
    } else if opcode == KADEMLIA_FIREWALLED2_REQ {
        let tcp_port: u16 = r.u16()?;
        let user_hash = KadId::read_from(r)?;
        let connect_options: u8 = r.u8()?;
        Ok(KadMessage::Firewalled2Req { tcp_port, user_hash: user_hash.0, connect_options })
    } else if opcode == KADEMLIA_FIREWALLED_RES {
        let ip: u32 = r.u32()?;
        Ok(KadMessage::FirewalledRes { ip })
    } else if opcode == KADEMLIA2_FIREWALLUDP {
        let error_code: u8 = r.u8()?;
        let udp_port: u16 = r.u16()?;
        Ok(KadMessage::FirewallUdp { error_code, udp_port })
    } else if opcode == KADEMLIA_FINDBUDDY_REQ {
        let buddy_id = KadId::read_from(r)?;
        let user_id = KadId::read_from(r)?;
        let tcp_port: u16 = r.u16()?;
        Ok(KadMessage::FindBuddyReq { buddy_id, user_id, tcp_port })
    } else if opcode == KADEMLIA_FINDBUDDY_RES {
        let buddy_id = KadId::read_from(r)?;
        let user_hash = KadId::read_from(r)?;
        let tcp_port: u16 = r.u16()?;
        let connect_options: u8 = read_opt_u8(r);
        Ok(KadMessage::FindBuddyRes { buddy_id, user_hash: user_hash.0, tcp_port, connect_options })
    } else if opcode == KADEMLIA_CALLBACK_REQ {
        let buddy_id = KadId::read_from(r)?;
        let file_id = KadId::read_from(r)?;
        let tcp_port: u16 = r.u16()?;
        Ok(KadMessage::CallbackReq { buddy_id, file_id, tcp_port })
    } else if opcode == KADEMLIA_FIREWALLED_ACK_RES {
        Ok(KadMessage::FirewalledAckRes)
    } else if opcode == KADEMLIA_BOOTSTRAP_RES_OLD {
        let n: u16 = r.u16()?;
        let contacts = read_contacts(r, cap(n, MAX_BOOTSTRAP_CONTACTS))?;
        Ok(
            KadMessage::BootstrapRes {
                sender_id: KadId::zero(),
                tcp_port: 0,
                version: 1,
                contacts,
            },
        )
    } else if opcode == KADEMLIA_SEARCH_RES_OLD || opcode == KADEMLIA_SEARCH_NOTES_RES_OLD {
        let target = KadId::read_from(r)?;
        let n: u16 = r.u16()?;
        let results = read_results(r, cap(n, MAX_SEARCH_RESULTS))?;
        Ok(KadMessage::SearchRes { sender_id: KadId::zero(), target, results })
    } else if opcode == KADEMLIA_PUBLISH_RES_OLD {
        let target = KadId::read_from(r)?;
        Ok(KadMessage::PublishRes { target, load: 0, request_ack: false })
    } else if opcode == KADEMLIA_HELLO_REQ_OLD || opcode == KADEMLIA_HELLO_RES_OLD || opcode
        == KADEMLIA_REQ_OLD || opcode == KADEMLIA_RES_OLD || opcode == KADEMLIA_SEARCH_REQ_OLD
        || opcode == KADEMLIA_SEARCH_NOTES_REQ_OLD || opcode == KADEMLIA_PUBLISH_REQ_OLD || opcode
        == KADEMLIA_PUBLISH_NOTES_REQ_OLD || opcode == KADEMLIA_PUBLISH_NOTES_RES_OLD {
        Ok(KadMessage::IgnoredLegacy { opcode })
    } else {
        Err(WireError::UnknownOpcode(opcode))
    }
}

// ---------------------------------------------------------------------------
// Writing
// ---------------------------------------------------------------------------
pub open spec fn contact_writer() -> spec_fn(KadContact) -> Seq<u8> {
    |c: KadContact| enc_contact(c)
}

pub open spec fn enc_entry(x: EntryView) -> Seq<u8> {
    x.id.0@ + enc_tag_list(x.tags)
}

pub open spec fn entry_writer() -> spec_fn(EntryView) -> Seq<u8> {
    |x: EntryView| enc_entry(x)
}

/// The low sixteen bits of a length.
pub open spec fn len16(n: nat) -> Seq<u8> {
    le16((n % 0x1_0000) as u16)
}

pub open spec fn enc_sender(id: KadId, port: u16, version: u8) -> Seq<u8> {
    id.0@ + le16(port) + seq![version]
}

/// The first 255 of some contacts.
pub open spec fn first_255(cs: Seq<KadContact>) -> Seq<KadContact> {
    if cs.len() <= 255 {
        cs
    } else {
        cs.take(255)
    }
}

/// The start position of a keyword search, with the bit that announces terms.
pub open spec fn with_terms_bit(start: u16) -> u16 {
    if start >= 0x8000 {
        start
    } else {
        (start + 0x8000) as u16
    }
}

/// The opcode that a message goes out with.
pub open spec fn opcode_of(m: MessageView) -> u8 {
    match m {
        MessageView::BootstrapReq => KADEMLIA2_BOOTSTRAP_REQ,
        MessageView::BootstrapRes { .. } => KADEMLIA2_BOOTSTRAP_RES,
        MessageView::HelloReq { .. } => KADEMLIA2_HELLO_REQ,
        MessageView::HelloRes { .. } => KADEMLIA2_HELLO_RES,
        MessageView::HelloResAck { .. } => KADEMLIA2_HELLO_RES_ACK,
        MessageView::KadReq { .. } => KADEMLIA2_REQ,
        MessageView::KadRes { .. } => KADEMLIA2_RES,
        MessageView::SearchKeyReq { .. } => KADEMLIA2_SEARCH_KEY_REQ,
        MessageView::SearchSourceReq { .. } => KADEMLIA2_SEARCH_SOURCE_REQ,
        MessageView::SearchNotesReq { .. } => KADEMLIA2_SEARCH_NOTES_REQ,
        MessageView::SearchRes { .. } => KADEMLIA2_SEARCH_RES,
        MessageView::PublishKeyReq { .. } => KADEMLIA2_PUBLISH_KEY_REQ,
        MessageView::PublishSourceReq { .. } => KADEMLIA2_PUBLISH_SOURCE_REQ,
        MessageView::PublishNotesReq { .. } => KADEMLIA2_PUBLISH_NOTES_REQ,
        MessageView::PublishRes { .. } => KADEMLIA2_PUBLISH_RES,
        MessageView::PublishResAck => KADEMLIA2_PUBLISH_RES_ACK,
        MessageView::Ping => KADEMLIA2_PING,
        MessageView::Pong { .. } => KADEMLIA2_PONG,
        MessageView::FirewalledReq { .. } => KADEMLIA_FIREWALLED_REQ,
        MessageView::Firewalled2Req { .. } => KADEMLIA_FIREWALLED2_REQ,
        MessageView::FirewalledRes { .. } => KADEMLIA_FIREWALLED_RES,
        MessageView::FirewallUdp { .. } => KADEMLIA2_FIREWALLUDP,
        MessageView::FindBuddyReq { .. } => KADEMLIA_FINDBUDDY_REQ,
        MessageView::FindBuddyRes { .. } => KADEMLIA_FINDBUDDY_RES,
        MessageView::CallbackReq { .. } => KADEMLIA_CALLBACK_REQ,
        MessageView::FirewalledAckRes => KADEMLIA_FIREWALLED_ACK_RES,
        MessageView::IgnoredLegacy { opcode } => opcode,
    }
}

/// The body that follows the opcode.
pub open spec fn enc_body(m: MessageView) -> Seq<u8> {
    match m {
        MessageView::BootstrapRes { sender_id, tcp_port, version, contacts } => enc_sender(
            sender_id,
            tcp_port,
            version,
        ) + len16(contacts.len()) + enc_many(contact_writer(), contacts),
        MessageView::HelloReq { sender_id, tcp_port, version, tags } => enc_sender(
            sender_id,
            tcp_port,
            version,
        ) + enc_tag_list(tags),
        MessageView::HelloRes { sender_id, tcp_port, version, tags } => enc_sender(
            sender_id,
            tcp_port,
            version,
        ) + enc_tag_list(tags),
        MessageView::HelloResAck { sender_id, tags } => sender_id.0@ + enc_tag_list(tags),
        MessageView::KadReq { search_type, target, receiver } => seq![search_type] + target.0@
            + receiver.0@,
        MessageView::KadRes { target, contacts } => target.0@ + seq![
            first_255(contacts).len() as u8,
        ] + enc_many(contact_writer(), first_255(contacts)),
        MessageView::SearchKeyReq { target, start_position, search_terms } => target.0@ + (
        if search_terms.len() == 0 {
            le16(start_position)
        } else {
            le16(with_terms_bit(start_position)) + search_terms
        }),
        MessageView::SearchSourceReq { target, start_position, file_size } => target.0@ + le16(
            start_position,
        ) + le64(file_size),
        MessageView::SearchNotesReq { target, file_size } => target.0@ + le64(file_size),
        MessageView::SearchRes { sender_id, target, results } => sender_id.0@ + target.0@ + len16(
            results.len(),
        ) + enc_many(entry_writer(), results),
        MessageView::PublishKeyReq { target, entries } => target.0@ + len16(entries.len())
            + enc_many(entry_writer(), entries),
        MessageView::PublishSourceReq { target, sender_id, tags } => target.0@ + sender_id.0@
            + enc_tag_list(tags),
        MessageView::PublishNotesReq { target, sender_id, tags } => target.0@ + sender_id.0@
            + enc_tag_list(tags),
        MessageView::PublishRes { target, load, .. } => target.0@ + seq![load],
        MessageView::Pong { udp_port } => le16(udp_port),
        MessageView::FirewalledReq { tcp_port } => le16(tcp_port),
        MessageView::Firewalled2Req { tcp_port, user_hash, connect_options } => le16(tcp_port)
            + user_hash@ + seq![connect_options],
        MessageView::FirewalledRes { ip } => le32(ip),
        MessageView::FirewallUdp { error_code, udp_port } => seq![error_code] + le16(udp_port),
        MessageView::FindBuddyReq { buddy_id, user_id, tcp_port } => buddy_id.0@ + user_id.0@
            + le16(tcp_port),
        MessageView::FindBuddyRes { buddy_id, user_hash, tcp_port, connect_options } => buddy_id.0@
            + user_hash@ + le16(tcp_port) + seq![connect_options],
        MessageView::CallbackReq { buddy_id, file_id, tcp_port } => buddy_id.0@ + file_id.0@
            + le16(tcp_port),
        _ => Seq::empty(),
    }
}

pub open spec fn entries_fit(xs: Seq<EntryView>) -> bool {
    forall|i: int| 0 <= i < xs.len() ==> tag_list_fits((#[trigger] xs[i]).tags)
}

/// Whether every tag list of the message fits its length fields.
pub open spec fn message_fits(m: MessageView) -> bool {
    match m {
        MessageView::HelloReq { tags, .. } => tag_list_fits(tags),
        MessageView::HelloRes { tags, .. } => tag_list_fits(tags),
        MessageView::HelloResAck { tags, .. } => tag_list_fits(tags),
        MessageView::SearchRes { results, .. } => entries_fit(results),
        MessageView::PublishKeyReq { entries, .. } => entries_fit(entries),
        MessageView::PublishSourceReq { tags, .. } => tag_list_fits(tags),
        MessageView::PublishNotesReq { tags, .. } => tag_list_fits(tags),
        _ => true,
    }
}

/// The opcode and body of a message, or why it has none.
pub open spec fn enc_message(m: MessageView) -> Result<Seq<u8>, WireError> {
    if m is IgnoredLegacy {
        Err(WireError::NotEncodable)
    } else if !message_fits(m) {
        Err(WireError::FieldTooLong)
    } else {
        Ok(seq![opcode_of(m)] + enc_body(m))
    }
}

fn write_contacts(out: &mut Vec<u8>, cs: &Vec<KadContact>, n: usize)
    requires
        n <= cs@.len(),
    ensures
        final(out)@ == old(out)@ + enc_many(contact_writer(), cs@.take(n as int)),
{
    let ghost before = out@;
    let ghost f = contact_writer();
    let mut i: usize = 0;
    assert(out@ =~= before + enc_many(f, cs@.take(0)));
    while i < n
        invariant
            i <= n <= cs@.len(),
            f == contact_writer(),
            out@ == before + enc_many(f, cs@.take(i as int)),
        decreases n - i,
    {
        cs[i].write_to(out);
        assert(cs@.take(i as int + 1).drop_last() =~= cs@.take(i as int));
        assert(out@ =~= before + enc_many(f, cs@.take(i as int + 1)));
        i = i + 1;
    }
}

fn write_results(out: &mut Vec<u8>, xs: &Vec<SearchResultEntry>) -> (res: Result<(), WireError>)
    ensures
        entries_fit(result_views(xs@)) ==> res is Ok && final(out)@ == old(out)@ + enc_many(
            entry_writer(),
            result_views(xs@),
        ),
        !entries_fit(result_views(xs@)) ==> res == Err::<(), WireError>(WireError::FieldTooLong),
{
    let ghost before = out@;
    let ghost f = entry_writer();
    let ghost vs = result_views(xs@);
    let mut i: usize = 0;
    assert(out@ =~= before + enc_many(f, vs.take(0)));
    while i < xs.len()
        invariant
            i <= xs@.len(),
            vs == result_views(xs@),
            f == entry_writer(),
            forall|j: int| 0 <= j < i ==> tag_list_fits((#[trigger] vs[j]).tags),
            out@ == before + enc_many(f, vs.take(i as int)),
        decreases xs@.len() - i,
    {
        assert(vs[i as int] == xs@[i as int]@);
        xs[i].id.write_to(out);
        match write_tag_list(out, &xs[i].tags) {
            Ok(_) => {},
            Err(e) => {
                return Err(e);
            },
        }
        assert(vs.take(i as int + 1).drop_last() =~= vs.take(i as int));
        assert(out@ =~= before + enc_many(f, vs.take(i as int + 1)));
        i = i + 1;
    }
    assert(vs.take(i as int) =~= vs);
    Ok(())
}

fn write_entries(out: &mut Vec<u8>, xs: &Vec<PublishEntry>) -> (res: Result<(), WireError>)
    ensures
        entries_fit(entry_views(xs@)) ==> res is Ok && final(out)@ == old(out)@ + enc_many(
            entry_writer(),
            entry_views(xs@),
        ),
        !entries_fit(entry_views(xs@)) ==> res == Err::<(), WireError>(WireError::FieldTooLong),
{
    let ghost before = out@;
    let ghost f = entry_writer();
    let ghost vs = entry_views(xs@);
    let mut i: usize = 0;
    assert(out@ =~= before + enc_many(f, vs.take(0)));
    while i < xs.len()
        invariant
            i <= xs@.len(),
            vs == entry_views(xs@),
            f == entry_writer(),
            forall|j: int| 0 <= j < i ==> tag_list_fits((#[trigger] vs[j]).tags),
            out@ == before + enc_many(f, vs.take(i as int)),
        decreases xs@.len() - i,
    {
        assert(vs[i as int] == xs@[i as int]@);
        xs[i].id.write_to(out);
        match write_tag_list(out, &xs[i].tags) {
            Ok(_) => {},
            Err(e) => {
                return Err(e);
            },
        }
        assert(vs.take(i as int + 1).drop_last() =~= vs.take(i as int));
        assert(out@ =~= before + enc_many(f, vs.take(i as int + 1)));
        i = i + 1;
    }
    assert(vs.take(i as int) =~= vs);
    Ok(())
}

fn put_sender(out: &mut Vec<u8>, id: &KadId, port: u16, version: u8)
    ensures
        final(out)@ == old(out)@ + enc_sender(*id, port, version),
{
    let ghost before = out@;
    id.write_to(out);
    put_u16(out, port);
    out.push(version);
    assert(out@ =~= before + enc_sender(*id, port, version));
}

fn put_len16(out: &mut Vec<u8>, n: usize)
    ensures
        final(out)@ == old(out)@ + len16(n as nat),
{
    put_u16(out, (n % 0x1_0000) as u16);
}

/// Writes the opcode and the body.
pub fn encode_message(msg: &KadMessage) -> (res: Result<Vec<u8>, WireError>)
    ensures
        match enc_message(msg@) {
            Ok(b) => res is Ok && res->Ok_0@ == b,
            Err(e) => res is Err && res->Err_0 == e,
        },
{
    let mut buf: Vec<u8> = Vec::new();
    let out = &mut buf;
    match msg {
        KadMessage::BootstrapReq => {
            out.push(KADEMLIA2_BOOTSTRAP_REQ);
        },
        KadMessage::BootstrapRes { sender_id, tcp_port, version, contacts } => {
            out.push(KADEMLIA2_BOOTSTRAP_RES);
            put_sender(out, sender_id, *tcp_port, *version);
            put_len16(out, contacts.len());
            assert(contacts@.take(contacts@.len() as int) =~= contacts@);
            write_contacts(out, contacts, contacts.len());
        },
        KadMessage::HelloReq { sender_id, tcp_port, version, tags } => {
            out.push(KADEMLIA2_HELLO_REQ);
            put_sender(out, sender_id, *tcp_port, *version);
            write_tag_list(out, tags)?;
        },
        KadMessage::HelloRes { sender_id, tcp_port, version, tags } => {
            out.push(KADEMLIA2_HELLO_RES);
            put_sender(out, sender_id, *tcp_port, *version);
            write_tag_list(out, tags)?;
        },
        KadMessage::HelloResAck { sender_id, tags } => {
            out.push(KADEMLIA2_HELLO_RES_ACK);
            sender_id.write_to(out);
            write_tag_list(out, tags)?;
        },
        KadMessage::KadReq { search_type, target, receiver } => {
            out.push(KADEMLIA2_REQ);
            out.push(*search_type);
            target.write_to(out);
            receiver.write_to(out);
        },
        KadMessage::KadRes { target, contacts } => {
            out.push(KADEMLIA2_RES);
            target.write_to(out);
            let n: usize = if contacts.len() < 255 {
                contacts.len()
            } else {
                255
            };
            out.push(n as u8);
            assert(contacts@.take(n as int) =~= first_255(contacts@));
            write_contacts(out, contacts, n);
        },
        KadMessage::SearchKeyReq { target, start_position, search_terms } => {
            out.push(KADEMLIA2_SEARCH_KEY_REQ);
            target.write_to(out);
            if search_terms.len() == 0 {
                put_u16(out, *start_position);
            } else {
                let start: u16 = if *start_position >= 0x8000 {
                    *start_position
                } else {
                    *start_position + 0x8000
                };
                put_u16(out, start);
                put_bytes(out, search_terms.as_slice());
            }
        },
        KadMessage::SearchSourceReq { target, start_position, file_size } => {
            out.push(KADEMLIA2_SEARCH_SOURCE_REQ);
            target.write_to(out);
            put_u16(out, *start_position);
            put_u64(out, *file_size);
        },
        KadMessage::SearchRes { sender_id, target, results } => {
            out.push(KADEMLIA2_SEARCH_RES);
            sender_id.write_to(out);
            target.write_to(out);
            put_len16(out, results.len());
            write_results(out, results)?;
        },
        KadMessage::PublishKeyReq { target, entries } => {
            out.push(KADEMLIA2_PUBLISH_KEY_REQ);
            target.write_to(out);
            put_len16(out, entries.len());
            write_entries(out, entries)?;
        },
        KadMessage::PublishSourceReq { target, sender_id, tags } => {
            out.push(KADEMLIA2_PUBLISH_SOURCE_REQ);
            target.write_to(out);
            sender_id.write_to(out);
            write_tag_list(out, tags)?;
        },
        KadMessage::PublishRes { target, load, request_ack } => {
            out.push(KADEMLIA2_PUBLISH_RES);
            target.write_to(out);
            out.push(*load);
        },
        KadMessage::SearchNotesReq { target, file_size } => {
            out.push(KADEMLIA2_SEARCH_NOTES_REQ);
            target.write_to(out);
            put_u64(out, *file_size);
        },
        KadMessage::PublishNotesReq { target, sender_id, tags } => {
            out.push(KADEMLIA2_PUBLISH_NOTES_REQ);
            target.write_to(out);
            sender_id.write_to(out);
            write_tag_list(out, tags)?;
        },
        KadMessage::PublishResAck => {
            out.push(KADEMLIA2_PUBLISH_RES_ACK);
        },
        KadMessage::Ping => {
            out.push(KADEMLIA2_PING);
        },
        KadMessage::Pong { udp_port } => {
            out.push(KADEMLIA2_PONG);
            put_u16(out, *udp_port);
        },
        KadMessage::FirewalledReq { tcp_port } => {
            out.push(KADEMLIA_FIREWALLED_REQ);
            put_u16(out, *tcp_port);
        },
        KadMessage::Firewalled2Req { tcp_port, user_hash, connect_options } => {
            out.push(KADEMLIA_FIREWALLED2_REQ);
            put_u16(out, *tcp_port);
            put_bytes(out, user_hash.as_slice());
            out.push(*connect_options);
        },
        KadMessage::FirewalledRes { ip } => {
            out.push(KADEMLIA_FIREWALLED_RES);
            put_u32(out, *ip);
        },
        KadMessage::FirewallUdp { error_code, udp_port } => {
            out.push(KADEMLIA2_FIREWALLUDP);
            out.push(*error_code);
            put_u16(out, *udp_port);
        },
        KadMessage::FindBuddyReq { buddy_id, user_id, tcp_port } => {
            out.push(KADEMLIA_FINDBUDDY_REQ);
            buddy_id.write_to(out);
            user_id.write_to(out);
            put_u16(out, *tcp_port);
        },
        KadMessage::FindBuddyRes { buddy_id, user_hash, tcp_port, connect_options } => {
            out.push(KADEMLIA_FINDBUDDY_RES);
            buddy_id.write_to(out);
            put_bytes(out, user_hash.as_slice());
            put_u16(out, *tcp_port);
            out.push(*connect_options);
        },
        KadMessage::CallbackReq { buddy_id, file_id, tcp_port } => {
            out.push(KADEMLIA_CALLBACK_REQ);
            buddy_id.write_to(out);
            file_id.write_to(out);
            put_u16(out, *tcp_port);
        },
        KadMessage::FirewalledAckRes => {
            out.push(KADEMLIA_FIREWALLED_ACK_RES);
        },
        KadMessage::IgnoredLegacy { opcode } => {
            return Err(WireError::NotEncodable);
        },
    }
    assert(buf@ =~= seq![opcode_of(msg@)] + enc_body(msg@));
    Ok(buf)
}

// ---------------------------------------------------------------------------
// Reading back what was written
// ---------------------------------------------------------------------------
pub open spec fn tags_canonical(ts: Seq<TagView>) -> bool {
    forall|i: int| 0 <= i < ts.len() ==> #[trigger] tag_canonical(ts[i])
}

pub open spec fn entries_canonical(xs: Seq<EntryView>) -> bool {
    forall|i: int| 0 <= i < xs.len() ==> tags_canonical((#[trigger] xs[i]).tags)
}

/// A message that the wire carries in full: its lists are no longer than a
/// reader takes, its tags survive, a contact holds nothing but wire fields,
/// and it asks for nothing that is never written.
pub open spec fn message_canonical(m: MessageView) -> bool {
    match m {
        MessageView::BootstrapRes { contacts, .. } => contacts.len() <= MAX_BOOTSTRAP_CONTACTS && (
        forall|i: int| 0 <= i < contacts.len() ==> #[trigger] on_wire(contacts[i]) == contacts[i]),
        MessageView::HelloReq { tags, .. } => tags_canonical(tags),
        MessageView::HelloRes { tags, .. } => tags_canonical(tags),
        MessageView::HelloResAck { tags, .. } => tags_canonical(tags),
        MessageView::KadRes { contacts, .. } => contacts.len() <= 255 && (forall|i: int|
            0 <= i < contacts.len() ==> #[trigger] on_wire(contacts[i]) == contacts[i]),
        MessageView::SearchKeyReq { start_position, .. } => start_position < 0x8000,
        MessageView::SearchRes { results, .. } => results.len() <= MAX_SEARCH_RESULTS
            && entries_canonical(results),
        MessageView::PublishKeyReq { entries, .. } => entries.len() <= MAX_PUBLISH_ENTRIES
            && entries_canonical(entries),
        MessageView::PublishSourceReq { tags, .. } => tags_canonical(tags),
        MessageView::PublishNotesReq { tags, .. } => tags_canonical(tags),
        MessageView::PublishRes { request_ack, .. } => !request_ack,
        MessageView::IgnoredLegacy { .. } => false,
        _ => true,
    }
}

proof fn lemma_contacts_round_trip(cs: Seq<KadContact>)
    requires
        forall|i: int| 0 <= i < cs.len() ==> #[trigger] on_wire(cs[i]) == cs[i],
    ensures
        dec_many(contact_reader(), cs.len(), enc_many(contact_writer(), cs)) == Ok::<
            (Seq<KadContact>, Seq<u8>),
            WireError,
        >((cs, Seq::empty())),
{
    let f = contact_writer();
    let p = contact_reader();
    assert forall|i: int, t: Seq<u8>| 0 <= i < cs.len() implies #[trigger] p(f(cs[i]) + t) == Ok::<
        (KadContact, Seq<u8>),
        WireError,
    >((cs[i], t)) by {
        lemma_contact_round_trip(cs[i], t);
        assert(on_wire(cs[i]) == cs[i]);
    }
    lemma_many_round_trip(f, p, cs, cs, Seq::empty());
    assert(enc_many(f, cs) + Seq::<u8>::empty() =~= enc_many(f, cs));
}

proof fn lemma_entry_round_trip(x: EntryView, rest: Seq<u8>)
    requires
        tag_list_fits(x.tags),
        tags_canonical(x.tags),
    ensures
        dec_entry(enc_entry(x) + rest) == Ok::<(EntryView, Seq<u8>), WireError>((x, rest)),
{
    assert(enc_entry(x) + rest =~= x.id.0@ + (enc_tag_list(x.tags) + rest));
    lemma_id_round_trip(x.id, enc_tag_list(x.tags) + rest);
    lemma_tag_list_round_trip(x.tags, rest);
}

proof fn lemma_entries_round_trip(xs: Seq<EntryView>)
    requires
        entries_fit(xs),
        entries_canonical(xs),
    ensures
        dec_many(entry_reader(), xs.len(), enc_many(entry_writer(), xs)) == Ok::<
            (Seq<EntryView>, Seq<u8>),
            WireError,
        >((xs, Seq::empty())),
{
    let f = entry_writer();
    let p = entry_reader();
    assert forall|i: int, t: Seq<u8>| 0 <= i < xs.len() implies #[trigger] p(f(xs[i]) + t) == Ok::<
        (EntryView, Seq<u8>),
        WireError,
    >((xs[i], t)) by {
        lemma_entry_round_trip(xs[i], t);
    }
    lemma_many_round_trip(f, p, xs, xs, Seq::empty());
    assert(enc_many(f, xs) + Seq::<u8>::empty() =~= enc_many(f, xs));
}

proof fn lemma_sender_round_trip(id: KadId, port: u16, version: u8, rest: Seq<u8>)
    ensures
        dec_sender(enc_sender(id, port, version) + rest) == Ok::<
            ((KadId, u16, u8), Seq<u8>),
            WireError,
        >(((id, port, version), rest)),
{
    let s2 = seq![version] + rest;
    let s1 = le16(port) + s2;
    assert(enc_sender(id, port, version) + rest =~= id.0@ + s1);
    lemma_id_round_trip(id, s1);
    lemma_le16_round_trip(port, s2);
    lemma_u8_round_trip(version, rest);
}

proof fn lemma_two_ids_round_trip(a: KadId, b: KadId, rest: Seq<u8>)
    ensures
        dec_two_ids(a.0@ + b.0@ + rest) == Ok::<((KadId, KadId), Seq<u8>), WireError>(
            ((a, b), rest),
        ),
{
    assert(a.0@ + b.0@ + rest =~= a.0@ + (b.0@ + rest));
    lemma_id_round_trip(a, b.0@ + rest);
    lemma_id_round_trip(b, rest);
}

proof fn lemma_tag_list_to_end(ts: Seq<TagView>)
    requires
        tag_list_fits(ts),
        tags_canonical(ts),
    ensures
        dec_tag_list(enc_tag_list(ts)) == Ok::<(Seq<TagView>, Seq<u8>), WireError>(
            (ts, Seq::empty()),
        ),
{
    lemma_tag_list_round_trip(ts, Seq::empty());
    assert(enc_tag_list(ts) + Seq::<u8>::empty() =~= enc_tag_list(ts));
}

proof fn lemma_bootstrap_contacts_round_trip(cs: Seq<KadContact>)
    requires
        cs.len() <= MAX_BOOTSTRAP_CONTACTS,
        forall|i: int| 0 <= i < cs.len() ==> #[trigger] on_wire(cs[i]) == cs[i],
    ensures
        dec_bootstrap_contacts(len16(cs.len()) + enc_many(contact_writer(), cs)) == Ok::<
            (Seq<KadContact>, Seq<u8>),
            WireError,
        >((cs, Seq::empty())),
{
    let n = cs.len() as u16;
    assert(len16(cs.len()) == le16(n));
    lemma_le16_round_trip(n, enc_many(contact_writer(), cs));
    lemma_contacts_round_trip(cs);
}

proof fn lemma_bootstrap_res_round_trip(m: MessageView)
    requires
        message_fits(m),
        message_canonical(m),
        m is BootstrapRes,
    ensures
        dec_message(opcode_of(m), enc_body(m)) == Ok::<MessageView, WireError>(m),
{
    if let MessageView::BootstrapRes { sender_id, tcp_port, version, contacts } = m {
        let s = len16(contacts.len()) + enc_many(contact_writer(), contacts);
        assert(enc_body(m) =~= enc_sender(sender_id, tcp_port, version) + s);
        lemma_sender_round_trip(sender_id, tcp_port, version, s);
        lemma_bootstrap_contacts_round_trip(contacts);
    }
}

proof fn lemma_hello_req_round_trip(m: MessageView)
    requires
        message_fits(m),
        message_canonical(m),
        m is HelloReq,
    ensures
        dec_message(opcode_of(m), enc_body(m)) == Ok::<MessageView, WireError>(m),
{
    if let MessageView::HelloReq { sender_id, tcp_port, version, tags } = m {
        lemma_sender_round_trip(sender_id, tcp_port, version, enc_tag_list(tags));
        lemma_tag_list_to_end(tags);
    }
}

proof fn lemma_hello_res_round_trip(m: MessageView)
    requires
        message_fits(m),
        message_canonical(m),
        m is HelloRes,
    ensures
        dec_message(opcode_of(m), enc_body(m)) == Ok::<MessageView, WireError>(m),
{
    if let MessageView::HelloRes { sender_id, tcp_port, version, tags } = m {
        lemma_sender_round_trip(sender_id, tcp_port, version, enc_tag_list(tags));
        lemma_tag_list_to_end(tags);
    }
}

proof fn lemma_hello_res_ack_round_trip(m: MessageView)
    requires
        message_fits(m),
        message_canonical(m),
        m is HelloResAck,
    ensures
        dec_message(opcode_of(m), enc_body(m)) == Ok::<MessageView, WireError>(m),
{
    let e = Seq::<u8>::empty();
    let b = enc_body(m);
    if let MessageView::HelloResAck { sender_id, tags } = m {
        let x = EntryView { id: sender_id, tags };
        lemma_entry_round_trip(x, e);
        assert(b =~= enc_entry(x) + e);
    }
}

proof fn lemma_kad_res_round_trip(m: MessageView)
    requires
        message_fits(m),
        message_canonical(m),
        m is KadRes,
    ensures
        dec_message(opcode_of(m), enc_body(m)) == Ok::<MessageView, WireError>(m),
{
    let b = enc_body(m);
    if let MessageView::KadRes { target, contacts } = m {
        let cs = enc_many(contact_writer(), contacts);
        assert(b =~= target.0@ + (seq![contacts.len() as u8] + cs));
        lemma_id_round_trip(target, seq![contacts.len() as u8] + cs);
        lemma_u8_round_trip(contacts.len() as u8, cs);
        lemma_contacts_round_trip(contacts);
    }
}

proof fn lemma_search_res_round_trip(m: MessageView)
    requires
        message_fits(m),
        message_canonical(m),
        m is SearchRes,
    ensures
        dec_message(opcode_of(m), enc_body(m)) == Ok::<MessageView, WireError>(m),
{
    if let MessageView::SearchRes { sender_id, target, results } = m {
        let s = len16(results.len()) + enc_many(entry_writer(), results);
        assert(enc_body(m) =~= sender_id.0@ + target.0@ + s);
        lemma_two_ids_round_trip(sender_id, target, s);
        lemma_entry_list_round_trip(results, MAX_SEARCH_RESULTS);
    }
}

proof fn lemma_entry_list_round_trip(xs: Seq<EntryView>, max: usize)
    requires
        xs.len() <= max <= 0xFFFF,
        entries_fit(xs),
        entries_canonical(xs),
    ensures
        dec_entry_list(max, len16(xs.len()) + enc_many(entry_writer(), xs)) == Ok::<
            (Seq<EntryView>, Seq<u8>),
            WireError,
        >((xs, Seq::empty())),
{
    let s = enc_many(entry_writer(), xs);
    let n = xs.len() as u16;
    assert(len16(xs.len()) == le16(n));
    lemma_le16_round_trip(n, s);
    lemma_entries_round_trip(xs);
}

proof fn lemma_publish_key_req_round_trip(m: MessageView)
    requires
        message_fits(m),
        message_canonical(m),
        m is PublishKeyReq,
    ensures
        dec_message(opcode_of(m), enc_body(m)) == Ok::<MessageView, WireError>(m),
{
    if let MessageView::PublishKeyReq { target, entries } = m {
        let s = len16(entries.len()) + enc_many(entry_writer(), entries);
        assert(enc_body(m) =~= target.0@ + s);
        lemma_id_round_trip(target, s);
        lemma_entry_list_round_trip(entries, MAX_PUBLISH_ENTRIES);
    }
}

proof fn lemma_publish_source_req_round_trip(m: MessageView)
    requires
        message_fits(m),
        message_canonical(m),
        m is PublishSourceReq,
    ensures
        dec_message(opcode_of(m), enc_body(m)) == Ok::<MessageView, WireError>(m),
{
    if let MessageView::PublishSourceReq { target, sender_id, tags } = m {
        lemma_two_ids_round_trip(target, sender_id, enc_tag_list(tags));
        lemma_tag_list_to_end(tags);
    }
}

proof fn lemma_publish_notes_req_round_trip(m: MessageView)
    requires
        message_fits(m),
        message_canonical(m),
        m is PublishNotesReq,
    ensures
        dec_message(opcode_of(m), enc_body(m)) == Ok::<MessageView, WireError>(m),
{
    if let MessageView::PublishNotesReq { target, sender_id, tags } = m {
        lemma_two_ids_round_trip(target, sender_id, enc_tag_list(tags));
        lemma_tag_list_to_end(tags);
    }
}

proof fn lemma_kad_req_round_trip(m: MessageView)
    requires
        message_fits(m),
        message_canonical(m),
        m is KadReq,
    ensures
        dec_message(opcode_of(m), enc_body(m)) == Ok::<MessageView, WireError>(m),
{
    let e = Seq::<u8>::empty();
    let b = enc_body(m);
    if let MessageView::KadReq { search_type, target, receiver } = m {
        assert(b =~= seq![search_type] + (target.0@ + receiver.0@ + e));
        lemma_u8_round_trip(search_type, target.0@ + receiver.0@ + e);
        lemma_two_ids_round_trip(target, receiver, e);
    }
}

proof fn lemma_search_key_req_round_trip(m: MessageView)
    requires
        message_fits(m),
        message_canonical(m),
        m is SearchKeyReq,
    ensures
        dec_message(opcode_of(m), enc_body(m)) == Ok::<MessageView, WireError>(m),
{
    let e = Seq::<u8>::empty();
    let b = enc_body(m);
    if let MessageView::SearchKeyReq { target, start_position, search_terms } = m {
        let start = if search_terms.len() == 0 {
            start_position
        } else {
            with_terms_bit(start_position)
        };
        let s = le16(start) + search_terms;
        assert(b == target.0@ + s) by {
            if search_terms.len() == 0 {
                assert(s =~= le16(start_position));
            }
        }
        lemma_id_round_trip(target, s);
        assert(opt_u16(s) == start && s.skip(2) == search_terms) by {
            lemma_le16_round_trip(start, search_terms);
        }
        assert(start % 0x8000 == start_position);
        assert(search_terms.len() == 0 ==> search_terms =~= e);
    }
}

proof fn lemma_search_source_req_round_trip(m: MessageView)
    requires
        message_fits(m),
        message_canonical(m),
        m is SearchSourceReq,
    ensures
        dec_message(opcode_of(m), enc_body(m)) == Ok::<MessageView, WireError>(m),
{
    let e = Seq::<u8>::empty();
    let b = enc_body(m);
    if let MessageView::SearchSourceReq { target, start_position, file_size } = m {
        assert(b =~= target.0@ + (le16(start_position) + (le64(file_size) + e)));
        lemma_id_round_trip(target, le16(start_position) + (le64(file_size) + e));
        lemma_le16_round_trip(start_position, le64(file_size) + e);
        lemma_le64_round_trip(file_size, e);
    }
}

proof fn lemma_search_notes_req_round_trip(m: MessageView)
    requires
        message_fits(m),
        message_canonical(m),
        m is SearchNotesReq,
    ensures
        dec_message(opcode_of(m), enc_body(m)) == Ok::<MessageView, WireError>(m),
{
    let e = Seq::<u8>::empty();
    let b = enc_body(m);
    if let MessageView::SearchNotesReq { target, file_size } = m {
        assert(b =~= target.0@ + (le64(file_size) + e));
        lemma_id_round_trip(target, le64(file_size) + e);
        lemma_le64_round_trip(file_size, e);
    }
}

proof fn lemma_publish_res_round_trip(m: MessageView)
    requires
        message_fits(m),
        message_canonical(m),
        m is PublishRes,
    ensures
        dec_message(opcode_of(m), enc_body(m)) == Ok::<MessageView, WireError>(m),
{
    let e = Seq::<u8>::empty();
    let b = enc_body(m);
    if let MessageView::PublishRes { target, load, request_ack } = m {
        assert(b =~= target.0@ + (seq![load] + e));
        lemma_id_round_trip(target, seq![load] + e);
        lemma_u8_round_trip(load, e);
    }
}

proof fn lemma_pong_round_trip(m: MessageView)
    requires
        message_fits(m),
        message_canonical(m),
        m is Pong,
    ensures
        dec_message(opcode_of(m), enc_body(m)) == Ok::<MessageView, WireError>(m),
{
    let e = Seq::<u8>::empty();
    let b = enc_body(m);
    if let MessageView::Pong { udp_port } = m {
        assert(b =~= le16(udp_port) + e);
        lemma_le16_round_trip(udp_port, e);
    }
}

proof fn lemma_firewalled_req_round_trip(m: MessageView)
    requires
        message_fits(m),
        message_canonical(m),
        m is FirewalledReq,
    ensures
        dec_message(opcode_of(m), enc_body(m)) == Ok::<MessageView, WireError>(m),
{
    let e = Seq::<u8>::empty();
    let b = enc_body(m);
    if let MessageView::FirewalledReq { tcp_port } = m {
        assert(b =~= le16(tcp_port) + e);
        lemma_le16_round_trip(tcp_port, e);
    }
}

proof fn lemma_firewalled2_req_round_trip(m: MessageView)
    requires
        message_fits(m),
        message_canonical(m),
        m is Firewalled2Req,
    ensures
        dec_message(opcode_of(m), enc_body(m)) == Ok::<MessageView, WireError>(m),
{
    let e = Seq::<u8>::empty();
    let b = enc_body(m);
    if let MessageView::Firewalled2Req { tcp_port, user_hash, connect_options } = m {
        let s2 = seq![connect_options] + e;
        assert(b =~= le16(tcp_port) + (user_hash@ + s2));
        lemma_le16_round_trip(tcp_port, user_hash@ + s2);
        lemma_id_round_trip(KadId(user_hash), s2);
        lemma_u8_round_trip(connect_options, e);
    }
}

proof fn lemma_firewalled_res_round_trip(m: MessageView)
    requires
        message_fits(m),
        message_canonical(m),
        m is FirewalledRes,
    ensures
        dec_message(opcode_of(m), enc_body(m)) == Ok::<MessageView, WireError>(m),
{
    let e = Seq::<u8>::empty();
    let b = enc_body(m);
    if let MessageView::FirewalledRes { ip } = m {
        assert(b =~= le32(ip) + e);
        lemma_le32_round_trip(ip, e);
    }
}

proof fn lemma_firewall_udp_round_trip(m: MessageView)
    requires
        message_fits(m),
        message_canonical(m),
        m is FirewallUdp,
    ensures
        dec_message(opcode_of(m), enc_body(m)) == Ok::<MessageView, WireError>(m),
{
    let e = Seq::<u8>::empty();
    let b = enc_body(m);
    if let MessageView::FirewallUdp { error_code, udp_port } = m {
        assert(b =~= seq![error_code] + (le16(udp_port) + e));
        lemma_u8_round_trip(error_code, le16(udp_port) + e);
        lemma_le16_round_trip(udp_port, e);
    }
}

proof fn lemma_find_buddy_req_round_trip(m: MessageView)
    requires
        message_fits(m),
        message_canonical(m),
        m is FindBuddyReq,
    ensures
        dec_message(opcode_of(m), enc_body(m)) == Ok::<MessageView, WireError>(m),
{
    let e = Seq::<u8>::empty();
    let b = enc_body(m);
    if let MessageView::FindBuddyReq { buddy_id, user_id, tcp_port } = m {
        assert(b =~= buddy_id.0@ + user_id.0@ + (le16(tcp_port) + e));
        lemma_two_ids_round_trip(buddy_id, user_id, le16(tcp_port) + e);
        lemma_le16_round_trip(tcp_port, e);
    }
}

proof fn lemma_find_buddy_res_round_trip(m: MessageView)
    requires
        message_fits(m),
        message_canonical(m),
        m is FindBuddyRes,
    ensures
        dec_message(opcode_of(m), enc_body(m)) == Ok::<MessageView, WireError>(m),
{
    let e = Seq::<u8>::empty();
    let b = enc_body(m);
    if let MessageView::FindBuddyRes { buddy_id, user_hash, tcp_port, connect_options } = m {
        let s2 = seq![connect_options] + e;
        assert(b =~= buddy_id.0@ + KadId(user_hash).0@ + (le16(tcp_port) + s2));
        lemma_two_ids_round_trip(buddy_id, KadId(user_hash), le16(tcp_port) + s2);
        lemma_le16_round_trip(tcp_port, s2);
        lemma_u8_round_trip(connect_options, e);
    }
}

proof fn lemma_callback_req_round_trip(m: MessageView)
    requires
        message_fits(m),
        message_canonical(m),
        m is CallbackReq,
    ensures
        dec_message(opcode_of(m), enc_body(m)) == Ok::<MessageView, WireError>(m),
{
    let e = Seq::<u8>::empty();
    let b = enc_body(m);
    if let MessageView::CallbackReq { buddy_id, file_id, tcp_port } = m {
        assert(b =~= buddy_id.0@ + file_id.0@ + (le16(tcp_port) + e));
        lemma_two_ids_round_trip(buddy_id, file_id, le16(tcp_port) + e);
        lemma_le16_round_trip(tcp_port, e);
    }
}

/// Reading a written message gives that message back.
pub proof fn lemma_message_round_trip(m: MessageView)
    requires
        message_fits(m),
        message_canonical(m),
    ensures
        dec_message(opcode_of(m), enc_body(m)) == Ok::<MessageView, WireError>(m),
{
    match m {
        MessageView::BootstrapRes { .. } => lemma_bootstrap_res_round_trip(m),
        MessageView::HelloReq { .. } => lemma_hello_req_round_trip(m),
        MessageView::HelloRes { .. } => lemma_hello_res_round_trip(m),
        MessageView::HelloResAck { .. } => lemma_hello_res_ack_round_trip(m),
        MessageView::KadRes { .. } => lemma_kad_res_round_trip(m),
        MessageView::SearchRes { .. } => lemma_search_res_round_trip(m),
        MessageView::PublishKeyReq { .. } => lemma_publish_key_req_round_trip(m),
        MessageView::PublishSourceReq { .. } => lemma_publish_source_req_round_trip(m),
        MessageView::PublishNotesReq { .. } => lemma_publish_notes_req_round_trip(m),
        MessageView::KadReq { .. } => lemma_kad_req_round_trip(m),
        MessageView::SearchKeyReq { .. } => lemma_search_key_req_round_trip(m),
        MessageView::SearchSourceReq { .. } => lemma_search_source_req_round_trip(m),
        MessageView::SearchNotesReq { .. } => lemma_search_notes_req_round_trip(m),
        MessageView::PublishRes { .. } => lemma_publish_res_round_trip(m),
        MessageView::Pong { .. } => lemma_pong_round_trip(m),
        MessageView::FirewalledReq { .. } => lemma_firewalled_req_round_trip(m),
        MessageView::Firewalled2Req { .. } => lemma_firewalled2_req_round_trip(m),
        MessageView::FirewalledRes { .. } => lemma_firewalled_res_round_trip(m),
        MessageView::FirewallUdp { .. } => lemma_firewall_udp_round_trip(m),
        MessageView::FindBuddyReq { .. } => lemma_find_buddy_req_round_trip(m),
        MessageView::FindBuddyRes { .. } => lemma_find_buddy_res_round_trip(m),
        MessageView::CallbackReq { .. } => lemma_callback_req_round_trip(m),
        _ => {},
    }
}

// ---------------------------------------------------------------------------
// Packets
// ---------------------------------------------------------------------------
/// How an inflating reader can fail.
#[derive(Clone, Copy, Debug, PartialEq, Eq, Structural)]
pub enum InflateError {
    InvalidData,
    UnexpectedEof,
    Other,
    Unlisted,
}

/// What reading a zlib stream to its end gives, cut off after `limit` bytes.
pub uninterp spec fn zlib_inflated(data: Seq<u8>, limit: u64) -> Result<Seq<u8>, InflateError>;

/// What reading a raw deflate stream to its end gives, cut off after `limit` bytes.
pub uninterp spec fn deflate_inflated(data: Seq<u8>, limit: u64) -> Result<Seq<u8>, InflateError>;

/// What compressing some bytes into a zlib stream at the best level gives.
pub uninterp spec fn zlib_deflated(data: Seq<u8>) -> Option<Seq<u8>>;

/// Calls `flate2::read::ZlibDecoder` and reads it to the end, or until it has
/// given `limit` bytes. The outcome is a function of the two arguments; what
/// it gives is no longer than the limit.
#[verifier::external_body]
fn zlib_inflate(data: &[u8], limit: u64) -> (r: Result<Vec<u8>, InflateError>)
    ensures
        r is Ok ==> zlib_inflated(data@, limit) == Ok::<Seq<u8>, InflateError>(r->Ok_0@),
        r is Err ==> zlib_inflated(data@, limit) == Err::<Seq<u8>, InflateError>(r->Err_0),
        r is Ok ==> r->Ok_0@.len() <= limit,
{
    let mut out: Vec<u8> = Vec::new();
    match flate2::read::ZlibDecoder::new(data).take(limit).read_to_end(&mut out) {
        Ok(_) => Ok(out),
        Err(e) => Err(
            match e.kind() {
                std::io::ErrorKind::InvalidData => InflateError::InvalidData,
                std::io::ErrorKind::UnexpectedEof => InflateError::UnexpectedEof,
                std::io::ErrorKind::Other => InflateError::Other,
                _ => InflateError::Unlisted,
            },
        ),
    }
}

/// Calls `flate2::read::DeflateDecoder` and reads it to the end, or until it
/// has given `limit` bytes. The outcome is a function of the two arguments;
/// what it gives is no longer than the limit.
#[verifier::external_body]
fn deflate_inflate(data: &[u8], limit: u64) -> (r: Result<Vec<u8>, InflateError>)
    ensures
        r is Ok ==> deflate_inflated(data@, limit) == Ok::<Seq<u8>, InflateError>(r->Ok_0@),
        r is Err ==> deflate_inflated(data@, limit) == Err::<Seq<u8>, InflateError>(r->Err_0),
        r is Ok ==> r->Ok_0@.len() <= limit,
{
    let mut out: Vec<u8> = Vec::new();
    match flate2::read::DeflateDecoder::new(data).take(limit).read_to_end(&mut out) {
        Ok(_) => Ok(out),
        Err(e) => Err(
            match e.kind() {
                std::io::ErrorKind::InvalidData => InflateError::InvalidData,
                std::io::ErrorKind::UnexpectedEof => InflateError::UnexpectedEof,
                std::io::ErrorKind::Other => InflateError::Other,
                _ => InflateError::Unlisted,
            },
        ),
    }
}

/// Calls `flate2::write::ZlibEncoder` at `Compression::best()` on all of
/// `data`. The stream is a function of the bytes, it starts with a header and
/// so is not empty, and inflating it with a limit above the number of bytes
/// gives them back.
#[verifier::external_body]
fn zlib_deflate(data: &[u8]) -> (r: Option<Vec<u8>>)
    ensures
        (r is Some) == (zlib_deflated(data@) is Some),
        r is Some ==> r->Some_0@ == zlib_deflated(data@)->Some_0,
        r is Some ==> r->Some_0@.len() > 0,
        r is Some ==> (forall|limit: u64|
            limit > data@.len() ==> #[trigger] zlib_inflated(r->Some_0@, limit) == Ok::<
                Seq<u8>,
                InflateError,
            >(data@)),
{
    let mut enc = flate2::write::ZlibEncoder::new(Vec::new(), flate2::Compression::best());
    match enc.write_all(data) {
        Ok(_) => enc.finish().ok(),
        Err(_) => None,
    }
}

/// One byte more than a body may inflate to.
pub const INFLATE_LIMIT: u64 = 524289;

/// The body of a compressed packet: a zlib stream, or where that is broken or
/// too long a raw deflate stream.
pub open spec fn inflated(c: Seq<u8>) -> Result<Seq<u8>, WireError> {
    match zlib_inflated(c, INFLATE_LIMIT) {
        Ok(b) => if b.len() <= MAX_DECOMPRESSED_SIZE {
            Ok(b)
        } else {
            raw_inflated(c)
        },
        Err(InflateError::Unlisted) => Err(WireError::CorruptStream),
        Err(_) => raw_inflated(c),
    }
}

pub open spec fn raw_inflated(c: Seq<u8>) -> Result<Seq<u8>, WireError> {
    match deflate_inflated(c, INFLATE_LIMIT) {
        Ok(b) => if b.len() <= MAX_DECOMPRESSED_SIZE {
            Ok(b)
        } else {
            Err(WireError::DecompressedTooLarge)
        },
        Err(_) => Err(WireError::CorruptStream),
    }
}

/// The message that a UDP packet stands for.
pub open spec fn dec_packet(data: Seq<u8>) -> Result<MessageView, WireError> {
    if data.len() == 0 {
        Err(WireError::EmptyPacket)
    } else if data[0] == OP_KADEMLIAHEADER {
        if data.len() < 2 {
            Err(WireError::EmptyPayload)
        } else {
            dec_message(data[1], data.skip(2))
        }
    } else if data[0] == OP_KADEMLIAPACKEDPROT {
        if data.len() < 3 {
            Err(WireError::CompressedTooShort)
        } else {
            match inflated(data.skip(2)) {
                Err(e) => Err(e),
                Ok(body) => dec_message(data[1], body),
            }
        }
    } else {
        Err(WireError::UnknownHeader(data[0]))
    }
}

fn raw_inflate(c: &[u8]) -> (r: Result<Vec<u8>, WireError>)
    ensures
        match raw_inflated(c@) {
            Ok(b) => r is Ok && r->Ok_0@ == b,
            Err(e) => r is Err && r->Err_0 == e,
        },
{
    match deflate_inflate(c, INFLATE_LIMIT) {
        Ok(b) => if b.len() <= MAX_DECOMPRESSED_SIZE {
            Ok(b)
        } else {
            Err(WireError::DecompressedTooLarge)
        },
        Err(_) => Err(WireError::CorruptStream),
    }
}

fn inflate(c: &[u8]) -> (r: Result<Vec<u8>, WireError>)
    ensures
        match inflated(c@) {
            Ok(b) => r is Ok && r->Ok_0@ == b,
            Err(e) => r is Err && r->Err_0 == e,
        },
{
    match zlib_inflate(c, INFLATE_LIMIT) {
        Ok(b) => if b.len() <= MAX_DECOMPRESSED_SIZE {
            Ok(b)
        } else {
            raw_inflate(c)
        },
        Err(InflateError::Unlisted) => Err(WireError::CorruptStream),
        Err(_) => raw_inflate(c),
    }
}

/// Reads the message out of a UDP packet.
pub fn decode_packet(data: &[u8]) -> (res: Result<KadMessage, WireError>)
    ensures
        match dec_packet(data@) {
            Ok(m) => res is Ok && res->Ok_0@ == m,
            Err(e) => res is Err && res->Err_0 == e,
        },
{
    if data.len() == 0 {
        return Err(WireError::EmptyPacket);
    }
    let header: u8 = data[0];
    if header == OP_KADEMLIAHEADER {
        if data.len() < 2 {
            return Err(WireError::EmptyPayload);
        }
        let body = vstd::slice::slice_subrange(data, 2, data.len());
        assert(body@ =~= data@.skip(2));
        let mut r = Reader::new(body);
        decode_message(data[1], &mut r)
    } else if header == OP_KADEMLIAPACKEDPROT {
        if data.len() < 3 {
            return Err(WireError::CompressedTooShort);
        }
        let c = vstd::slice::slice_subrange(data, 2, data.len());
        assert(c@ =~= data@.skip(2));
        let body = inflate(c)?;
        let mut r = Reader::new(body.as_slice());
        decode_message(data[1], &mut r)
    } else {
        Err(WireError::UnknownHeader(header))
    }
}

/// The packet that a message goes out in: as it is while it fits one
/// fragment, else with its body compressed.
pub open spec fn enc_packet(m: MessageView) -> Result<Seq<u8>, WireError> {
    match enc_message(m) {
        Err(e) => Err(e),
        Ok(p) => if p.len() > UDP_KAD_MAXFRAGMENT - 1 {
            match zlib_deflated(enc_body(m)) {
                None => Err(WireError::CompressFailed),
                Some(z) => if 2 + z.len() > UDP_KAD_MAXFRAGMENT {
                    Err(WireError::FragmentTooLarge)
                } else {
                    Ok(seq![OP_KADEMLIAPACKEDPROT, opcode_of(m)] + z)
                },
            }
        } else {
            Ok(seq![OP_KADEMLIAHEADER] + p)
        },
    }
}

/// A message that went out as it is comes back from its packet.
pub proof fn lemma_plain_packet_round_trip(m: MessageView)
    requires
        message_fits(m),
        message_canonical(m),
    ensures
        dec_packet(seq![OP_KADEMLIAHEADER] + (seq![opcode_of(m)] + enc_body(m))) == Ok::<
            MessageView,
            WireError,
        >(m),
{
    let d = seq![OP_KADEMLIAHEADER] + (seq![opcode_of(m)] + enc_body(m));
    assert(d.skip(2) =~= enc_body(m));
    assert(d[0] == OP_KADEMLIAHEADER && d[1] == opcode_of(m));
    lemma_message_round_trip(m);
}

/// A message whose body went out compressed comes back from its packet.
pub proof fn lemma_packed_packet_round_trip(m: MessageView, z: Seq<u8>)
    requires
        message_fits(m),
        message_canonical(m),
        enc_body(m).len() <= MAX_DECOMPRESSED_SIZE,
        z.len() > 0,
        zlib_inflated(z, INFLATE_LIMIT) == Ok::<Seq<u8>, InflateError>(enc_body(m)),
    ensures
        dec_packet(seq![OP_KADEMLIAPACKEDPROT, opcode_of(m)] + z) == Ok::<MessageView, WireError>(
            m,
        ),
{
    let d = seq![OP_KADEMLIAPACKEDPROT, opcode_of(m)] + z;
    assert(d.skip(2) =~= z);
    assert(d[0] == OP_KADEMLIAPACKEDPROT && d[1] == opcode_of(m));
    lemma_message_round_trip(m);
}

/// Packs a message into a UDP packet. A packet never exceeds one fragment, and
/// reading it gives the message back, as long as the wire carries the message
/// in full and its body is no longer than a reader inflates.
pub fn encode_packet(msg: &KadMessage) -> (res: Result<Vec<u8>, WireError>)
    ensures
        match enc_packet(msg@) {
            Ok(b) => res is Ok && res->Ok_0@ == b,
            Err(e) => res is Err && res->Err_0 == e,
        },
        res is Ok ==> 2 <= res->Ok_0@.len() <= UDP_KAD_MAXFRAGMENT,
        res is Ok && message_canonical(msg@) && enc_body(msg@).len() <= MAX_DECOMPRESSED_SIZE
            ==> dec_packet(res->Ok_0@) == Ok::<MessageView, WireError>(msg@),
{
    let payload = encode_message(msg)?;
    let ghost m = msg@;
    assert(enc_message(m) == Ok::<Seq<u8>, WireError>(payload@));
    assert(message_fits(m) && payload@ == seq![opcode_of(m)] + enc_body(m));
    if payload.len() > UDP_KAD_MAXFRAGMENT - 1 {
        let opcode: u8 = payload[0];
        let body = vstd::slice::slice_subrange(payload.as_slice(), 1, payload.len());
        assert(body@ =~= enc_body(m));
        let z = match zlib_deflate(body) {
            Some(z) => z,
            None => {
                return Err(WireError::CompressFailed);
            },
        };
        if z.len() > UDP_KAD_MAXFRAGMENT - 2 {
            return Err(WireError::FragmentTooLarge);
        }
        let mut packet: Vec<u8> = Vec::new();
        packet.push(OP_KADEMLIAPACKEDPROT);
        packet.push(opcode);
        put_bytes(&mut packet, z.as_slice());
        assert(packet@ =~= seq![OP_KADEMLIAPACKEDPROT, opcode_of(m)] + z@);
        proof {
            if message_canonical(m) && enc_body(m).len() <= MAX_DECOMPRESSED_SIZE {
                assert(zlib_inflated(z@, INFLATE_LIMIT) == Ok::<Seq<u8>, InflateError>(body@));
                lemma_packed_packet_round_trip(m, z@);
            }
        }
        Ok(packet)
    } else {
        let mut packet: Vec<u8> = Vec::new();
        packet.push(OP_KADEMLIAHEADER);
        put_bytes(&mut packet, payload.as_slice());
        assert(packet@ =~= seq![OP_KADEMLIAHEADER] + payload@);
        proof {
            if message_canonical(m) {
                lemma_plain_packet_round_trip(m);
            }
        }
        Ok(packet)
    }
}

/// Packs a `HelloReq`.
pub fn build_hello_req(sender_id: &KadId, tcp_port: u16, version: u8, tags: &[KadTag]) -> (res:
    Result<Vec<u8>, WireError>)
    ensures
        match enc_packet(
            MessageView::HelloReq {
                sender_id: *sender_id,
                tcp_port,
                version,
                tags: tag_views(tags@),
            },
        ) {
            Ok(b) => res is Ok && res->Ok_0@ == b,
            Err(e) => res is Err && res->Err_0 == e,
        },
{
    encode_packet(
        &KadMessage::HelloReq {
            sender_id: *sender_id,
            tcp_port,
            version,
            tags: duplicate_tags(tags),
        },
    )
}

// ---------------------------------------------------------------------------
// Search expressions
// ---------------------------------------------------------------------------
/// "At least", in a numeric condition.
pub const ED2K_SEARCH_OP_GREATER_EQUAL: u8 = 3;

/// "At most", in a numeric condition.
pub const ED2K_SEARCH_OP_LESS_EQUAL: u8 = 4;

/// The tag that holds a file's extension.
pub const FT_FILEFORMAT: u8 = 0x04;

/// Conditions that a search adds to its keywords, so that the node that
/// answers filters before it cuts the list of results.
#[derive(Clone, Copy, Debug)]
pub struct SearchConstraints<'a> {
    /// File type, such as `Video`.
    pub file_type: Option<&'a str>,
    /// File extension, with or without its dot.
    pub file_extension: Option<&'a str>,
    /// Smallest size in bytes.
    pub min_size: Option<u64>,
    /// Largest size in bytes.
    pub max_size: Option<u64>,
    /// Smallest number of sources.
    pub min_availability: Option<u32>,
}

impl<'a> Default for SearchConstraints<'a> {
    fn default() -> (r: SearchConstraints<'a>)
        ensures
            r.file_type is None,
            r.file_extension is None,
            r.min_size is None,
            r.max_size is None,
            r.min_availability is None,
    {
        SearchConstraints {
            file_type: None,
            file_extension: None,
            min_size: None,
            max_size: None,
            min_availability: None,
        }
    }
}

/// A text with the low sixteen bits of its length.
pub open spec fn text_field(s: Seq<char>) -> Seq<u8> {
    len16(encode_utf8(s).len()) + encode_utf8(s)
}

pub open spec fn string_leaf(s: Seq<char>) -> Seq<u8> {
    seq![0x01u8] + text_field(s)
}

pub open spec fn meta_string(s: Seq<char>, tag: u8) -> Seq<u8> {
    seq![0x02u8] + text_field(s) + le16(1) + seq![tag]
}

/// A numeric condition: four bytes for the value where it fits, else eight.
pub open spec fn numeric_leaf(value: u64, op: u8, tag: u8) -> Seq<u8> {
    (if value > u32::MAX {
        seq![0x08u8] + le64(value)
    } else {
        seq![0x03u8] + le32(value as u32)
    }) + seq![op] + le16(1) + seq![tag]
}

/// All keywords, joined by AND from the left.
pub open spec fn keyword_tree(ks: Seq<String>) -> Seq<u8>
    decreases ks.len(),
{
    if ks.len() <= 1 {
        string_leaf(ks[0]@)
    } else {
        seq![0u8, 0u8] + keyword_tree(ks.drop_last()) + string_leaf(ks.last()@)
    }
}

/// The operands of the top-level AND, in order.
pub open spec fn search_operands(ks: Seq<String>, c: SearchConstraints) -> Seq<Seq<u8>> {
    let none = Seq::<Seq<u8>>::empty();
    (if ks.len() > 0 {
        seq![keyword_tree(ks)]
    } else {
        none
    }) + (match c.file_type {
        Some(t) if t@.len() > 0 => seq![meta_string(t@, TAG_FILETYPE)],
        _ => none,
    }) + (match c.file_extension {
        Some(x) if bare_extension(x@).len() > 0 => seq![
            meta_string(bare_extension(x@), FT_FILEFORMAT),
        ],
        _ => none,
    }) + (match c.min_size {
        Some(v) if v > 0 => seq![numeric_leaf(v, ED2K_SEARCH_OP_GREATER_EQUAL, TAG_FILESIZE)],
        _ => none,
    }) + (match c.max_size {
        Some(v) if v > 0 => seq![numeric_leaf(v, ED2K_SEARCH_OP_LESS_EQUAL, TAG_FILESIZE)],
        _ => none,
    }) + (match c.min_availability {
        Some(v) if v > 0 => seq![
            numeric_leaf(v as u64, ED2K_SEARCH_OP_GREATER_EQUAL, TAG_SOURCES),
        ],
        _ => none,
    })
}

/// An extension without white space around it and dots before it.
pub open spec fn bare_extension(x: Seq<char>) -> Seq<char> {
    strip_front(trimmed(x), '.')
}

/// Operands joined by AND from the right.
pub open spec fn and_chain(ops: Seq<Seq<u8>>) -> Seq<u8>
    decreases ops.len(),
{
    if ops.len() == 0 {
        Seq::empty()
    } else if ops.len() == 1 {
        ops[0]
    } else {
        seq![0u8, 0u8] + ops[0] + and_chain(ops.skip(1))
    }
}

fn put_text(buf: &mut Vec<u8>, s: &str)
    ensures
        final(buf)@ == old(buf)@ + text_field(s@),
{
    let ghost before = buf@;
    let b = s.as_bytes();
    put_len16(buf, b.len());
    put_bytes(buf, b);
    assert(buf@ =~= before + text_field(s@));
}

fn write_string_leaf(buf: &mut Vec<u8>, s: &str)
    ensures
        final(buf)@ == old(buf)@ + string_leaf(s@),
{
    let ghost before = buf@;
    buf.push(0x01);
    put_text(buf, s);
    assert(buf@ =~= before + string_leaf(s@));
}

fn meta_string_node(s: &str, tag: u8) -> (buf: Vec<u8>)
    ensures
        buf@ == meta_string(s@, tag),
{
    let mut buf: Vec<u8> = Vec::new();
    buf.push(0x02);
    put_text(&mut buf, s);
    put_u16(&mut buf, 1);
    buf.push(tag);
    assert(buf@ =~= meta_string(s@, tag));
    buf
}

fn numeric_node(value: u64, op: u8, tag: u8) -> (buf: Vec<u8>)
    ensures
        buf@ == numeric_leaf(value, op, tag),
{
    let mut buf: Vec<u8> = Vec::new();
    if value > u32::MAX as u64 {
        buf.push(0x08);
        put_u64(&mut buf, value);
    } else {
        buf.push(0x03);
        put_u32(&mut buf, value as u32);
    }
    buf.push(op);
    put_u16(&mut buf, 1);
    buf.push(tag);
    assert(buf@ =~= numeric_leaf(value, op, tag));
    buf
}

fn write_keyword_tree(buf: &mut Vec<u8>, keywords: &[String], end: usize)
    requires
        1 <= end <= keywords@.len(),
    ensures
        final(buf)@ == old(buf)@ + keyword_tree(keywords@.take(end as int)),
    decreases end,
{
    let ghost before = buf@;
    let ghost ks = keywords@.take(end as int);
    if end == 1 {
        write_string_leaf(buf, keywords[0].as_str());
        return ;
    }
    buf.push(0x00);
    buf.push(0x00);
    write_keyword_tree(buf, keywords, end - 1);
    write_string_leaf(buf, keywords[end - 1].as_str());
    assert(ks.drop_last() =~= keywords@.take(end - 1));
    assert(buf@ =~= before + keyword_tree(ks));
}

/// The nodes of a vector of byte strings.
pub open spec fn byte_strings(nodes: Seq<Vec<u8>>) -> Seq<Seq<u8>> {
    nodes.map_values(|n: Vec<u8>| n@)
}

fn push_node(nodes: &mut Vec<Vec<u8>>, node: Vec<u8>)
    ensures
        byte_strings(final(nodes)@) == byte_strings(old(nodes)@) + seq![node@],
{
    let ghost before = nodes@;
    nodes.push(node);
    assert(byte_strings(nodes@) =~= byte_strings(before) + seq![node@]);
}

fn join_nodes(nodes: &Vec<Vec<u8>>) -> (buf: Vec<u8>)
    ensures
        buf@ == and_chain(byte_strings(nodes@)),
{
    let mut buf: Vec<u8> = Vec::new();
    let n: usize = nodes.len();
    let ghost ops = byte_strings(nodes@);
    if n == 0 {
        return buf;
    }
    let mut i: usize = 0;
    assert(ops.skip(0) =~= ops);
    assert(buf@ + and_chain(ops) =~= and_chain(ops));
    while i + 1 < n
        invariant
            i < n == nodes@.len(),
            ops == byte_strings(nodes@),
            buf@ + and_chain(ops.skip(i as int)) == and_chain(ops),
        decreases n - i,
    {
        let ghost before = buf@;
        let ghost tail = ops.skip(i as int);
        buf.push(0x00);
        buf.push(0x00);
        put_bytes(&mut buf, nodes[i].as_slice());
        assert(tail.skip(1) =~= ops.skip(i as int + 1));
        assert(tail[0] == nodes@[i as int]@);
        assert(buf@ + and_chain(ops.skip(i as int + 1)) =~= before + and_chain(tail));
        i = i + 1;
    }
    put_bytes(&mut buf, nodes[i].as_slice());
    buf
}

/// Builds the expression of a search: the keyword tree and each condition that
/// is present, joined by AND. Empty texts and zero numbers are no conditions.
pub fn build_search_expression(keywords: &[String], constraints: &SearchConstraints) -> (buf: Vec<
    u8,
>)
    ensures
        buf@ == and_chain(search_operands(keywords@, *constraints)),
{
    let mut nodes: Vec<Vec<u8>> = Vec::new();
    let ghost none = Seq::<Seq<u8>>::empty();
    assert(byte_strings(nodes@) =~= none);
    if keywords.len() > 0 {
        let mut kw: Vec<u8> = Vec::new();
        write_keyword_tree(&mut kw, keywords, keywords.len());
        assert(keywords@.take(keywords@.len() as int) =~= keywords@);
        assert(kw@ =~= keyword_tree(keywords@));
        push_node(&mut nodes, kw);
    }
    let ghost o1 = byte_strings(nodes@);
    if let Some(ft) = constraints.file_type {
        if !ft.is_empty() {
            push_node(&mut nodes, meta_string_node(ft, TAG_FILETYPE));
        }
    }
    let ghost o2 = byte_strings(nodes@);
    if let Some(ext) = constraints.file_extension {
        let t = trim(ext);
        let bare = trim_start_matches(t.as_str(), '.');
        if !bare.as_str().is_empty() {
            push_node(&mut nodes, meta_string_node(bare.as_str(), FT_FILEFORMAT));
        }
    }
    let ghost o3 = byte_strings(nodes@);
    if let Some(v) = constraints.min_size {
        if v > 0 {
            push_node(&mut nodes, numeric_node(v, ED2K_SEARCH_OP_GREATER_EQUAL, TAG_FILESIZE));
        }
    }
    let ghost o4 = byte_strings(nodes@);
    if let Some(v) = constraints.max_size {
        if v > 0 {
            push_node(&mut nodes, numeric_node(v, ED2K_SEARCH_OP_LESS_EQUAL, TAG_FILESIZE));
        }
    }
    let ghost o5 = byte_strings(nodes@);
    if let Some(v) = constraints.min_availability {
        if v > 0 {
            push_node(
                &mut nodes,
                numeric_node(v as u64, ED2K_SEARCH_OP_GREATER_EQUAL, TAG_SOURCES),
            );
        }
    }
    assert(o1 + none =~= o1 && o2 + none =~= o2 && o3 + none =~= o3 && o4 + none =~= o4 && o5 + none
        =~= o5);
    assert(none + o1 =~= o1);
    assert(byte_strings(nodes@) =~= search_operands(keywords@, *constraints));
    join_nodes(&nodes)
}

proof fn lemma_and_chain_nonempty(ops: Seq<Seq<u8>>)
    requires
        ops.len() > 0,
        ops[0].len() > 0,
    ensures
        and_chain(ops).len() > 0,
{
}

/// An expression is empty exactly if there are no keywords and no conditions.
pub proof fn lemma_search_expression_empty(ks: Seq<String>, c: SearchConstraints)
    ensures
        and_chain(search_operands(ks, c)).len() == 0 <==> {
            &&& ks.len() == 0
            &&& (c.file_type is None || c.file_type->Some_0@.len() == 0)
            &&& (c.file_extension is None || bare_extension(c.file_extension->Some_0@).len() == 0)
            &&& (c.min_size is None || c.min_size == Some(0u64))
            &&& (c.max_size is None || c.max_size == Some(0u64))
            &&& (c.min_availability is None || c.min_availability == Some(0u32))
        },
{
    let ops = search_operands(ks, c);
    if ops.len() > 0 {
        assert(ops[0].len() > 0);
        lemma_and_chain_nonempty(ops);
    }
}

} // verus!
