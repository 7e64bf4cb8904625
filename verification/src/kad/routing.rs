//! The routing table: which contacts a node keeps, and which it hands out.
use vstd::prelude::*;

use std::collections::HashMap;

use super::ip_filter::{
    bounds, in_some, is_valid_contact_ip, lemma_hits_collected, slot_of, valid_contact_ip, Decision,
    FilterSlot, FilterView, IpFilter, SharedIpFilter, SnapshotView,
};
use super::types::{
    lemma_id_of, KadContact, KadId, CONTACT_TYPE_DEAD, KADEMLIA_VERSION1_46C,
    KADEMLIA_VERSION2_47A, KADEMLIA_VERSION3_47B, KADEMLIA_VERSION4_47C, KADEMLIA_VERSION5_48A,
    KADEMLIA_VERSION6_49ABETA, KADEMLIA_VERSION7_49A, KADEMLIA_VERSION8_49B, KADEMLIA_VERSION9_50A,
    KBASE, K_BUCKET_SIZE, LOG_BASE_EXPONENT,
};
use super::zone::{
    add_to_zone, after_turn, all_verified, bin_ok, by_distance, by_ip, checked, closest_of,
    consolidated, contents, count_ips, distinct_ids, eligible, far, first_turn, has_id, in_subnet,
    index_of_id, ips_of, is_ip, is_net, is_sample, kept, leaf_at, leaf_meta, levels_ok, lost, moved,
    negated, own_leaf_level, own_zone, probed, sat_u32, subnet, subnet_key, survives, tally,
    touched, turn_leaf, uses, verified_contacts, with_leaf, zone_ok, zone_prefix, AddResult,
    Cleaning, RoutingZone, ZoneView, CONTACT_DEFAULT_TTL_SECS, MAX_CONTACTS_SUBNET_PER_BIN,
};
use crate::clock::{clock_time, utc_now};
use crate::net::Ipv4Addr;
use crate::security::{is_lan_v4, lan_ip};
use crate::sort::{lemma_sorted_positions, sort_keys, SortKey};

verus! {

/// Contacts with one address in the whole table.
pub const MAX_CONTACTS_IP: u32 = 1;

/// Contacts of one network in the whole table, local networks aside.
pub const MAX_CONTACTS_SUBNET: u32 = 10;

/// Delay after a lookup before any zone starts another.
pub const BIG_TIMER_GLOBAL_GAP_SECS: i64 = 10;

/// A protocol version as users know it.
pub fn kad_version_name(version: u8) -> (r: &'static str)
    ensures
        r@ == version_name(version),
{
    if version == KADEMLIA_VERSION1_46C {
        "Kad1 (0.46c)"
    } else if version == KADEMLIA_VERSION2_47A {
        "Kad2 (0.47a)"
    } else if version == KADEMLIA_VERSION3_47B {
        "Kad2 (0.47b)"
    } else if version == KADEMLIA_VERSION4_47C {
        "Kad2 (0.47c)"
    } else if version == KADEMLIA_VERSION5_48A {
        "Kad2 (0.48a)"
    } else if version == KADEMLIA_VERSION6_49ABETA {
        "Kad2 (0.49a-beta)"
    } else if version == KADEMLIA_VERSION7_49A {
        "Kad2 (0.49a)"
    } else if version == KADEMLIA_VERSION8_49B {
        "Kad2 (0.49b)"
    } else if version == KADEMLIA_VERSION9_50A {
        "Kad2 (0.50a+)"
    } else {
        "Unknown"
    }
}

pub open spec fn version_name(version: u8) -> Seq<char> {
    if version == 1 {
        "Kad1 (0.46c)"@
    } else if version == 2 {
        "Kad2 (0.47a)"@
    } else if version == 3 {
        "Kad2 (0.47b)"@
    } else if version == 4 {
        "Kad2 (0.47c)"@
    } else if version == 5 {
        "Kad2 (0.48a)"@
    } else if version == 6 {
        "Kad2 (0.49a-beta)"@
    } else if version == 7 {
        "Kad2 (0.49a)"@
    } else if version == 8 {
        "Kad2 (0.49b)"@
    } else if version == 9 {
        "Kad2 (0.50a+)"@
    } else {
        "Unknown"@
    }
}

// ---------------------------------------------------------------------------
// Counters
// ---------------------------------------------------------------------------
pub open spec fn count_in(m: Map<u32, u32>, k: u32) -> u32 {
    if m.contains_key(k) {
        m[k]
    } else {
        0
    }
}

/// One more.
pub open spec fn inc(m: Map<u32, u32>, k: u32) -> Map<u32, u32> {
    m.insert(k, (count_in(m, k) + 1) as u32)
}

/// One less; a counter that falls to zero goes.
pub open spec fn dec(m: Map<u32, u32>, k: u32) -> Map<u32, u32> {
    if !m.contains_key(k) {
        m
    } else if m[k] <= 1 {
        m.remove(k)
    } else {
        m.insert(k, (m[k] - 1) as u32)
    }
}

fn get_count(m: &HashMap<u32, u32>, k: u32) -> (n: u32)
    ensures
        n == count_in(m@, k),
{
    broadcast use vstd::std_specs::hash::group_hash_axioms;

    match m.get(&k) {
        Some(n) => *n,
        None => 0,
    }
}

fn count_up(m: &mut HashMap<u32, u32>, k: u32)
    requires
        count_in(old(m)@, k) < u32::MAX,
    ensures
        final(m)@ == inc(old(m)@, k),
{
    broadcast use vstd::std_specs::hash::group_hash_axioms;

    let n: u32 = get_count(m, k);
    m.insert(k, n + 1);
}

fn count_down(m: &mut HashMap<u32, u32>, k: u32)
    ensures
        final(m)@ == dec(old(m)@, k),
{
    broadcast use vstd::std_specs::hash::group_hash_axioms;

    let current: Option<u32> = match m.get(&k) {
        Some(n) => Some(*n),
        None => None,
    };
    if let Some(n) = current {
        if n <= 1 {
            m.remove(&k);
        } else {
            m.insert(k, n - 1);
        }
    }
}

// ---------------------------------------------------------------------------
// The table as a mathematical value
// ---------------------------------------------------------------------------
pub struct TableView {
    pub root: ZoneView,
    pub local_id: KadId,
    /// Contacts by address.
    pub ip_count: Map<u32, u32>,
    /// Contacts by network.
    pub subnet_count: Map<u32, u32>,
    pub block_private: bool,
    /// Our own address, as peers see it.
    pub external_ip: Option<u32>,
    /// When the next lookup may start.
    pub deadline: i64,
    /// The turn of the next leaf.
    pub next_order: u64,
    /// How many searches use a contact, by the value of its identifier.
    pub in_use: Map<u128, u32>,
    pub filter: Option<FilterSlot>,
}

/// Counters that say of each key how many contacts it has.
pub open spec fn counts_ok(
    m: Map<u32, u32>,
    s: Seq<KadContact>,
    q: spec_fn(u32) -> spec_fn(Ipv4Addr) -> bool,
) -> bool {
    forall|k: u32| #[trigger] count_in(m, k) == tally(s, by_ip(q(k)))
}

pub open spec fn ip_query() -> spec_fn(u32) -> spec_fn(Ipv4Addr) -> bool {
    |k: u32| is_ip(k)
}

pub open spec fn net_query() -> spec_fn(u32) -> spec_fn(Ipv4Addr) -> bool {
    |k: u32| is_net(k)
}

impl TableView {
    pub open spec fn contacts(self) -> Seq<KadContact> {
        contents(self.root)
    }

    /// What holds of every table: the tree is in order, the counters count, no
    /// address is there twice, no network more than ten times (local ones
    /// aside), and neither the local nor the zero identifier is there.
    pub open spec fn wf(self) -> bool {
        &&& zone_ok(self.root, self.local_id, Seq::empty())
        &&& counts_ok(self.ip_count, self.contacts(), ip_query())
        &&& counts_ok(self.subnet_count, self.contacts(), net_query())
        &&& forall|k: u32| #[trigger] count_in(self.ip_count, k) <= MAX_CONTACTS_IP
        &&& forall|ip: Ipv4Addr|
            !lan_ip(ip) ==> #[trigger] count_in(self.subnet_count, subnet(ip))
                <= MAX_CONTACTS_SUBNET
        &&& !has_id(self.contacts(), self.local_id)
        &&& !has_id(self.contacts(), KadId::zero_spec())
        &&& match self.filter {
            Some(FilterSlot::Readable(s)) => s.wf(),
            _ => true,
        }
    }

    /// Whether the table as a whole has room for an address.
    pub open spec fn limits_ok(self, ip: Ipv4Addr) -> bool {
        &&& count_in(self.ip_count, ip.bits) < MAX_CONTACTS_IP
        &&& lan_ip(ip) || count_in(self.subnet_count, subnet(ip)) < MAX_CONTACTS_SUBNET
    }

    /// The contact with an identifier.
    pub open spec fn contact(self, id: KadId) -> Option<KadContact> {
        if has_id(self.contacts(), id) {
            Some(self.contacts()[index_of_id(self.contacts(), id)])
        } else {
            None
        }
    }

    /// One address less.
    pub open spec fn forget_ip(self, ip: Ipv4Addr) -> TableView {
        TableView {
            ip_count: dec(self.ip_count, ip.bits),
            subnet_count: dec(self.subnet_count, subnet(ip)),
            ..self
        }
    }

    /// One address more.
    pub open spec fn note_ip(self, ip: Ipv4Addr) -> TableView {
        TableView {
            ip_count: inc(self.ip_count, ip.bits),
            subnet_count: inc(self.subnet_count, subnet(ip)),
            ..self
        }
    }

    /// Some addresses less, one after the other.
    pub open spec fn forget_ips(self, ips: Seq<Ipv4Addr>) -> TableView
        decreases ips.len(),
    {
        if ips.len() == 0 {
            self
        } else {
            self.forget_ips(ips.drop_last()).forget_ip(ips.last())
        }
    }

    /// With other contacts in the leaf of an identifier.
    pub open spec fn with_leaf_of(self, id: KadId, s: Seq<KadContact>) -> TableView {
        TableView { root: with_leaf(self.root, self.local_id.xor_spec(id), s), ..self }
    }

    /// The contacts of the leaf of an identifier, least recently heard from first.
    pub open spec fn leaf_of(self, id: KadId) -> Seq<KadContact> {
        leaf_at(self.root, self.local_id.xor_spec(id))
    }
}

// ---------------------------------------------------------------------------
// Inserting
// ---------------------------------------------------------------------------
/// A contact that a table can hold at all.
pub open spec fn presentable(v: TableView, c: KadContact) -> bool {
    &&& c.kad_options & 1 == 0
    &&& c.id != KadId::zero_spec()
    &&& c.id != v.local_id
    &&& c.version >= KADEMLIA_VERSION2_47A
    &&& valid_contact_ip(c.ip, v.block_private)
}

/// Whether the range filter blocks an address. A filter that cannot be read
/// blocks all; one that still waits for its ranges blocks none on their account,
/// or no table could fill up meanwhile.
pub open spec fn filter_blocks(f: Option<FilterSlot>, ip: Ipv4Addr) -> bool {
    match f {
        None => false,
        Some(FilterSlot::Poisoned) => true,
        Some(FilterSlot::Readable(s)) => !(s.decision(ip, false) is Pass),
    }
}

/// The range filter once it was asked.
pub open spec fn filter_asked(f: Option<FilterSlot>, ip: Ipv4Addr) -> Option<FilterSlot> {
    match f {
        Some(FilterSlot::Readable(s)) => Some(
            FilterSlot::Readable(s.counted(s.decision(ip, false))),
        ),
        f => f,
    }
}

/// The range filter once it was brought up to date.
pub open spec fn filter_refreshed(f: Option<FilterSlot>, filter: FilterView) -> Option<FilterSlot> {
    match f {
        Some(FilterSlot::Readable(s)) => Some(FilterSlot::Readable(filter.refreshed(s))),
        f => f,
    }
}

/// The range filter once what it has counted was collected.
pub open spec fn filter_emptied(f: Option<FilterSlot>) -> Option<FilterSlot> {
    match f {
        Some(FilterSlot::Readable(s)) => Some(FilterSlot::Readable(s.emptied())),
        f => f,
    }
}

/// A filter with what the range filter of a table has counted.
pub open spec fn filter_collected(f: Option<FilterSlot>, filter: FilterView) -> FilterView {
    match f {
        Some(FilterSlot::Readable(s)) => filter.collected(s),
        _ => filter,
    }
}

/// A table judges the next contact by the filter as it was last brought up to date.
pub proof fn lemma_update_reaches_insert(v: TableView, s: SnapshotView, f: FilterView, ip: Ipv4Addr)
    requires
        v.filter == Some(FilterSlot::Readable(s)),
    ensures
        filter_blocks(filter_refreshed(v.filter, f), ip) <==> !(f.decision(ip, false) is Pass),
{
}

/// What inserting a contact counts reaches the filter: collected afterwards, the
/// filter has what it would have had before, and the one decision on top.
pub proof fn lemma_insert_hits_collected(
    v: TableView,
    s: SnapshotView,
    f: FilterView,
    c: KadContact,
    now: i64,
)
    requires
        v.filter == Some(FilterSlot::Readable(s)),
        s.wf(),
        f.wf(),
        s.ranges == bounds(f.ranges),
        presentable(v, c),
    ensures
        inserted(v, c, now).0.filter == filter_asked(v.filter, c.ip),
        filter_collected(inserted(v, c, now).0.filter, f) == filter_collected(v.filter, f).counted(
            s.decision(c.ip, false),
        ),
{
    let d = s.decision(c.ip, false);
    if let Decision::Range(i) = d {
        assert(in_some(s.ranges, c.ip.bits));
    }
    lemma_hits_collected(f, s, d);
}

/// An enabled filter that still waits for its ranges keeps no contact out that
/// a table can hold, so that a table can fill up meanwhile. One that cannot be
/// read keeps all out.
pub proof fn lemma_waiting_filter_admits(s: SnapshotView, v: TableView, c: KadContact)
    requires
        s.enabled,
        !s.ranges_ready,
        s.block_private == v.block_private,
        presentable(v, c),
    ensures
        !filter_blocks(Some(FilterSlot::Readable(s)), c.ip),
        filter_asked(Some(FilterSlot::Readable(s)), c.ip) == Some(FilterSlot::Readable(s)),
        filter_blocks(Some(FilterSlot::Poisoned), c.ip),
{
}

/// An old client on the port of a name server.
pub open spec fn looks_like_dns(c: KadContact) -> bool {
    c.udp_port == 53 && c.version <= KADEMLIA_VERSION5_48A
}

/// The key that a contact has for our address.
pub open spec fn key_for(c: KadContact, our_ip: u32) -> u32 {
    match c.udp_key {
        Some(k) => k.key_value(our_ip),
        None => 0,
    }
}

/// Whether a known contact with a key may be updated: only by someone who
/// shows the same key.
pub open spec fn key_agrees(v: TableView, known: KadContact, c: KadContact) -> bool {
    match v.external_ip {
        None => true,
        Some(our_ip) => key_for(known, our_ip) == 0 || key_for(known, our_ip) == key_for(c, our_ip),
    }
}

/// A client too old to prove itself, which has said hello.
pub open spec fn is_frozen(known: KadContact) -> bool {
    KADEMLIA_VERSION1_46C <= known.version < KADEMLIA_VERSION6_49ABETA && known.received_hello
}

pub open spec fn same_values(a: KadContact, b: KadContact) -> bool {
    a.ip == b.ip && a.tcp_port == b.tcp_port && a.version == b.version && a.udp_port == b.udp_port
}

/// Whether a contact in a leaf may move to another address.
pub open spec fn may_move(v: TableView, s: Seq<KadContact>, known: KadContact, ip: Ipv4Addr) -> bool {
    &&& count_in(v.ip_count, ip.bits) < MAX_CONTACTS_IP
    &&& subnet(known.ip) == subnet(ip) || lan_ip(ip) || (count_in(v.subnet_count, subnet(ip))
        < MAX_CONTACTS_SUBNET && tally(s, in_subnet(subnet(ip))) < MAX_CONTACTS_SUBNET_PER_BIN)
}

/// A known contact with what a new message says of it.
pub open spec fn refreshed(known: KadContact, c: KadContact, now: i64) -> KadContact {
    KadContact {
        ip: c.ip,
        udp_port: c.udp_port,
        tcp_port: c.tcp_port,
        version: if c.version >= known.version {
            c.version
        } else {
            known.version
        },
        verified: known.verified || c.verified,
        udp_key: if c.udp_key is Some {
            c.udp_key
        } else {
            known.udp_key
        },
        kad_options: c.kad_options,
        received_hello: known.received_hello || c.received_hello,
        ..known
    }.after_answer(now)
}

/// A table in which a known contact was heard from again.
pub open spec fn updated(v: TableView, c: KadContact, now: i64) -> TableView {
    let s = v.leaf_of(c.id);
    let i = index_of_id(s, c.id);
    let known = s[i];
    if !key_agrees(v, known, c) {
        v
    } else if is_frozen(known) {
        if same_values(known, c) {
            v.with_leaf_of(c.id, moved(s, i, known.after_answer(now)))
        } else {
            v
        }
    } else if known.ip != c.ip && !may_move(v, s, known, c.ip) {
        v
    } else {
        let w = v.with_leaf_of(c.id, moved(s, i, refreshed(known, c, now)));
        if known.ip != c.ip {
            w.forget_ip(known.ip).note_ip(c.ip)
        } else {
            w
        }
    }
}

/// A new contact with the times that it lacks.
pub open spec fn stamped(c: KadContact, now: i64) -> KadContact {
    KadContact {
        created_at: if c.created_at == 0 {
            now
        } else {
            c.created_at
        },
        expires_at: if c.expires_at == 0 {
            (now + CONTACT_DEFAULT_TTL_SECS) as i64
        } else {
            c.expires_at
        },
        ..c
    }
}

/// What inserting a contact makes of a table, and whether it was added.
pub open spec fn inserted(v: TableView, c: KadContact, now: i64) -> (TableView, bool) {
    if !presentable(v, c) {
        (v, false)
    } else {
        let w = TableView { filter: filter_asked(v.filter, c.ip), ..v };
        if filter_blocks(v.filter, c.ip) || looks_like_dns(c) {
            (w, false)
        } else if has_id(v.leaf_of(c.id), c.id) {
            (updated(w, c, now), false)
        } else {
            let o = add_to_zone(
                v.root,
                stamped(c, now),
                v.local_id,
                v.limits_ok(c.ip),
                v.next_order,
                now,
            );
            let x = TableView { root: o.zone, next_order: o.order, ..w };
            if o.result is Added {
                (x.note_ip(c.ip), true)
            } else {
                (x, false)
            }
        }
    }
}

// ---------------------------------------------------------------------------
// The invariant
// ---------------------------------------------------------------------------
/// One contact more with an address, and one more in the counter of its key.
proof fn lemma_inc_counts(
    m: Map<u32, u32>,
    s: Seq<KadContact>,
    t: Seq<KadContact>,
    ip: Ipv4Addr,
    key: u32,
    q: spec_fn(u32) -> spec_fn(Ipv4Addr) -> bool,
)
    requires
        counts_ok(m, s, q),
        count_in(m, key) < u32::MAX,
        forall|k: u32| #[trigger] q(k)(ip) == (k == key),
        forall|k: u32| #[trigger]
            tally(t, by_ip(q(k))) == tally(s, by_ip(q(k))) + (if q(k)(ip) {
                1nat
            } else {
                0nat
            }),
    ensures
        counts_ok(inc(m, key), t, q),
{
    assert forall|k: u32| #[trigger] count_in(inc(m, key), k) == tally(t, by_ip(q(k))) by {
        assert(count_in(m, k) == tally(s, by_ip(q(k))));
        assert(q(k)(ip) == (k == key));
    }
}

/// Forgetting addresses one by one takes each off the counters.
proof fn lemma_forget_ips(
    v: TableView,
    ips: Seq<Ipv4Addr>,
    base_ip: spec_fn(u32) -> nat,
    base_net: spec_fn(u32) -> nat,
)
    requires
        forall|k: u32| #[trigger] count_in(v.ip_count, k) == base_ip(k) + count_ips(ips, is_ip(k)),
        forall|k: u32| #[trigger]
            count_in(v.subnet_count, k) == base_net(k) + count_ips(ips, is_net(k)),
    ensures
        ({
            let w = v.forget_ips(ips);
            &&& forall|k: u32| #[trigger] count_in(w.ip_count, k) == base_ip(k)
            &&& forall|k: u32| #[trigger] count_in(w.subnet_count, k) == base_net(k)
            &&& w == (TableView { ip_count: w.ip_count, subnet_count: w.subnet_count, ..v })
        }),
    decreases ips.len(),
{
    if ips.len() > 0 {
        let x = ips.last();
        let b2 = |k: u32| base_ip(k) + if is_ip(k)(x) {
            1nat
        } else {
            0nat
        };
        let n2 = |k: u32| base_net(k) + if is_net(k)(x) {
            1nat
        } else {
            0nat
        };
        lemma_forget_ips(v, ips.drop_last(), b2, n2);
        let u = v.forget_ips(ips.drop_last());
        let w = v.forget_ips(ips);
        assert(w == u.forget_ip(x));
        assert forall|k: u32| #[trigger] count_in(w.ip_count, k) == base_ip(k) by {
            assert(count_in(u.ip_count, k) == b2(k));
        }
        assert forall|k: u32| #[trigger] count_in(w.subnet_count, k) == base_net(k) by {
            assert(count_in(u.subnet_count, k) == n2(k));
        }
    }
}

/// A range of addresses.
spec fn ip_range(lo: int, n: nat) -> spec_fn(KadContact) -> bool {
    |c: KadContact| lo <= c.ip.bits < lo + n
}

proof fn lemma_tally_split(
    s: Seq<KadContact>,
    p: spec_fn(KadContact) -> bool,
    a: spec_fn(KadContact) -> bool,
    b: spec_fn(KadContact) -> bool,
)
    requires
        forall|c: KadContact| #[trigger] p(c) ==> a(c) || b(c),
    ensures
        tally(s, p) <= tally(s, a) + tally(s, b),
    decreases s.len(),
{
    if s.len() > 0 {
        lemma_tally_split(s.drop_last(), p, a, b);
        assert(p(s.last()) ==> a(s.last()) || b(s.last()));
    }
}

proof fn lemma_range_bound(s: Seq<KadContact>, lo: int, n: nat)
    requires
        forall|k: u32| #[trigger] tally(s, by_ip(is_ip(k))) <= 1,
        0 <= lo,
        lo + n <= 0x1_0000_0000,
    ensures
        tally(s, ip_range(lo, n)) <= n,
    decreases n,
{
    if n == 0 {
        super::zone::lemma_tally_none(s, ip_range(lo, n));
    } else {
        let m = (n - 1) as nat;
        let last = (lo + m) as u32;
        lemma_range_bound(s, lo, m);
        lemma_tally_split(s, ip_range(lo, n), ip_range(lo, m), by_ip(is_ip(last)));
        assert(tally(s, by_ip(is_ip(last))) <= 1);
    }
}

/// Where no address is there twice, no network has more than its 256 addresses.
pub proof fn lemma_net_bound(v: TableView, net: u32)
    requires
        counts_ok(v.ip_count, v.contacts(), ip_query()),
        counts_ok(v.subnet_count, v.contacts(), net_query()),
        forall|k: u32| #[trigger] count_in(v.ip_count, k) <= MAX_CONTACTS_IP,
    ensures
        count_in(v.subnet_count, net) <= 256,
{
    let s = v.contacts();
    assert(count_in(v.subnet_count, net) == tally(s, by_ip(net_query()(net))));
    assert forall|k: u32| #[trigger] tally(s, by_ip(is_ip(k))) <= 1 by {
        assert(count_in(v.ip_count, k) == tally(s, by_ip(ip_query()(k))));
    }
    let p = by_ip(is_net(net));
    if net % 256 == 0 {
        lemma_range_bound(s, net as int, 256);
        super::zone::lemma_tally_none(s, ip_range(0, 0));
        lemma_tally_split(s, p, ip_range(net as int, 256), ip_range(0, 0));
    } else {
        assert forall|i: int| 0 <= i < s.len() implies !p(#[trigger] s[i]) by {}
        super::zone::lemma_tally_none(s, p);
    }
}

/// The leaf of an identifier in a table in order.
pub proof fn lemma_leaf_of(v: TableView, id: KadId)
    requires
        v.wf(),
    ensures
        bin_ok(v.leaf_of(id)),
        has_id(v.contacts(), id) <==> has_id(v.leaf_of(id), id),
        levels_ok(v.root, 0),
{
    super::zone::lemma_leaf_ok(v.root, v.local_id, Seq::empty(), v.local_id.xor_spec(id));
    super::zone::lemma_leaf_has(v.root, v.local_id, Seq::empty(), id);
    super::zone::lemma_zone_levels(v.root, v.local_id, Seq::empty());
}

/// Replacing one contact of a leaf by one with the same identifier keeps the
/// tree in order and the identifiers, and moves one contact between addresses.
proof fn lemma_replace_in_leaf(v: TableView, id: KadId, i: int, c: KadContact, t: Seq<KadContact>)
    requires
        v.wf(),
        0 <= i < v.leaf_of(id).len(),
        c.id == v.leaf_of(id)[i].id,
        c.ip == v.leaf_of(id)[i].ip || lan_ip(c.ip) || subnet(c.ip) == subnet(
            v.leaf_of(id)[i].ip,
        ) || tally(v.leaf_of(id), in_subnet(subnet(c.ip))) < MAX_CONTACTS_SUBNET_PER_BIN,
        t == moved(v.leaf_of(id), i, c) || t == v.leaf_of(id).update(i, c),
    ensures
        zone_ok(v.with_leaf_of(id, t).root, v.local_id, Seq::empty()),
        forall|x: KadId|
            has_id(v.with_leaf_of(id, t).contacts(), x) ==> #[trigger] has_id(v.contacts(), x),
        forall|q: spec_fn(Ipv4Addr) -> bool| #[trigger]
            tally(v.with_leaf_of(id, t).contacts(), by_ip(q)) + (if q(v.leaf_of(id)[i].ip) {
                1nat
            } else {
                0nat
            }) == tally(v.contacts(), by_ip(q)) + (if q(c.ip) {
                1nat
            } else {
                0nat
            }),
{
    let s = v.leaf_of(id);
    let d = v.local_id.xor_spec(id);
    lemma_leaf_of(v, id);
    super::zone::lemma_replace_bin_ok(s, i, c);
    assert forall|k: int| 0 <= k < t.len() implies has_id(s, (#[trigger] t[k]).id) by {
        let k2 = if t == s.update(i, c) {
            k
        } else if k == t.len() - 1 {
            i
        } else if k < i {
            k
        } else {
            k + 1
        };
        assert(s[k2].id == t[k].id);
    }
    super::zone::lemma_with_leaf_ok(v.root, v.local_id, Seq::empty(), d, t);
    assert forall|x: KadId| has_id(v.with_leaf_of(id, t).contacts(), x) implies #[trigger] has_id(
        v.contacts(),
        x,
    ) by {
        super::zone::lemma_with_leaf_ids(v.root, d, t, x);
    }
    assert forall|q: spec_fn(Ipv4Addr) -> bool| #[trigger]
        tally(v.with_leaf_of(id, t).contacts(), by_ip(q)) + (if q(s[i].ip) {
            1nat
        } else {
            0nat
        }) == tally(v.contacts(), by_ip(q)) + (if q(c.ip) {
            1nat
        } else {
            0nat
        }) by {
        let p = by_ip(q);
        super::zone::lemma_with_leaf_tally(v.root, d, t, p);
        super::zone::lemma_tally_remove(s, i, p);
        if t == s.update(i, c) {
            super::zone::lemma_tally_remove(t, i, p);
            assert(t.remove(i) =~= s.remove(i));
        } else {
            super::zone::lemma_tally_push(s.remove(i), c, p);
        }
    }
}

/// A table in which a contact was replaced by one at the same address stays in order.
proof fn lemma_same_ip_wf(v: TableView, id: KadId, i: int, c: KadContact, t: Seq<KadContact>)
    requires
        v.wf(),
        0 <= i < v.leaf_of(id).len(),
        c.id == v.leaf_of(id)[i].id,
        c.ip == v.leaf_of(id)[i].ip,
        t == moved(v.leaf_of(id), i, c) || t == v.leaf_of(id).update(i, c),
    ensures
        v.with_leaf_of(id, t).wf(),
{
    lemma_replace_in_leaf(v, id, i, c, t);
    let w = v.with_leaf_of(id, t);
    assert forall|k: u32| #[trigger]
        count_in(w.ip_count, k) == tally(w.contacts(), by_ip(ip_query()(k))) by {
        assert(count_in(v.ip_count, k) == tally(v.contacts(), by_ip(ip_query()(k))));
        let q = is_ip(k);
        assert(tally(w.contacts(), by_ip(q)) + (if q(v.leaf_of(id)[i].ip) {
            1nat
        } else {
            0nat
        }) == tally(v.contacts(), by_ip(q)) + (if q(c.ip) {
            1nat
        } else {
            0nat
        }));
    }
    assert forall|k: u32| #[trigger]
        count_in(w.subnet_count, k) == tally(w.contacts(), by_ip(net_query()(k))) by {
        assert(count_in(v.subnet_count, k) == tally(v.contacts(), by_ip(net_query()(k))));
        let q = is_net(k);
        assert(tally(w.contacts(), by_ip(q)) + (if q(v.leaf_of(id)[i].ip) {
            1nat
        } else {
            0nat
        }) == tally(v.contacts(), by_ip(q)) + (if q(c.ip) {
            1nat
        } else {
            0nat
        }));
    }
    assert(!has_id(w.contacts(), v.local_id)) by {
        assert(has_id(w.contacts(), v.local_id) ==> has_id(v.contacts(), v.local_id));
    }
    assert(!has_id(w.contacts(), KadId::zero_spec())) by {
        assert(has_id(w.contacts(), KadId::zero_spec()) ==> has_id(
            v.contacts(),
            KadId::zero_spec(),
        ));
    }
}

/// A table in which a contact moved to another address stays in order.
proof fn lemma_moved_ip_wf(v: TableView, id: KadId, i: int, c: KadContact)
    requires
        v.wf(),
        0 <= i < v.leaf_of(id).len(),
        c.id == v.leaf_of(id)[i].id,
        c.ip != v.leaf_of(id)[i].ip,
        may_move(v, v.leaf_of(id), v.leaf_of(id)[i], c.ip),
    ensures
        v.with_leaf_of(id, moved(v.leaf_of(id), i, c)).forget_ip(v.leaf_of(id)[i].ip).note_ip(
            c.ip,
        ).wf(),
        count_in(dec(v.ip_count, v.leaf_of(id)[i].ip.bits), c.ip.bits) < u32::MAX,
        count_in(dec(v.subnet_count, subnet(v.leaf_of(id)[i].ip)), subnet(c.ip)) < u32::MAX,
{
    let s = v.leaf_of(id);
    let known = s[i];
    let t = moved(s, i, c);
    lemma_replace_in_leaf(v, id, i, c, t);
    let w = v.with_leaf_of(id, t);
    let x = w.forget_ip(known.ip).note_ip(c.ip);
    lemma_net_bound(v, subnet(c.ip));
    super::zone::lemma_leaf_in_contents(v.root, v.local_id.xor_spec(id), i);
    let j = choose|j: int| 0 <= j < v.contacts().len() && v.contacts()[j] == known;
    super::zone::lemma_tally_pos(v.contacts(), j, by_ip(is_net(subnet(known.ip))));
    assert(count_in(v.subnet_count, subnet(known.ip)) == tally(
        v.contacts(),
        by_ip(net_query()(subnet(known.ip))),
    ));
    assert forall|k: u32| #[trigger]
        count_in(x.ip_count, k) == tally(x.contacts(), by_ip(ip_query()(k))) && count_in(
        x.ip_count,
        k,
    ) <= MAX_CONTACTS_IP by {
        assert(count_in(v.ip_count, k) == tally(v.contacts(), by_ip(ip_query()(k))));
        let q = is_ip(k);
        assert(tally(w.contacts(), by_ip(q)) + (if q(known.ip) {
            1nat
        } else {
            0nat
        }) == tally(v.contacts(), by_ip(q)) + (if q(c.ip) {
            1nat
        } else {
            0nat
        }));
        assert(count_in(v.ip_count, k) <= MAX_CONTACTS_IP);
    }
    assert forall|k: u32| #[trigger]
        count_in(x.subnet_count, k) == tally(x.contacts(), by_ip(net_query()(k))) by {
        assert(count_in(v.subnet_count, k) == tally(v.contacts(), by_ip(net_query()(k))));
        let q = is_net(k);
        assert(tally(w.contacts(), by_ip(q)) + (if q(known.ip) {
            1nat
        } else {
            0nat
        }) == tally(v.contacts(), by_ip(q)) + (if q(c.ip) {
            1nat
        } else {
            0nat
        }));
    }
    assert forall|ip: Ipv4Addr| !lan_ip(ip) implies #[trigger] count_in(
        x.subnet_count,
        subnet(ip),
    ) <= MAX_CONTACTS_SUBNET by {
        assert(count_in(v.subnet_count, subnet(ip)) <= MAX_CONTACTS_SUBNET);
        if subnet(ip) == subnet(c.ip) {
            super::zone::lemma_same_net_lan(ip, c.ip);
        }
    }
    assert(!has_id(w.contacts(), v.local_id)) by {
        assert(has_id(w.contacts(), v.local_id) ==> has_id(v.contacts(), v.local_id));
    }
    assert(!has_id(w.contacts(), KadId::zero_spec())) by {
        assert(has_id(w.contacts(), KadId::zero_spec()) ==> has_id(
            v.contacts(),
            KadId::zero_spec(),
        ));
    }
}

/// A table that heard from a known contact again stays in order.
proof fn lemma_updated_wf(v: TableView, c: KadContact, now: i64)
    requires
        v.wf(),
        has_id(v.leaf_of(c.id), c.id),
    ensures
        updated(v, c, now).wf(),
{
    let s = v.leaf_of(c.id);
    let i = index_of_id(s, c.id);
    let known = s[i];
    if key_agrees(v, known, c) {
        if is_frozen(known) {
            let k = known.after_answer(now);
            lemma_same_ip_wf(v, c.id, i, k, moved(s, i, k));
        } else {
            let k = refreshed(known, c, now);
            if known.ip == c.ip {
                lemma_same_ip_wf(v, c.id, i, k, moved(s, i, k));
            } else if may_move(v, s, known, c.ip) {
                lemma_moved_ip_wf(v, c.id, i, k);
            }
        }
    }
}

/// A table that was offered a new contact stays in order.
proof fn lemma_added_wf(v: TableView, c: KadContact, now: i64)
    requires
        v.wf(),
        c.id != v.local_id,
        c.id != KadId::zero_spec(),
    ensures
        ({
            let o = add_to_zone(
                v.root,
                c,
                v.local_id,
                v.limits_ok(c.ip),
                v.next_order,
                now,
            );
            let x = TableView { root: o.zone, next_order: o.order, ..v };
            if o.result is Added {
                &&& x.note_ip(c.ip).wf()
                &&& count_in(v.ip_count, c.ip.bits) < u32::MAX
                &&& count_in(v.subnet_count, subnet(c.ip)) < u32::MAX
            } else {
                x.wf()
            }
        }),
{
    let limits = v.limits_ok(c.ip);
    let o = add_to_zone(v.root, c, v.local_id, limits, v.next_order, now);
    let x = TableView { root: o.zone, next_order: o.order, ..v };
    super::zone::lemma_add_zone_ok(
        v.root,
        c,
        v.local_id,
        limits,
        v.next_order,
        now,
        Seq::empty(),
    );
    lemma_net_bound(v, subnet(c.ip));
    let added = o.result is Added;
    assert forall|k: u32| #[trigger]
        tally(x.contacts(), by_ip(ip_query()(k))) == tally(v.contacts(), by_ip(ip_query()(k))) + (
        if added && ip_query()(k)(c.ip) {
            1nat
        } else {
            0nat
        }) by {
        super::zone::lemma_add_zone_tally(
            v.root,
            c,
            v.local_id,
            limits,
            v.next_order,
            now,
            by_ip(ip_query()(k)),
        );
    }
    assert forall|k: u32| #[trigger]
        tally(x.contacts(), by_ip(net_query()(k))) == tally(v.contacts(), by_ip(net_query()(k))) + (
        if added && net_query()(k)(c.ip) {
            1nat
        } else {
            0nat
        }) by {
        super::zone::lemma_add_zone_tally(
            v.root,
            c,
            v.local_id,
            limits,
            v.next_order,
            now,
            by_ip(net_query()(k)),
        );
    }
    assert forall|id: KadId| (id == v.local_id || id == KadId::zero_spec()) implies !#[trigger] has_id(
        x.contacts(),
        id,
    ) by {
        if has_id(x.contacts(), id) {
            let k = index_of_id(x.contacts(), id);
            let y = x.contacts()[k];
            assert(x.contacts().contains(y));
            super::zone::lemma_add_zone_contains(
                v.root,
                c,
                v.local_id,
                limits,
                v.next_order,
                now,
                y,
            );
            assert(v.contacts().contains(y));
            let j = choose|j: int| 0 <= j < v.contacts().len() && v.contacts()[j] == y;
            assert(v.contacts()[j].id == id);
        }
    }
    if added {
        let w = x.note_ip(c.ip);
        lemma_inc_counts(v.ip_count, v.contacts(), x.contacts(), c.ip, c.ip.bits, ip_query());
        lemma_inc_counts(
            v.subnet_count,
            v.contacts(),
            x.contacts(),
            c.ip,
            subnet(c.ip),
            net_query(),
        );
        assert forall|k: u32| #[trigger] count_in(w.ip_count, k) <= MAX_CONTACTS_IP by {
            assert(count_in(v.ip_count, k) <= MAX_CONTACTS_IP);
        }
        assert forall|ip: Ipv4Addr| !lan_ip(ip) implies #[trigger] count_in(
            w.subnet_count,
            subnet(ip),
        ) <= MAX_CONTACTS_SUBNET by {
            assert(count_in(v.subnet_count, subnet(ip)) <= MAX_CONTACTS_SUBNET);
            if subnet(ip) == subnet(c.ip) {
                super::zone::lemma_same_net_lan(ip, c.ip);
            }
        }
    } else {
        assert forall|k: u32| #[trigger]
            count_in(x.ip_count, k) == tally(x.contacts(), by_ip(ip_query()(k))) by {
            assert(count_in(v.ip_count, k) == tally(v.contacts(), by_ip(ip_query()(k))));
        }
        assert forall|k: u32| #[trigger]
            count_in(x.subnet_count, k) == tally(x.contacts(), by_ip(net_query()(k))) by {
            assert(count_in(v.subnet_count, k) == tally(v.contacts(), by_ip(net_query()(k))));
        }
    }
}

/// Inserting keeps a table in order, whatever the contact.
pub proof fn lemma_inserted_wf(v: TableView, c: KadContact, now: i64)
    requires
        v.wf(),
    ensures
        inserted(v, c, now).0.wf(),
{
    let w = TableView { filter: filter_asked(v.filter, c.ip), ..v };
    if presentable(v, c) {
        assert(w.wf());
        if !(filter_blocks(v.filter, c.ip) || looks_like_dns(c)) {
            if has_id(v.leaf_of(c.id), c.id) {
                assert(w.leaf_of(c.id) == v.leaf_of(c.id));
                lemma_updated_wf(w, c, now);
            } else {
                lemma_added_wf(w, stamped(c, now), now);
            }
        }
    }
}

/// A contact is added only if its identifier was not there; it is there
/// afterwards as it was offered, with the times that it lacked, and no other
/// contact was lost, changed or added.
pub proof fn lemma_inserted_new(v: TableView, c: KadContact, now: i64, x: KadContact)
    requires
        v.wf(),
        inserted(v, c, now).1,
    ensures
        !has_id(v.contacts(), c.id),
        inserted(v, c, now).0.contacts().contains(x) <==> v.contacts().contains(x) || x == stamped(
            c,
            now,
        ),
{
    lemma_leaf_of(v, c.id);
    super::zone::lemma_add_zone_contains(
        v.root,
        stamped(c, now),
        v.local_id,
        v.limits_ok(c.ip),
        v.next_order,
        now,
        x,
    );
}

/// A contact that is known under a key cannot be changed by someone who does
/// not show that key.
pub proof fn lemma_key_protects(v: TableView, c: KadContact, now: i64, our_ip: u32)
    requires
        v.wf(),
        v.external_ip == Some(our_ip),
        has_id(v.contacts(), c.id),
        key_for(v.contact(c.id)->Some_0, our_ip) != 0,
        key_for(v.contact(c.id)->Some_0, our_ip) != key_for(c, our_ip),
    ensures
        inserted(v, c, now).0.contacts() == v.contacts(),
        !inserted(v, c, now).1,
{
    lemma_leaf_of(v, c.id);
    let s = v.leaf_of(c.id);
    let i = index_of_id(s, c.id);
    let d = v.local_id.xor_spec(c.id);
    super::zone::lemma_leaf_in_contents(v.root, d, i);
    super::zone::lemma_contents_distinct(v.root, v.local_id, Seq::empty());
    let j = choose|j: int| 0 <= j < v.contacts().len() && v.contacts()[j] == s[i];
    super::zone::lemma_index_of_id(v.contacts(), j);
}

/// A table that lost some contacts, and forgot exactly their addresses, stays in order.
proof fn lemma_shrunk_wf(v: TableView, root: ZoneView, order: u64, ips: Seq<Ipv4Addr>)
    requires
        v.wf(),
        zone_ok(root, v.local_id, Seq::empty()),
        forall|q: spec_fn(Ipv4Addr) -> bool| #[trigger]
            tally(v.contacts(), by_ip(q)) == tally(contents(root), by_ip(q)) + count_ips(ips, q),
        forall|id: KadId| #[trigger] has_id(contents(root), id) ==> has_id(v.contacts(), id),
    ensures
        (TableView { root, next_order: order, ..v }).forget_ips(ips).wf(),
        (TableView { root, next_order: order, ..v }).forget_ips(ips).root == root,
{
    let u = TableView { root, next_order: order, ..v };
    let base_ip = |k: u32| tally(contents(root), by_ip(is_ip(k)));
    let base_net = |k: u32| tally(contents(root), by_ip(is_net(k)));
    assert forall|k: u32| #[trigger]
        count_in(u.ip_count, k) == base_ip(k) + count_ips(ips, is_ip(k)) by {
        assert(count_in(v.ip_count, k) == tally(v.contacts(), by_ip(ip_query()(k))));
        assert(tally(v.contacts(), by_ip(is_ip(k))) == tally(contents(root), by_ip(is_ip(k)))
            + count_ips(ips, is_ip(k)));
    }
    assert forall|k: u32| #[trigger]
        count_in(u.subnet_count, k) == base_net(k) + count_ips(ips, is_net(k)) by {
        assert(count_in(v.subnet_count, k) == tally(v.contacts(), by_ip(net_query()(k))));
        assert(tally(v.contacts(), by_ip(is_net(k))) == tally(contents(root), by_ip(is_net(k)))
            + count_ips(ips, is_net(k)));
    }
    lemma_forget_ips(u, ips, base_ip, base_net);
    let w = u.forget_ips(ips);
    assert forall|k: u32| #[trigger]
        count_in(w.ip_count, k) == tally(w.contacts(), by_ip(ip_query()(k))) && count_in(
        w.ip_count,
        k,
    ) <= MAX_CONTACTS_IP by {
        assert(count_in(w.ip_count, k) == base_ip(k));
        assert(count_in(u.ip_count, k) <= MAX_CONTACTS_IP);
    }
    assert forall|k: u32| #[trigger]
        count_in(w.subnet_count, k) == tally(w.contacts(), by_ip(net_query()(k))) by {
        assert(count_in(w.subnet_count, k) == base_net(k));
    }
    assert forall|ip: Ipv4Addr| !lan_ip(ip) implies #[trigger] count_in(
        w.subnet_count,
        subnet(ip),
    ) <= MAX_CONTACTS_SUBNET by {
        assert(count_in(w.subnet_count, subnet(ip)) == base_net(subnet(ip)));
        assert(count_in(u.subnet_count, subnet(ip)) <= MAX_CONTACTS_SUBNET);
    }
}

/// The table once sparse leaves were merged, and how many merges there were.
pub open spec fn merged_leaves(v: TableView, now: i64) -> (TableView, u32) {
    let r = consolidated(v.root, v.next_order, now);
    ((TableView { root: r.zone, next_order: r.order, ..v }).forget_ips(r.dropped), r.merges)
}

/// Merging leaves keeps a table in order.
pub proof fn lemma_merged_leaves_wf(v: TableView, now: i64)
    requires
        v.wf(),
    ensures
        merged_leaves(v, now).0.wf(),
{
    let r = consolidated(v.root, v.next_order, now);
    super::zone::lemma_consolidated_ok(v.root, v.next_order, now, v.local_id, Seq::empty());
    assert forall|q: spec_fn(Ipv4Addr) -> bool| #[trigger]
        tally(v.contacts(), by_ip(q)) == tally(contents(r.zone), by_ip(q)) + count_ips(
            r.dropped,
            q,
        ) by {
        super::zone::lemma_consolidated_tally(v.root, v.next_order, now, q);
    }
    assert forall|id: KadId| #[trigger] has_id(contents(r.zone), id) implies has_id(
        v.contacts(),
        id,
    ) by {
        super::zone::lemma_consolidated_ids(v.root, v.next_order, now, id);
    }
    lemma_shrunk_wf(v, r.zone, r.order, r.dropped);
}

/// The contacts that a cleaning takes out.
pub open spec fn cleaned_out(v: TableView, k: Cleaning) -> Seq<KadContact> {
    v.contacts().filter(negated(survives(k, v.in_use)))
}

/// The table after a cleaning; where something went, sparse leaves merge.
pub open spec fn cleaned(v: TableView, k: Cleaning, now: i64) -> TableView {
    let gone = cleaned_out(v, k);
    let w = (TableView { root: kept(v.root, survives(k, v.in_use)), ..v }).forget_ips(
        ips_of(gone),
    );
    if gone.len() > 0 {
        merged_leaves(w, now).0
    } else {
        w
    }
}

proof fn lemma_swept_wf(v: TableView, k: Cleaning)
    requires
        v.wf(),
    ensures
        (TableView { root: kept(v.root, survives(k, v.in_use)), ..v }).forget_ips(
            ips_of(cleaned_out(v, k)),
        ).wf(),
{
    let keep = survives(k, v.in_use);
    let root = kept(v.root, keep);
    super::zone::lemma_kept(v.root, keep, v.local_id, Seq::empty());
    assert forall|q: spec_fn(Ipv4Addr) -> bool| #[trigger]
        tally(v.contacts(), by_ip(q)) == tally(contents(root), by_ip(q)) + count_ips(
            ips_of(cleaned_out(v, k)),
            q,
        ) by {
        super::zone::lemma_kept_tally(v.root, keep, q);
    }
    assert forall|id: KadId| #[trigger] has_id(contents(root), id) implies has_id(
        v.contacts(),
        id,
    ) by {
        super::zone::lemma_filter_ids(v.contacts(), keep, id);
    }
    lemma_shrunk_wf(v, root, v.next_order, ips_of(cleaned_out(v, k)));
}

/// Cleaning keeps a table in order.
pub proof fn lemma_cleaned_wf(v: TableView, k: Cleaning, now: i64)
    requires
        v.wf(),
    ensures
        cleaned(v, k, now).wf(),
{
    lemma_swept_wf(v, k);
    let w = (TableView { root: kept(v.root, survives(k, v.in_use)), ..v }).forget_ips(
        ips_of(cleaned_out(v, k)),
    );
    lemma_merged_leaves_wf(w, now);
}

/// The table after the checks of its leaves.
pub open spec fn checked_table(v: TableView, now: i64) -> TableView {
    (TableView { root: checked(v.root, now, v.in_use), ..v }).forget_ips(
        lost(v.root, now, v.in_use),
    )
}

/// The checks keep a table in order.
pub proof fn lemma_checked_table_wf(v: TableView, now: i64)
    requires
        v.wf(),
    ensures
        checked_table(v, now).wf(),
{
    let root = checked(v.root, now, v.in_use);
    let ips = lost(v.root, now, v.in_use);
    super::zone::lemma_checked_ok(v.root, now, v.in_use, v.local_id, Seq::empty());
    assert forall|q: spec_fn(Ipv4Addr) -> bool| #[trigger]
        tally(v.contacts(), by_ip(q)) == tally(contents(root), by_ip(q)) + count_ips(ips, q) by {
        super::zone::lemma_checked_tally(v.root, now, v.in_use, q);
    }
    assert forall|id: KadId| #[trigger] has_id(contents(root), id) implies has_id(
        v.contacts(),
        id,
    ) by {
        super::zone::lemma_checked_ids(v.root, now, v.in_use, id);
    }
    lemma_shrunk_wf(v, root, v.next_order, ips);
}

/// The table without the contact of an identifier, and whether it was there.
pub open spec fn removed(v: TableView, id: KadId) -> (TableView, bool) {
    let s = v.leaf_of(id);
    if has_id(s, id) {
        let i = index_of_id(s, id);
        (v.with_leaf_of(id, s.remove(i)).forget_ip(s[i].ip), true)
    } else {
        (v, false)
    }
}

proof fn lemma_remove_bin_ok(s: Seq<KadContact>, i: int)
    requires
        bin_ok(s),
        0 <= i < s.len(),
    ensures
        bin_ok(s.remove(i)),
        forall|k: int| 0 <= k < s.remove(i).len() ==> has_id(s, (#[trigger] s.remove(i)[k]).id),
{
    let t = s.remove(i);
    assert forall|k: int| 0 <= k < t.len() implies has_id(s, (#[trigger] t[k]).id) by {
        let k2 = if k < i {
            k
        } else {
            k + 1
        };
        assert(t[k] == s[k2]);
    }
    assert forall|a: int, b: int|
        #![trigger t[a], t[b]]
        0 <= a < b < t.len() implies t[a].id != t[b].id by {
        let a2 = if a < i {
            a
        } else {
            a + 1
        };
        let b2 = if b < i {
            b
        } else {
            b + 1
        };
        assert(t[a] == s[a2] && t[b] == s[b2]);
    }
    assert forall|k: int| 0 <= k < t.len() && !lan_ip((#[trigger] t[k]).ip) implies tally(
        t,
        in_subnet(subnet(t[k].ip)),
    ) <= MAX_CONTACTS_SUBNET_PER_BIN by {
        let k2 = if k < i {
            k
        } else {
            k + 1
        };
        assert(t[k] == s[k2]);
        super::zone::lemma_tally_remove(s, i, in_subnet(subnet(t[k].ip)));
    }
}

/// Removing a contact keeps a table in order.
pub proof fn lemma_removed_wf(v: TableView, id: KadId)
    requires
        v.wf(),
    ensures
        removed(v, id).0.wf(),
        removed(v, id).1 == has_id(v.contacts(), id),
        !has_id(removed(v, id).0.contacts(), id),
{
    lemma_leaf_of(v, id);
    let s = v.leaf_of(id);
    let d = v.local_id.xor_spec(id);
    if has_id(s, id) {
        let i = index_of_id(s, id);
        let t = s.remove(i);
        lemma_remove_bin_ok(s, i);
        super::zone::lemma_with_leaf_ok(v.root, v.local_id, Seq::empty(), d, t);
        let root = with_leaf(v.root, d, t);
        let ips = seq![s[i].ip];
        assert forall|q: spec_fn(Ipv4Addr) -> bool| #[trigger]
            tally(v.contacts(), by_ip(q)) == tally(contents(root), by_ip(q)) + count_ips(
                ips,
                q,
            ) by {
            super::zone::lemma_with_leaf_tally(v.root, d, t, by_ip(q));
            super::zone::lemma_tally_remove(s, i, by_ip(q));
            reveal_with_fuel(count_ips, 2);
            assert(ips.drop_last() =~= Seq::empty());
        }
        assert forall|x: KadId| #[trigger] has_id(contents(root), x) implies has_id(
            v.contacts(),
            x,
        ) by {
            super::zone::lemma_with_leaf_ids(v.root, d, t, x);
        }
        lemma_shrunk_wf(v, root, v.next_order, ips);
        let u = TableView { root, ..v };
        assert(u.forget_ips(ips) == u.forget_ip(s[i].ip)) by {
            reveal_with_fuel(TableView::forget_ips, 2);
            assert(ips.drop_last() =~= Seq::empty());
        }
        let w = removed(v, id).0;
        super::zone::lemma_leaf_has(root, v.local_id, Seq::empty(), id);
        if has_id(t, id) {
            let k = index_of_id(t, id);
            let k2 = if k < i {
                k
            } else {
                k + 1
            };
            assert(t[k] == s[k2]);
            super::zone::lemma_index_of_id(s, k2);
        }
    }
}

/// The table in which a contact proved itself at `now`.
pub open spec fn verified_at(v: TableView, id: KadId, now: i64) -> TableView {
    let s = v.leaf_of(id);
    if has_id(s, id) {
        let i = index_of_id(s, id);
        v.with_leaf_of(
            id,
            s.update(i, (KadContact { verified: true, ..s[i] }).after_answer(now)),
        )
    } else {
        v
    }
}

/// How many searches use each contact once some more do.
pub open spec fn marked(m: Map<u128, u32>, ids: Seq<KadId>) -> Map<u128, u32>
    decreases ids.len(),
{
    if ids.len() == 0 {
        m
    } else {
        let n = marked(m, ids.drop_last());
        let u = uses(n, ids.last());
        n.insert(
            ids.last().val(),
            if u == u32::MAX {
                u
            } else {
                (u + 1) as u32
            },
        )
    }
}

/// How many searches use each contact once some are over.
pub open spec fn released(m: Map<u128, u32>, ids: Seq<KadId>) -> Map<u128, u32>
    decreases ids.len(),
{
    if ids.len() == 0 {
        m
    } else {
        let n = released(m, ids.drop_last());
        let k = ids.last().val();
        if !n.contains_key(k) {
            n
        } else if n[k] <= 1 {
            n.remove(k)
        } else {
            n.insert(k, (n[k] - 1) as u32)
        }
    }
}

/// Two to the power of `n`.
pub open spec fn pow2(n: nat) -> nat
    decreases n,
{
    if n == 0 {
        1
    } else {
        2 * pow2((n - 1) as nat)
    }
}

/// How many nodes the network has, by the density around the local
/// identifier: with leaf level `l` below four, 2^l full bins; else the
/// contacts of the zone three levels up, times the 2^(l-3) such zones.
pub open spec fn estimated(v: TableView) -> u32 {
    let l = own_leaf_level(v.root);
    if l < KBASE {
        sat_u32(pow2(l as nat) * K_BUCKET_SIZE as nat)
    } else {
        let near = sat_u32(contents(own_zone(v.root, (l - 3) as u32)).len());
        sat_u32(pow2((l - 3) as nat) * near as nat)
    }
}

/// Whether a contact could be taken: a known one, if it is where it proved
/// itself; a new one, if there is room for its address.
pub open spec fn acceptable(v: TableView, c: KadContact) -> bool {
    if c.version < KADEMLIA_VERSION2_47A {
        false
    } else {
        match v.contact(c.id) {
            Some(known) => !(known.verified && (known.ip != c.ip || known.udp_port != c.udp_port)),
            None => v.limits_ok(c.ip),
        }
    }
}

pub open spec fn not_dead_type() -> spec_fn(KadContact) -> bool {
    |c: KadContact| c.contact_type < CONTACT_TYPE_DEAD
}

pub open spec fn unverified() -> spec_fn(KadContact) -> bool {
    |c: KadContact| !c.verified
}

/// By reachability and then distance.
pub open spec fn ranked(t: KadId, s: Seq<KadContact>) -> bool {
    forall|i: int, j: int|
        #![trigger s[i], s[j]]
        0 <= i < j < s.len() ==> {
            let (a, b) = (s[i].kad_options & 1 != 0, s[j].kad_options & 1 != 0);
            (!a && b) || (a == b && far(t, s[i]) < far(t, s[j]))
        }
}

/// The same contacts, by reachability and then distance.
pub open spec fn ranking_of(t: KadId, all: Seq<KadContact>, out: Seq<KadContact>) -> bool {
    &&& ranked(t, out)
    &&& out.len() == all.len()
    &&& forall|x: KadContact| #[trigger] out.contains(x) <==> all.contains(x)
}

pub open spec fn take_at_most(s: Seq<KadContact>, n: nat) -> Seq<KadContact> {
    if s.len() <= n {
        s
    } else {
        s.take(n as int)
    }
}

// ---------------------------------------------------------------------------
// The table
// ---------------------------------------------------------------------------
/// The contacts of a node, by distance from its own identifier.
pub struct RoutingTable {
    root: RoutingZone,
    local_id: KadId,
    global_ip_count: HashMap<u32, u32>,
    global_subnet_count: HashMap<u32, u32>,
    block_private_ips: bool,
    external_ip: Option<u32>,
    big_timer_global_deadline: i64,
    next_zone_event_order: u64,
    in_use_contacts: HashMap<u128, u32>,
    range_ip_filter: Option<SharedIpFilter>,
}

impl View for RoutingTable {
    type V = TableView;

    closed spec fn view(&self) -> TableView {
        TableView {
            root: self.root@,
            local_id: self.local_id,
            ip_count: self.global_ip_count@,
            subnet_count: self.global_subnet_count@,
            block_private: self.block_private_ips,
            external_ip: self.external_ip,
            deadline: self.big_timer_global_deadline,
            next_order: self.next_zone_event_order,
            in_use: self.in_use_contacts@,
            filter: slot_of(self.range_ip_filter),
        }
    }
}

/// A table without contacts, as it is at `now`.
pub open spec fn empty_table(local_id: KadId, block_private: bool, now: i64) -> TableView {
    TableView {
        root: ZoneView::Leaf {
            meta: leaf_meta(0, super::types::id_of(0), 0, now),
            contacts: Seq::empty(),
        },
        local_id,
        ip_count: Map::empty(),
        subnet_count: Map::empty(),
        block_private,
        external_ip: None,
        deadline: now,
        next_order: 1,
        in_use: Map::empty(),
        filter: None,
    }
}

/// A table cleared at `now`: the settings stay.
pub open spec fn cleared(v: TableView, now: i64) -> TableView {
    TableView {
        external_ip: v.external_ip,
        filter: v.filter,
        ..empty_table(v.local_id, v.block_private, now)
    }
}

proof fn lemma_cleared_wf(v: TableView, now: i64)
    requires
        match v.filter {
            Some(FilterSlot::Readable(s)) => s.wf(),
            _ => true,
        },
    ensures
        cleared(v, now).wf(),
{
    let w = cleared(v, now);
    assert(w.contacts() =~= Seq::empty());
    assert forall|k: u32| #[trigger]
        count_in(w.ip_count, k) == tally(w.contacts(), by_ip(ip_query()(k))) by {}
    assert forall|k: u32| #[trigger]
        count_in(w.subnet_count, k) == tally(w.contacts(), by_ip(net_query()(k))) by {}
}

fn is_limits_ok(
    ip: Ipv4Addr,
    ip_count: &HashMap<u32, u32>,
    subnet_count: &HashMap<u32, u32>,
) -> (r: bool)
    ensures
        r == (count_in(ip_count@, ip.bits) < MAX_CONTACTS_IP && (lan_ip(ip) || count_in(
            subnet_count@,
            subnet(ip),
        ) < MAX_CONTACTS_SUBNET)),
{
    if get_count(ip_count, ip.bits) >= MAX_CONTACTS_IP {
        return false;
    }
    if !is_lan_v4(ip) {
        if get_count(subnet_count, subnet_key(ip)) >= MAX_CONTACTS_SUBNET {
            return false;
        }
    }
    true
}

/// Sorts contacts by reachability, if asked to, and then by distance.
fn sort_contacts(target: &KadId, all: &Vec<KadContact>, by_reach: bool) -> (out: Vec<KadContact>)
    requires
        distinct_ids(all@),
    ensures
        by_reach ==> ranking_of(*target, all@, out@),
        !by_reach ==> by_distance(*target, out@) && out@.len() == all@.len() && (forall|
            x: KadContact,
        | #[trigger] out@.contains(x) <==> all@.contains(x)),
{
    let mut keys: Vec<SortKey> = Vec::new();
    let mut i: usize = 0;
    while i < all.len()
        invariant
            i <= all@.len(),
            keys@.len() == i,
            forall|k: int|
                0 <= k < i ==> #[trigger] keys@[k] == (SortKey {
                    major: if by_reach && all@[k].kad_options & 1 != 0 {
                        1
                    } else {
                        0
                    },
                    minor: far(*target, all@[k]),
                    index: k as usize,
                }),
        decreases all@.len() - i,
    {
        let c = &all[i];
        let major: u64 = if by_reach && c.is_udp_firewalled() {
            1
        } else {
            0
        };
        keys.push(SortKey { major, minor: target.xor_distance(&c.id).to_u128(), index: i });
        i = i + 1;
    }
    let sorted = sort_keys(&keys);
    proof {
        lemma_sorted_positions(keys@, sorted@);
    }
    let mut out: Vec<KadContact> = Vec::new();
    let mut j: usize = 0;
    while j < sorted.len()
        invariant
            j <= sorted@.len(),
            sorted@.len() == keys@.len() == all@.len(),
            forall|i: int|
                0 <= i < sorted@.len() ==> 0 <= (#[trigger] sorted@[i]).index < keys@.len(),
            out@.len() == j,
            forall|k: int| 0 <= k < j ==> #[trigger] out@[k] == all@[sorted@[k].index as int],
        decreases sorted@.len() - j,
    {
        out.push(all[sorted[j].index]);
        j = j + 1;
    }
    proof {
        assert forall|a: int, b: int|
            #![trigger out@[a], out@[b]]
            0 <= a < b < out@.len() implies {
            let (x, y) = (out@[a].kad_options & 1 != 0, out@[b].kad_options & 1 != 0);
            &&& far(*target, out@[a]) != far(*target, out@[b])
            &&& by_reach ==> (!x && y) || (x == y && far(*target, out@[a]) < far(
                *target,
                out@[b],
            ))
            &&& !by_reach ==> far(*target, out@[a]) < far(*target, out@[b])
        } by {
            let (ka, kb) = (sorted@[a], sorted@[b]);
            assert(ka.before(kb));
            assert(ka == keys@[ka.index as int] && kb == keys@[kb.index as int]);
            assert(ka.index != kb.index);
            assert(out@[a] == all@[ka.index as int] && out@[b] == all@[kb.index as int]);
            assert(out@[a].id != out@[b].id) by {
                let (p, q) = (ka.index as int, kb.index as int);
                if p < q {
                    assert(all@[p].id != all@[q].id);
                } else {
                    assert(all@[q].id != all@[p].id);
                }
            }
            if far(*target, out@[a]) == far(*target, out@[b]) {
                super::zone::lemma_far_injective(*target, out@[a], out@[b]);
            }
        }
        assert forall|x: KadContact| #[trigger] out@.contains(x) <==> all@.contains(x) by {
            if out@.contains(x) {
                let k = choose|k: int| 0 <= k < out@.len() && out@[k] == x;
                assert(all@[sorted@[k].index as int] == x);
            }
            if all@.contains(x) {
                let k = choose|k: int| 0 <= k < all@.len() && all@[k] == x;
                assert(sorted@.contains(keys@[k]));
                let m = choose|m: int| 0 <= m < sorted@.len() && sorted@[m] == keys@[k];
                assert(out@[m] == all@[sorted@[m].index as int]);
            }
        }
    }
    out
}

fn keep_if_unverified(s: &Vec<KadContact>) -> (out: Vec<KadContact>)
    ensures
        out@ == s@.filter(unverified()),
{
    let ghost f = unverified();
    let mut out: Vec<KadContact> = Vec::new();
    let mut i: usize = 0;
    proof {
        reveal(Seq::filter);
        assert(s@.take(0).filter(f) =~= Seq::empty());
    }
    while i < s.len()
        invariant
            i <= s@.len(),
            f == unverified(),
            out@ == s@.take(i as int).filter(f),
        decreases s@.len() - i,
    {
        proof {
            reveal(Seq::filter);
            assert(s@.take(i as int + 1).drop_last() =~= s@.take(i as int));
        }
        if !s[i].verified {
            out.push(s[i]);
        }
        i = i + 1;
    }
    assert(s@.take(i as int) =~= s@);
    out
}

fn keep_if_alive(s: &Vec<KadContact>) -> (out: Vec<KadContact>)
    ensures
        out@ == s@.filter(not_dead_type()),
{
    let ghost f = not_dead_type();
    let mut out: Vec<KadContact> = Vec::new();
    let mut i: usize = 0;
    proof {
        reveal(Seq::filter);
        assert(s@.take(0).filter(f) =~= Seq::empty());
    }
    while i < s.len()
        invariant
            i <= s@.len(),
            f == not_dead_type(),
            out@ == s@.take(i as int).filter(f),
        decreases s@.len() - i,
    {
        proof {
            reveal(Seq::filter);
            assert(s@.take(i as int + 1).drop_last() =~= s@.take(i as int));
        }
        if !s[i].is_dead() {
            out.push(s[i]);
        }
        i = i + 1;
    }
    assert(s@.take(i as int) =~= s@);
    out
}

impl RoutingTable {
    /// An empty table, at the time `now`.
    pub fn new_at(local_id: KadId, block_private_ips: bool, now: i64) -> (r: RoutingTable)
        requires
            clock_time(now),
        ensures
            r@ == empty_table(local_id, block_private_ips, now),
            r@.wf(),
    {
        broadcast use vstd::std_specs::hash::group_hash_axioms;

        let zero = KadId::from_u32(0);
        proof {
            lemma_id_of(zero);
            let v = empty_table(local_id, block_private_ips, now);
            lemma_cleared_wf(v, now);
            assert(cleared(v, now) == v);
        }
        let r = RoutingTable {
            root: RoutingZone::new_leaf(0, zero, 0, now),
            local_id,
            global_ip_count: HashMap::new(),
            global_subnet_count: HashMap::new(),
            block_private_ips,
            external_ip: None,
            big_timer_global_deadline: now,
            next_zone_event_order: 1,
            in_use_contacts: HashMap::new(),
            range_ip_filter: None,
        };
        assert(r@.ip_count =~= Map::empty());
        assert(r@.subnet_count =~= Map::empty());
        assert(r@.in_use =~= Map::empty());
        r
    }

    /// An empty table.
    pub fn new(local_id: KadId, block_private_ips: bool) -> (r: RoutingTable)
        ensures
            r@.wf(),
            exists|now: i64|
                clock_time(now) && r@ == #[trigger] empty_table(local_id, block_private_ips, now),
    {
        RoutingTable::new_at(local_id, block_private_ips, utc_now())
    }

    /// Lets the next lookup start at `now`.
    pub fn reset_big_timer_global(&mut self, now: i64)
        ensures
            final(self)@ == (TableView { deadline: now, ..old(self)@ }),
    {
        self.big_timer_global_deadline = now;
    }

    /// Sets our own address, as peers see it.
    pub fn set_external_ip(&mut self, ip: Ipv4Addr)
        ensures
            final(self)@ == (TableView { external_ip: Some(ip.bits), ..old(self)@ }),
    {
        self.external_ip = Some(ip.bits);
    }

    /// Sets the range filter that new contacts must pass.
    pub fn set_ip_filter(&mut self, filter: SharedIpFilter)
        ensures
            final(self)@ == (TableView { filter: slot_of(Some(filter)), ..old(self)@ }),
    {
        self.range_ip_filter = Some(filter);
    }

    /// Hands the range filter back, with all that it has counted.
    pub fn take_ip_filter(&mut self) -> (r: Option<SharedIpFilter>)
        ensures
            slot_of(r) == old(self)@.filter,
            final(self)@ == (TableView { filter: None, ..old(self)@ }),
    {
        self.range_ip_filter.take()
    }

    /// Brings the range filter up to date, where there is one that can be read.
    pub fn update_ip_filter(&mut self, filter: &IpFilter)
        requires
            old(self)@.wf(),
            filter@.wf(),
        ensures
            final(self)@ == (TableView {
                filter: filter_refreshed(old(self)@.filter, filter@),
                ..old(self)@
            }),
            final(self)@.wf(),
    {
        if let Some(SharedIpFilter::Readable(s)) = &mut self.range_ip_filter {
            filter.update_shared_snapshot(s);
        }
    }

    /// Moves what the range filter has counted into the filter that it is a
    /// snapshot of, where there is one that can be read.
    pub fn collect_filter_hits(&mut self, filter: &mut IpFilter)
        requires
            old(self)@.wf(),
            old(filter)@.wf(),
        ensures
            final(self)@ == (TableView {
                filter: filter_emptied(old(self)@.filter),
                ..old(self)@
            }),
            final(filter)@ == filter_collected(old(self)@.filter, old(filter)@),
            final(self)@.wf(),
            final(filter)@.wf(),
    {
        if let Some(SharedIpFilter::Readable(s)) = &mut self.range_ip_filter {
            filter.collect_shared_hits(s);
        }
    }

    pub fn has_contact_ip(&self, ip: Ipv4Addr) -> (r: bool)
        ensures
            r == (count_in(self@.ip_count, ip.bits) > 0),
    {
        get_count(&self.global_ip_count, ip.bits) > 0
    }

    fn track_ip_add(&mut self, ip: Ipv4Addr)
        requires
            count_in(old(self)@.ip_count, ip.bits) < u32::MAX,
            count_in(old(self)@.subnet_count, subnet(ip)) < u32::MAX,
        ensures
            final(self)@ == old(self)@.note_ip(ip),
    {
        count_up(&mut self.global_ip_count, ip.bits);
        count_up(&mut self.global_subnet_count, subnet_key(ip));
    }

    fn track_ip_remove(&mut self, ip: Ipv4Addr)
        ensures
            final(self)@ == old(self)@.forget_ip(ip),
    {
        count_down(&mut self.global_ip_count, ip.bits);
        count_down(&mut self.global_subnet_count, subnet_key(ip));
    }

    fn track_ips_remove(&mut self, ips: &Vec<Ipv4Addr>)
        ensures
            final(self)@ == old(self)@.forget_ips(ips@),
    {
        let ghost v0 = self@;
        let mut i: usize = 0;
        assert(ips@.take(0) =~= Seq::empty());
        while i < ips.len()
            invariant
                i <= ips@.len(),
                self@ == v0.forget_ips(ips@.take(i as int)),
            decreases ips@.len() - i,
        {
            self.track_ip_remove(ips[i]);
            assert(ips@.take(i as int + 1).drop_last() =~= ips@.take(i as int));
            i = i + 1;
        }
        assert(ips@.take(i as int) =~= ips@);
    }

    fn ask_filter(&mut self, ip: Ipv4Addr) -> (blocked: bool)
        requires
            old(self)@.wf(),
        ensures
            blocked == filter_blocks(old(self)@.filter, ip),
            final(self)@ == (TableView { filter: filter_asked(old(self)@.filter, ip), ..old(self)@ }),
    {
        match &mut self.range_ip_filter {
            None => false,
            Some(f) => match f {
                SharedIpFilter::Readable(s) => s.is_blocked_for_kad(ip),
                SharedIpFilter::Poisoned => true,
            },
        }
    }

    /// What is known of a contact once it was heard from again.
    fn update_known(&mut self, contact: KadContact, now: i64)
        requires
            old(self)@.wf(),
            clock_time(now),
            has_id(old(self)@.leaf_of(contact.id), contact.id),
        ensures
            final(self)@ == updated(old(self)@, contact, now),
    {
        let ghost v0 = self@;
        let ghost s = v0.leaf_of(contact.id);
        let distance = self.local_id.xor_distance(&contact.id);
        let external_ip = self.external_ip;
        proof {
            lemma_leaf_of(v0, contact.id);
        }
        let bin = self.root.find_bin(&distance);
        let pos: usize = match bin.position(&contact.id) {
            Some(p) => p,
            None => {
                return ;
            },
        };
        let known = bin.contacts[pos];
        proof {
            super::zone::lemma_index_of_id(s, pos as int);
        }
        if let Some(our_ip) = external_ip {
            let known_key: u32 = match known.udp_key {
                Some(k) => k.get_key_value(our_ip),
                None => 0,
            };
            if known_key != 0 {
                let shown_key: u32 = match contact.udp_key {
                    Some(k) => k.get_key_value(our_ip),
                    None => 0,
                };
                if known_key != shown_key {
                    return ;
                }
            }
        }
        if known.version >= KADEMLIA_VERSION1_46C && known.version < KADEMLIA_VERSION6_49ABETA
            && known.received_hello {
            if known.ip == contact.ip && known.tcp_port == contact.tcp_port && known.version
                == contact.version && known.udp_port == contact.udp_port {
                let mut c = known;
                c.update_type(now);
                let bin = self.root.find_bin_mut(&distance);
                bin.contacts.remove(pos);
                bin.contacts.push(c);
            }
            return ;
        }
        let old_ip = known.ip;
        let moves = old_ip != contact.ip;
        if moves {
            if get_count(&self.global_ip_count, contact.ip.bits) >= MAX_CONTACTS_IP {
                return ;
            }
            let new_net: u32 = subnet_key(contact.ip);
            if subnet_key(old_ip) != new_net && !is_lan_v4(contact.ip) {
                if get_count(&self.global_subnet_count, new_net) >= MAX_CONTACTS_SUBNET {
                    return ;
                }
                let bin = self.root.find_bin(&distance);
                if super::zone::count_subnet(&bin.contacts, new_net)
                    >= MAX_CONTACTS_SUBNET_PER_BIN {
                    return ;
                }
            }
        }
        let mut c = known;
        c.set_ip(contact.ip);
        c.udp_port = contact.udp_port;
        c.tcp_port = contact.tcp_port;
        if contact.version >= c.version {
            c.version = contact.version;
        }
        if contact.verified && !c.verified {
            c.verified = true;
        }
        if contact.udp_key.is_some() {
            c.udp_key = contact.udp_key;
        }
        c.kad_options = contact.kad_options;
        if contact.received_hello {
            c.received_hello = true;
        }
        c.update_type(now);
        assert(c == refreshed(known, contact, now));
        let bin = self.root.find_bin_mut(&distance);
        bin.contacts.remove(pos);
        bin.contacts.push(c);
        if moves {
            proof {
                lemma_moved_ip_wf(v0, contact.id, pos as int, c);
            }
            self.track_ip_remove(old_ip);
            self.track_ip_add(contact.ip);
        }
    }

    /// Takes a contact that was heard of at `now`. Returns whether it is new
    /// in the table; a known one is updated instead.
    pub fn insert_at(&mut self, contact: KadContact, now: i64) -> (added: bool)
        requires
            old(self)@.wf(),
            clock_time(now),
        ensures
            (final(self)@, added) == inserted(old(self)@, contact, now),
            final(self)@.wf(),
    {
        let ghost v0 = self@;
        proof {
            lemma_inserted_wf(v0, contact, now);
        }
        if contact.kad_options & 1 != 0 {
            return false;
        }
        if contact.id == KadId::zero() {
            return false;
        }
        if contact.id == self.local_id {
            return false;
        }
        if !contact.is_kad2() {
            return false;
        }
        if !is_valid_contact_ip(contact.ip, self.block_private_ips) {
            return false;
        }
        if self.ask_filter(contact.ip) {
            return false;
        }
        if contact.udp_port == 53 && contact.version <= KADEMLIA_VERSION5_48A {
            return false;
        }
        let ghost v1 = self@;
        assert(v1.wf());
        proof {
            lemma_leaf_of(v1, contact.id);
        }
        let distance = self.local_id.xor_distance(&contact.id);
        let known = self.root.find_bin(&distance).position(&contact.id).is_some();
        if known {
            self.update_known(contact, now);
            return false;
        }
        let mut c = contact;
        if c.created_at == 0 {
            c.created_at = now;
        }
        if c.expires_at == 0 {
            c.expires_at = now + CONTACT_DEFAULT_TTL_SECS;
        }
        let limits = is_limits_ok(contact.ip, &self.global_ip_count, &self.global_subnet_count);
        proof {
            lemma_added_wf(v1, c, now);
        }
        let mut order: u64 = self.next_zone_event_order;
        let result = self.root.add(
            c,
            &self.local_id,
            limits,
            &mut order,
            now,
            Ghost(Seq::empty()),
        );
        self.next_zone_event_order = order;
        if result == AddResult::Added {
            self.track_ip_add(contact.ip);
            true
        } else {
            false
        }
    }

    /// Takes a contact that was just heard of.
    pub fn insert(&mut self, contact: KadContact) -> (added: bool)
        requires
            old(self)@.wf(),
        ensures
            exists|now: i64|
                clock_time(now) && (final(self)@, added) == #[trigger] inserted(
                    old(self)@,
                    contact,
                    now,
                ),
            final(self)@.wf(),
    {
        self.insert_at(contact, utc_now())
    }

    /// Takes a contact out.
    pub fn remove(&mut self, id: &KadId) -> (found: bool)
        requires
            old(self)@.wf(),
        ensures
            (final(self)@, found) == removed(old(self)@, *id),
            final(self)@.wf(),
    {
        proof {
            lemma_leaf_of(self@, *id);
            lemma_removed_wf(self@, *id);
        }
        let distance = self.local_id.xor_distance(id);
        let bin = self.root.find_bin_mut(&distance);
        match bin.remove_contact(id) {
            Some(c) => {
                self.track_ip_remove(c.ip);
                true
            },
            None => {
                proof {
                    super::zone::lemma_with_leaf_same(old(self)@.root, distance);
                }
                false
            },
        }
    }

    /// Notes that a contact proved itself at `now`.
    pub fn mark_verified_at(&mut self, id: &KadId, now: i64)
        requires
            old(self)@.wf(),
            clock_time(now),
        ensures
            final(self)@ == verified_at(old(self)@, *id, now),
            final(self)@.wf(),
    {
        let ghost v0 = self@;
        let ghost s = v0.leaf_of(*id);
        proof {
            lemma_leaf_of(v0, *id);
        }
        let distance = self.local_id.xor_distance(id);
        let bin = self.root.find_bin_mut(&distance);
        match bin.position(id) {
            Some(i) => {
                let mut c = bin.contacts[i];
                c.verified = true;
                c.update_type(now);
                bin.contacts.set(i, c);
                proof {
                    super::zone::lemma_index_of_id(s, i as int);
                    lemma_same_ip_wf(v0, *id, i as int, c, s.update(i as int, c));
                }
            },
            None => {
                proof {
                    super::zone::lemma_with_leaf_same(v0.root, distance);
                }
            },
        }
    }

    /// Notes that a contact proved itself.
    pub fn mark_verified(&mut self, id: &KadId)
        requires
            old(self)@.wf(),
        ensures
            exists|now: i64|
                clock_time(now) && final(self)@ == #[trigger] verified_at(old(self)@, *id, now),
            final(self)@.wf(),
    {
        self.mark_verified_at(id, utc_now())
    }

    /// The `count` verified contacts of a good enough type that are closest to
    /// a target, closest first.
    pub fn find_closest_verified_by_type(&self, target: &KadId, count: usize, max_type: u8) -> (out:
        Vec<KadContact>)
        requires
            self@.wf(),
        ensures
            closest_of(
                *target,
                self@.contacts().filter(eligible(max_type)),
                count as nat,
                out@,
            ),
    {
        let distance = self.local_id.xor_distance(target);
        let mut result: Vec<KadContact> = Vec::new();
        let ghost none = result@;
        self.root.get_closest_to(
            max_type,
            target,
            &distance,
            count,
            &mut result,
            Ghost(self.local_id),
            Ghost(Seq::empty()),
        );
        assert(none + self@.contacts().filter(eligible(max_type)) =~= self@.contacts().filter(
            eligible(max_type),
        ));
        result
    }

    /// The `count` verified contacts that are not dead and closest to a target.
    pub fn find_closest_verified(&self, target: &KadId, count: usize) -> (out: Vec<KadContact>)
        requires
            self@.wf(),
        ensures
            closest_of(
                *target,
                self@.contacts().filter(eligible((CONTACT_TYPE_DEAD - 1) as u8)),
                count as nat,
                out@,
            ),
    {
        self.find_closest_verified_by_type(target, count, CONTACT_TYPE_DEAD - 1)
    }

    /// The closest verified contacts, and as far as they are too few the
    /// closest of the others; in each group those that can be reached first.
    pub fn find_closest_prefer_verified(&self, target: &KadId, count: usize) -> (out: Vec<
        KadContact,
    >)
        requires
            self@.wf(),
        ensures
            exists|v: Seq<KadContact>, a: Seq<KadContact>, b: Seq<KadContact>|
                {
                    &&& #[trigger] closest_of(
                        *target,
                        self@.contacts().filter(eligible((CONTACT_TYPE_DEAD - 1) as u8)),
                        count as nat,
                        v,
                    )
                    &&& #[trigger] ranking_of(*target, v, a)
                    &&& #[trigger] ranking_of(*target, self@.contacts().filter(unverified()), b)
                    &&& out@ == a + take_at_most(b, (count - a.len()) as nat)
                },
    {
        let v = self.find_closest_verified(target, count);
        let ghost all = self@.contacts();
        proof {
            super::zone::lemma_contents_distinct(self@.root, self.local_id, Seq::empty());
            super::zone::lemma_filter_members(all, eligible((CONTACT_TYPE_DEAD - 1) as u8));
            super::zone::lemma_filter_members(all, unverified());
            lemma_by_distance_distinct(*target, v@);
        }
        let mut out = sort_contacts(target, &v, true);
        let ghost a = out@;
        let mut everyone: Vec<KadContact> = Vec::new();
        self.root.collect_all_contacts(&mut everyone);
        assert(everyone@ =~= all);
        let others = keep_if_unverified(&everyone);
        let ranked_others = sort_contacts(target, &others, true);
        let ghost b = ranked_others@;
        let mut i: usize = 0;
        assert(out@ =~= a + b.take(0));
        while i < ranked_others.len() && out.len() < count
            invariant
                i <= b.len(),
                b == ranked_others@,
                out@ == a + b.take(i as int),
                a.len() <= count,
                out@.len() <= count,
            decreases b.len() - i,
        {
            out.push(ranked_others[i]);
            i = i + 1;
            assert(out@ =~= a + b.take(i as int));
        }
        proof {
            assert(out@ =~= a + take_at_most(b, (count - a.len()) as nat));
            assert(closest_of(
                *target,
                self@.contacts().filter(eligible((CONTACT_TYPE_DEAD - 1) as u8)),
                count as nat,
                v@,
            ));
            assert(ranking_of(*target, v@, a));
            assert(ranking_of(*target, self@.contacts().filter(unverified()), b));
        }
        out
    }

    /// The `count` contacts that are closest to a target, closest first.
    pub fn find_closest(&self, target: &KadId, count: usize) -> (out: Vec<KadContact>)
        requires
            self@.wf(),
        ensures
            closest_of(*target, self@.contacts(), count as nat, out@),
    {
        let mut everyone: Vec<KadContact> = Vec::new();
        self.root.collect_all_contacts(&mut everyone);
        assert(everyone@ =~= self@.contacts());
        proof {
            super::zone::lemma_contents_distinct(self@.root, self.local_id, Seq::empty());
        }
        let mut out = sort_contacts(target, &everyone, false);
        let ghost sorted = out@;
        if out.len() > count {
            out.truncate(count);
        }
        proof {
            super::zone::lemma_front_is_closest(
                *target,
                self@.contacts(),
                sorted,
                count as nat,
                out@,
            );
        }
        out
    }

    /// Notes that the contact at an address answered at `now`. False if there is none.
    pub fn touch_contact_by_addr_at(&mut self, ip: Ipv4Addr, udp_port: u16, now: i64) -> (found:
        bool)
        requires
            old(self)@.wf(),
            clock_time(now),
        ensures
            match touched(old(self)@.root, ip, udp_port, now) {
                Some(t) => found && final(self)@ == (TableView { root: t, ..old(self)@ }),
                None => !found && final(self)@ == old(self)@,
            },
            final(self)@.wf(),
    {
        let ghost v0 = self@;
        let found = self.root.touch_contact_by_addr(ip, udp_port, now);
        proof {
            if let Some(t) = touched(v0.root, ip, udp_port, now) {
                let none = Seq::<Ipv4Addr>::empty();
                assert forall|q: spec_fn(Ipv4Addr) -> bool| #[trigger]
                    tally(v0.contacts(), by_ip(q)) == tally(contents(t), by_ip(q)) + count_ips(
                        none,
                        q,
                    ) by {
                    super::zone::lemma_touched(
                        v0.root,
                        ip,
                        udp_port,
                        now,
                        v0.local_id,
                        Seq::empty(),
                        q,
                    );
                }
                super::zone::lemma_touched(
                    v0.root,
                    ip,
                    udp_port,
                    now,
                    v0.local_id,
                    Seq::empty(),
                    is_ip(0),
                );
                assert forall|id: KadId| #[trigger] has_id(contents(t), id) implies has_id(
                    v0.contacts(),
                    id,
                ) by {
                    super::zone::lemma_touched_ids(v0.root, ip, udp_port, now, id);
                }
                lemma_shrunk_wf(v0, t, v0.next_order, none);
            }
        }
        found
    }

    /// Notes that the contact at an address answered.
    pub fn touch_contact_by_addr(&mut self, ip: Ipv4Addr, udp_port: u16) -> (found: bool)
        requires
            old(self)@.wf(),
        ensures
            final(self)@.wf(),
            exists|now: i64|
                clock_time(now) && match #[trigger] touched(old(self)@.root, ip, udp_port, now) {
                    Some(t) => found && final(self)@ == (TableView { root: t, ..old(self)@ }),
                    None => !found && final(self)@ == old(self)@,
                },
    {
        self.touch_contact_by_addr_at(ip, udp_port, utc_now())
    }

    /// All contacts, from the closest leaf to the farthest.
    pub fn all_contacts(&self) -> (out: Vec<KadContact>)
        ensures
            out@ == self@.contacts(),
    {
        let mut out: Vec<KadContact> = Vec::new();
        self.root.collect_all_contacts(&mut out);
        assert(out@ =~= self@.contacts());
        out
    }

    /// How many contacts there are, up to the largest `u32`.
    pub fn len(&self) -> (n: usize)
        ensures
            n == sat_u32(self@.contacts().len()),
    {
        self.root.get_num_contacts() as usize
    }

    pub fn is_empty(&self) -> (r: bool)
        ensures
            r == (self@.contacts().len() == 0),
    {
        self.len() == 0
    }

    /// Forgets all contacts, at the time `now`.
    pub fn clear_at(&mut self, now: i64)
        requires
            old(self)@.wf(),
            clock_time(now),
        ensures
            final(self)@ == cleared(old(self)@, now),
            final(self)@.wf(),
    {
        broadcast use vstd::std_specs::hash::group_hash_axioms;

        let zero = KadId::from_u32(0);
        proof {
            lemma_id_of(zero);
            lemma_cleared_wf(self@, now);
        }
        self.root = RoutingZone::new_leaf(0, zero, 0, now);
        self.big_timer_global_deadline = now;
        self.next_zone_event_order = 1;
        self.global_ip_count = HashMap::new();
        self.global_subnet_count = HashMap::new();
        self.in_use_contacts = HashMap::new();
        assert(self@.ip_count =~= Map::empty());
        assert(self@.subnet_count =~= Map::empty());
        assert(self@.in_use =~= Map::empty());
    }

    /// Forgets all contacts.
    pub fn clear(&mut self)
        requires
            old(self)@.wf(),
        ensures
            exists|now: i64| clock_time(now) && final(self)@ == #[trigger] cleared(old(self)@, now),
            final(self)@.wf(),
    {
        self.clear_at(utc_now())
    }

    /// The contact with an identifier.
    pub fn get_contact(&self, id: &KadId) -> (r: Option<&KadContact>)
        requires
            self@.wf(),
        ensures
            match r {
                Some(c) => self@.contact(*id) == Some(*c),
                None => self@.contact(*id) is None,
            },
    {
        proof {
            lemma_leaf_of(self@, *id);
        }
        let distance = self.local_id.xor_distance(id);
        let bin = self.root.find_bin(&distance);
        match bin.position(id) {
            Some(i) => {
                proof {
                    let s = self@.leaf_of(*id);
                    super::zone::lemma_leaf_in_contents(self@.root, distance, i as int);
                    super::zone::lemma_contents_distinct(self@.root, self.local_id, Seq::empty());
                    let all = self@.contacts();
                    let j = choose|j: int| 0 <= j < all.len() && all[j] == s[i as int];
                    super::zone::lemma_index_of_id(all, j);
                }
                Some(&bin.contacts[i])
            },
            None => None,
        }
    }

    /// The contact with an identifier, for changing it. A caller that keeps
    /// its identifier and address keeps the table in order.
    pub fn get_contact_mut(&mut self, id: &KadId) -> (r: Option<&mut KadContact>)
        requires
            old(self)@.wf(),
        ensures
            match r {
                Some(c) => {
                    let s = old(self)@.leaf_of(*id);
                    let i = index_of_id(s, *id);
                    &&& has_id(s, *id)
                    &&& *c == s[i]
                    &&& final(self)@ == old(self)@.with_leaf_of(*id, s.update(i, *final(c)))
                    &&& final(c).id == s[i].id && final(c).ip == s[i].ip ==> final(self)@.wf()
                },
                None => !has_id(old(self)@.contacts(), *id) && final(self)@ == old(self)@,
            },
    {
        let ghost v0 = self@;
        let ghost s = v0.leaf_of(*id);
        proof {
            lemma_leaf_of(v0, *id);
        }
        let distance = self.local_id.xor_distance(id);
        let pos: Option<usize> = self.root.find_bin(&distance).position(id);
        match pos {
            Some(i) => {
                proof {
                    super::zone::lemma_index_of_id(s, i as int);
                    assert forall|c: KadContact|
                        c.id == s[i as int].id && c.ip == s[i as int].ip implies #[trigger] v0.with_leaf_of(
                        *id,
                        s.update(i as int, c),
                    ).wf() by {
                        lemma_same_ip_wf(v0, *id, i as int, c, s.update(i as int, c));
                    }
                }
                let bin = self.root.find_bin_mut(&distance);
                Some(&mut bin.contacts[i])
            },
            None => None,
        }
    }

    /// Marks every contact as verified.
    pub fn set_all_contacts_verified(&mut self)
        requires
            old(self)@.wf(),
        ensures
            final(self)@ == (TableView { root: all_verified(old(self)@.root), ..old(self)@ }),
            final(self)@.contacts() == verified_contacts(old(self)@.contacts()),
            final(self)@.wf(),
    {
        let ghost v0 = self@;
        self.root.set_all_contacts_verified();
        proof {
            super::zone::lemma_all_verified(v0.root, v0.local_id, Seq::empty());
            let none = Seq::<Ipv4Addr>::empty();
            let root = all_verified(v0.root);
            let t = verified_contacts(v0.contacts());
            assert forall|q: spec_fn(Ipv4Addr) -> bool| #[trigger]
                tally(v0.contacts(), by_ip(q)) == tally(contents(root), by_ip(q)) + count_ips(
                    none,
                    q,
                ) by {
                super::zone::lemma_same_ips_tally(v0.contacts(), t, q);
            }
            assert forall|id: KadId| #[trigger] has_id(contents(root), id) implies has_id(
                v0.contacts(),
                id,
            ) by {
                let k = index_of_id(t, id);
                assert(v0.contacts()[k].id == id);
            }
            lemma_shrunk_wf(v0, root, v0.next_order, none);
        }
    }

    /// Live contacts from all over the table, for a peer that joins.
    pub fn export_bootstrap_contacts(&self, max_count: usize) -> (out: Vec<KadContact>)
        ensures
            exists|s: Seq<KadContact>| #[trigger]
                is_sample(self@.root, LOG_BASE_EXPONENT as nat, s) && out@ == take_at_most(
                    s.filter(not_dead_type()),
                    max_count as nat,
                ),
    {
        let sample = self.root.top_depth(LOG_BASE_EXPONENT);
        let mut out = keep_if_alive(&sample);
        if out.len() > max_count {
            out.truncate(max_count);
        }
        assert(is_sample(self@.root, LOG_BASE_EXPONENT as nat, sample@));
        out
    }

    /// Whether a contact could be taken.
    pub fn is_acceptable_contact(&self, contact: &KadContact) -> (r: bool)
        requires
            self@.wf(),
        ensures
            r == acceptable(self@, *contact),
    {
        if !contact.is_kad2() {
            return false;
        }
        match self.get_contact(&contact.id) {
            Some(known) => {
                !(known.verified && (known.ip != contact.ip || known.udp_port != contact.udp_port))
            },
            None => is_limits_ok(contact.ip, &self.global_ip_count, &self.global_subnet_count),
        }
    }

    fn clean(&mut self, k: Cleaning, now: i64) -> (n: usize)
        requires
            old(self)@.wf(),
            clock_time(now),
        ensures
            final(self)@ == cleaned(old(self)@, k, now),
            n == cleaned_out(old(self)@, k).len(),
            final(self)@.wf(),
    {
        let ghost v0 = self@;
        let mut ips: Vec<Ipv4Addr> = Vec::new();
        self.root.clean(k, &self.in_use_contacts, &mut ips);
        assert(ips@ =~= ips_of(cleaned_out(v0, k)));
        self.track_ips_remove(&ips);
        proof {
            lemma_swept_wf(v0, k);
            lemma_cleaned_wf(v0, k, now);
        }
        if ips.len() > 0 {
            self.consolidate_at(now);
        }
        ips.len()
    }

    /// Takes out contacts that were heard from too long ago or are due, at `now`.
    pub fn remove_stale_at(&mut self, max_age_secs: i64, now: i64) -> (n: usize)
        requires
            old(self)@.wf(),
            clock_time(now),
        ensures
            final(self)@ == cleaned(
                old(self)@,
                Cleaning::Stale { now, max_age: max_age_secs },
                now,
            ),
            n == cleaned_out(old(self)@, Cleaning::Stale { now, max_age: max_age_secs }).len(),
            final(self)@.wf(),
    {
        self.clean(Cleaning::Stale { now, max_age: max_age_secs }, now)
    }

    /// Takes out contacts that were heard from too long ago or are due.
    pub fn remove_stale(&mut self, max_age_secs: i64) -> (n: usize)
        requires
            old(self)@.wf(),
        ensures
            final(self)@.wf(),
            exists|now: i64| #[trigger]
                clock_time(now) && final(self)@ == cleaned(old(self)@, Cleaning::Stale { now, max_age: max_age_secs }, now) && n
                    == cleaned_out(old(self)@, Cleaning::Stale { now, max_age: max_age_secs }).len(),
    {
        let now: i64 = utc_now();
        self.remove_stale_at(max_age_secs, now)
    }

    /// Takes out dead contacts that are due, at `now`, but for those in use.
    pub fn remove_dead_contacts_at(&mut self, now: i64) -> (n: usize)
        requires
            old(self)@.wf(),
            clock_time(now),
        ensures
            final(self)@ == cleaned(old(self)@, Cleaning::Dead { now }, now),
            n == cleaned_out(old(self)@, Cleaning::Dead { now }).len(),
            final(self)@.wf(),
    {
        self.clean(Cleaning::Dead { now }, now)
    }

    /// Takes out dead contacts that are due, but for those in use.
    pub fn remove_dead_contacts(&mut self) -> (n: usize)
        requires
            old(self)@.wf(),
        ensures
            final(self)@.wf(),
            exists|now: i64| #[trigger]
                clock_time(now) && final(self)@ == cleaned(old(self)@, Cleaning::Dead { now }, now) && n
                    == cleaned_out(old(self)@, Cleaning::Dead { now }).len(),
    {
        let now: i64 = utc_now();
        self.remove_dead_contacts_at(now)
    }

    /// Lets at most one zone start a lookup, and gives the identifier to look
    /// for. Of the leaves that may, the one whose turn comes first does.
    pub fn try_fire_big_timer(&mut self, now: i64, last_kad_contact: Option<i64>) -> (r: Option<
        KadId,
    >)
        requires
            old(self)@.wf(),
            clock_time(now),
        ensures
            final(self)@.wf(),
            match first_turn(old(self)@.root, now, last_kad_contact) {
                Some(turn) if now >= old(self)@.deadline => {
                    &&& r is Some
                    &&& final(self)@ == (TableView {
                        root: after_turn(old(self)@.root, turn, now, last_kad_contact),
                        deadline: (now + BIG_TIMER_GLOBAL_GAP_SECS) as i64,
                        ..old(self)@
                    })
                    &&& turn_leaf(old(self)@.root, turn, now, last_kad_contact) matches Some(meta)
                        && (forall|i: int|
                        0 <= i < meta.level ==> #[trigger] (r->Some_0).xor_spec(
                            old(self)@.local_id,
                        ).bit(i) == super::types::bit_of(zone_prefix(meta), i))
                },
                _ => r is None && final(self)@ == old(self)@,
            },
    {
        let ghost v0 = self@;
        if now < self.big_timer_global_deadline {
            return None;
        }
        proof {
            super::zone::lemma_zone_levels(v0.root, v0.local_id, Seq::empty());
            assert(levels_ok(v0.root, 0));
        }
        let turn: u64 = match self.root.next_turn(now, last_kad_contact) {
            Some(t) => t,
            None => {
                return None;
            },
        };
        proof {
            super::zone::lemma_first_turn(v0.root, now, last_kad_contact);
            super::zone::lemma_after_turn(
                v0.root,
                turn,
                now,
                last_kad_contact,
                v0.local_id,
                Seq::empty(),
            );
            super::zone::lemma_turn_level(v0.root, turn, now, last_kad_contact, 0);
        }
        match self.root.take_turn(turn, now, last_kad_contact) {
            Some(meta) => {
                self.big_timer_global_deadline = now + BIG_TIMER_GLOBAL_GAP_SECS;
                Some(meta.random_lookup_target(&self.local_id))
            },
            None => None,
        }
    }

    /// Checks the leaves whose turn it is at `now`, and gives the contacts to say hello to.
    pub fn get_contacts_to_probe_at(&mut self, now: i64) -> (out: Vec<KadContact>)
        requires
            old(self)@.wf(),
            clock_time(now),
        ensures
            final(self)@ == checked_table(old(self)@, now),
            out@ == probed(old(self)@.root, now, old(self)@.in_use),
            final(self)@.wf(),
    {
        let ghost v0 = self@;
        let mut to_probe: Vec<KadContact> = Vec::new();
        let mut ips: Vec<Ipv4Addr> = Vec::new();
        self.root.on_small_timer(now, &mut to_probe, &mut ips, &self.in_use_contacts);
        assert(to_probe@ =~= probed(v0.root, now, v0.in_use));
        assert(ips@ =~= lost(v0.root, now, v0.in_use));
        self.track_ips_remove(&ips);
        proof {
            lemma_checked_table_wf(v0, now);
        }
        to_probe
    }

    /// Checks the leaves whose turn it is, and gives the contacts to say hello to.
    pub fn get_contacts_to_probe(&mut self) -> (out: Vec<KadContact>)
        requires
            old(self)@.wf(),
        ensures
            final(self)@.wf(),
            exists|now: i64|
                clock_time(now) && final(self)@ == #[trigger] checked_table(old(self)@, now)
                    && out@ == probed(old(self)@.root, now, old(self)@.in_use),
    {
        self.get_contacts_to_probe_at(utc_now())
    }

    /// Merges sparse leaves at `now`, and counts the merges.
    pub fn consolidate_at(&mut self, now: i64) -> (n: u32)
        requires
            old(self)@.wf(),
            clock_time(now),
        ensures
            (final(self)@, n) == merged_leaves(old(self)@, now),
            final(self)@.wf(),
    {
        proof {
            lemma_merged_leaves_wf(self@, now);
        }
        let ghost v0 = self@;
        let mut dropped: Vec<Ipv4Addr> = Vec::new();
        let mut order: u64 = self.next_zone_event_order;
        let n: u32 = self.root.consolidate(&mut order, now, &mut dropped);
        self.next_zone_event_order = order;
        assert(dropped@ =~= consolidated(v0.root, v0.next_order, now).dropped);
        self.track_ips_remove(&dropped);
        n
    }

    /// Merges sparse leaves, and counts the merges.
    pub fn consolidate(&mut self) -> (n: u32)
        requires
            old(self)@.wf(),
        ensures
            final(self)@.wf(),
            exists|now: i64|
                clock_time(now) && (final(self)@, n) == #[trigger] merged_leaves(old(self)@, now),
    {
        self.consolidate_at(utc_now())
    }

    /// Notes that a search uses some contacts, so that they are not taken out
    /// even if they die.
    pub fn mark_contacts_in_use(&mut self, ids: &[KadId])
        ensures
            final(self)@ == (TableView {
                in_use: marked(old(self)@.in_use, ids@),
                ..old(self)@
            }),
    {
        broadcast use vstd::std_specs::hash::group_hash_axioms;

        let ghost m0 = self@.in_use;
        let ghost v0 = self@;
        let mut i: usize = 0;
        assert(ids@.take(0) =~= Seq::empty());
        while i < ids.len()
            invariant
                i <= ids@.len(),
                self@ == (TableView { in_use: marked(m0, ids@.take(i as int)), ..v0 }),
            decreases ids@.len() - i,
        {
            broadcast use vstd::std_specs::hash::group_hash_axioms;

            let n: u32 = super::zone::use_count(&self.in_use_contacts, &ids[i]);
            let next: u32 = if n == u32::MAX {
                n
            } else {
                n + 1
            };
            self.in_use_contacts.insert(ids[i].to_u128(), next);
            assert(ids@.take(i as int + 1).drop_last() =~= ids@.take(i as int));
            i = i + 1;
        }
        assert(ids@.take(i as int) =~= ids@);
    }

    /// Notes that a search is over.
    pub fn release_contacts_in_use(&mut self, ids: &[KadId])
        ensures
            final(self)@ == (TableView {
                in_use: released(old(self)@.in_use, ids@),
                ..old(self)@
            }),
    {
        broadcast use vstd::std_specs::hash::group_hash_axioms;

        let ghost m0 = self@.in_use;
        let ghost v0 = self@;
        let mut i: usize = 0;
        assert(ids@.take(0) =~= Seq::empty());
        while i < ids.len()
            invariant
                i <= ids@.len(),
                self@ == (TableView { in_use: released(m0, ids@.take(i as int)), ..v0 }),
            decreases ids@.len() - i,
        {
            broadcast use vstd::std_specs::hash::group_hash_axioms;

            let key: u128 = ids[i].to_u128();
            let current: Option<u32> = match self.in_use_contacts.get(&key) {
                Some(n) => Some(*n),
                None => None,
            };
            if let Some(n) = current {
                if n <= 1 {
                    self.in_use_contacts.remove(&key);
                } else {
                    self.in_use_contacts.insert(key, n - 1);
                }
            }
            assert(ids@.take(i as int + 1).drop_last() =~= ids@.take(i as int));
            i = i + 1;
        }
        assert(ids@.take(i as int) =~= ids@);
    }

    /// An estimate of how many nodes the network has.
    pub fn estimate_count(&self) -> (n: u32)
        ensures
            n == estimated(self@),
    {
        let leaf_level: u32 = self.root.deepest_leaf_level();
        if leaf_level < KBASE as u32 {
            return scaled(leaf_level, K_BUCKET_SIZE as u32);
        }
        let near: u32 = self.root.ancestor_contacts_at(leaf_level - 3);
        scaled(leaf_level - 3, near)
    }
}

/// `x` times two to the power of `n`, up to the largest `u32`.
fn scaled(n: u32, x: u32) -> (r: u32)
    ensures
        r == sat_u32(pow2(n as nat) * x as nat),
{
    let mut r: u64 = x as u64;
    let mut i: u32 = 0;
    assert(pow2(0) * x as nat == x) by (nonlinear_arith)
        requires
            pow2(0) == 1,
    ;
    while i < n
        invariant
            i <= n,
            r <= u32::MAX,
            r == sat_u32(pow2(i as nat) * x as nat),
        decreases n - i,
    {
        assert(pow2(i as nat + 1) * x as nat == 2 * (pow2(i as nat) * x as nat)) by (nonlinear_arith)
            requires
                pow2(i as nat + 1) == 2 * pow2(i as nat),
        ;
        r = r * 2;
        if r > u32::MAX as u64 {
            r = u32::MAX as u64;
        }
        i = i + 1;
    }
    r as u32
}

proof fn lemma_by_distance_distinct(t: KadId, s: Seq<KadContact>)
    requires
        by_distance(t, s),
    ensures
        distinct_ids(s),
{
    assert forall|i: int, j: int|
        #![trigger s[i], s[j]]
        0 <= i < j < s.len() implies s[i].id != s[j].id by {
        assert(far(t, s[i]) < far(t, s[j]));
    }
}

} // verus!
