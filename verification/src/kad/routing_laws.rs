//! What a routing table holds of a contact after each operation, said of its
//! contacts one by one.
use vstd::prelude::*;

use super::ip_filter::valid_contact_ip;
use super::routing::{
    acceptable, cleaned, cleaned_out, cleared, count_in, estimated, filter_asked, filter_blocks,
    inserted, ip_query, key_for, lemma_inserted_new, lemma_inserted_wf, lemma_leaf_of,
    lemma_removed_wf, marked, net_query, pow2, ranked, refreshed, released, removed, stamped,
    updated, verified_at, TableView,
};
use super::types::{bit_of, lemma_val_xor, KadContact, KadId};
use super::zone::{
    add_to_zone, addr_index, after_turn, by_ip, checked, checked_leaf, child_meta, closest_of, consolidated,
    contents, distinct_ids, eligible, far, first_turn, half, has_id, in_subnet, index_of_id, ips_of,
    is_net, kept, leaf_at, lemma_consolidated_ok, lemma_consolidated_tally, lemma_contains_add,
    lemma_contents_distinct, lemma_filter_members, lemma_index_of_id, lemma_kept,
    lemma_leaf_in_contents, lemma_tally_add, lemma_tally_none, lemma_tally_push, lookup_due,
    may_split, moved, negated, not_lost, offered, on_side, own_leaf_level, own_zone, probed, probed_leaf,
    subnet, survives, tally, touched, uses, with_due, with_leaf, zone_ok, zone_prefix, Cleaning,
    ZoneMeta, ZoneView,
};
use crate::clock::clock_time;
use crate::net::Ipv4Addr;
use crate::security::lan_ip;

verus! {

// ---------------------------------------------------------------------------
// A leaf and the whole tree
// ---------------------------------------------------------------------------
/// Other contacts in one leaf: those of the leaf go, the new ones come, and all
/// others stay.
proof fn lemma_with_leaf_contains(
    z: ZoneView,
    local: KadId,
    path: Seq<bool>,
    d: KadId,
    s: Seq<KadContact>,
    x: KadContact,
)
    requires
        zone_ok(z, local, path),
    ensures
        contents(with_leaf(z, d, s)).contains(x) <==> s.contains(x) || (contents(z).contains(x)
            && !leaf_at(z, d).contains(x)),
    decreases z,
{
    if let ZoneView::Split { meta, left, right } = z {
        let a = contents(*left);
        let b = contents(*right);
        lemma_contains_add(a, b, x);
        lemma_contents_distinct(z, local, path);
        if a.contains(x) && b.contains(x) {
            let i = choose|i: int| 0 <= i < a.len() && a[i] == x;
            let j = choose|j: int| 0 <= j < b.len() && b[j] == x;
            let c = contents(z);
            assert(c[i] == x && c[j + a.len()] == x);
            assert(c[i].id != c[j + a.len()].id);
        }
        let l = leaf_at(z, d);
        if d.bit(meta.level as int) {
            lemma_with_leaf_contains(*right, local, path.push(true), d, s, x);
            lemma_contains_add(a, contents(with_leaf(*right, d, s)), x);
            if l.contains(x) {
                let k = choose|k: int| 0 <= k < l.len() && l[k] == x;
                lemma_leaf_in_contents(*right, d, k);
            }
        } else {
            lemma_with_leaf_contains(*left, local, path.push(false), d, s, x);
            lemma_contains_add(contents(with_leaf(*left, d, s)), b, x);
            if l.contains(x) {
                let k = choose|k: int| 0 <= k < l.len() && l[k] == x;
                lemma_leaf_in_contents(*left, d, k);
            }
        }
    }
}

/// Looking an identifier up finds the one contact that has it.
pub proof fn lemma_contact_found(v: TableView, id: KadId, x: KadContact)
    requires
        v.wf(),
    ensures
        v.contact(id) == Some(x) <==> v.contacts().contains(x) && x.id == id,
        v.contact(id) is None <==> forall|y: KadContact| #[trigger]
            v.contacts().contains(y) ==> y.id != id,
{
    let s = v.contacts();
    lemma_contents_distinct(v.root, v.local_id, Seq::empty());
    if s.contains(x) && x.id == id {
        let i = choose|i: int| 0 <= i < s.len() && s[i] == x;
        lemma_index_of_id(s, i);
    }
    if has_id(s, id) {
        let i = index_of_id(s, id);
        assert(0 <= i < s.len() && s[i].id == id);
        assert(s.contains(s[i]));
    } else {
        assert forall|y: KadContact| #[trigger] s.contains(y) implies y.id != id by {
            let i = choose|i: int| 0 <= i < s.len() && s[i] == y;
            assert(s[i].id == y.id);
        }
    }
}

/// The contact of an identifier stands in the leaf of that identifier.
proof fn lemma_known_in_leaf(v: TableView, known: KadContact)
    requires
        v.wf(),
        v.contacts().contains(known),
    ensures
        has_id(v.leaf_of(known.id), known.id),
        v.leaf_of(known.id)[index_of_id(v.leaf_of(known.id), known.id)] == known,
{
    let id = known.id;
    let s = v.leaf_of(id);
    let c = v.contacts();
    lemma_leaf_of(v, id);
    let k = choose|k: int| 0 <= k < c.len() && c[k] == known;
    assert(c[k].id == id);
    let i = index_of_id(s, id);
    lemma_leaf_in_contents(v.root, v.local_id.xor_spec(id), i);
    lemma_contact_found(v, id, s[i]);
    lemma_contact_found(v, id, known);
}

/// A leaf in which the contact of an identifier was replaced or taken out.
proof fn lemma_leaf_changed(v: TableView, id: KadId, t: Seq<KadContact>, x: KadContact)
    requires
        v.wf(),
        has_id(v.leaf_of(id), id),
        forall|y: KadContact| #[trigger]
            t.contains(y) && y.id != id <==> v.leaf_of(id).contains(y) && y.id != id,
    ensures
        v.with_leaf_of(id, t).contacts().contains(x) <==> (t.contains(x) && x.id == id) || (
        v.contacts().contains(x) && x.id != id),
{
    let s = v.leaf_of(id);
    let d = v.local_id.xor_spec(id);
    lemma_with_leaf_contains(v.root, v.local_id, Seq::empty(), d, t, x);
    if s.contains(x) {
        let k = choose|k: int| 0 <= k < s.len() && s[k] == x;
        lemma_leaf_in_contents(v.root, d, k);
    }
    if v.contacts().contains(x) && x.id == id {
        lemma_known_in_leaf(v, x);
        assert(s.contains(x));
    }
    assert(t.contains(x) && x.id != id <==> s.contains(x) && x.id != id);
}

/// The contacts of a leaf in which one gave way to another of the same identifier.
proof fn lemma_moved_contains(s: Seq<KadContact>, i: int, n: KadContact, y: KadContact)
    requires
        distinct_ids(s),
        0 <= i < s.len(),
        n.id == s[i].id,
    ensures
        moved(s, i, n).contains(y) <==> y == n || (s.contains(y) && y.id != n.id),
        s.update(i, n).contains(y) <==> y == n || (s.contains(y) && y.id != n.id),
        s.remove(i).contains(y) <==> s.contains(y) && y.id != n.id,
{
    let m = moved(s, i, n);
    let u = s.update(i, n);
    let r = s.remove(i);
    assert(m[m.len() - 1] == n);
    assert(u[i] == n);
    if s.contains(y) && y.id != n.id {
        let k = choose|k: int| 0 <= k < s.len() && s[k] == y;
        let k2 = if k < i {
            k
        } else {
            k - 1
        };
        assert(m[k2] == y && r[k2] == y && u[k] == y);
    }
    if m.contains(y) && y != n {
        let k = choose|k: int| 0 <= k < m.len() && m[k] == y;
        let k2 = if k < i {
            k
        } else {
            k + 1
        };
        assert(s[k2] == y && k2 != i);
        assert(s[k2].id != s[i].id);
    }
    if r.contains(y) {
        let k = choose|k: int| 0 <= k < r.len() && r[k] == y;
        let k2 = if k < i {
            k
        } else {
            k + 1
        };
        assert(s[k2] == y && k2 != i);
        assert(s[k2].id != s[i].id);
    }
    if u.contains(y) && y != n {
        let k = choose|k: int| 0 <= k < u.len() && u[k] == y;
        assert(s[k] == y && k != i);
        assert(s[k].id != s[i].id);
    }
}

/// No contact of the table has this address.
pub open spec fn address_free(v: TableView, ip: Ipv4Addr) -> bool {
    forall|y: KadContact| #[trigger] v.contacts().contains(y) ==> y.ip != ip
}

/// The counter of an address that no contact has.
proof fn lemma_free_address(v: TableView, ip: Ipv4Addr)
    requires
        v.wf(),
        address_free(v, ip),
    ensures
        count_in(v.ip_count, ip.bits) == 0,
{
    let s = v.contacts();
    let p = by_ip(ip_query()(ip.bits));
    assert forall|i: int| 0 <= i < s.len() implies !p(#[trigger] s[i]) by {
        assert(s.contains(s[i]));
        assert(s[i].ip != ip);
    }
    lemma_tally_none(s, p);
    assert(count_in(v.ip_count, ip.bits) == tally(s, p));
}

/// The counter of a network says how many contacts of the table are in it.
proof fn lemma_net_counter(v: TableView, ip: Ipv4Addr)
    requires
        v.wf(),
    ensures
        count_in(v.subnet_count, subnet(ip)) == tally(v.contacts(), in_subnet(subnet(ip))),
{
    let k = subnet(ip);
    assert(count_in(v.subnet_count, k) == tally(v.contacts(), by_ip(net_query()(k))));
    lemma_tally_ext(v.contacts(), by_ip(net_query()(k)), in_subnet(k));
}

proof fn lemma_tally_ext(
    s: Seq<KadContact>,
    p: spec_fn(KadContact) -> bool,
    q: spec_fn(KadContact) -> bool,
)
    requires
        forall|c: KadContact| #[trigger] p(c) == q(c),
    ensures
        tally(s, p) == tally(s, q),
    decreases s.len(),
{
    if s.len() > 0 {
        lemma_tally_ext(s.drop_last(), p, q);
        assert(p(s.last()) == q(s.last()));
    }
}

/// How many contacts of a list are in the network, of 256 addresses, of `ip`.
pub open spec fn neighbours(s: Seq<KadContact>, ip: Ipv4Addr) -> nat {
    tally(s, |y: KadContact| y.ip.bits as int / 256 == ip.bits as int / 256)
}

proof fn lemma_neighbours(s: Seq<KadContact>, ip: Ipv4Addr)
    ensures
        neighbours(s, ip) == tally(s, in_subnet(subnet(ip))),
{
    let p = |y: KadContact| y.ip.bits as int / 256 == ip.bits as int / 256;
    let q = in_subnet(subnet(ip));
    assert forall|c: KadContact| #[trigger] p(c) == q(c) by {
        lemma_same_net(c.ip, ip);
    }
    lemma_tally_ext(s, p, q);
}

proof fn lemma_same_net(a: Ipv4Addr, b: Ipv4Addr)
    ensures
        subnet(a) == subnet(b) <==> a.bits as int / 256 == b.bits as int / 256,
{
    assert(a.bits as int == 256 * (a.bits as int / 256) + a.bits as int % 256);
    assert(b.bits as int == 256 * (b.bits as int / 256) + b.bits as int % 256);
}

// ---------------------------------------------------------------------------
// Inserting
// ---------------------------------------------------------------------------
/// A contact that the table listens to: reachable, of the second protocol, at an
/// address that may be used, which neither the filter nor the port keeps out.
pub open spec fn welcome(v: TableView, c: KadContact) -> bool {
    &&& c.kad_options & 1 == 0
    &&& c.version >= 2
    &&& valid_contact_ip(c.ip, v.block_private)
    &&& !filter_blocks(v.filter, c.ip)
    &&& c.udp_port != 53 || c.version >= 6
}

/// Whether what `c` says of a contact is believed: nobody has given the known
/// contact a key for our address, or `c` shows the same; and the known contact
/// is no old client that has said hello.
pub open spec fn believed(v: TableView, known: KadContact, c: KadContact) -> bool {
    &&& v.external_ip matches Some(our) ==> key_for(known, our) == 0 || key_for(known, our)
        == key_for(c, our)
    &&& known.version == 0 || known.version >= 6 || !known.received_hello
}

/// Whether there is room for a known contact at another address: no contact has
/// it, and it is in the same network of 256 addresses, or a local one, or one
/// with fewer than ten contacts in the table and fewer than two in the leaf.
pub open spec fn room_to_move(v: TableView, known: KadContact, ip: Ipv4Addr) -> bool {
    &&& address_free(v, ip)
    &&& known.ip.bits as int / 256 == ip.bits as int / 256 || lan_ip(ip) || (neighbours(
        v.contacts(),
        ip,
    ) < 10 && neighbours(v.leaf_of(known.id), ip) < 2)
}

/// What a contact is after it answered at `now`: verified for the first hour of
/// its life, active for the second, long active then; due again an hour, an hour
/// and a half, or two hours later.
pub open spec fn answered(before: KadContact, after: KadContact, now: i64) -> bool {
    let age = now - before.created_at;
    &&& after.contact_type == if age < 3600 {
        2
    } else if age < 7200 {
        1
    } else {
        0int
    }
    &&& after.expires_at == now + if age < 3600 {
        3600
    } else if age < 7200 {
        5400
    } else {
        7200int
    }
}

/// A contact that the table knows, and about which the message is believed, is
/// afterwards in the table with exactly the address, the ports and the options of
/// the message, with the later of the two versions, verified and greeted if it
/// was so before or is so now, with the key of the message if that has one, and
/// with the identifier, the birth and the times that it had. All other contacts
/// stay as they were, and none is added.
pub proof fn lemma_known_refreshed(
    v: TableView,
    known: KadContact,
    c: KadContact,
    now: i64,
    x: KadContact,
)
    requires
        v.wf(),
        clock_time(now),
        v.contacts().contains(known),
        known.id == c.id,
        welcome(v, c),
        believed(v, known, c),
        known.ip == c.ip || room_to_move(v, known, c.ip),
    ensures
        !inserted(v, c, now).1,
        inserted(v, c, now).0.contact(c.id) matches Some(n) && {
            &&& n.id == c.id
            &&& n.ip == c.ip
            &&& n.udp_port == c.udp_port
            &&& n.tcp_port == c.tcp_port
            &&& n.kad_options == c.kad_options
            &&& n.version >= c.version && n.version >= known.version
            &&& n.version == c.version || n.version == known.version
            &&& n.verified == (known.verified || c.verified)
            &&& n.received_hello == (known.received_hello || c.received_hello)
            &&& n.udp_key == if c.udp_key is Some {
                c.udp_key
            } else {
                known.udp_key
            }
            &&& n.last_seen == known.last_seen
            &&& n.created_at == known.created_at
            &&& n.last_type_set == known.last_type_set
            &&& answered(known, n, now)
        },
        x.id != c.id ==> (inserted(v, c, now).0.contacts().contains(x) <==> v.contacts().contains(
            x,
        )),
{
    let w = TableView { filter: filter_asked(v.filter, c.ip), ..v };
    assert(w.wf());
    let s = v.leaf_of(c.id);
    let i = index_of_id(s, c.id);
    lemma_known_in_leaf(v, known);
    lemma_leaf_of(v, c.id);
    assert(s[i] == known);
    let all = v.contacts();
    let k = choose|k: int| 0 <= k < all.len() && all[k] == known;
    assert(all[k].id == c.id);
    if known.ip != c.ip {
        lemma_free_address(v, c.ip);
        lemma_net_counter(v, c.ip);
        lemma_neighbours(v.contacts(), c.ip);
        lemma_neighbours(s, c.ip);
        lemma_same_net(known.ip, c.ip);
    }
    let n = refreshed(known, c, now);
    let t = moved(s, i, n);
    let r = inserted(v, c, now).0;
    assert(r == updated(w, c, now));
    assert(r.root == w.with_leaf_of(c.id, t).root);
    assert forall|y: KadContact| #[trigger]
        t.contains(y) && y.id != c.id <==> s.contains(y) && y.id != c.id by {
        lemma_moved_contains(s, i, n, y);
    }
    lemma_moved_contains(s, i, n, n);
    lemma_leaf_changed(w, c.id, t, x);
    lemma_leaf_changed(w, c.id, t, n);
    lemma_inserted_wf(v, c, now);
    lemma_contact_found(r, c.id, n);
}

/// What is not believed of a known contact changes no contact, but that an old
/// client that says again what it has said is noted as having answered.
pub proof fn lemma_known_unmoved(
    v: TableView,
    known: KadContact,
    c: KadContact,
    now: i64,
    x: KadContact,
)
    requires
        v.wf(),
        clock_time(now),
        v.contacts().contains(known),
        known.id == c.id,
        !believed(v, known, c) || (known.ip != c.ip && !room_to_move(v, known, c.ip)),
    ensures
        !inserted(v, c, now).1,
        x.id != c.id ==> (inserted(v, c, now).0.contacts().contains(x) <==> v.contacts().contains(
            x,
        )),
        inserted(v, c, now).0.contact(c.id) matches Some(n) && {
            &&& n == known || (answered(known, n, now) && n == (KadContact {
                contact_type: n.contact_type,
                expires_at: n.expires_at,
                ..known
            }))
            &&& n.ip == known.ip && n.udp_port == known.udp_port && n.tcp_port == known.tcp_port
            &&& known.ip != c.ip || known.udp_port != c.udp_port || known.tcp_port != c.tcp_port
                || known.version != c.version ==> n == known
        },
{
    let w = TableView { filter: filter_asked(v.filter, c.ip), ..v };
    assert(w.wf());
    let s = v.leaf_of(c.id);
    let i = index_of_id(s, c.id);
    lemma_known_in_leaf(v, known);
    lemma_leaf_of(v, c.id);
    let all = v.contacts();
    let k = choose|k: int| 0 <= k < all.len() && all[k] == known;
    assert(all[k].id == c.id);
    lemma_contact_found(v, c.id, known);
    lemma_contact_found(w, c.id, known);
    lemma_net_counter(v, c.ip);
    lemma_neighbours(v.contacts(), c.ip);
    lemma_neighbours(s, c.ip);
    lemma_same_net(known.ip, c.ip);
    if !address_free(v, c.ip) {
        lemma_taken_address(v, c.ip);
    }
    let n = known.after_answer(now);
    let t = moved(s, i, n);
    let r = inserted(v, c, now).0;
    if r.contacts() != v.contacts() {
        assert(r.root == w.with_leaf_of(c.id, t).root);
        assert forall|y: KadContact| #[trigger]
            t.contains(y) && y.id != c.id <==> s.contains(y) && y.id != c.id by {
            lemma_moved_contains(s, i, n, y);
        }
        lemma_moved_contains(s, i, n, n);
        lemma_leaf_changed(w, c.id, t, x);
        lemma_leaf_changed(w, c.id, t, n);
        lemma_inserted_wf(v, c, now);
        lemma_contact_found(r, c.id, n);
    } else {
        lemma_inserted_wf(v, c, now);
        lemma_contact_found(r, c.id, known);
    }
}

/// The counter of an address that a contact has.
proof fn lemma_taken_address(v: TableView, ip: Ipv4Addr)
    requires
        v.wf(),
        !address_free(v, ip),
    ensures
        count_in(v.ip_count, ip.bits) >= 1,
{
    let s = v.contacts();
    let p = by_ip(ip_query()(ip.bits));
    let y = choose|y: KadContact| #[trigger] s.contains(y) && y.ip == ip;
    let i = choose|i: int| 0 <= i < s.len() && s[i] == y;
    assert(p(s[i]));
    super::zone::lemma_tally_pos(s, i, p);
    assert(count_in(v.ip_count, ip.bits) == tally(s, p));
}

/// A contact with an identifier that the table does not have is added where the
/// leaf of the identifier has fewer than ten contacts, no contact has the
/// address, and the network has room: fewer than ten in the table and two in the
/// leaf, or it is a local one. It is there as it came, born now if it was not
/// born before, and due in two hours if it was not due at some time.
pub proof fn lemma_new_added(v: TableView, c: KadContact, now: i64, x: KadContact)
    requires
        v.wf(),
        clock_time(now),
        v.contact(c.id) is None,
        c.id != v.local_id,
        c.id != KadId::zero_spec(),
        welcome(v, c),
        v.leaf_of(c.id).len() < 10,
        address_free(v, c.ip),
        lan_ip(c.ip) || (neighbours(v.contacts(), c.ip) < 10 && neighbours(v.leaf_of(c.id), c.ip)
            < 2),
    ensures
        inserted(v, c, now).1,
        inserted(v, c, now).0.contact(c.id) == Some(
            KadContact {
                created_at: if c.created_at == 0 {
                    now
                } else {
                    c.created_at
                },
                expires_at: if c.expires_at == 0 {
                    (now + 7200) as i64
                } else {
                    c.expires_at
                },
                ..c
            },
        ),
        x.id != c.id ==> (inserted(v, c, now).0.contacts().contains(x) <==> v.contacts().contains(
            x,
        )),
{
    let n = stamped(c, now);
    lemma_leaf_of(v, c.id);
    lemma_free_address(v, c.ip);
    lemma_net_counter(v, c.ip);
    lemma_neighbours(v.contacts(), c.ip);
    lemma_neighbours(v.leaf_of(c.id), c.ip);
    lemma_add_owed(v.root, n, v.local_id, v.next_order, now);
    lemma_inserted_new(v, c, now, x);
    lemma_inserted_new(v, c, now, n);
    lemma_inserted_wf(v, c, now);
    lemma_contact_found(inserted(v, c, now).0, c.id, n);
}

/// A leaf with room takes a contact.
proof fn lemma_add_owed(z: ZoneView, c: KadContact, local: KadId, order: u64, now: i64)
    requires
        ({
            let l = leaf_at(z, local.xor_spec(c.id));
            &&& l.len() < 10
            &&& !has_id(l, c.id)
            &&& lan_ip(c.ip) || tally(l, in_subnet(subnet(c.ip))) < 2
        }),
    ensures
        add_to_zone(z, c, local, true, order, now).result is Added,
    decreases z,
{
    if let ZoneView::Split { meta, left, right } = z {
        if local.xor_spec(c.id).bit(meta.level as int) {
            lemma_add_owed(*right, c, local, order, now);
        } else {
            lemma_add_owed(*left, c, local, order, now);
        }
    }
}

/// A contact is never added twice, nor beside another at its address, nor as the
/// eleventh of a network that is not local, nor under the local or the zero
/// identifier, nor if it is not welcome.
pub proof fn lemma_added_only_where_room(v: TableView, c: KadContact, now: i64)
    requires
        v.wf(),
        inserted(v, c, now).1,
    ensures
        v.contact(c.id) is None,
        c.id != v.local_id,
        c.id != KadId::zero_spec(),
        welcome(v, c),
        address_free(v, c.ip),
        lan_ip(c.ip) || neighbours(v.contacts(), c.ip) < 10,
{
    lemma_inserted_new(v, c, now, c);
    super::zone::lemma_add_zone_ok(
        v.root,
        stamped(c, now),
        v.local_id,
        v.limits_ok(c.ip),
        v.next_order,
        now,
        Seq::empty(),
    );
    lemma_net_counter(v, c.ip);
    lemma_neighbours(v.contacts(), c.ip);
    if !address_free(v, c.ip) {
        lemma_taken_address(v, c.ip);
    }
}

// ---------------------------------------------------------------------------
// Removing and marking
// ---------------------------------------------------------------------------
/// Removing an identifier takes out the contact that has it, and no other.
pub proof fn lemma_removed_alone(v: TableView, id: KadId, x: KadContact)
    requires
        v.wf(),
    ensures
        removed(v, id).1 <==> v.contact(id) is Some,
        removed(v, id).0.contacts().contains(x) <==> v.contacts().contains(x) && x.id != id,
{
    let s = v.leaf_of(id);
    lemma_leaf_of(v, id);
    lemma_removed_wf(v, id);
    if has_id(s, id) {
        let i = index_of_id(s, id);
        let t = s.remove(i);
        assert forall|y: KadContact| #[trigger]
            t.contains(y) && y.id != id <==> s.contains(y) && y.id != id by {
            lemma_moved_contains(s, i, s[i], y);
        }
        lemma_moved_contains(s, i, s[i], x);
        lemma_leaf_changed(v, id, t, x);
    } else {
        lemma_contact_found(v, id, x);
    }
}

/// A contact that proved itself is verified and has answered; nothing else of it
/// changes, and no other contact does.
pub proof fn lemma_verified_alone(v: TableView, known: KadContact, now: i64, x: KadContact)
    requires
        v.wf(),
        clock_time(now),
        v.contacts().contains(known),
        verified_at(v, known.id, now).wf(),
    ensures
        verified_at(v, known.id, now).contact(known.id) matches Some(n) && {
            &&& n.verified
            &&& answered(known, n, now)
            &&& n == (KadContact {
                verified: true,
                contact_type: n.contact_type,
                expires_at: n.expires_at,
                ..known
            })
        },
        x.id != known.id ==> (verified_at(v, known.id, now).contacts().contains(x)
            <==> v.contacts().contains(x)),
{
    let id = known.id;
    let s = v.leaf_of(id);
    lemma_known_in_leaf(v, known);
    lemma_leaf_of(v, id);
    let i = index_of_id(s, id);
    let n = (KadContact { verified: true, ..known }).after_answer(now);
    let t = s.update(i, n);
    assert forall|y: KadContact| #[trigger]
        t.contains(y) && y.id != id <==> s.contains(y) && y.id != id by {
        lemma_moved_contains(s, i, n, y);
    }
    lemma_moved_contains(s, i, n, n);
    lemma_leaf_changed(v, id, t, x);
    lemma_leaf_changed(v, id, t, n);
    lemma_contact_found(verified_at(v, id, now), id, n);
}

/// Whether a contact could be taken: a known one only from where it proved itself,
/// a new one only where its address is free and its network has fewer than ten
/// contacts, or is a local one. Clients of the first protocol cannot.
pub proof fn lemma_acceptable(v: TableView, c: KadContact)
    requires
        v.wf(),
    ensures
        acceptable(v, c) <==> c.version >= 2 && match v.contact(c.id) {
            Some(known) => !known.verified || (known.ip == c.ip && known.udp_port == c.udp_port),
            None => address_free(v, c.ip) && (lan_ip(c.ip) || neighbours(v.contacts(), c.ip) < 10),
        },
{
    lemma_net_counter(v, c.ip);
    lemma_neighbours(v.contacts(), c.ip);
    if address_free(v, c.ip) {
        lemma_free_address(v, c.ip);
    } else {
        lemma_taken_address(v, c.ip);
    }
}

/// How often an identifier occurs in a list.
pub open spec fn occurrences(ids: Seq<KadId>, id: KadId) -> nat
    decreases ids.len(),
{
    if ids.len() == 0 {
        0
    } else {
        occurrences(ids.drop_last(), id) + if ids.last() == id {
            1nat
        } else {
            0
        }
    }
}

/// Each mark counts a contact once more in use, up to the largest number.
pub proof fn lemma_marks_count(m: Map<u128, u32>, ids: Seq<KadId>, id: KadId)
    ensures
        uses(marked(m, ids), id) == if uses(m, id) + occurrences(ids, id) <= u32::MAX {
            uses(m, id) + occurrences(ids, id)
        } else {
            u32::MAX as int
        },
    decreases ids.len(),
{
    if ids.len() > 0 {
        lemma_marks_count(m, ids.drop_last(), id);
        if ids.last().val() == id.val() {
            super::types::lemma_val_injective(ids.last(), id);
        }
    }
}

/// Each release takes one mark back, down to none.
pub proof fn lemma_releases_count(m: Map<u128, u32>, ids: Seq<KadId>, id: KadId)
    ensures
        uses(released(m, ids), id) == if uses(m, id) >= occurrences(ids, id) {
            uses(m, id) - occurrences(ids, id)
        } else {
            0
        },
    decreases ids.len(),
{
    if ids.len() > 0 {
        lemma_releases_count(m, ids.drop_last(), id);
        if ids.last().val() == id.val() {
            super::types::lemma_val_injective(ids.last(), id);
        }
    }
}

/// What was marked for a search and is released after it is as much in use as
/// before.
pub proof fn lemma_release_undoes_mark(m: Map<u128, u32>, ids: Seq<KadId>, id: KadId)
    requires
        uses(m, id) + occurrences(ids, id) <= u32::MAX,
    ensures
        uses(released(marked(m, ids), ids), id) == uses(m, id),
{
    lemma_marks_count(m, ids, id);
    lemma_releases_count(marked(m, ids), ids, id);
}

// ---------------------------------------------------------------------------
// Cleaning
// ---------------------------------------------------------------------------
proof fn lemma_filtered(s: Seq<KadContact>, keep: spec_fn(KadContact) -> bool, x: KadContact)
    ensures
        s.filter(keep).contains(x) <==> s.contains(x) && keep(x),
{
    lemma_filter_members(s, keep);
    let f = s.filter(keep);
    if f.contains(x) {
        let i = choose|i: int| 0 <= i < f.len() && f[i] == x;
        assert(keep(f[i]) && s.contains(f[i]));
    }
    if s.contains(x) && keep(x) {
        let i = choose|i: int| 0 <= i < s.len() && s[i] == x;
        assert(keep(s[i]));
    }
}

proof fn lemma_forget_keeps_root(v: TableView, ips: Seq<Ipv4Addr>)
    ensures
        v.forget_ips(ips).root == v.root,
        v.forget_ips(ips).next_order == v.next_order,
    decreases ips.len(),
{
    if ips.len() > 0 {
        lemma_forget_keeps_root(v, ips.drop_last());
    }
}

/// No network of 256 addresses has more than two of these contacts.
pub open spec fn uncrowded(s: Seq<KadContact>) -> bool {
    forall|i: int| 0 <= i < s.len() ==> tally(s, in_subnet(subnet((#[trigger] s[i]).ip))) <= 2
}

/// A bin takes contacts one by one where none stands in the way.
proof fn lemma_offered_all(cs: Seq<KadContact>)
    requires
        distinct_ids(cs),
        uncrowded(cs),
        cs.len() <= 10,
    ensures
        offered(Seq::empty(), cs) == cs,
    decreases cs.len(),
{
    if cs.len() == 0 {
        assert(cs =~= Seq::empty());
    } else {
        let f = cs.drop_last();
        let c = cs.last();
        assert forall|i: int| 0 <= i < f.len() implies tally(f, in_subnet(subnet((#[trigger] f[i]).ip)))
            <= 2 by {
            assert(f[i] == cs[i]);
            assert(tally(cs, in_subnet(subnet(cs[i].ip))) <= 2);
        }
        assert forall|i: int, j: int|
            #![trigger f[i], f[j]]
            0 <= i < j < f.len() implies f[i].id != f[j].id by {
            assert(cs[i].id != cs[j].id);
        }
        lemma_offered_all(f);
        if has_id(f, c.id) {
            let i = index_of_id(f, c.id);
            assert(cs[i].id == cs[cs.len() - 1].id);
        }
        assert(tally(cs, in_subnet(subnet(cs[cs.len() - 1].ip))) <= 2);
        assert(in_subnet(subnet(c.ip))(c));
        assert(f.push(c) =~= cs);
    }
}

/// Merging sparse leaves loses no contact where no network is crowded, and adds
/// or changes none in any case.
proof fn lemma_merging_keeps(
    z: ZoneView,
    order: u64,
    now: i64,
    local: KadId,
    path: Seq<bool>,
    x: KadContact,
)
    requires
        zone_ok(z, local, path),
    ensures
        contents(consolidated(z, order, now).zone).contains(x) ==> contents(z).contains(x),
        uncrowded(contents(z)) ==> (contents(z).contains(x) ==> contents(
            consolidated(z, order, now).zone,
        ).contains(x)),
    decreases z,
{
    if let ZoneView::Split { meta, left, right } = z {
        let a = consolidated(*left, order, now);
        let b = consolidated(*right, a.order, now);
        let (l, r) = (contents(*left), contents(*right));
        let (s, t) = (contents(a.zone), contents(b.zone));
        lemma_merging_keeps(*left, order, now, local, path.push(false), x);
        lemma_merging_keeps(*right, a.order, now, local, path.push(true), x);
        lemma_contains_add(l, r, x);
        lemma_contains_add(s, t, x);
        if uncrowded(contents(z)) {
            assert forall|i: int| 0 <= i < l.len() implies tally(
                l,
                in_subnet(subnet((#[trigger] l[i]).ip)),
            ) <= 2 by {
                let q = in_subnet(subnet(l[i].ip));
                assert((l + r)[i] == l[i]);
                lemma_tally_add(l, r, q);
            }
            assert forall|i: int| 0 <= i < r.len() implies tally(
                r,
                in_subnet(subnet((#[trigger] r[i]).ip)),
            ) <= 2 by {
                let q = in_subnet(subnet(r[i].ip));
                assert((l + r)[l.len() + i] == r[i]);
                lemma_tally_add(l, r, q);
            }
        }
        if a.zone is Leaf && b.zone is Leaf && s.len() + t.len() < 5 {
            lemma_offered_members(s + t, x);
            if uncrowded(contents(z)) {
                lemma_consolidated_ok(*left, order, now, local, path.push(false));
                lemma_consolidated_ok(*right, a.order, now, local, path.push(true));
                let y = ZoneView::Split { meta, left: Box::new(a.zone), right: Box::new(b.zone) };
                assert(zone_ok(y, local, path));
                lemma_contents_distinct(y, local, path);
                assert(contents(y) == s + t);
                assert forall|i: int| 0 <= i < (s + t).len() implies tally(
                    s + t,
                    in_subnet(subnet((#[trigger] (s + t)[i]).ip)),
                ) <= 2 by {
                    let c = (s + t)[i];
                    lemma_merged_member(*left, order, now, local, path.push(false), s, c);
                    lemma_merged_member(*right, a.order, now, local, path.push(true), t, c);
                    assert((s + t).contains(c));
                    lemma_contains_add(s, t, c);
                    lemma_contains_add(l, r, c);
                    let k = choose|k: int| 0 <= k < (l + r).len() && (l + r)[k] == c;
                    assert(tally(l + r, in_subnet(subnet((l + r)[k].ip))) <= 2);
                    let n = subnet(c.ip);
                    lemma_consolidated_tally(*left, order, now, is_net(n));
                    lemma_consolidated_tally(*right, a.order, now, is_net(n));
                    lemma_tally_add(l, r, in_subnet(n));
                    lemma_tally_add(s, t, in_subnet(n));
                    lemma_tally_ext(l, by_ip(is_net(n)), in_subnet(n));
                    lemma_tally_ext(r, by_ip(is_net(n)), in_subnet(n));
                    lemma_tally_ext(s, by_ip(is_net(n)), in_subnet(n));
                    lemma_tally_ext(t, by_ip(is_net(n)), in_subnet(n));
                }
                lemma_offered_all(s + t);
            }
        }
    }
}

proof fn lemma_merged_member(
    z: ZoneView,
    order: u64,
    now: i64,
    local: KadId,
    path: Seq<bool>,
    s: Seq<KadContact>,
    c: KadContact,
)
    requires
        zone_ok(z, local, path),
        s == contents(consolidated(z, order, now).zone),
    ensures
        s.contains(c) ==> contents(z).contains(c),
    decreases z,
{
    if let ZoneView::Split { meta, left, right } = z {
        let a = consolidated(*left, order, now);
        let b = consolidated(*right, a.order, now);
        lemma_merged_member(*left, order, now, local, path.push(false), contents(a.zone), c);
        lemma_merged_member(*right, a.order, now, local, path.push(true), contents(b.zone), c);
        lemma_contains_add(contents(*left), contents(*right), c);
        lemma_contains_add(contents(a.zone), contents(b.zone), c);
        lemma_offered_members(contents(a.zone) + contents(b.zone), c);
    }
}

proof fn lemma_offered_members(cs: Seq<KadContact>, x: KadContact)
    ensures
        offered(Seq::empty(), cs).contains(x) ==> cs.contains(x),
    decreases cs.len(),
{
    if cs.len() > 0 {
        let f = cs.drop_last();
        lemma_offered_members(f, x);
        lemma_contains_add(f, seq![cs.last()], x);
        assert(f + seq![cs.last()] =~= cs);
        let o = offered(Seq::empty(), f);
        lemma_contains_add(o, seq![cs.last()], x);
        assert(o + seq![cs.last()] =~= o.push(cs.last()));
        assert(seq![cs.last()][0] == cs.last());
        if seq![cs.last()].contains(x) {
            assert(x == cs.last());
        }
    } else {
        assert(offered(Seq::empty(), cs) =~= Seq::empty());
    }
}

/// Whether cleaning takes a contact out as dead: it has gone unanswered too often,
/// its time is up, and no search uses it.
pub open spec fn dead(v: TableView, c: KadContact, now: i64) -> bool {
    c.contact_type >= 4 && (c.expires_at == 0 || c.expires_at <= now) && uses(v.in_use, c.id) == 0
}

/// Whether cleaning takes a contact out as stale: it was heard from at least
/// `max_age` seconds ago, or its time is up.
pub open spec fn stale(c: KadContact, max_age: i64, now: i64) -> bool {
    now - c.last_seen >= max_age || (c.expires_at > 0 && c.expires_at <= now)
}

/// Taking out the dead takes out these and changes no other. Leaves may merge
/// then, which costs a contact only where its network is crowded.
pub proof fn lemma_dead_leave(v: TableView, now: i64, x: KadContact)
    requires
        v.wf(),
    ensures
        cleaned_out(v, Cleaning::Dead { now }).contains(x) <==> v.contacts().contains(x) && dead(
            v,
            x,
            now,
        ),
        cleaned(v, Cleaning::Dead { now }, now).contacts().contains(x) ==> v.contacts().contains(x)
            && !dead(v, x, now),
        uncrowded(v.contacts()) && v.contacts().contains(x) && !dead(v, x, now) ==> cleaned(
            v,
            Cleaning::Dead { now },
            now,
        ).contacts().contains(x),
{
    lemma_cleaning(v, Cleaning::Dead { now }, now, x);
}

/// Taking out the stale takes out these and changes no other, likewise.
pub proof fn lemma_stale_leave(v: TableView, max_age: i64, now: i64, x: KadContact)
    requires
        v.wf(),
        clock_time(now),
        0 <= x.last_seen,
    ensures
        cleaned_out(v, Cleaning::Stale { now, max_age }).contains(x) <==> v.contacts().contains(x)
            && stale(x, max_age, now),
        cleaned(v, Cleaning::Stale { now, max_age }, now).contacts().contains(x)
            ==> v.contacts().contains(x) && !stale(x, max_age, now),
        uncrowded(v.contacts()) && v.contacts().contains(x) && !stale(x, max_age, now) ==> cleaned(
            v,
            Cleaning::Stale { now, max_age },
            now,
        ).contacts().contains(x),
{
    lemma_cleaning(v, Cleaning::Stale { now, max_age }, now, x);
}

proof fn lemma_cleaning(v: TableView, k: Cleaning, now: i64, x: KadContact)
    requires
        v.wf(),
    ensures
        cleaned_out(v, k).contains(x) <==> v.contacts().contains(x) && !survives(k, v.in_use)(x),
        cleaned(v, k, now).contacts().contains(x) ==> v.contacts().contains(x) && survives(
            k,
            v.in_use,
        )(x),
        uncrowded(v.contacts()) && v.contacts().contains(x) && survives(k, v.in_use)(x) ==> cleaned(
            v,
            k,
            now,
        ).contacts().contains(x),
{
    let keep = survives(k, v.in_use);
    let s = v.contacts();
    lemma_filtered(s, negated(keep), x);
    lemma_filtered(s, keep, x);
    lemma_kept(v.root, keep, v.local_id, Seq::empty());
    let gone = cleaned_out(v, k);
    let u = TableView { root: kept(v.root, keep), ..v };
    lemma_forget_keeps_root(u, ips_of(gone));
    let w = u.forget_ips(ips_of(gone));
    if gone.len() > 0 {
        lemma_merging_keeps(w.root, w.next_order, now, v.local_id, Seq::empty(), x);
        let r = consolidated(w.root, w.next_order, now);
        lemma_forget_keeps_root(
            TableView { root: r.zone, next_order: r.order, ..w },
            r.dropped,
        );
        if uncrowded(s) {
            let f = s.filter(keep);
            lemma_filter_members(s, keep);
            assert forall|i: int| 0 <= i < f.len() implies tally(
                f,
                in_subnet(subnet((#[trigger] f[i]).ip)),
            ) <= 2 by {
                let q = in_subnet(subnet(f[i].ip));
                assert(s.contains(f[i]));
                let j = choose|j: int| 0 <= j < s.len() && s[j] == f[i];
                assert(tally(s, in_subnet(subnet(s[j].ip))) <= 2);
                lemma_filter_tally(s, keep, q);
            }
        }
    }
}

proof fn lemma_filter_tally(
    s: Seq<KadContact>,
    keep: spec_fn(KadContact) -> bool,
    q: spec_fn(KadContact) -> bool,
)
    ensures
        tally(s.filter(keep), q) <= tally(s, q),
    decreases s.len(),
{
    reveal(Seq::filter);
    if s.len() > 0 {
        lemma_filter_tally(s.drop_last(), keep, q);
        if keep(s.last()) {
            lemma_tally_push(s.drop_last().filter(keep), s.last(), q);
        }
    }
}

// ---------------------------------------------------------------------------
// The closest
// ---------------------------------------------------------------------------
/// What the closest contacts to a target are: as many as there are, but no more
/// than asked for; all from the list; each nearer than the next, where the
/// distance is the exclusive or of the two identifiers as numbers; and each nearer
/// than every contact of the list that was left out.
pub proof fn lemma_closest(
    t: KadId,
    all: Seq<KadContact>,
    k: nat,
    out: Seq<KadContact>,
    i: int,
    x: KadContact,
)
    requires
        closest_of(t, all, k, out),
        0 <= i < out.len(),
    ensures
        out.len() <= k,
        out.len() <= all.len(),
        out.len() == k || out.len() == all.len(),
        all.contains(out[i]),
        i + 1 < out.len() ==> t.val() ^ out[i].id.val() < t.val() ^ out[i + 1].id.val(),
        all.contains(x) && !out.contains(x) ==> t.val() ^ out[i].id.val() < t.val() ^ x.id.val(),
{
    lemma_val_xor(t, out[i].id);
    if i + 1 < out.len() {
        lemma_val_xor(t, out[i + 1].id);
        assert(far(t, out[i]) < far(t, out[i + 1]));
    }
    if all.contains(x) && !out.contains(x) {
        lemma_val_xor(t, x.id);
        let j = choose|j: int| 0 <= j < all.len() && all[j] == x;
        assert(far(t, out[i]) < far(t, all[j]));
    }
}

/// Which contacts count as verified ones of a type: they have proven themselves,
/// and their type is no worse.
pub proof fn lemma_eligible(v: TableView, max_type: u8, x: KadContact)
    ensures
        v.contacts().filter(eligible(max_type)).contains(x) <==> v.contacts().contains(x)
            && x.verified && x.contact_type <= max_type,
{
    lemma_filtered(v.contacts(), eligible(max_type), x);
}

/// In a list ranked for a target those that are not behind a firewall come first,
/// and of two that are alike in this the nearer one.
pub proof fn lemma_ranked(t: KadId, s: Seq<KadContact>, i: int, j: int)
    requires
        ranked(t, s),
        0 <= i < j < s.len(),
    ensures
        s[j].kad_options & 1 == 0 ==> s[i].kad_options & 1 == 0,
        (s[i].kad_options & 1 == 0) == (s[j].kad_options & 1 == 0) ==> t.val() ^ s[i].id.val()
            < t.val() ^ s[j].id.val(),
{
    lemma_val_xor(t, s[i].id);
    lemma_val_xor(t, s[j].id);
}

// ---------------------------------------------------------------------------
// Checks and lookups
// ---------------------------------------------------------------------------
/// A check that goes out takes a contact one step towards dead, and makes it due
/// again in two minutes. One that was checked within the last ten seconds, or is
/// dead, stays as it is.
pub proof fn lemma_check_ages(c: KadContact, now: i64)
    requires
        clock_time(now),
        clock_time(c.last_type_set),
    ensures
        now - c.last_type_set < 10 || c.contact_type >= 4 ==> c.after_check(now) == c,
        now - c.last_type_set >= 10 && c.contact_type < 4 ==> ({
            let n = c.after_check(now);
            &&& n.contact_type == c.contact_type + 1
            &&& n.expires_at == now + 120
            &&& n.last_type_set == now
            &&& n == (KadContact {
                contact_type: n.contact_type,
                expires_at: n.expires_at,
                last_type_set: n.last_type_set,
                ..c
            })
        }),
{
}

/// A check of a leaf takes out the dead whose time is up and that no search uses,
/// and no others. A contact without a time is then due in two hours.
pub proof fn lemma_checked_leaf(
    s: Seq<KadContact>,
    now: i64,
    in_use: Map<u128, u32>,
    x: KadContact,
)
    requires
        clock_time(now),
        s.contains(x),
    ensures
        x.contact_type >= 4 && 0 < x.expires_at <= now && uses(in_use, x.id) == 0 ==> !s.filter(
            not_lost(now, in_use),
        ).contains(x),
        x.contact_type < 4 || x.expires_at <= 0 || x.expires_at > now || uses(in_use, x.id) != 0
            ==> s.filter(not_lost(now, in_use)).contains(x),
        with_due(x, now).expires_at == if x.expires_at == 0 {
            now + 7200
        } else {
            x.expires_at as int
        },
{
    lemma_filtered(s, not_lost(now, in_use), x);
}

/// The contact that the check of a leaf probes is the oldest that is left there,
/// if its time is up and it is not dead. It stays in front, a step older; an oldest
/// contact that is not probed goes to the end.
pub proof fn lemma_probed_oldest(s: Seq<KadContact>, now: i64, in_use: Map<u128, u32>)
    requires
        clock_time(now),
    ensures
        ({
            let t = s.filter(not_lost(now, in_use));
            let p = probed_leaf(s, now, in_use);
            let u = checked_leaf(s, now, in_use);
            let due = t.len() > 0 && t[0].expires_at != 0 && t[0].expires_at < now
                && t[0].contact_type < 4;
            &&& u.len() == t.len()
            &&& due ==> p == seq![t[0].after_check(now)] && u[0] == t[0].after_check(now) && (
            forall|i: int| 0 < i < t.len() ==> #[trigger] u[i] == with_due(t[i], now))
            &&& !due ==> p.len() == 0 && (t.len() > 0 ==> u[t.len() - 1] == with_due(t[0], now)) && (
            forall|i: int| 0 <= i < t.len() - 1 ==> #[trigger] u[i] == with_due(t[i + 1], now))
        }),
{
}

/// A leaf with contacts is checked when its turn has come, and then again after a
/// minute; other leaves are left alone. Of several leaves those on the near side are
/// probed first.
pub proof fn lemma_check_turn(
    meta: ZoneMeta,
    s: Seq<KadContact>,
    now: i64,
    in_use: Map<u128, u32>,
    a: ZoneView,
    b: ZoneView,
)
    requires
        clock_time(now),
    ensures
        ({
            let z = ZoneView::Leaf { meta, contacts: s };
            if s.len() > 0 && now >= meta.next_small_timer {
                &&& checked(z, now, in_use) matches ZoneView::Leaf { meta: m, contacts }
                    && contacts == checked_leaf(s, now, in_use) && m.next_small_timer == now + 60
                    && m == (ZoneMeta { next_small_timer: m.next_small_timer, ..meta })
                &&& probed(z, now, in_use) == probed_leaf(s, now, in_use)
            } else {
                checked(z, now, in_use) == z && probed(z, now, in_use).len() == 0
            }
        }),
        ({
            let z = ZoneView::Split { meta, left: Box::new(a), right: Box::new(b) };
            &&& probed(z, now, in_use) == probed(a, now, in_use) + probed(b, now, in_use)
            &&& contents(checked(z, now, in_use)) == contents(checked(a, now, in_use)) + contents(
                checked(b, now, in_use),
            )
        }),
{
}

/// A leaf may start a lookup if an hour has passed since its last one, or nothing
/// was heard for a quarter of an hour; and if it is among the five nearest of its
/// level, or on one of the first four levels, or has at most two contacts.
pub proof fn lemma_lookup_due(
    meta: ZoneMeta,
    s: Seq<KadContact>,
    now: i64,
    last_contact: Option<i64>,
)
    requires
        s.len() <= 10,
    ensures
        lookup_due(meta, s, now, last_contact) <==> (now >= meta.next_big_timer || (
        last_contact is Some && now - last_contact->Some_0 >= 900)) && (meta.zone_index.val() < 5
            || meta.level < 4 || s.len() <= 2),
{
}

/// A leaf that starts a lookup waits an hour for the next.
pub proof fn lemma_lookup_delay(
    meta: ZoneMeta,
    s: Seq<KadContact>,
    now: i64,
    last_contact: Option<i64>,
)
    requires
        clock_time(now),
        lookup_due(meta, s, now, last_contact),
    ensures
        after_turn(
            ZoneView::Leaf { meta, contacts: s },
            meta.event_order,
            now,
            last_contact,
        ) matches ZoneView::Leaf { meta: m, contacts } && m.next_big_timer == now + 3600 && contacts
            == s && m == (ZoneMeta { next_big_timer: m.next_big_timer, ..meta }),
{
}

/// The turn that comes first is due in some leaf, and no leaf that is due has an
/// earlier one.
pub proof fn lemma_turn_is_least(
    a: ZoneView,
    b: ZoneView,
    meta: ZoneMeta,
    now: i64,
    last_contact: Option<i64>,
)
    ensures
        ({
            let z = ZoneView::Split { meta, left: Box::new(a), right: Box::new(b) };
            let (x, y, r) = (
                first_turn(a, now, last_contact),
                first_turn(b, now, last_contact),
                first_turn(z, now, last_contact),
            );
            &&& r is None <==> x is None && y is None
            &&& r is Some ==> r == x || r == y
            &&& x is Some ==> r is Some && r->Some_0 <= x->Some_0
            &&& y is Some ==> r is Some && r->Some_0 <= y->Some_0
        }),
{
}

/// A table that was cleared holds no contact, and keeps its settings.
pub proof fn lemma_cleared(v: TableView, now: i64, x: KadContact)
    ensures
        !cleared(v, now).contacts().contains(x),
        cleared(v, now).contacts().len() == 0,
        cleared(v, now).local_id == v.local_id,
        cleared(v, now).block_private == v.block_private,
        cleared(v, now).external_ip == v.external_ip,
        cleared(v, now).filter == v.filter,
        cleared(v, now).deadline == now,
{
}

// ---------------------------------------------------------------------------
// Hearing from an address
// ---------------------------------------------------------------------------
proof fn lemma_addr_found(s: Seq<KadContact>, ip: Ipv4Addr, port: u16)
    ensures
        match addr_index(s, ip, port) {
            Some(i) => i < s.len() && s[i as int].ip == ip && s[i as int].udp_port == port,
            None => forall|i: int|
                0 <= i < s.len() ==> (#[trigger] s[i]).ip != ip || s[i].udp_port != port,
        },
    decreases s.len(),
{
    if s.len() > 0 {
        lemma_addr_found(s.skip(1), ip, port);
        let t = s.skip(1);
        if addr_index(s, ip, port) is None {
            assert forall|i: int| 0 <= i < s.len() implies (#[trigger] s[i]).ip != ip
                || s[i].udp_port != port by {
                if i > 0 {
                    assert(t[i - 1] == s[i]);
                }
            }
        }
    }
}

/// A zone in which the contact at an address was heard from.
proof fn lemma_touched_zone(
    z: ZoneView,
    local: KadId,
    path: Seq<bool>,
    ip: Ipv4Addr,
    port: u16,
    now: i64,
    c: KadContact,
    x: KadContact,
)
    requires
        zone_ok(z, local, path),
        contents(z).contains(c) ==> c.ip == ip && c.udp_port == port,
        forall|y: KadContact| #[trigger]
            contents(z).contains(y) && y.ip == ip && y.udp_port == port ==> y == c,
    ensures
        contents(z).contains(c) ==> (touched(z, ip, port, now) matches Some(t) && (contents(
            t,
        ).contains(x) <==> x == c.after_answer(now) || (contents(z).contains(x) && x.id != c.id))),
        !contents(z).contains(c) ==> touched(z, ip, port, now) is None,
    decreases z,
{
    match z {
        ZoneView::Leaf { meta, contacts } => {
            let s = contacts;
            lemma_addr_found(s, ip, port);
            if let Some(i) = addr_index(s, ip, port) {
                assert(s.contains(s[i as int]));
                lemma_moved_contains(s, i as int, c.after_answer(now), x);
            } else if s.contains(c) {
                let k = choose|k: int| 0 <= k < s.len() && s[k] == c;
                assert(s[k].ip != ip || s[k].udp_port != port);
            }
        },
        ZoneView::Split { meta, left, right } => {
            let (l, r) = (contents(*left), contents(*right));
            lemma_contains_add(l, r, c);
            lemma_contains_add(l, r, x);
            assert forall|y: KadContact| #[trigger]
                l.contains(y) && y.ip == ip && y.udp_port == port implies y == c by {
                lemma_contains_add(l, r, y);
                assert(contents(z).contains(y));
            }
            assert forall|y: KadContact| #[trigger]
                r.contains(y) && y.ip == ip && y.udp_port == port implies y == c by {
                lemma_contains_add(l, r, y);
                assert(contents(z).contains(y));
            }
            lemma_touched_zone(*left, local, path.push(false), ip, port, now, c, x);
            lemma_touched_zone(*right, local, path.push(true), ip, port, now, c, x);
            lemma_contents_distinct(z, local, path);
            if l.contains(c) {
                let t = touched(*left, ip, port, now)->Some_0;
                lemma_contains_add(contents(t), r, x);
                if r.contains(x) && x.id == c.id {
                    let i = choose|i: int| 0 <= i < l.len() && l[i] == c;
                    let j = choose|j: int| 0 <= j < r.len() && r[j] == x;
                    assert((l + r)[i].id != (l + r)[j + l.len()].id);
                }
            } else if r.contains(c) {
                let t = touched(*right, ip, port, now)->Some_0;
                lemma_contains_add(l, contents(t), x);
                if l.contains(x) && x.id == c.id {
                    let i = choose|i: int| 0 <= i < l.len() && l[i] == x;
                    let j = choose|j: int| 0 <= j < r.len() && r[j] == c;
                    assert((l + r)[i].id != (l + r)[j + l.len()].id);
                }
            }
        },
    }
}

/// A packet from the address and UDP port of a contact counts as its answer, and
/// changes no other contact.
pub proof fn lemma_heard_from(v: TableView, c: KadContact, now: i64, x: KadContact)
    requires
        v.wf(),
        clock_time(now),
        v.contacts().contains(c),
    ensures
        touched(v.root, c.ip, c.udp_port, now) matches Some(t) && {
            &&& contents(t).contains(c.after_answer(now))
            &&& answered(c, c.after_answer(now), now)
            &&& c.after_answer(now) == (KadContact {
                contact_type: c.after_answer(now).contact_type,
                expires_at: c.after_answer(now).expires_at,
                ..c
            })
            &&& x.id != c.id ==> (contents(t).contains(x) <==> v.contacts().contains(x))
        },
{
    assert forall|y: KadContact| #[trigger]
        v.contacts().contains(y) && y.ip == c.ip && y.udp_port == c.udp_port implies y == c by {
        lemma_address_once(v, c, y);
    }
    lemma_touched_zone(v.root, v.local_id, Seq::empty(), c.ip, c.udp_port, now, c, x);
    lemma_touched_zone(
        v.root,
        v.local_id,
        Seq::empty(),
        c.ip,
        c.udp_port,
        now,
        c,
        c.after_answer(now),
    );
}

/// A packet from an address or port that no contact has changes nothing.
pub proof fn lemma_heard_from_stranger(v: TableView, ip: Ipv4Addr, port: u16, now: i64)
    requires
        v.wf(),
        forall|y: KadContact| #[trigger]
            v.contacts().contains(y) ==> y.ip != ip || y.udp_port != port,
    ensures
        touched(v.root, ip, port, now) is None,
{
    lemma_untouched(v.root, ip, port, now);
}

proof fn lemma_untouched(z: ZoneView, ip: Ipv4Addr, port: u16, now: i64)
    requires
        forall|y: KadContact| #[trigger]
            contents(z).contains(y) ==> y.ip != ip || y.udp_port != port,
    ensures
        touched(z, ip, port, now) is None,
    decreases z,
{
    match z {
        ZoneView::Leaf { meta, contacts } => {
            lemma_addr_found(contacts, ip, port);
            if let Some(i) = addr_index(contacts, ip, port) {
                assert(contents(z).contains(contacts[i as int]));
            }
        },
        ZoneView::Split { meta, left, right } => {
            let (l, r) = (contents(*left), contents(*right));
            assert forall|y: KadContact| #[trigger] l.contains(y) implies y.ip != ip || y.udp_port
                != port by {
                lemma_contains_add(l, r, y);
                assert(contents(z).contains(y));
            }
            assert forall|y: KadContact| #[trigger] r.contains(y) implies y.ip != ip || y.udp_port
                != port by {
                lemma_contains_add(l, r, y);
                assert(contents(z).contains(y));
            }
            lemma_untouched(*left, ip, port, now);
            lemma_untouched(*right, ip, port, now);
        },
    }
}

/// No two contacts of a table have the same address.
pub proof fn lemma_address_once(v: TableView, a: KadContact, b: KadContact)
    requires
        v.wf(),
        v.contacts().contains(a),
        v.contacts().contains(b),
        a.ip == b.ip,
    ensures
        a == b,
{
    let s = v.contacts();
    let p = by_ip(ip_query()(a.ip.bits));
    assert(count_in(v.ip_count, a.ip.bits) == tally(s, p));
    let i = choose|i: int| 0 <= i < s.len() && s[i] == a;
    let j = choose|j: int| 0 <= j < s.len() && s[j] == b;
    assert(p(s[i]) && p(s[j]));
    if i != j {
        super::zone::lemma_tally_remove(s, i, p);
        let k = if j < i {
            j
        } else {
            j - 1
        };
        assert(s.remove(i)[k] == s[j]);
        super::zone::lemma_tally_pos(s.remove(i), k, p);
    }
}

// ---------------------------------------------------------------------------
// Splitting
// ---------------------------------------------------------------------------
/// A leaf of ten contacts splits where it is among the five nearest of its level, or on
/// one of the first four levels, and not on the last.
pub proof fn lemma_may_split(meta: ZoneMeta, len: nat)
    ensures
        may_split(meta, len) <==> len == 10 && meta.level < 127 && (meta.zone_index.val() < 5
            || meta.level < 4),
{
}

/// A contact goes to the half that the bit of its distance at the level of the leaf
/// says: each goes to one of the two, and keeps its place among the others there.
pub proof fn lemma_halves(s: Seq<KadContact>, local: KadId, meta: ZoneMeta, x: KadContact)
    ensures
        half(s, local, meta, true).contains(x) <==> s.contains(x) && local.xor_spec(x.id).bit(
            meta.level as int,
        ),
        half(s, local, meta, false).contains(x) <==> s.contains(x) && !local.xor_spec(x.id).bit(
            meta.level as int,
        ),
{
    lemma_filtered(s, on_side(local, meta.level, true), x);
    lemma_filtered(s, on_side(local, meta.level, false), x);
}

/// A half lies one level below its leaf, and its index is twice that of the leaf, and
/// one more on the far side. What it looks up starts with the bits that its leaf's
/// lookups start with, and with its side as the next one. Its first lookup is due in
/// ten seconds.
pub proof fn lemma_half_place(
    meta: ZoneMeta,
    side: bool,
    order: u64,
    now: i64,
    index: KadId,
    i: int,
)
    requires
        clock_time(now),
        meta.level < 127,
        meta.zone_index.val() < (1u128 << (meta.level as u128)),
        index.val() == 2 * meta.zone_index.val() + if side {
            1int
        } else {
            0
        },
        0 <= i <= meta.level,
    ensures
        ({
            let m = child_meta(meta, side, order, now);
            &&& m.level == meta.level + 1
            &&& m.zone_index == index
            &&& m.next_big_timer == now + 10
            &&& i < meta.level ==> bit_of(zone_prefix(m), i) == bit_of(zone_prefix(meta), i)
            &&& i == meta.level ==> bit_of(zone_prefix(m), i) == side
        }),
{
    let v = meta.zone_index.val();
    let l = meta.level as u128;
    let s: u128 = if side {
        1
    } else {
        0
    };
    let c = index.val();
    let n = i as u128;
    let (a, b, k) = ((127 - l) as u128, (128 - l) as u128, (127 - n) as u128);
    assert(v << 1 == 2 * v && v < 0x4000_0000_0000_0000_0000_0000_0000_0000) by (bit_vector)
        requires
            v < (1u128 << l),
            l < 127,
    ;
    super::types::lemma_id_of(index);
    assert((v << 1).wrapping_add(s) == c);
    if n < l {
        assert(((c << a) >> k) & 1 == ((v << b) >> k) & 1) by (bit_vector)
            requires
                n < l,
                l < 127,
                v < (1u128 << l),
                s <= 1,
                c == 2 * v + s,
                a == 127 - l,
                b == 128 - l,
                k == 127 - n,
        ;
    } else {
        assert(((c << a) >> a) & 1 == s) by (bit_vector)
            requires
                l < 127,
                v < (1u128 << l),
                s <= 1,
                c == 2 * v + s,
                a == 127 - l,
        ;
    }
}

// ---------------------------------------------------------------------------
// The size of the network
// ---------------------------------------------------------------------------
proof fn lemma_pow2(n: nat)
    ensures
        pow2(n) == vstd::arithmetic::power2::pow2(n),
    decreases n,
{
    if n == 0 {
        vstd::arithmetic::power2::lemma2_to64();
    } else {
        lemma_pow2((n - 1) as nat);
        vstd::arithmetic::power2::lemma_pow2_unfold(n);
    }
}

/// While the leaf of the local identifier is on one of the first four levels, the
/// network is taken for as many full leaves as the level has. Further down it is taken
/// for as dense everywhere as in the zone three levels above that leaf. No estimate
/// exceeds the largest number of 32 bits.
pub proof fn lemma_estimate(v: TableView)
    ensures
        ({
            let l = own_leaf_level(v.root);
            let near = contents(own_zone(v.root, (l - 3) as u32)).len();
            let dense = vstd::arithmetic::power2::pow2((l - 3) as nat) * near;
            &&& l == 0 ==> estimated(v) == 10
            &&& l == 1 ==> estimated(v) == 20
            &&& l == 2 ==> estimated(v) == 40
            &&& l == 3 ==> estimated(v) == 80
            &&& l >= 4 && near <= u32::MAX && dense <= u32::MAX ==> estimated(v) == dense
            &&& l >= 4 && near <= u32::MAX && dense > u32::MAX ==> estimated(v) == u32::MAX
        }),
{
    let l = own_leaf_level(v.root);
    reveal_with_fuel(pow2, 5);
    if l >= 4 {
        lemma_pow2((l - 3) as nat);
    }
}

} // verus!
