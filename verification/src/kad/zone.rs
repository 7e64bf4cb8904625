//! The tree behind the routing table: bins of contacts, and zones that split
//! and merge.
use vstd::prelude::*;

use super::types::{
    bit_of, id_of, lemma_bit_xor, lemma_bits_order, lemma_id_of, lemma_val_xor, lemma_xor_distance,
    KadContact, KadId, CONTACT_TYPE_DEAD, KBASE, KK, K_BUCKET_SIZE,
};
use crate::clock::{clock_time, sat_sub, seconds_since};
use crate::net::Ipv4Addr;
use crate::security::{is_lan_v4, lan_ip};

verus! {

/// Contacts of one network in one bin, local networks aside.
pub const MAX_CONTACTS_SUBNET_PER_BIN: usize = 2;

/// Delay before a new zone's first lookup.
pub const BIG_TIMER_INITIAL_SECS: i64 = 10;

/// Delay between two checks of a zone.
pub const SMALL_TIMER_INTERVAL_SECS: i64 = 60;

/// How long a contact goes unchecked at first.
pub const CONTACT_DEFAULT_TTL_SECS: i64 = 7200;

/// The /24 network of an address.
pub open spec fn subnet(ip: Ipv4Addr) -> u32 {
    (ip.bits - ip.bits % 256) as u32
}

pub fn subnet_key(ip: Ipv4Addr) -> (r: u32)
    ensures
        r == subnet(ip),
{
    ip.bits - ip.bits % 256
}

// ---------------------------------------------------------------------------
// Lists of contacts
// ---------------------------------------------------------------------------
/// How many contacts a property holds of.
pub open spec fn tally(s: Seq<KadContact>, p: spec_fn(KadContact) -> bool) -> nat
    decreases s.len(),
{
    if s.len() == 0 {
        0
    } else {
        tally(s.drop_last(), p) + if p(s.last()) {
            1nat
        } else {
            0nat
        }
    }
}

pub open spec fn in_subnet(net: u32) -> spec_fn(KadContact) -> bool {
    |c: KadContact| subnet(c.ip) == net
}

pub open spec fn has_id(s: Seq<KadContact>, id: KadId) -> bool {
    exists|i: int| 0 <= i < s.len() && (#[trigger] s[i]).id == id
}

/// The index of the contact with an identifier.
pub open spec fn index_of_id(s: Seq<KadContact>, id: KadId) -> int {
    choose|i: int| 0 <= i < s.len() && (#[trigger] s[i]).id == id
}

pub open spec fn distinct_ids(s: Seq<KadContact>) -> bool {
    forall|i: int, j: int|
        #![trigger s[i], s[j]]
        0 <= i < j < s.len() ==> s[i].id != s[j].id
}

/// No more than two contacts of a network, local networks aside.
pub open spec fn subnets_fit(s: Seq<KadContact>) -> bool {
    forall|i: int|
        0 <= i < s.len() && !lan_ip((#[trigger] s[i]).ip) ==> tally(s, in_subnet(subnet(s[i].ip)))
            <= MAX_CONTACTS_SUBNET_PER_BIN
}

/// What holds of the contacts of a bin.
pub open spec fn bin_ok(s: Seq<KadContact>) -> bool {
    s.len() <= K_BUCKET_SIZE && distinct_ids(s) && subnets_fit(s)
}

/// Whether a bin takes a contact: it is new, its network is not there too
/// often, and there is room.
pub open spec fn bin_takes(s: Seq<KadContact>, c: KadContact) -> bool {
    &&& !has_id(s, c.id)
    &&& tally(s, in_subnet(subnet(c.ip))) < MAX_CONTACTS_SUBNET_PER_BIN || lan_ip(c.ip)
    &&& s.len() < K_BUCKET_SIZE
}

pub proof fn lemma_tally_add(a: Seq<KadContact>, b: Seq<KadContact>, p: spec_fn(KadContact) -> bool)
    ensures
        tally(a + b, p) == tally(a, p) + tally(b, p),
    decreases b.len(),
{
    if b.len() == 0 {
        assert(a + b =~= a);
    } else {
        assert((a + b).drop_last() =~= a + b.drop_last());
        lemma_tally_add(a, b.drop_last(), p);
    }
}

pub proof fn lemma_tally_push(s: Seq<KadContact>, c: KadContact, p: spec_fn(KadContact) -> bool)
    ensures
        tally(s.push(c), p) == tally(s, p) + if p(c) {
            1nat
        } else {
            0nat
        },
{
    assert(s.push(c).drop_last() =~= s);
}

pub proof fn lemma_tally_remove(s: Seq<KadContact>, i: int, p: spec_fn(KadContact) -> bool)
    requires
        0 <= i < s.len(),
    ensures
        tally(s, p) == tally(s.remove(i), p) + if p(s[i]) {
            1nat
        } else {
            0nat
        },
{
    let a = s.take(i);
    let b = s.skip(i + 1);
    assert(s =~= a.push(s[i]) + b);
    assert(s.remove(i) =~= a + b);
    lemma_tally_add(a.push(s[i]), b, p);
    lemma_tally_add(a, b, p);
    lemma_tally_push(a, s[i], p);
}

/// A contact that is there is counted.
pub proof fn lemma_tally_pos(s: Seq<KadContact>, i: int, p: spec_fn(KadContact) -> bool)
    requires
        0 <= i < s.len(),
        p(s[i]),
    ensures
        tally(s, p) >= 1,
{
    lemma_tally_remove(s, i, p);
}

/// Nothing is counted where the property holds nowhere.
pub proof fn lemma_tally_none(s: Seq<KadContact>, p: spec_fn(KadContact) -> bool)
    requires
        forall|i: int| 0 <= i < s.len() ==> !p(#[trigger] s[i]),
    ensures
        tally(s, p) == 0,
    decreases s.len(),
{
    if s.len() > 0 {
        assert(!p(s[s.len() - 1]));
        assert forall|i: int| 0 <= i < s.drop_last().len() implies !p(#[trigger] s.drop_last()[i]) by {
            assert(s.drop_last()[i] == s[i]);
        }
        lemma_tally_none(s.drop_last(), p);
    }
}

/// A property that is kept where contacts stay or leave is counted no more often.
pub proof fn lemma_tally_filter(
    s: Seq<KadContact>,
    keep: spec_fn(KadContact) -> bool,
    p: spec_fn(KadContact) -> bool,
)
    ensures
        tally(s.filter(keep), p) <= tally(s, p),
        tally(s, p) == tally(s.filter(keep), p) + tally(
            s.filter(|c: KadContact| !keep(c)),
            p,
        ),
    decreases s.len(),
{
    reveal(Seq::filter);
    if s.len() > 0 {
        lemma_tally_filter(s.drop_last(), keep, p);
        let a = s.drop_last().filter(keep);
        let drop = |c: KadContact| !keep(c);
        let b = s.drop_last().filter(drop);
        lemma_tally_push(a, s.last(), p);
        lemma_tally_push(b, s.last(), p);
    }
}

/// The contacts kept by a filter are contacts of the list, in the same order.
pub proof fn lemma_filter_members(s: Seq<KadContact>, keep: spec_fn(KadContact) -> bool)
    ensures
        s.filter(keep).len() <= s.len(),
        forall|i: int|
            0 <= i < s.filter(keep).len() ==> keep(#[trigger] s.filter(keep)[i]) && s.contains(
                s.filter(keep)[i],
            ),
        forall|i: int|
            0 <= i < s.len() && keep(#[trigger] s[i]) ==> s.filter(keep).contains(s[i]),
        distinct_ids(s) ==> distinct_ids(s.filter(keep)),
    decreases s.len(),
{
    reveal(Seq::filter);
    if s.len() > 0 {
        let t = s.drop_last();
        let x = s.last();
        lemma_filter_members(t, keep);
        let f = t.filter(keep);
        assert(distinct_ids(s) ==> distinct_ids(t)) by {
            if distinct_ids(s) {
                assert forall|i: int, j: int|
                    #![trigger t[i], t[j]]
                    0 <= i < j < t.len() implies t[i].id != t[j].id by {
                    assert(t[i] == s[i] && t[j] == s[j]);
                }
            }
        }
        let g = s.filter(keep);
        assert(g == if keep(x) {
            f.push(x)
        } else {
            f
        });
        assert forall|i: int| 0 <= i < g.len() implies keep(#[trigger] g[i]) && s.contains(
            g[i],
        ) by {
            if i < f.len() {
                assert(g[i] == f[i]);
                assert(t.contains(f[i]));
                let k = choose|k: int| 0 <= k < t.len() && t[k] == f[i];
                assert(s[k] == f[i]);
            } else {
                assert(g[i] == x);
                assert(s[s.len() - 1] == x);
            }
        }
        assert forall|i: int| 0 <= i < s.len() && keep(#[trigger] s[i]) implies g.contains(s[i]) by {
            if i < t.len() {
                assert(t[i] == s[i]);
                assert(f.contains(t[i]));
                let k = choose|k: int| 0 <= k < f.len() && f[k] == t[i];
                assert(g[k] == s[i]);
            } else {
                assert(g[g.len() - 1] == x);
            }
        }
        if distinct_ids(s) {
            assert forall|i: int, j: int|
                #![trigger g[i], g[j]]
                0 <= i < j < g.len() implies g[i].id != g[j].id by {
                if j < f.len() {
                    assert(g[i] == f[i] && g[j] == f[j]);
                } else {
                    assert(g[i] == f[i]);
                    assert(t.contains(f[i]));
                    let k = choose|k: int| 0 <= k < t.len() && t[k] == f[i];
                    assert(s[k] == f[i]);
                    assert(g[j] == s[s.len() - 1]);
                }
            }
        }
    }
}

/// A bin stays in order when contacts leave it.
pub proof fn lemma_filter_bin_ok(s: Seq<KadContact>, keep: spec_fn(KadContact) -> bool)
    requires
        bin_ok(s),
    ensures
        bin_ok(s.filter(keep)),
{
    lemma_filter_members(s, keep);
    let f = s.filter(keep);
    assert forall|i: int| 0 <= i < f.len() && !lan_ip((#[trigger] f[i]).ip) implies tally(
        f,
        in_subnet(subnet(f[i].ip)),
    ) <= MAX_CONTACTS_SUBNET_PER_BIN by {
        assert(s.contains(f[i]));
        let k = choose|k: int| 0 <= k < s.len() && s[k] == f[i];
        lemma_tally_filter(s, keep, in_subnet(subnet(f[i].ip)));
        assert(!lan_ip(s[k].ip));
    }
}

/// A bin that takes a contact stays in order.
pub proof fn lemma_push_bin_ok(s: Seq<KadContact>, c: KadContact)
    requires
        bin_ok(s),
        bin_takes(s, c),
    ensures
        bin_ok(s.push(c)),
{
    let t = s.push(c);
    assert forall|i: int, j: int|
        #![trigger t[i], t[j]]
        0 <= i < j < t.len() implies t[i].id != t[j].id by {
        assert(t[i] == s[i]);
        if j < s.len() {
            assert(t[j] == s[j]);
        }
    }
    assert forall|i: int| 0 <= i < t.len() && !lan_ip((#[trigger] t[i]).ip) implies tally(
        t,
        in_subnet(subnet(t[i].ip)),
    ) <= MAX_CONTACTS_SUBNET_PER_BIN by {
        let net = subnet(t[i].ip);
        lemma_tally_push(s, c, in_subnet(net));
        if i < s.len() {
            assert(t[i] == s[i]);
            if subnet(c.ip) == net {
                lemma_same_net_lan(t[i].ip, c.ip);
            }
        }
    }
}

/// Addresses of one network are all local or none is.
pub proof fn lemma_same_net_lan(a: Ipv4Addr, b: Ipv4Addr)
    requires
        subnet(a) == subnet(b),
    ensures
        lan_ip(a) == lan_ip(b),
{
    crate::security::lemma_lan_by_subnet(a, b);
}

// ---------------------------------------------------------------------------
// Bins
// ---------------------------------------------------------------------------
/// The contacts of one leaf, the one heard from least recently first.
#[derive(Debug)]
pub struct RoutingBin {
    pub contacts: Vec<KadContact>,
}

pub(crate) fn count_subnet(s: &Vec<KadContact>, net: u32) -> (n: usize)
    ensures
        n == tally(s@, in_subnet(net)),
{
    let mut n: usize = 0;
    let mut i: usize = 0;
    while i < s.len()
        invariant
            i <= s@.len(),
            n <= i,
            n == tally(s@.take(i as int), in_subnet(net)),
        decreases s@.len() - i,
    {
        assert(s@.take(i as int + 1).drop_last() =~= s@.take(i as int));
        if subnet_key(s[i].ip) == net {
            n = n + 1;
        }
        i = i + 1;
    }
    assert(s@.take(i as int) =~= s@);
    n
}

impl RoutingBin {
    pub fn new() -> (r: RoutingBin)
        ensures
            r.contacts@.len() == 0,
    {
        RoutingBin { contacts: Vec::new() }
    }

    pub fn len(&self) -> (n: usize)
        ensures
            n == self.contacts@.len(),
    {
        self.contacts.len()
    }

    /// How many more contacts fit.
    pub fn remaining(&self) -> (n: usize)
        ensures
            n == (if self.contacts@.len() < K_BUCKET_SIZE {
                K_BUCKET_SIZE - self.contacts@.len()
            } else {
                0
            }),
    {
        if self.contacts.len() < K_BUCKET_SIZE {
            K_BUCKET_SIZE - self.contacts.len()
        } else {
            0
        }
    }

    pub fn position(&self, id: &KadId) -> (r: Option<usize>)
        ensures
            match r {
                Some(i) => i < self.contacts@.len() && self.contacts@[i as int].id == *id && (
                forall|j: int| 0 <= j < i ==> (#[trigger] self.contacts@[j]).id != *id),
                None => !has_id(self.contacts@, *id),
            },
    {
        let mut i: usize = 0;
        while i < self.contacts.len()
            invariant
                i <= self.contacts@.len(),
                forall|j: int| 0 <= j < i ==> (#[trigger] self.contacts@[j]).id != *id,
            decreases self.contacts@.len() - i,
        {
            if self.contacts[i].id == *id {
                return Some(i);
            }
            i = i + 1;
        }
        None
    }

    /// The contact with an identifier.
    pub fn get_contact(&self, id: &KadId) -> (r: Option<&KadContact>)
        ensures
            match r {
                Some(c) => c.id == *id && self.contacts@.contains(*c),
                None => !has_id(self.contacts@, *id),
            },
    {
        match self.position(id) {
            Some(i) => {
                assert(self.contacts@.contains(self.contacts@[i as int]));
                Some(&self.contacts[i])
            },
            None => None,
        }
    }

    /// Moves a contact to the end, as the one heard from most recently.
    pub fn push_to_bottom(&mut self, id: &KadId)
        requires
            distinct_ids(old(self).contacts@),
        ensures
            final(self).contacts@ == to_bottom(old(self).contacts@, *id),
    {
        match self.position(id) {
            Some(i) => {
                proof {
                    lemma_index_of_id(self.contacts@, i as int);
                }
                let c = self.contacts.remove(i);
                self.contacts.push(c);
            },
            None => {},
        }
    }

    /// Adds a contact if the bin takes it.
    pub fn add_contact(&mut self, contact: KadContact) -> (added: bool)
        ensures
            added == bin_takes(old(self).contacts@, contact),
            final(self).contacts@ == (if added {
                old(self).contacts@.push(contact)
            } else {
                old(self).contacts@
            }),
    {
        if self.position(&contact.id).is_some() {
            return false;
        }
        let same: usize = count_subnet(&self.contacts, subnet_key(contact.ip));
        if same >= MAX_CONTACTS_SUBNET_PER_BIN && !is_lan_v4(contact.ip) {
            return false;
        }
        if self.contacts.len() < K_BUCKET_SIZE {
            self.contacts.push(contact);
            return true;
        }
        false
    }

    /// Takes out the contact with an identifier.
    pub fn remove_contact(&mut self, id: &KadId) -> (r: Option<KadContact>)
        requires
            distinct_ids(old(self).contacts@),
        ensures
            match r {
                Some(c) => {
                    let i = index_of_id(old(self).contacts@, *id);
                    has_id(old(self).contacts@, *id) && c == old(self).contacts@[i]
                        && final(self).contacts@ == old(self).contacts@.remove(i)
                },
                None => !has_id(old(self).contacts@, *id) && final(self).contacts@ == old(
                    self,
                ).contacts@,
            },
    {
        match self.position(id) {
            Some(i) => {
                proof {
                    lemma_index_of_id(self.contacts@, i as int);
                }
                Some(self.contacts.remove(i))
            },
            None => None,
        }
    }
}

/// A list with the contact of an identifier moved to its end.
pub open spec fn to_bottom(s: Seq<KadContact>, id: KadId) -> Seq<KadContact> {
    if has_id(s, id) {
        let i = index_of_id(s, id);
        s.remove(i).push(s[i])
    } else {
        s
    }
}

/// A contact's identifier finds its index.
pub proof fn lemma_index_of_id(s: Seq<KadContact>, i: int)
    requires
        distinct_ids(s),
        0 <= i < s.len(),
    ensures
        has_id(s, s[i].id),
        index_of_id(s, s[i].id) == i,
{
    let j = index_of_id(s, s[i].id);
    assert(0 <= j < s.len() && s[j].id == s[i].id);
    if j < i {
        assert(s[j].id != s[i].id);
    }
    if i < j {
        assert(s[i].id != s[j].id);
    }
}

/// Replacing a contact by one with the same identifier and address, at the end
/// of the list, keeps a bin in order.
pub proof fn lemma_replace_bin_ok(s: Seq<KadContact>, i: int, c: KadContact)
    requires
        bin_ok(s),
        0 <= i < s.len(),
        c.id == s[i].id,
        c.ip == s[i].ip || lan_ip(c.ip) || subnet(c.ip) == subnet(s[i].ip) || tally(
            s,
            in_subnet(subnet(c.ip)),
        ) < MAX_CONTACTS_SUBNET_PER_BIN,
    ensures
        bin_ok(s.remove(i).push(c)),
        bin_ok(s.update(i, c)),
{
    let t = s.remove(i).push(c);
    let u = s.update(i, c);
    assert forall|a: int, b: int|
        #![trigger t[a], t[b]]
        0 <= a < b < t.len() implies t[a].id != t[b].id by {
        let a2 = if a < i {
            a
        } else {
            a + 1
        };
        let b2 = if b == t.len() - 1 {
            i
        } else if b < i {
            b
        } else {
            b + 1
        };
        assert(t[a] == s[a2]);
        assert(t[b].id == s[b2].id);
        assert(a2 != b2);
    }
    assert forall|a: int, b: int|
        #![trigger u[a], u[b]]
        0 <= a < b < u.len() implies u[a].id != u[b].id by {
        assert(u[a].id == s[a].id && u[b].id == s[b].id);
    }
    assert(u =~= s.take(i).push(c) + s.skip(i + 1));
    assert(s =~= s.take(i).push(s[i]) + s.skip(i + 1));
    assert forall|net: u32| #[trigger] tally(t, in_subnet(net)) == tally(u, in_subnet(net)) && tally(
        t,
        in_subnet(net),
    ) + (if subnet(s[i].ip) == net {
        1nat
    } else {
        0nat
    }) == tally(s, in_subnet(net)) + (if subnet(c.ip) == net {
        1nat
    } else {
        0nat
    }) by {
        let p = in_subnet(net);
        lemma_tally_remove(s, i, p);
        lemma_tally_push(s.remove(i), c, p);
        lemma_tally_remove(u, i, p);
        assert(u.remove(i) =~= s.remove(i));
    }
    assert forall|k: int| 0 <= k < s.len() && !lan_ip((#[trigger] u[k]).ip) implies tally(
        u,
        in_subnet(subnet(u[k].ip)),
    ) <= MAX_CONTACTS_SUBNET_PER_BIN by {
        let net = subnet(u[k].ip);
        assert(tally(t, in_subnet(net)) == tally(u, in_subnet(net)));
        if k != i {
            assert(u[k] == s[k]);
            assert(!lan_ip(s[k].ip));
            if subnet(c.ip) == net {
                lemma_same_net_lan(u[k].ip, c.ip);
            }
        } else {
            if subnet(s[i].ip) == net {
                lemma_same_net_lan(s[i].ip, c.ip);
                assert(!lan_ip(s[i].ip));
            }
        }
    }
    assert forall|k: int| 0 <= k < t.len() && !lan_ip((#[trigger] t[k]).ip) implies tally(
        t,
        in_subnet(subnet(t[k].ip)),
    ) <= MAX_CONTACTS_SUBNET_PER_BIN by {
        let k2 = if k == t.len() - 1 {
            i
        } else if k < i {
            k
        } else {
            k + 1
        };
        assert(t[k] == u[k2]);
        assert(tally(t, in_subnet(subnet(t[k].ip))) == tally(u, in_subnet(subnet(t[k].ip))));
    }
}

// ---------------------------------------------------------------------------
// Zones
// ---------------------------------------------------------------------------
/// Where a zone stands in the tree, and when its timers are due.
#[derive(Clone, Copy, Debug)]
pub struct ZoneMeta {
    pub level: u32,
    pub zone_index: KadId,
    /// Leaves take their turns in the order in which they came to be.
    pub event_order: u64,
    pub next_big_timer: i64,
    pub next_small_timer: i64,
}

/// A node of the tree. The contacts below it agree with each other, seen from
/// the local identifier, on the bits above its level.
#[derive(Debug)]
pub struct RoutingZone {
    pub meta: ZoneMeta,
    pub body: ZoneBody,
}

#[derive(Debug)]
pub enum ZoneBody {
    Leaf(RoutingBin),
    Split(Box<RoutingZone>, Box<RoutingZone>),
}

/// A zone as a mathematical value.
pub enum ZoneView {
    Leaf { meta: ZoneMeta, contacts: Seq<KadContact> },
    Split { meta: ZoneMeta, left: Box<ZoneView>, right: Box<ZoneView> },
}

impl RoutingZone {
    pub open spec fn zview(&self) -> ZoneView
        decreases self,
    {
        match self.body {
            ZoneBody::Leaf(bin) => ZoneView::Leaf { meta: self.meta, contacts: bin.contacts@ },
            ZoneBody::Split(a, b) => ZoneView::Split {
                meta: self.meta,
                left: Box::new(a.zview()),
                right: Box::new(b.zview()),
            },
        }
    }
}

impl View for RoutingZone {
    type V = ZoneView;

    open spec fn view(&self) -> ZoneView {
        self.zview()
    }
}

pub open spec fn meta_of(z: ZoneView) -> ZoneMeta {
    match z {
        ZoneView::Leaf { meta, .. } => meta,
        ZoneView::Split { meta, .. } => meta,
    }
}

/// All contacts of a zone, from the closest leaf to the farthest.
pub open spec fn contents(z: ZoneView) -> Seq<KadContact>
    decreases z,
{
    match z {
        ZoneView::Leaf { contacts, .. } => contacts,
        ZoneView::Split { left, right, .. } => contents(*left) + contents(*right),
    }
}

/// Each level is one below its parent's, and the deepest is 127.
pub open spec fn levels_ok(z: ZoneView, level: nat) -> bool
    decreases z,
{
    &&& meta_of(z).level == level
    &&& level <= 127
    &&& match z {
        ZoneView::Leaf { .. } => true,
        ZoneView::Split { left, right, .. } => level <= 126 && levels_ok(*left, level + 1)
            && levels_ok(*right, level + 1),
    }
}

/// Whether a distance starts with the bits of a path.
pub open spec fn follows(d: KadId, path: Seq<bool>) -> bool {
    forall|i: int| 0 <= i < path.len() ==> d.bit(i) == #[trigger] path[i]
}

/// What holds of every zone: each bin is in order, and each contact stands in
/// the leaf that its distance leads to.
pub open spec fn zone_ok(z: ZoneView, local: KadId, path: Seq<bool>) -> bool
    decreases z,
{
    &&& meta_of(z).level == path.len()
    &&& path.len() <= 127
    &&& match z {
        ZoneView::Leaf { contacts, .. } => bin_ok(contacts) && (forall|i: int|
            0 <= i < contacts.len() ==> follows(local.xor_spec((#[trigger] contacts[i]).id), path)),
        ZoneView::Split { left, right, .. } => path.len() <= 126 && zone_ok(
            *left,
            local,
            path.push(false),
        ) && zone_ok(*right, local, path.push(true)),
    }
}

/// The contacts of the leaf that a distance leads to.
pub open spec fn leaf_at(z: ZoneView, d: KadId) -> Seq<KadContact>
    decreases z,
{
    match z {
        ZoneView::Leaf { contacts, .. } => contacts,
        ZoneView::Split { meta, left, right } => if d.bit(meta.level as int) {
            leaf_at(*right, d)
        } else {
            leaf_at(*left, d)
        },
    }
}

/// A zone with other contacts in the leaf that a distance leads to.
pub open spec fn with_leaf(z: ZoneView, d: KadId, s: Seq<KadContact>) -> ZoneView
    decreases z,
{
    match z {
        ZoneView::Leaf { meta, .. } => ZoneView::Leaf { meta, contacts: s },
        ZoneView::Split { meta, left, right } => if d.bit(meta.level as int) {
            ZoneView::Split { meta, left, right: Box::new(with_leaf(*right, d, s)) }
        } else {
            ZoneView::Split { meta, left: Box::new(with_leaf(*left, d, s)), right }
        },
    }
}

pub proof fn lemma_zone_levels(z: ZoneView, local: KadId, path: Seq<bool>)
    requires
        zone_ok(z, local, path),
    ensures
        levels_ok(z, path.len()),
    decreases z,
{
    if let ZoneView::Split { left, right, .. } = z {
        lemma_zone_levels(*left, local, path.push(false));
        lemma_zone_levels(*right, local, path.push(true));
    }
}

/// Every contact of a zone follows its path.
pub proof fn lemma_contents_follow(z: ZoneView, local: KadId, path: Seq<bool>)
    requires
        zone_ok(z, local, path),
    ensures
        forall|i: int|
            0 <= i < contents(z).len() ==> follows(
                local.xor_spec((#[trigger] contents(z)[i]).id),
                path,
            ),
    decreases z,
{
    if let ZoneView::Split { left, right, .. } = z {
        lemma_contents_follow(*left, local, path.push(false));
        lemma_contents_follow(*right, local, path.push(true));
        let c = contents(z);
        let n = contents(*left).len();
        assert forall|i: int| 0 <= i < c.len() implies follows(
            local.xor_spec((#[trigger] c[i]).id),
            path,
        ) by {
            let side = i >= n;
            let d = local.xor_spec(c[i].id);
            if side {
                assert(c[i] == contents(*right)[i - n]);
            } else {
                assert(c[i] == contents(*left)[i]);
            }
            let p = path.push(side);
            assert(follows(d, p));
            assert forall|k: int| 0 <= k < path.len() implies d.bit(k) == #[trigger] path[k] by {
                assert(p[k] == path[k]);
            }
        }
    }
}

/// No identifier occurs twice in a zone.
pub proof fn lemma_contents_distinct(z: ZoneView, local: KadId, path: Seq<bool>)
    requires
        zone_ok(z, local, path),
    ensures
        distinct_ids(contents(z)),
    decreases z,
{
    if let ZoneView::Split { left, right, .. } = z {
        lemma_contents_distinct(*left, local, path.push(false));
        lemma_contents_distinct(*right, local, path.push(true));
        lemma_contents_follow(*left, local, path.push(false));
        lemma_contents_follow(*right, local, path.push(true));
        let a = contents(*left);
        let b = contents(*right);
        let c = contents(z);
        let n = path.len() as int;
        assert forall|i: int, j: int|
            #![trigger c[i], c[j]]
            0 <= i < j < c.len() implies c[i].id != c[j].id by {
            if j < a.len() {
                assert(c[i] == a[i] && c[j] == a[j]);
            } else if i >= a.len() {
                assert(c[i] == b[i - a.len()] && c[j] == b[j - a.len()]);
            } else {
                assert(c[i] == a[i] && c[j] == b[j - a.len()]);
                assert(follows(local.xor_spec(a[i].id), path.push(false)));
                assert(follows(local.xor_spec(b[j - a.len()].id), path.push(true)));
                assert(path.push(false)[n] == false && path.push(true)[n] == true);
            }
        }
    }
}

/// An identifier is in a zone exactly if it is in the leaf that its distance leads to.
pub proof fn lemma_leaf_has(z: ZoneView, local: KadId, path: Seq<bool>, id: KadId)
    requires
        zone_ok(z, local, path),
    ensures
        has_id(contents(z), id) <==> has_id(leaf_at(z, local.xor_spec(id)), id),
    decreases z,
{
    let d = local.xor_spec(id);
    if let ZoneView::Split { meta, left, right } = z {
        lemma_leaf_has(*left, local, path.push(false), id);
        lemma_leaf_has(*right, local, path.push(true), id);
        lemma_contents_follow(*left, local, path.push(false));
        lemma_contents_follow(*right, local, path.push(true));
        let a = contents(*left);
        let b = contents(*right);
        let c = contents(z);
        let n = path.len() as int;
        assert(path.push(false)[n] == false && path.push(true)[n] == true);
        if has_id(a, id) {
            let i = index_of_id(a, id);
            assert(follows(local.xor_spec(a[i].id), path.push(false)));
            assert(!d.bit(n));
            assert(c[i] == a[i]);
        }
        if has_id(b, id) {
            let i = index_of_id(b, id);
            assert(follows(local.xor_spec(b[i].id), path.push(true)));
            assert(d.bit(n));
            assert(c[i + a.len()] == b[i]);
        }
        if has_id(c, id) {
            let i = index_of_id(c, id);
            if i < a.len() {
                assert(a[i].id == id);
            } else {
                assert(b[i - a.len()].id == id);
            }
        }
    }
}

/// The contacts of a leaf are contacts of the zone.
pub proof fn lemma_leaf_in_contents(z: ZoneView, d: KadId, i: int)
    requires
        0 <= i < leaf_at(z, d).len(),
    ensures
        contents(z).contains(leaf_at(z, d)[i]),
    decreases z,
{
    match z {
        ZoneView::Leaf { .. } => {},
        ZoneView::Split { meta, left, right } => {
            let a = contents(*left);
            let b = contents(*right);
            let c = contents(z);
            if d.bit(meta.level as int) {
                lemma_leaf_in_contents(*right, d, i);
                let k = choose|k: int| 0 <= k < b.len() && b[k] == leaf_at(z, d)[i];
                assert(c[k + a.len()] == b[k]);
            } else {
                lemma_leaf_in_contents(*left, d, i);
                let k = choose|k: int| 0 <= k < a.len() && a[k] == leaf_at(z, d)[i];
                assert(c[k] == a[k]);
            }
        },
    }
}

/// The leaf that a distance leads to is in order.
pub proof fn lemma_leaf_ok(z: ZoneView, local: KadId, path: Seq<bool>, d: KadId)
    requires
        zone_ok(z, local, path),
    ensures
        bin_ok(leaf_at(z, d)),
    decreases z,
{
    if let ZoneView::Split { meta, left, right } = z {
        if d.bit(meta.level as int) {
            lemma_leaf_ok(*right, local, path.push(true), d);
        } else {
            lemma_leaf_ok(*left, local, path.push(false), d);
        }
    }
}

/// Other contacts in a leaf keep the zone in order, as long as they are in
/// order themselves and each has an identifier that was in the leaf.
pub proof fn lemma_with_leaf_ok(
    z: ZoneView,
    local: KadId,
    path: Seq<bool>,
    d: KadId,
    s: Seq<KadContact>,
)
    requires
        zone_ok(z, local, path),
        bin_ok(s),
        forall|i: int| 0 <= i < s.len() ==> has_id(leaf_at(z, d), (#[trigger] s[i]).id),
    ensures
        zone_ok(with_leaf(z, d, s), local, path),
        leaf_at(with_leaf(z, d, s), d) == s,
    decreases z,
{
    match z {
        ZoneView::Leaf { meta, contacts } => {
            assert forall|i: int| 0 <= i < s.len() implies follows(
                local.xor_spec((#[trigger] s[i]).id),
                path,
            ) by {
                let k = index_of_id(contacts, s[i].id);
                assert(has_id(leaf_at(z, d), s[i].id));
                assert(contacts[k].id == s[i].id);
            }
        },
        ZoneView::Split { meta, left, right } => {
            if d.bit(meta.level as int) {
                lemma_with_leaf_ok(*right, local, path.push(true), d, s);
            } else {
                lemma_with_leaf_ok(*left, local, path.push(false), d, s);
            }
        },
    }
}

/// Other contacts in a leaf add no identifier but their own.
pub proof fn lemma_with_leaf_ids(z: ZoneView, d: KadId, s: Seq<KadContact>, id: KadId)
    requires
        has_id(contents(with_leaf(z, d, s)), id),
        forall|k: int| 0 <= k < s.len() ==> has_id(leaf_at(z, d), (#[trigger] s[k]).id),
    ensures
        has_id(contents(z), id),
    decreases z,
{
    match z {
        ZoneView::Leaf { contacts, .. } => {
            let k = index_of_id(s, id);
            assert(has_id(contacts, s[k].id));
        },
        ZoneView::Split { meta, left, right } => {
            let a = contents(*left);
            let b = contents(*right);
            if d.bit(meta.level as int) {
                let b2 = contents(with_leaf(*right, d, s));
                lemma_has_id_add(a, b2, id);
                if has_id(b2, id) {
                    lemma_with_leaf_ids(*right, d, s, id);
                }
            } else {
                let a2 = contents(with_leaf(*left, d, s));
                lemma_has_id_add(a2, b, id);
                if has_id(a2, id) {
                    lemma_with_leaf_ids(*left, d, s, id);
                }
            }
            lemma_has_id_add(a, b, id);
        },
    }
}

pub proof fn lemma_has_id_add(a: Seq<KadContact>, b: Seq<KadContact>, id: KadId)
    ensures
        has_id(a + b, id) <==> has_id(a, id) || has_id(b, id),
{
    if has_id(a, id) {
        let k = index_of_id(a, id);
        assert((a + b)[k].id == id);
    }
    if has_id(b, id) {
        let k = index_of_id(b, id);
        assert((a + b)[k + a.len()].id == id);
    }
    if has_id(a + b, id) {
        let k = index_of_id(a + b, id);
        if k < a.len() {
            assert(a[k].id == id);
        } else {
            assert(b[k - a.len()].id == id);
        }
    }
}

/// Other contacts in a leaf change a count by their own.
pub proof fn lemma_with_leaf_tally(
    z: ZoneView,
    d: KadId,
    s: Seq<KadContact>,
    p: spec_fn(KadContact) -> bool,
)
    ensures
        tally(contents(with_leaf(z, d, s)), p) + tally(leaf_at(z, d), p) == tally(contents(z), p)
            + tally(s, p),
    decreases z,
{
    if let ZoneView::Split { meta, left, right } = z {
        let a = contents(*left);
        let b = contents(*right);
        lemma_tally_add(a, b, p);
        if d.bit(meta.level as int) {
            lemma_with_leaf_tally(*right, d, s, p);
            lemma_tally_add(a, contents(with_leaf(*right, d, s)), p);
        } else {
            lemma_with_leaf_tally(*left, d, s, p);
            lemma_tally_add(contents(with_leaf(*left, d, s)), b, p);
        }
    }
}

/// The index of a zone's half.
pub open spec fn child_index(parent: KadId, side: bool) -> KadId {
    id_of(
        (parent.val() << 1).wrapping_add(
            if side {
                1
            } else {
                0
            },
        ),
    )
}

/// A new leaf's place and timers.
pub open spec fn leaf_meta(level: u32, zone_index: KadId, event_order: u64, now: i64) -> ZoneMeta {
    ZoneMeta {
        level,
        zone_index,
        event_order,
        next_big_timer: (now + BIG_TIMER_INITIAL_SECS) as i64,
        next_small_timer: (now + zone_index.chunk_spec(3) % 3600) as i64,
    }
}

/// Whether a full leaf may split: near the local identifier, or near the root.
pub open spec fn may_split(meta: ZoneMeta, len: nat) -> bool {
    &&& meta.level < 127
    &&& meta.zone_index.val() < KK || meta.level < KBASE
    &&& len == K_BUCKET_SIZE
}

/// On which side of a level a contact stands.
pub open spec fn on_side(local: KadId, level: u32, side: bool) -> spec_fn(KadContact) -> bool {
    |c: KadContact| local.xor_spec(c.id).bit(level as int) == side
}

/// The place and timers of a half.
pub open spec fn child_meta(meta: ZoneMeta, side: bool, order: u64, now: i64) -> ZoneMeta {
    leaf_meta(
        (meta.level + 1) as u32,
        child_index(meta.zone_index, side),
        if side {
            order.wrapping_add(1)
        } else {
            order
        },
        now,
    )
}

/// The contacts of one half, in the same order.
pub open spec fn half(
    s: Seq<KadContact>,
    local: KadId,
    meta: ZoneMeta,
    side: bool,
) -> Seq<KadContact> {
    s.filter(on_side(local, meta.level, side))
}

/// A node whose children on the given side and on the other are given.
pub open spec fn joined(meta: ZoneMeta, side: bool, child: ZoneView, other: ZoneView) -> ZoneView {
    if side {
        ZoneView::Split { meta, left: Box::new(other), right: Box::new(child) }
    } else {
        ZoneView::Split { meta, left: Box::new(child), right: Box::new(other) }
    }
}

/// One half of a leaf, as a leaf of its own.
pub open spec fn half_leaf(
    meta: ZoneMeta,
    s: Seq<KadContact>,
    local: KadId,
    side: bool,
    order: u64,
    now: i64,
) -> ZoneView {
    ZoneView::Leaf {
        meta: child_meta(meta, side, order, now),
        contacts: half(s, local, meta, side),
    }
}

/// What a full leaf splits into: its two halves.
pub open spec fn split_of(
    meta: ZoneMeta,
    s: Seq<KadContact>,
    local: KadId,
    order: u64,
    now: i64,
) -> ZoneView {
    joined(
        meta,
        false,
        half_leaf(meta, s, local, false, order, now),
        half_leaf(meta, s, local, true, order, now),
    )
}

#[derive(Clone, Copy, Debug, PartialEq, Eq, Structural)]
pub enum AddResult {
    Added,
    Existing,
    Rejected,
}

/// What adding a contact leads to.
pub struct AddOutcome {
    pub zone: ZoneView,
    pub result: AddResult,
    pub order: u64,
}

/// Adding to a leaf: into its bin if there is room, else into the half that it
/// splits off, if it may split. `limits` says whether the table as a whole has
/// room for the address.
pub open spec fn add_to_leaf(
    meta: ZoneMeta,
    s: Seq<KadContact>,
    c: KadContact,
    local: KadId,
    limits: bool,
    order: u64,
    now: i64,
) -> AddOutcome
    decreases 128 - meta.level,
{
    let leaf = ZoneView::Leaf { meta, contacts: s };
    if has_id(s, c.id) {
        AddOutcome { zone: leaf, result: AddResult::Existing, order }
    } else if s.len() < K_BUCKET_SIZE {
        if limits && bin_takes(s, c) {
            AddOutcome {
                zone: ZoneView::Leaf { meta, contacts: s.push(c) },
                result: AddResult::Added,
                order,
            }
        } else {
            AddOutcome { zone: leaf, result: AddResult::Rejected, order }
        }
    } else if may_split(meta, s.len()) {
        let side = local.xor_spec(c.id).bit(meta.level as int);
        let sub = add_to_leaf(
            child_meta(meta, side, order, now),
            half(s, local, meta, side),
            c,
            local,
            limits,
            order.wrapping_add(2),
            now,
        );
        AddOutcome {
            zone: joined(
                meta,
                side,
                sub.zone,
                half_leaf(meta, s, local, !side, order, now),
            ),
            result: sub.result,
            order: sub.order,
        }
    } else {
        AddOutcome { zone: leaf, result: AddResult::Rejected, order }
    }
}

/// Adding to a zone: to the leaf that the contact's distance leads to.
pub open spec fn add_to_zone(
    z: ZoneView,
    c: KadContact,
    local: KadId,
    limits: bool,
    order: u64,
    now: i64,
) -> AddOutcome
    decreases z,
{
    match z {
        ZoneView::Leaf { meta, contacts } => add_to_leaf(
            meta,
            contacts,
            c,
            local,
            limits,
            order,
            now,
        ),
        ZoneView::Split { meta, left, right } => if local.xor_spec(c.id).bit(meta.level as int) {
            let sub = add_to_zone(*right, c, local, limits, order, now);
            AddOutcome {
                zone: ZoneView::Split { meta, left, right: Box::new(sub.zone) },
                result: sub.result,
                order: sub.order,
            }
        } else {
            let sub = add_to_zone(*left, c, local, limits, order, now);
            AddOutcome {
                zone: ZoneView::Split { meta, left: Box::new(sub.zone), right },
                result: sub.result,
                order: sub.order,
            }
        },
    }
}

/// Adding keeps a leaf in order.
proof fn lemma_add_leaf_ok(
    meta: ZoneMeta,
    s: Seq<KadContact>,
    c: KadContact,
    local: KadId,
    limits: bool,
    order: u64,
    now: i64,
    path: Seq<bool>,
)
    requires
        zone_ok(ZoneView::Leaf { meta, contacts: s }, local, path),
        follows(local.xor_spec(c.id), path),
    ensures
        ({
            let r = add_to_leaf(meta, s, c, local, limits, order, now);
            &&& zone_ok(r.zone, local, path)
            &&& r.result is Added ==> limits && !has_id(s, c.id)
            &&& r.result is Existing <==> has_id(s, c.id)
        }),
    decreases 128 - meta.level,
{
    if has_id(s, c.id) {
    } else if s.len() < K_BUCKET_SIZE {
        if limits && bin_takes(s, c) {
            lemma_push_bin_ok(s, c);
            let t = s.push(c);
            assert forall|i: int| 0 <= i < t.len() implies follows(
                local.xor_spec((#[trigger] t[i]).id),
                path,
            ) by {
                if i < s.len() {
                    assert(t[i] == s[i]);
                }
            }
        }
    } else if may_split(meta, s.len()) {
        let side = local.xor_spec(c.id).bit(meta.level as int);
        lemma_half_ok(s, local, meta, path, side);
        lemma_half_ok(s, local, meta, path, !side);
        let m = child_meta(meta, side, order, now);
        let t = half(s, local, meta, side);
        let p2 = path.push(side);
        lemma_follows_push(local.xor_spec(c.id), path, side);
        lemma_add_leaf_ok(m, t, c, local, limits, order.wrapping_add(2), now, p2);
        let other = half_leaf(meta, s, local, !side, order, now);
        assert(zone_ok(other, local, path.push(!side)));
        if has_id(t, c.id) {
            lemma_filter_members(s, on_side(local, meta.level, side));
            let k = index_of_id(t, c.id);
            assert(s.contains(t[k]));
            let k2 = choose|k2: int| 0 <= k2 < s.len() && s[k2] == t[k];
            assert(s[k2].id == c.id);
        }
    }
}

proof fn lemma_follows_push(d: KadId, path: Seq<bool>, side: bool)
    requires
        follows(d, path),
        d.bit(path.len() as int) == side,
    ensures
        follows(d, path.push(side)),
{
    let p2 = path.push(side);
    assert forall|i: int| 0 <= i < p2.len() implies d.bit(i) == #[trigger] p2[i] by {
        if i < path.len() {
            assert(p2[i] == path[i]);
        }
    }
}

proof fn lemma_contents_joined(meta: ZoneMeta, side: bool, child: ZoneView, other: ZoneView)
    ensures
        contents(joined(meta, side, child, other)) == if side {
            contents(other) + contents(child)
        } else {
            contents(child) + contents(other)
        },
{
}

/// Adding to a leaf changes the count of a property by the contact's part.
proof fn lemma_add_leaf_tally(
    meta: ZoneMeta,
    s: Seq<KadContact>,
    c: KadContact,
    local: KadId,
    limits: bool,
    order: u64,
    now: i64,
    p: spec_fn(KadContact) -> bool,
)
    ensures
        ({
            let r = add_to_leaf(meta, s, c, local, limits, order, now);
            tally(contents(r.zone), p) == tally(s, p) + (if r.result is Added && p(c) {
                1nat
            } else {
                0nat
            })
        }),
    decreases 128 - meta.level,
{
    if has_id(s, c.id) {
    } else if s.len() < K_BUCKET_SIZE {
        lemma_tally_push(s, c, p);
    } else if may_split(meta, s.len()) {
        let side = local.xor_spec(c.id).bit(meta.level as int);
        let m = child_meta(meta, side, order, now);
        let t = half(s, local, meta, side);
        let u = half(s, local, meta, !side);
        lemma_add_leaf_tally(m, t, c, local, limits, order.wrapping_add(2), now, p);
        let sub = add_to_leaf(m, t, c, local, limits, order.wrapping_add(2), now);
        let keep = on_side(local, meta.level, side);
        lemma_tally_filter(s, keep, p);
        lemma_filter_ext(s, |c: KadContact| !keep(c), on_side(local, meta.level, !side));
        lemma_tally_add(u, contents(sub.zone), p);
        lemma_tally_add(contents(sub.zone), u, p);
        let other = half_leaf(meta, s, local, !side, order, now);
        assert(contents(other) == u);
        lemma_contents_joined(meta, side, sub.zone, other);
    }
}

/// Adding to a leaf loses no contact and adds no other.
proof fn lemma_add_leaf_contains(
    meta: ZoneMeta,
    s: Seq<KadContact>,
    c: KadContact,
    local: KadId,
    limits: bool,
    order: u64,
    now: i64,
    x: KadContact,
)
    ensures
        ({
            let r = add_to_leaf(meta, s, c, local, limits, order, now);
            contents(r.zone).contains(x) <==> s.contains(x) || (r.result is Added && x == c)
        }),
    decreases 128 - meta.level,
{
    if has_id(s, c.id) {
    } else if s.len() < K_BUCKET_SIZE {
        assert(s.push(c) =~= s + seq![c]);
        lemma_contains_add(s, seq![c], x);
        assert(seq![c].contains(x) <==> x == c) by {
            assert(seq![c][0] == c);
        }
    } else if may_split(meta, s.len()) {
        let side = local.xor_spec(c.id).bit(meta.level as int);
        let m = child_meta(meta, side, order, now);
        let t = half(s, local, meta, side);
        let u = half(s, local, meta, !side);
        lemma_add_leaf_contains(m, t, c, local, limits, order.wrapping_add(2), now, x);
        let sub = add_to_leaf(m, t, c, local, limits, order.wrapping_add(2), now);
        lemma_contains_add(u, contents(sub.zone), x);
        lemma_contains_add(contents(sub.zone), u, x);
        let other = half_leaf(meta, s, local, !side, order, now);
        assert(contents(other) == u);
        lemma_contents_joined(meta, side, sub.zone, other);
        let keep = on_side(local, meta.level, side);
        let drop = on_side(local, meta.level, !side);
        lemma_filter_members(s, keep);
        lemma_filter_members(s, drop);
        if s.contains(x) {
            let k = choose|k: int| 0 <= k < s.len() && s[k] == x;
            assert(keep(s[k]) || drop(s[k]));
        }
        if t.contains(x) {
            let k = choose|k: int| 0 <= k < t.len() && t[k] == x;
            assert(s.contains(t[k]));
        }
        if u.contains(x) {
            let k = choose|k: int| 0 <= k < u.len() && u[k] == x;
            assert(s.contains(u[k]));
        }
    }
}

pub proof fn lemma_contains_add(a: Seq<KadContact>, b: Seq<KadContact>, x: KadContact)
    ensures
        (a + b).contains(x) <==> a.contains(x) || b.contains(x),
{
    if a.contains(x) {
        let k = choose|k: int| 0 <= k < a.len() && a[k] == x;
        assert((a + b)[k] == x);
    }
    if b.contains(x) {
        let k = choose|k: int| 0 <= k < b.len() && b[k] == x;
        assert((a + b)[k + a.len()] == x);
    }
    if (a + b).contains(x) {
        let k = choose|k: int| 0 <= k < (a + b).len() && (a + b)[k] == x;
        if k < a.len() {
            assert(a[k] == x);
        } else {
            assert(b[k - a.len()] == x);
        }
    }
}

/// Filters that keep the same contacts give the same list.
proof fn lemma_filter_ext(
    s: Seq<KadContact>,
    f: spec_fn(KadContact) -> bool,
    g: spec_fn(KadContact) -> bool,
)
    requires
        forall|c: KadContact| #[trigger] f(c) == g(c),
    ensures
        s.filter(f) == s.filter(g),
    decreases s.len(),
{
    reveal(Seq::filter);
    if s.len() > 0 {
        lemma_filter_ext(s.drop_last(), f, g);
    }
}

/// The half of a leaf is in order one level below.
proof fn lemma_half_ok(
    s: Seq<KadContact>,
    local: KadId,
    meta: ZoneMeta,
    path: Seq<bool>,
    side: bool,
)
    requires
        zone_ok(ZoneView::Leaf { meta, contacts: s }, local, path),
        meta.level < 127,
    ensures
        bin_ok(s.filter(on_side(local, meta.level, side))),
        forall|i: int|
            0 <= i < s.filter(on_side(local, meta.level, side)).len() ==> follows(
                local.xor_spec((#[trigger] s.filter(on_side(local, meta.level, side))[i]).id),
                path.push(side),
            ),
{
    let keep = on_side(local, meta.level, side);
    let f = s.filter(keep);
    lemma_filter_bin_ok(s, keep);
    lemma_filter_members(s, keep);
    let p2 = path.push(side);
    assert forall|i: int| 0 <= i < f.len() implies follows(
        local.xor_spec((#[trigger] f[i]).id),
        p2,
    ) by {
        assert(keep(f[i]) && s.contains(f[i]));
        let k = choose|k: int| 0 <= k < s.len() && s[k] == f[i];
        let d = local.xor_spec(s[k].id);
        assert(follows(d, path));
        assert forall|j: int| 0 <= j < p2.len() implies d.bit(j) == #[trigger] p2[j] by {
            if j < path.len() {
                assert(p2[j] == path[j]);
            }
        }
    }
}

/// Adding keeps the tree in order.
pub proof fn lemma_add_zone_ok(
    z: ZoneView,
    c: KadContact,
    local: KadId,
    limits: bool,
    order: u64,
    now: i64,
    path: Seq<bool>,
)
    requires
        zone_ok(z, local, path),
        follows(local.xor_spec(c.id), path),
    ensures
        ({
            let r = add_to_zone(z, c, local, limits, order, now);
            &&& zone_ok(r.zone, local, path)
            &&& r.result is Added ==> limits && !has_id(contents(z), c.id)
            &&& r.result is Existing <==> has_id(contents(z), c.id)
        }),
    decreases z,
{
    match z {
        ZoneView::Leaf { meta, contacts } => {
            lemma_add_leaf_ok(meta, contacts, c, local, limits, order, now, path);
        },
        ZoneView::Split { meta, left, right } => {
            let side = local.xor_spec(c.id).bit(meta.level as int);
            let p2 = path.push(side);
            lemma_follows_push(local.xor_spec(c.id), path, side);
            let child = if side {
                *right
            } else {
                *left
            };
            lemma_add_zone_ok(child, c, local, limits, order, now, p2);
            lemma_leaf_has(z, local, path, c.id);
            lemma_leaf_has(child, local, p2, c.id);
        },
    }
}

/// Adding changes the count of a property by the contact's part.
pub proof fn lemma_add_zone_tally(
    z: ZoneView,
    c: KadContact,
    local: KadId,
    limits: bool,
    order: u64,
    now: i64,
    p: spec_fn(KadContact) -> bool,
)
    ensures
        ({
            let r = add_to_zone(z, c, local, limits, order, now);
            tally(contents(r.zone), p) == tally(contents(z), p) + (if r.result is Added && p(c) {
                1nat
            } else {
                0nat
            })
        }),
    decreases z,
{
    match z {
        ZoneView::Leaf { meta, contacts } => {
            lemma_add_leaf_tally(meta, contacts, c, local, limits, order, now, p);
        },
        ZoneView::Split { meta, left, right } => {
            let a = contents(*left);
            let b = contents(*right);
            lemma_tally_add(a, b, p);
            if local.xor_spec(c.id).bit(meta.level as int) {
                lemma_add_zone_tally(*right, c, local, limits, order, now, p);
                let sub = add_to_zone(*right, c, local, limits, order, now);
                lemma_tally_add(a, contents(sub.zone), p);
            } else {
                lemma_add_zone_tally(*left, c, local, limits, order, now, p);
                let sub = add_to_zone(*left, c, local, limits, order, now);
                lemma_tally_add(contents(sub.zone), b, p);
            }
        },
    }
}

/// Adding loses no contact and adds no other.
pub proof fn lemma_add_zone_contains(
    z: ZoneView,
    c: KadContact,
    local: KadId,
    limits: bool,
    order: u64,
    now: i64,
    x: KadContact,
)
    ensures
        ({
            let r = add_to_zone(z, c, local, limits, order, now);
            contents(r.zone).contains(x) <==> contents(z).contains(x) || (r.result is Added && x
                == c)
        }),
    decreases z,
{
    match z {
        ZoneView::Leaf { meta, contacts } => {
            lemma_add_leaf_contains(meta, contacts, c, local, limits, order, now, x);
        },
        ZoneView::Split { meta, left, right } => {
            let a = contents(*left);
            let b = contents(*right);
            lemma_contains_add(a, b, x);
            if local.xor_spec(c.id).bit(meta.level as int) {
                lemma_add_zone_contains(*right, c, local, limits, order, now, x);
                let sub = add_to_zone(*right, c, local, limits, order, now);
                lemma_contains_add(a, contents(sub.zone), x);
            } else {
                lemma_add_zone_contains(*left, c, local, limits, order, now, x);
                let sub = add_to_zone(*left, c, local, limits, order, now);
                lemma_contains_add(contents(sub.zone), b, x);
            }
        },
    }
}

impl RoutingZone {
    /// An empty leaf.
    pub fn new_leaf(level: u32, zone_index: KadId, event_order: u64, now: i64) -> (r: RoutingZone)
        requires
            clock_time(now),
        ensures
            r@ == (ZoneView::Leaf {
                meta: leaf_meta(level, zone_index, event_order, now),
                contacts: Seq::empty(),
            }),
    {
        let bin = RoutingBin::new();
        assert(bin.contacts@ =~= Seq::empty());
        let low: u32 = zone_index.chunk(3) % 3600;
        RoutingZone {
            meta: ZoneMeta {
                level,
                zone_index,
                event_order,
                next_big_timer: now + BIG_TIMER_INITIAL_SECS,
                next_small_timer: now + low as i64,
            },
            body: ZoneBody::Leaf(bin),
        }
    }

    pub fn is_leaf(&self) -> (r: bool)
        ensures
            r == (self@ is Leaf),
    {
        match &self.body {
            ZoneBody::Leaf(_) => true,
            ZoneBody::Split(_, _) => false,
        }
    }

    pub fn can_split(&self) -> (r: bool)
        ensures
            r == (self@ matches ZoneView::Leaf { meta, contacts } && may_split(
                meta,
                contacts.len(),
            )),
    {
        match &self.body {
            ZoneBody::Leaf(bin) => self.meta.level < 127 && (self.meta.zone_index.less_than_u32(
                KK as u32,
            ) || self.meta.level < KBASE as u32) && bin.len() == K_BUCKET_SIZE,
            ZoneBody::Split(_, _) => false,
        }
    }

    fn gen_sub_zone(
        level: u32,
        parent_index: &KadId,
        side: bool,
        event_order: u64,
        now: i64,
    ) -> (r: RoutingZone)
        requires
            level < 127,
            clock_time(now),
        ensures
            r@ == (ZoneView::Leaf {
                meta: leaf_meta(
                    (level + 1) as u32,
                    child_index(*parent_index, side),
                    event_order,
                    now,
                ),
                contacts: Seq::empty(),
            }),
    {
        let mut new_index = *parent_index;
        new_index.shift_left(1);
        if side {
            new_index.add_u32(1);
        }
        proof {
            lemma_id_of(new_index);
            let v = parent_index.val() << 1;
            assert(v.wrapping_add(0u128) == v);
        }
        RoutingZone::new_leaf(level + 1, new_index, event_order, now)
    }

    /// Splits a leaf in two. Every contact finds its place in one half.
    pub fn split(&mut self, local_id: &KadId, order: &mut u64, now: i64)
        requires
            old(self)@ matches ZoneView::Leaf { meta, contacts } && meta.level < 127 && bin_ok(
                contacts,
            ),
            clock_time(now),
        ensures
            final(self)@ == (match old(self)@ {
                ZoneView::Leaf { meta, contacts } => split_of(
                    meta,
                    contacts,
                    *local_id,
                    *old(order),
                    now,
                ),
                z => z,
            }),
            *final(order) == old(order).wrapping_add(2),
    {
        let meta = self.meta;
        let child0 = Self::gen_sub_zone(meta.level, &meta.zone_index, false, *order, now);
        let child1 = Self::gen_sub_zone(
            meta.level,
            &meta.zone_index,
            true,
            order.wrapping_add(1),
            now,
        );
        let mut bin0 = RoutingBin::new();
        let mut bin1 = RoutingBin::new();
        if let ZoneBody::Leaf(bin) = &self.body {
            let ghost s = bin.contacts@;
            let ghost keep0 = on_side(*local_id, meta.level, false);
            let ghost keep1 = on_side(*local_id, meta.level, true);
            let mut i: usize = 0;
            assert(bin0.contacts@ =~= s.take(0).filter(keep0)) by {
                reveal(Seq::filter);
            }
            assert(bin1.contacts@ =~= s.take(0).filter(keep1)) by {
                reveal(Seq::filter);
            }
            while i < bin.contacts.len()
                invariant
                    i <= bin.contacts@.len(),
                    s == bin.contacts@,
                    bin_ok(s),
                    meta.level < 127,
                    keep0 == on_side(*local_id, meta.level, false),
                    keep1 == on_side(*local_id, meta.level, true),
                    bin0.contacts@ == s.take(i as int).filter(keep0),
                    bin1.contacts@ == s.take(i as int).filter(keep1),
                decreases bin.contacts@.len() - i,
            {
                let c = bin.contacts[i];
                let side = local_id.xor_distance(&c.id).get_bit_number(meta.level);
                proof {
                    reveal(Seq::filter);
                    assert(s.take(i as int + 1).drop_last() =~= s.take(i as int));
                    lemma_half_takes(s, i as int, keep0);
                    lemma_half_takes(s, i as int, keep1);
                }
                if side {
                    let added = bin1.add_contact(c);
                    assert(added);
                } else {
                    let added = bin0.add_contact(c);
                    assert(added);
                }
                i = i + 1;
            }
            assert(s.take(i as int) =~= s);
        }
        proof {
            assert(child0.meta == child_meta(meta, false, *old(order), now));
            assert(child1.meta == child_meta(meta, true, *old(order), now));
        }
        *order = order.wrapping_add(2);
        let z0 = RoutingZone { meta: child0.meta, body: ZoneBody::Leaf(bin0) };
        let z1 = RoutingZone { meta: child1.meta, body: ZoneBody::Leaf(bin1) };
        proof {
            let s = old(self)@->contacts;
            assert(z0@ == half_leaf(meta, s, *local_id, false, *old(order), now));
            assert(z1@ == half_leaf(meta, s, *local_id, true, *old(order), now));
        }
        self.body = ZoneBody::Split(Box::new(z0), Box::new(z1));
    }

    /// The bin that a distance leads to.
    pub fn find_bin(&self, distance: &KadId) -> (r: &RoutingBin)
        requires
            exists|n: nat| levels_ok(self@, n),
        ensures
            r.contacts@ == leaf_at(self@, *distance),
        decreases self,
    {
        match &self.body {
            ZoneBody::Leaf(bin) => bin,
            ZoneBody::Split(a, b) => {
                proof {
                    let n = choose|n: nat| levels_ok(self@, n);
                    assert(levels_ok(a@, n + 1) && levels_ok(b@, n + 1));
                }
                if distance.get_bit_number(self.meta.level) {
                    b.find_bin(distance)
                } else {
                    a.find_bin(distance)
                }
            },
        }
    }

    /// The bin that a distance leads to, for changing it.
    pub fn find_bin_mut(&mut self, distance: &KadId) -> (r: &mut RoutingBin)
        requires
            exists|n: nat| levels_ok(old(self)@, n),
        ensures
            r.contacts@ == leaf_at(old(self)@, *distance),
            final(self)@ == with_leaf(old(self)@, *distance, final(r).contacts@),
        decreases old(self)@,
    {
        let ghost v0 = self@;
        let level: u32 = self.meta.level;
        match &mut self.body {
            ZoneBody::Leaf(bin) => bin,
            ZoneBody::Split(a, b) => {
                proof {
                    let n = choose|n: nat| levels_ok(v0, n);
                    assert(v0 is Split);
                    assert(a@ == *(v0->left) && b@ == *(v0->right));
                    assert(levels_ok(a@, n + 1) && levels_ok(b@, n + 1));
                }
                if distance.get_bit_number(level) {
                    assert(decreases_to!(v0 => b@));
                    b.find_bin_mut(distance)
                } else {
                    assert(decreases_to!(v0 => a@));
                    a.find_bin_mut(distance)
                }
            },
        }
    }

    fn add_at_leaf(
        &mut self,
        contact: KadContact,
        local_id: &KadId,
        limits: bool,
        order: &mut u64,
        now: i64,
        Ghost(path): Ghost<Seq<bool>>,
    ) -> (r: AddResult)
        requires
            old(self)@ is Leaf,
            zone_ok(old(self)@, *local_id, path),
            clock_time(now),
        ensures
            ({
                let o = add_to_zone(
                    old(self)@,
                    contact,
                    *local_id,
                    limits,
                    *old(order),
                    now,
                );
                final(self)@ == o.zone && r == o.result && *final(order) == o.order
            }),
        decreases 128 - old(self).meta.level,
    {
        let ghost v0 = self@;
        let meta = self.meta;
        match &mut self.body {
            ZoneBody::Leaf(bin) => {
                if bin.position(&contact.id).is_some() {
                    return AddResult::Existing;
                }
                if bin.remaining() > 0 {
                    if limits {
                        if bin.add_contact(contact) {
                            return AddResult::Added;
                        }
                    }
                    return AddResult::Rejected;
                }
            },
            ZoneBody::Split(_, _) => {
                return AddResult::Rejected;
            },
        }
        if self.can_split() {
            self.split(local_id, order, now);
            let side = local_id.xor_distance(&contact.id).get_bit_number(meta.level);
            let ghost s = v0->contacts;
            proof {
                lemma_half_ok(s, *local_id, meta, path, side);
            }
            let ghost v1 = self@;
            assert(v1 == split_of(meta, s, *local_id, *old(order), now));
            match &mut self.body {
                ZoneBody::Leaf(_) => AddResult::Rejected,
                ZoneBody::Split(a, b) => {
                    assert(a@ == *(v1->left) && b@ == *(v1->right));
                    assert(a.meta == meta_of(a@) && b.meta == meta_of(b@));
                    if side {
                        b.add_at_leaf(
                            contact,
                            local_id,
                            limits,
                            order,
                            now,
                            Ghost(path.push(true)),
                        )
                    } else {
                        a.add_at_leaf(
                            contact,
                            local_id,
                            limits,
                            order,
                            now,
                            Ghost(path.push(false)),
                        )
                    }
                },
            }
        } else {
            AddResult::Rejected
        }
    }

    /// Adds a contact to the leaf that its distance leads to, splitting leaves
    /// as far as needed and allowed.
    pub(crate) fn add(
        &mut self,
        contact: KadContact,
        local_id: &KadId,
        limits: bool,
        order: &mut u64,
        now: i64,
        Ghost(path): Ghost<Seq<bool>>,
    ) -> (r: AddResult)
        requires
            zone_ok(old(self)@, *local_id, path),
            clock_time(now),
        ensures
            ({
                let o = add_to_zone(
                    old(self)@,
                    contact,
                    *local_id,
                    limits,
                    *old(order),
                    now,
                );
                final(self)@ == o.zone && r == o.result && *final(order) == o.order
            }),
        decreases old(self)@,
    {
        if self.is_leaf() {
            return self.add_at_leaf(contact, local_id, limits, order, now, Ghost(path));
        }
        let level: u32 = self.meta.level;
        let side = local_id.xor_distance(&contact.id).get_bit_number(level);
        match &mut self.body {
            ZoneBody::Leaf(_) => AddResult::Rejected,
            ZoneBody::Split(a, b) => {
                if side {
                    b.add(contact, local_id, limits, order, now, Ghost(path.push(true)))
                } else {
                    a.add(contact, local_id, limits, order, now, Ghost(path.push(false)))
                }
            },
        }
    }
}

/// A half takes each contact of a bin in turn.
proof fn lemma_half_takes(s: Seq<KadContact>, i: int, keep: spec_fn(KadContact) -> bool)
    requires
        bin_ok(s),
        0 <= i < s.len(),
        keep(s[i]) || true,
    ensures
        keep(s[i]) ==> bin_takes(s.take(i).filter(keep), s[i]),
{
    if keep(s[i]) {
        let f = s.take(i).filter(keep);
        let c = s[i];
        lemma_filter_members(s.take(i), keep);
        if has_id(f, c.id) {
            let k = index_of_id(f, c.id);
            assert(s.take(i).contains(f[k]));
            let k2 = choose|k2: int| 0 <= k2 < i && s.take(i)[k2] == f[k];
            assert(s[k2].id == s[i].id);
        }
        let p = in_subnet(subnet(c.ip));
        lemma_tally_filter(s.take(i), keep, p);
        lemma_tally_push(s.take(i), c, p);
        assert(s =~= s.take(i).push(c) + s.skip(i + 1));
        lemma_tally_add(s.take(i).push(c), s.skip(i + 1), p);
    }
}

// ---------------------------------------------------------------------------
// Counting
// ---------------------------------------------------------------------------
pub open spec fn sat_u32(n: nat) -> u32 {
    if n <= u32::MAX {
        n as u32
    } else {
        u32::MAX
    }
}

/// The level of the leaf that holds the local identifier.
pub open spec fn own_leaf_level(z: ZoneView) -> u32
    decreases z,
{
    match z {
        ZoneView::Leaf { meta, .. } => meta.level,
        ZoneView::Split { left, .. } => own_leaf_level(*left),
    }
}

/// The zone around the local identifier at a level, or the leaf above it.
pub open spec fn own_zone(z: ZoneView, level: u32) -> ZoneView
    decreases z,
{
    match z {
        ZoneView::Leaf { .. } => z,
        ZoneView::Split { meta, left, .. } => if meta.level >= level {
            z
        } else {
            own_zone(*left, level)
        },
    }
}

impl RoutingZone {
    /// How many contacts the zone has, up to the largest `u32`.
    pub fn get_num_contacts(&self) -> (n: u32)
        ensures
            n == sat_u32(contents(self@).len()),
        decreases self,
    {
        match &self.body {
            ZoneBody::Leaf(bin) => {
                let n: usize = bin.len();
                if n as u64 <= u32::MAX as u64 {
                    n as u32
                } else {
                    u32::MAX
                }
            },
            ZoneBody::Split(a, b) => {
                let x: u32 = a.get_num_contacts();
                let y: u32 = b.get_num_contacts();
                assert(contents(self@) == contents(a@) + contents(b@));
                x.saturating_add(y)
            },
        }
    }

    pub fn deepest_leaf_level(&self) -> (n: u32)
        ensures
            n == own_leaf_level(self@),
        decreases self,
    {
        match &self.body {
            ZoneBody::Leaf(_) => self.meta.level,
            ZoneBody::Split(a, _) => a.deepest_leaf_level(),
        }
    }

    pub fn ancestor_contacts_at(&self, target_level: u32) -> (n: u32)
        ensures
            n == sat_u32(contents(own_zone(self@, target_level)).len()),
        decreases self,
    {
        match &self.body {
            ZoneBody::Leaf(_) => self.get_num_contacts(),
            ZoneBody::Split(a, _) => if self.meta.level >= target_level {
                self.get_num_contacts()
            } else {
                a.ancestor_contacts_at(target_level)
            },
        }
    }

    /// Appends all contacts.
    pub fn collect_all_contacts(&self, out: &mut Vec<KadContact>)
        ensures
            final(out)@ == old(out)@ + contents(self@),
        decreases self,
    {
        match &self.body {
            ZoneBody::Leaf(bin) => {
                append_contacts(out, &bin.contacts);
            },
            ZoneBody::Split(a, b) => {
                let ghost before = out@;
                a.collect_all_contacts(out);
                b.collect_all_contacts(out);
                assert(out@ =~= before + contents(self@));
            },
        }
    }
}

fn append_contacts(out: &mut Vec<KadContact>, s: &Vec<KadContact>)
    ensures
        final(out)@ == old(out)@ + s@,
{
    let ghost before = out@;
    let mut i: usize = 0;
    assert(out@ =~= before + s@.take(0));
    while i < s.len()
        invariant
            i <= s@.len(),
            out@ == before + s@.take(i as int),
        decreases s@.len() - i,
    {
        out.push(s[i]);
        i = i + 1;
        assert(out@ =~= before + s@.take(i as int));
    }
    assert(s@.take(i as int) =~= s@);
}

// ---------------------------------------------------------------------------
// Removing
// ---------------------------------------------------------------------------
/// The addresses of some contacts.
pub open spec fn ips_of(s: Seq<KadContact>) -> Seq<Ipv4Addr> {
    s.map_values(|c: KadContact| c.ip)
}

/// A zone in which only some contacts stay.
pub open spec fn kept(z: ZoneView, keep: spec_fn(KadContact) -> bool) -> ZoneView
    decreases z,
{
    match z {
        ZoneView::Leaf { meta, contacts } => ZoneView::Leaf {
            meta,
            contacts: contacts.filter(keep),
        },
        ZoneView::Split { meta, left, right } => ZoneView::Split {
            meta,
            left: Box::new(kept(*left, keep)),
            right: Box::new(kept(*right, keep)),
        },
    }
}

pub open spec fn negated(keep: spec_fn(KadContact) -> bool) -> spec_fn(KadContact) -> bool {
    |c: KadContact| !keep(c)
}

/// What stays is what a filter of all contacts keeps, and the tree stays in order.
pub proof fn lemma_kept(
    z: ZoneView,
    keep: spec_fn(KadContact) -> bool,
    local: KadId,
    path: Seq<bool>,
)
    requires
        zone_ok(z, local, path),
    ensures
        zone_ok(kept(z, keep), local, path),
        contents(kept(z, keep)) == contents(z).filter(keep),
    decreases z,
{
    match z {
        ZoneView::Leaf { meta, contacts } => {
            lemma_filter_bin_ok(contacts, keep);
            lemma_filter_members(contacts, keep);
            let f = contacts.filter(keep);
            assert forall|i: int| 0 <= i < f.len() implies follows(
                local.xor_spec((#[trigger] f[i]).id),
                path,
            ) by {
                assert(contacts.contains(f[i]));
                let k = choose|k: int| 0 <= k < contacts.len() && contacts[k] == f[i];
                assert(follows(local.xor_spec(contacts[k].id), path));
            }
        },
        ZoneView::Split { meta, left, right } => {
            lemma_kept(*left, keep, local, path.push(false));
            lemma_kept(*right, keep, local, path.push(true));
            Seq::filter_distributes_over_add(contents(*left), contents(*right), keep);
        },
    }
}

/// How often each address is used by the searches that run.
pub open spec fn uses(in_use: Map<u128, u32>, id: KadId) -> u32 {
    if in_use.contains_key(id.val()) {
        in_use[id.val()]
    } else {
        0
    }
}

/// A contact that is dead, due, and used by no search goes.
pub open spec fn not_dead(now: i64, in_use: Map<u128, u32>) -> spec_fn(KadContact) -> bool {
    |c: KadContact|
        !(c.contact_type >= CONTACT_TYPE_DEAD && (c.expires_at == 0 || now >= c.expires_at) && uses(
            in_use,
            c.id,
        ) == 0)
}

/// A contact that was heard from too long ago, or that is due, goes.
pub open spec fn not_stale(now: i64, max_age: i64) -> spec_fn(KadContact) -> bool {
    |c: KadContact|
        !(sat_sub(now, c.last_seen) >= max_age || (c.expires_at > 0 && now >= c.expires_at))
}

/// Which contacts a cleaning keeps.
#[derive(Clone, Copy, Debug)]
pub enum Cleaning {
    Dead { now: i64 },
    Stale { now: i64, max_age: i64 },
}

pub open spec fn survives(k: Cleaning, in_use: Map<u128, u32>) -> spec_fn(KadContact) -> bool {
    match k {
        Cleaning::Dead { now } => not_dead(now, in_use),
        Cleaning::Stale { now, max_age } => not_stale(now, max_age),
    }
}

/// How often a contact is used by the searches that run.
pub fn use_count(in_use: &std::collections::HashMap<u128, u32>, id: &KadId) -> (n: u32)
    ensures
        n == uses(in_use@, *id),
{
    broadcast use vstd::std_specs::hash::group_hash_axioms;

    match in_use.get(&id.to_u128()) {
        Some(n) => *n,
        None => 0,
    }
}

fn keeps(
    k: Cleaning,
    c: &KadContact,
    in_use: &std::collections::HashMap<u128, u32>,
) -> (r: bool)
    ensures
        r == survives(k, in_use@)(*c),
{
    match k {
        Cleaning::Dead { now } => {
            if c.is_dead() && (c.expires_at == 0 || now >= c.expires_at) {
                use_count(in_use, &c.id) > 0
            } else {
                true
            }
        },
        Cleaning::Stale { now, max_age } => {
            !(seconds_since(c.last_seen, now) >= max_age || c.is_expired(now))
        },
    }
}

impl RoutingZone {
    /// Takes out the contacts that a cleaning does not keep, and lists their addresses.
    pub fn clean(
        &mut self,
        k: Cleaning,
        in_use: &std::collections::HashMap<u128, u32>,
        ips_removed: &mut Vec<Ipv4Addr>,
    )
        ensures
            final(self)@ == kept(old(self)@, survives(k, in_use@)),
            final(ips_removed)@ == old(ips_removed)@ + ips_of(
                contents(old(self)@).filter(negated(survives(k, in_use@))),
            ),
        decreases old(self)@,
    {
        let ghost v0 = self@;
        let ghost ips0 = ips_removed@;
        let ghost keep = survives(k, in_use@);
        let ghost drop = negated(keep);
        match &mut self.body {
            ZoneBody::Leaf(bin) => {
                let ghost s = bin.contacts@;
                let mut out: Vec<KadContact> = Vec::new();
                let mut i: usize = 0;
                proof {
                    reveal(Seq::filter);
                    assert(s.take(0).filter(keep) =~= Seq::empty());
                    assert(s.take(0).filter(drop) =~= Seq::empty());
                    assert(ips_removed@ =~= ips0 + ips_of(s.take(0).filter(drop)));
                }
                while i < bin.contacts.len()
                    invariant
                        i <= bin.contacts@.len(),
                        s == bin.contacts@,
                        keep == survives(k, in_use@),
                        drop == negated(keep),
                        out@ == s.take(i as int).filter(keep),
                        ips_removed@ == ips0 + ips_of(s.take(i as int).filter(drop)),
                    decreases bin.contacts@.len() - i,
                {
                    let c = bin.contacts[i];
                    proof {
                        reveal(Seq::filter);
                        assert(s.take(i as int + 1).drop_last() =~= s.take(i as int));
                    }
                    let ghost d = s.take(i as int).filter(drop);
                    if keeps(k, &c, in_use) {
                        out.push(c);
                    } else {
                        ips_removed.push(c.ip);
                        assert(ips_removed@ =~= ips0 + ips_of(d.push(c)));
                    }
                    i = i + 1;
                }
                assert(s.take(i as int) =~= s);
                bin.contacts = out;
            },
            ZoneBody::Split(a, b) => {
                let ghost ca = contents(a@);
                let ghost cb = contents(b@);
                proof {
                    Seq::filter_distributes_over_add(ca, cb, drop);
                }
                a.clean(k, in_use, ips_removed);
                b.clean(k, in_use, ips_removed);
                assert(ips_removed@ =~= ips0 + ips_of((ca + cb).filter(drop)));
            },
        }
    }

    /// Marks every contact as verified.
    pub fn set_all_contacts_verified(&mut self)
        ensures
            final(self)@ == all_verified(old(self)@),
        decreases old(self)@,
    {
        match &mut self.body {
            ZoneBody::Leaf(bin) => {
                let ghost s = bin.contacts@;
                let mut i: usize = 0;
                while i < bin.contacts.len()
                    invariant
                        i <= bin.contacts@.len() == s.len(),
                        forall|j: int|
                            0 <= j < i ==> #[trigger] bin.contacts@[j] == (KadContact {
                                verified: true,
                                ..s[j]
                            }),
                        forall|j: int| i <= j < s.len() ==> #[trigger] bin.contacts@[j] == s[j],
                    decreases s.len() - i,
                {
                    let mut c = bin.contacts[i];
                    c.verified = true;
                    bin.contacts.set(i, c);
                    i = i + 1;
                }
                assert(bin.contacts@ =~= verified_contacts(s));
            },
            ZoneBody::Split(a, b) => {
                a.set_all_contacts_verified();
                b.set_all_contacts_verified();
            },
        }
    }
}

pub open spec fn verified_contacts(s: Seq<KadContact>) -> Seq<KadContact> {
    s.map_values(|c: KadContact| KadContact { verified: true, ..c })
}

pub open spec fn all_verified(z: ZoneView) -> ZoneView
    decreases z,
{
    match z {
        ZoneView::Leaf { meta, contacts } => ZoneView::Leaf {
            meta,
            contacts: verified_contacts(contacts),
        },
        ZoneView::Split { meta, left, right } => ZoneView::Split {
            meta,
            left: Box::new(all_verified(*left)),
            right: Box::new(all_verified(*right)),
        },
    }
}

// ---------------------------------------------------------------------------
// Merging
// ---------------------------------------------------------------------------
/// What a bin holds once it was offered some contacts in turn.
pub open spec fn offered(s: Seq<KadContact>, cs: Seq<KadContact>) -> Seq<KadContact>
    decreases cs.len(),
{
    if cs.len() == 0 {
        s
    } else {
        let t = offered(s, cs.drop_last());
        if bin_takes(t, cs.last()) {
            t.push(cs.last())
        } else {
            t
        }
    }
}

/// The addresses of the contacts that it did not take.
pub open spec fn refused(s: Seq<KadContact>, cs: Seq<KadContact>) -> Seq<Ipv4Addr>
    decreases cs.len(),
{
    if cs.len() == 0 {
        Seq::empty()
    } else {
        let t = offered(s, cs.drop_last());
        let d = refused(s, cs.drop_last());
        if bin_takes(t, cs.last()) {
            d
        } else {
            d.push(cs.last().ip)
        }
    }
}

/// What merging sparse leaves leads to.
pub struct Consolidated {
    pub zone: ZoneView,
    pub order: u64,
    pub merges: u32,
    pub dropped: Seq<Ipv4Addr>,
}

/// Leaves under one parent merge where they hold fewer contacts than half a
/// bin, from the bottom of the tree up.
pub open spec fn consolidated(z: ZoneView, order: u64, now: i64) -> Consolidated
    decreases z,
{
    match z {
        ZoneView::Leaf { .. } => Consolidated { zone: z, order, merges: 0, dropped: Seq::empty() },
        ZoneView::Split { meta, left, right } => {
            let a = consolidated(*left, order, now);
            let b = consolidated(*right, a.order, now);
            let merges = sat_u32(a.merges as nat + b.merges as nat);
            let dropped = a.dropped + b.dropped;
            match (a.zone, b.zone) {
                (
                    ZoneView::Leaf { contacts: s, .. },
                    ZoneView::Leaf { contacts: t, .. },
                ) if s.len() + t.len() < K_BUCKET_SIZE / 2 => Consolidated {
                    zone: ZoneView::Leaf {
                        meta: leaf_meta(meta.level, meta.zone_index, b.order, now),
                        contacts: offered(Seq::empty(), s + t),
                    },
                    order: b.order.wrapping_add(1),
                    merges: sat_u32(merges as nat + 1),
                    dropped: dropped + refused(Seq::empty(), s + t),
                },
                (x, y) => Consolidated {
                    zone: ZoneView::Split { meta, left: Box::new(x), right: Box::new(y) },
                    order: b.order,
                    merges,
                    dropped,
                },
            }
        },
    }
}

fn offer_all(
    bin: &mut RoutingBin,
    cs: &Vec<KadContact>,
    dropped: &mut Vec<Ipv4Addr>,
    Ghost(first): Ghost<Seq<KadContact>>,
    Ghost(d0): Ghost<Seq<Ipv4Addr>>,
)
    requires
        old(bin).contacts@ == offered(Seq::empty(), first),
        old(dropped)@ == d0 + refused(Seq::empty(), first),
    ensures
        final(bin).contacts@ == offered(Seq::empty(), first + cs@),
        final(dropped)@ == d0 + refused(Seq::empty(), first + cs@),
{
    let mut i: usize = 0;
    assert(first + cs@.take(0) =~= first);
    while i < cs.len()
        invariant
            i <= cs@.len(),
            bin.contacts@ == offered(Seq::empty(), first + cs@.take(i as int)),
            dropped@ == d0 + refused(Seq::empty(), first + cs@.take(i as int)),
        decreases cs@.len() - i,
    {
        let c = cs[i];
        let ghost next = first + cs@.take(i as int + 1);
        assert(next.drop_last() =~= first + cs@.take(i as int));
        assert(next.last() == c);
        let ghost d = refused(Seq::empty(), first + cs@.take(i as int));
        if !bin.add_contact(c) {
            dropped.push(c.ip);
            assert(dropped@ =~= d0 + d.push(c.ip));
        }
        i = i + 1;
    }
    assert(first + cs@.take(i as int) =~= first + cs@);
}

impl RoutingZone {
    fn leaf_len(&self) -> (r: Option<usize>)
        ensures
            match self@ {
                ZoneView::Leaf { contacts, .. } => r is Some && r->Some_0 == contacts.len(),
                ZoneView::Split { .. } => r is None,
            },
    {
        match &self.body {
            ZoneBody::Leaf(bin) => Some(bin.len()),
            ZoneBody::Split(_, _) => None,
        }
    }

    /// Merges sparse leaves, and lists the addresses of contacts that found no
    /// room in a merged bin.
    pub fn consolidate(&mut self, order: &mut u64, now: i64, dropped: &mut Vec<Ipv4Addr>) -> (n: u32)
        requires
            clock_time(now),
        ensures
            ({
                let r = consolidated(old(self)@, *old(order), now);
                &&& final(self)@ == r.zone
                &&& *final(order) == r.order
                &&& n == r.merges
                &&& final(dropped)@ == old(dropped)@ + r.dropped
            }),
        decreases old(self)@,
    {
        let ghost v0 = self@;
        let ghost d0 = dropped@;
        let meta = self.meta;
        let mut merges: u32 = 0;
        let mut merged: Option<RoutingBin> = None;
        let ghost ra = consolidated(*(v0->left), *order, now);
        let ghost rb = consolidated(*(v0->right), ra.order, now);
        match &mut self.body {
            ZoneBody::Leaf(_) => {
                assert(dropped@ =~= d0 + Seq::empty());
                return 0;
            },
            ZoneBody::Split(a, b) => {
                let x: u32 = a.consolidate(order, now, dropped);
                let y: u32 = b.consolidate(order, now, dropped);
                merges = x.saturating_add(y);
                assert(dropped@ =~= d0 + (ra.dropped + rb.dropped));
                if let (Some(la), Some(lb)) = (a.leaf_len(), b.leaf_len()) {
                    if la < K_BUCKET_SIZE && lb < K_BUCKET_SIZE && la + lb < K_BUCKET_SIZE / 2 {
                        let mut bin = RoutingBin::new();
                        let ghost base = d0 + (ra.dropped + rb.dropped);
                        assert(bin.contacts@ =~= offered(Seq::empty(), Seq::empty()));
                        assert(dropped@ =~= base + refused(Seq::empty(), Seq::empty()));
                        if let (ZoneBody::Leaf(bin0), ZoneBody::Leaf(bin1)) = (&a.body, &b.body) {
                            let ghost none = Seq::<KadContact>::empty();
                            offer_all(
                                &mut bin,
                                &bin0.contacts,
                                dropped,
                                Ghost(none),
                                Ghost(base),
                            );
                            assert(none + bin0.contacts@ =~= bin0.contacts@);
                            offer_all(
                                &mut bin,
                                &bin1.contacts,
                                dropped,
                                Ghost(bin0.contacts@),
                                Ghost(base),
                            );
                        }
                        merged = Some(bin);
                    }
                }
            },
        }
        if let Some(bin) = merged {
            let low: u32 = meta.zone_index.chunk(3) % 3600;
            self.meta =
            ZoneMeta {
                level: meta.level,
                zone_index: meta.zone_index,
                event_order: *order,
                next_big_timer: now + BIG_TIMER_INITIAL_SECS,
                next_small_timer: now + low as i64,
            };
            self.body = ZoneBody::Leaf(bin);
            *order = order.wrapping_add(1);
            merges = merges.saturating_add(1);
            assert(dropped@ =~= d0 + consolidated(v0, *old(order), now).dropped);
        }
        merges
    }
}

/// How many of some addresses a property holds of.
pub open spec fn count_ips(s: Seq<Ipv4Addr>, q: spec_fn(Ipv4Addr) -> bool) -> nat
    decreases s.len(),
{
    if s.len() == 0 {
        0
    } else {
        count_ips(s.drop_last(), q) + if q(s.last()) {
            1nat
        } else {
            0nat
        }
    }
}

/// A property of contacts that only looks at the address.
pub open spec fn by_ip(q: spec_fn(Ipv4Addr) -> bool) -> spec_fn(KadContact) -> bool {
    |c: KadContact| q(c.ip)
}

pub open spec fn is_ip(x: u32) -> spec_fn(Ipv4Addr) -> bool {
    |a: Ipv4Addr| a.bits == x
}

pub open spec fn is_net(x: u32) -> spec_fn(Ipv4Addr) -> bool {
    |a: Ipv4Addr| subnet(a) == x
}

proof fn lemma_count_add(a: Seq<Ipv4Addr>, b: Seq<Ipv4Addr>, q: spec_fn(Ipv4Addr) -> bool)
    ensures
        count_ips(a + b, q) == count_ips(a, q) + count_ips(b, q),
    decreases b.len(),
{
    if b.len() == 0 {
        assert(a + b =~= a);
    } else {
        assert((a + b).drop_last() =~= a + b.drop_last());
        lemma_count_add(a, b.drop_last(), q);
    }
}

pub proof fn lemma_count_ips_of(s: Seq<KadContact>, q: spec_fn(Ipv4Addr) -> bool)
    ensures
        count_ips(ips_of(s), q) == tally(s, by_ip(q)),
    decreases s.len(),
{
    if s.len() > 0 {
        assert(ips_of(s).drop_last() =~= ips_of(s.drop_last()));
        lemma_count_ips_of(s.drop_last(), q);
    }
}

/// What a bin does not take, it refuses.
proof fn lemma_offered_tally(s: Seq<KadContact>, cs: Seq<KadContact>, q: spec_fn(Ipv4Addr) -> bool)
    ensures
        tally(s, by_ip(q)) + tally(cs, by_ip(q)) == tally(offered(s, cs), by_ip(q)) + count_ips(
            refused(s, cs),
            q,
        ),
    decreases cs.len(),
{
    if cs.len() > 0 {
        lemma_offered_tally(s, cs.drop_last(), q);
        let t = offered(s, cs.drop_last());
        let d = refused(s, cs.drop_last());
        lemma_tally_push(t, cs.last(), by_ip(q));
        assert(d.push(cs.last().ip).drop_last() =~= d);
    }
}

/// What a bin takes keeps it in order and comes from what it was offered.
proof fn lemma_offered_ok(s: Seq<KadContact>, cs: Seq<KadContact>)
    requires
        bin_ok(s),
    ensures
        bin_ok(offered(s, cs)),
        forall|i: int|
            0 <= i < offered(s, cs).len() ==> s.contains(#[trigger] offered(s, cs)[i])
                || cs.contains(offered(s, cs)[i]),
    decreases cs.len(),
{
    if cs.len() == 0 {
        assert forall|i: int| 0 <= i < offered(s, cs).len() implies s.contains(
            #[trigger] offered(s, cs)[i],
        ) || cs.contains(offered(s, cs)[i]) by {
            assert(s.contains(s[i]));
        }
    } else {
        lemma_offered_ok(s, cs.drop_last());
        let t = offered(s, cs.drop_last());
        let o = offered(s, cs);
        if bin_takes(t, cs.last()) {
            lemma_push_bin_ok(t, cs.last());
        }
        assert forall|i: int| 0 <= i < o.len() implies s.contains(#[trigger] o[i]) || cs.contains(
            o[i],
        ) by {
            if i < t.len() {
                assert(o[i] == t[i]);
                if !s.contains(t[i]) {
                    let k = choose|k: int|
                        0 <= k < cs.drop_last().len() && cs.drop_last()[k] == t[i];
                    assert(cs[k] == t[i]);
                }
            } else {
                assert(o[i] == cs[cs.len() - 1]);
            }
        }
    }
}

/// Merging leaves keeps the tree in order.
pub proof fn lemma_consolidated_ok(
    z: ZoneView,
    order: u64,
    now: i64,
    local: KadId,
    path: Seq<bool>,
)
    requires
        zone_ok(z, local, path),
    ensures
        zone_ok(consolidated(z, order, now).zone, local, path),
    decreases z,
{
    if let ZoneView::Split { meta, left, right } = z {
        let a = consolidated(*left, order, now);
        let b = consolidated(*right, a.order, now);
        lemma_consolidated_ok(*left, order, now, local, path.push(false));
        lemma_consolidated_ok(*right, a.order, now, local, path.push(true));
        let r = consolidated(z, order, now);
        if a.zone is Leaf && b.zone is Leaf && (a.zone->contacts).len() + (
        b.zone->contacts).len() < K_BUCKET_SIZE / 2 {
            let s = a.zone->contacts;
            let t = b.zone->contacts;
            lemma_offered_ok(Seq::empty(), s + t);
            let o = offered(Seq::empty(), s + t);
            assert forall|i: int| 0 <= i < o.len() implies follows(
                local.xor_spec((#[trigger] o[i]).id),
                path,
            ) by {
                assert((s + t).contains(o[i]));
                lemma_contains_add(s, t, o[i]);
                let d = local.xor_spec(o[i].id);
                if s.contains(o[i]) {
                    let k = choose|k: int| 0 <= k < s.len() && s[k] == o[i];
                    assert(follows(local.xor_spec(s[k].id), path.push(false)));
                    lemma_follows_prefix(d, path, false);
                } else {
                    let k = choose|k: int| 0 <= k < t.len() && t[k] == o[i];
                    assert(follows(local.xor_spec(t[k].id), path.push(true)));
                    lemma_follows_prefix(d, path, true);
                }
            }
            assert(r.zone == (ZoneView::Leaf {
                meta: leaf_meta(meta.level, meta.zone_index, b.order, now),
                contacts: o,
            }));
        } else {
            assert(r.zone == (ZoneView::Split {
                meta,
                left: Box::new(a.zone),
                right: Box::new(b.zone),
            }));
        }
    }
}

proof fn lemma_follows_prefix(d: KadId, path: Seq<bool>, side: bool)
    requires
        follows(d, path.push(side)),
    ensures
        follows(d, path),
{
    let p2 = path.push(side);
    assert forall|k: int| 0 <= k < path.len() implies d.bit(k) == #[trigger] path[k] by {
        assert(p2[k] == path[k]);
    }
}

/// Merging leaves loses exactly the contacts whose addresses it lists.
pub proof fn lemma_consolidated_tally(
    z: ZoneView,
    order: u64,
    now: i64,
    q: spec_fn(Ipv4Addr) -> bool,
)
    ensures
        tally(contents(z), by_ip(q)) == tally(
            contents(consolidated(z, order, now).zone),
            by_ip(q),
        ) + count_ips(consolidated(z, order, now).dropped, q),
    decreases z,
{
    if let ZoneView::Split { meta, left, right } = z {
        let p = by_ip(q);
        let a = consolidated(*left, order, now);
        let b = consolidated(*right, a.order, now);
        lemma_consolidated_tally(*left, order, now, q);
        lemma_consolidated_tally(*right, a.order, now, q);
        let r = consolidated(z, order, now);
        lemma_tally_add(contents(*left), contents(*right), p);
        lemma_count_add(a.dropped, b.dropped, q);
        if a.zone is Leaf && b.zone is Leaf && (a.zone->contacts).len() + (
        b.zone->contacts).len() < K_BUCKET_SIZE / 2 {
            let s = a.zone->contacts;
            let t = b.zone->contacts;
            lemma_offered_tally(Seq::empty(), s + t, q);
            lemma_tally_add(s, t, p);
            lemma_count_add(a.dropped + b.dropped, refused(Seq::empty(), s + t), q);
            assert(r.dropped == a.dropped + b.dropped + refused(Seq::empty(), s + t));
            assert(contents(r.zone) == offered(Seq::empty(), s + t));
            assert(contents(a.zone) == s && contents(b.zone) == t);
        } else {
            let x = a.zone;
            let y = b.zone;
            assert(r.zone == (ZoneView::Split { meta, left: Box::new(x), right: Box::new(y) }));
            assert(r.dropped == a.dropped + b.dropped);
            lemma_tally_add(contents(x), contents(y), p);
        }
    }
}

// ---------------------------------------------------------------------------
// Timers
// ---------------------------------------------------------------------------
/// A contact that was never given a due time gets one.
pub open spec fn with_due(c: KadContact, now: i64) -> KadContact {
    if c.expires_at == 0 {
        KadContact { expires_at: (now + CONTACT_DEFAULT_TTL_SECS) as i64, ..c }
    } else {
        c
    }
}

pub open spec fn all_with_due(s: Seq<KadContact>, now: i64) -> Seq<KadContact> {
    s.map_values(|c: KadContact| with_due(c, now))
}

/// A contact that is dead, past its due time, and used by no search goes.
pub open spec fn not_lost(now: i64, in_use: Map<u128, u32>) -> spec_fn(KadContact) -> bool {
    |c: KadContact|
        !(c.contact_type >= CONTACT_TYPE_DEAD && c.expires_at > 0 && now >= c.expires_at && uses(
            in_use,
            c.id,
        ) == 0)
}

/// The oldest contact is due for a check.
pub open spec fn front_due(s: Seq<KadContact>, now: i64) -> bool {
    s[0].expires_at < now && s[0].contact_type < CONTACT_TYPE_DEAD
}

/// What the check of a leaf leaves of it: lost contacts are gone, and the
/// oldest is checked if it is due, else put to the end.
pub open spec fn checked_leaf(
    s: Seq<KadContact>,
    now: i64,
    in_use: Map<u128, u32>,
) -> Seq<KadContact> {
    let t = all_with_due(s.filter(not_lost(now, in_use)), now);
    if t.len() == 0 {
        t
    } else if front_due(t, now) {
        t.update(0, t[0].after_check(now))
    } else {
        t.skip(1).push(t[0])
    }
}

/// The contact that the check of a leaf probes.
pub open spec fn probed_leaf(
    s: Seq<KadContact>,
    now: i64,
    in_use: Map<u128, u32>,
) -> Seq<KadContact> {
    let t = all_with_due(s.filter(not_lost(now, in_use)), now);
    if t.len() > 0 && front_due(t, now) {
        seq![t[0].after_check(now)]
    } else {
        Seq::empty()
    }
}

/// Whether it is a leaf's turn to be checked.
pub open spec fn check_due(meta: ZoneMeta, s: Seq<KadContact>, now: i64) -> bool {
    s.len() > 0 && meta.next_small_timer <= now
}

/// A zone after the checks of its leaves whose turn it is.
pub open spec fn checked(z: ZoneView, now: i64, in_use: Map<u128, u32>) -> ZoneView
    decreases z,
{
    match z {
        ZoneView::Leaf { meta, contacts } => if check_due(meta, contacts, now) {
            ZoneView::Leaf {
                meta: ZoneMeta {
                    next_small_timer: (now + SMALL_TIMER_INTERVAL_SECS) as i64,
                    ..meta
                },
                contacts: checked_leaf(contacts, now, in_use),
            }
        } else {
            z
        },
        ZoneView::Split { meta, left, right } => ZoneView::Split {
            meta,
            left: Box::new(checked(*left, now, in_use)),
            right: Box::new(checked(*right, now, in_use)),
        },
    }
}

/// The contacts that these checks probe, leaf by leaf.
pub open spec fn probed(z: ZoneView, now: i64, in_use: Map<u128, u32>) -> Seq<KadContact>
    decreases z,
{
    match z {
        ZoneView::Leaf { meta, contacts } => if check_due(meta, contacts, now) {
            probed_leaf(contacts, now, in_use)
        } else {
            Seq::empty()
        },
        ZoneView::Split { left, right, .. } => probed(*left, now, in_use) + probed(
            *right,
            now,
            in_use,
        ),
    }
}

/// The addresses of the contacts that these checks take out.
pub open spec fn lost(z: ZoneView, now: i64, in_use: Map<u128, u32>) -> Seq<Ipv4Addr>
    decreases z,
{
    match z {
        ZoneView::Leaf { meta, contacts } => if check_due(meta, contacts, now) {
            ips_of(contacts.filter(negated(not_lost(now, in_use))))
        } else {
            Seq::empty()
        },
        ZoneView::Split { left, right, .. } => lost(*left, now, in_use) + lost(
            *right,
            now,
            in_use,
        ),
    }
}

impl RoutingZone {
    /// Checks the leaves whose turn it is.
    pub fn on_small_timer(
        &mut self,
        now: i64,
        to_probe: &mut Vec<KadContact>,
        ips_removed: &mut Vec<Ipv4Addr>,
        in_use: &std::collections::HashMap<u128, u32>,
    )
        requires
            clock_time(now),
        ensures
            final(self)@ == checked(old(self)@, now, in_use@),
            final(to_probe)@ == old(to_probe)@ + probed(old(self)@, now, in_use@),
            final(ips_removed)@ == old(ips_removed)@ + lost(old(self)@, now, in_use@),
        decreases old(self)@,
    {
        let ghost v0 = self@;
        let ghost p0 = to_probe@;
        let ghost i0 = ips_removed@;
        let meta = self.meta;
        let mut fired = false;
        match &mut self.body {
            ZoneBody::Leaf(bin) => {
                if bin.contacts.len() == 0 || meta.next_small_timer > now {
                    assert(to_probe@ =~= p0 + Seq::empty());
                    assert(ips_removed@ =~= i0 + Seq::empty());
                    return ;
                }
                fired = true;
                let ghost s = bin.contacts@;
                let out = drop_lost(&bin.contacts, now, ips_removed, in_use);
                let ghost t = all_with_due(s.filter(not_lost(now, in_use@)), now);
                assert(out@ == t);
                bin.contacts = out;
                if bin.contacts.len() == 0 {
                    assert(to_probe@ =~= p0 + Seq::empty());
                } else {
                    let oldest = bin.contacts[0];
                    if oldest.expires_at >= now || oldest.contact_type >= CONTACT_TYPE_DEAD {
                        let c = bin.contacts.remove(0);
                        bin.contacts.push(c);
                        assert(bin.contacts@ =~= t.skip(1).push(t[0]));
                        assert(to_probe@ =~= p0 + Seq::empty());
                    } else {
                        let mut front = oldest;
                        front.checking_type(now);
                        bin.contacts.set(0, front);
                        to_probe.push(front);
                        assert(to_probe@ =~= p0 + seq![front]);
                    }
                }
            },
            ZoneBody::Split(a, b) => {
                a.on_small_timer(now, to_probe, ips_removed, in_use);
                b.on_small_timer(now, to_probe, ips_removed, in_use);
                assert(to_probe@ =~= p0 + probed(v0, now, in_use@));
                assert(ips_removed@ =~= i0 + lost(v0, now, in_use@));
            },
        }
        if fired {
            self.meta.next_small_timer = now + SMALL_TIMER_INTERVAL_SECS;
        }
    }
}

fn drop_lost(
    s: &Vec<KadContact>,
    now: i64,
    ips_removed: &mut Vec<Ipv4Addr>,
    in_use: &std::collections::HashMap<u128, u32>,
) -> (out: Vec<KadContact>)
    requires
        clock_time(now),
    ensures
        out@ == all_with_due(s@.filter(not_lost(now, in_use@)), now),
        final(ips_removed)@ == old(ips_removed)@ + ips_of(
            s@.filter(negated(not_lost(now, in_use@))),
        ),
{
    let ghost ips0 = ips_removed@;
    let ghost keep = not_lost(now, in_use@);
    let ghost drop = negated(keep);
    let mut out: Vec<KadContact> = Vec::new();
    let mut i: usize = 0;
    proof {
        reveal(Seq::filter);
        assert(s@.take(0).filter(keep) =~= Seq::empty());
        assert(s@.take(0).filter(drop) =~= Seq::empty());
        assert(out@ =~= all_with_due(s@.take(0).filter(keep), now));
        assert(ips_removed@ =~= ips0 + ips_of(s@.take(0).filter(drop)));
    }
    while i < s.len()
        invariant
            i <= s@.len(),
            clock_time(now),
            keep == not_lost(now, in_use@),
            drop == negated(keep),
            out@ == all_with_due(s@.take(i as int).filter(keep), now),
            ips_removed@ == ips0 + ips_of(s@.take(i as int).filter(drop)),
        decreases s@.len() - i,
    {
        let mut c = s[i];
        proof {
            reveal(Seq::filter);
            assert(s@.take(i as int + 1).drop_last() =~= s@.take(i as int));
        }
        let ghost k = s@.take(i as int).filter(keep);
        let ghost d = s@.take(i as int).filter(drop);
        if c.contact_type >= CONTACT_TYPE_DEAD && c.expires_at > 0 && now >= c.expires_at
            && use_count(in_use, &c.id) == 0 {
            ips_removed.push(c.ip);
            assert(ips_removed@ =~= ips0 + ips_of(d.push(c)));
        } else {
            let ghost c0 = c;
            if c.expires_at == 0 {
                c.expires_at = now + CONTACT_DEFAULT_TTL_SECS;
            }
            out.push(c);
            assert(out@ =~= all_with_due(k.push(c0), now));
        }
        i = i + 1;
    }
    assert(s@.take(i as int) =~= s@);
    out
}

/// The checks keep the tree in order.
pub proof fn lemma_checked_ok(
    z: ZoneView,
    now: i64,
    in_use: Map<u128, u32>,
    local: KadId,
    path: Seq<bool>,
)
    requires
        zone_ok(z, local, path),
    ensures
        zone_ok(checked(z, now, in_use), local, path),
    decreases z,
{
    match z {
        ZoneView::Leaf { meta, contacts } => {
            if check_due(meta, contacts, now) {
                let f = contacts.filter(not_lost(now, in_use));
                lemma_filter_bin_ok(contacts, not_lost(now, in_use));
                lemma_filter_members(contacts, not_lost(now, in_use));
                let t = all_with_due(f, now);
                lemma_same_keys_bin_ok(f, t);
                let u = checked_leaf(contacts, now, in_use);
                if t.len() > 0 {
                    let c = if front_due(t, now) {
                        t[0].after_check(now)
                    } else {
                        t[0]
                    };
                    lemma_replace_bin_ok(t, 0, c);
                    assert(t.remove(0) =~= t.skip(1));
                }
                assert forall|i: int| 0 <= i < u.len() implies follows(
                    local.xor_spec((#[trigger] u[i]).id),
                    path,
                ) by {
                    let j = if front_due(t, now) {
                        i
                    } else if i == u.len() - 1 {
                        0
                    } else {
                        i + 1
                    };
                    assert(u[i].id == t[j].id);
                    assert(t[j].id == f[j].id);
                    assert(contacts.contains(f[j]));
                    let k = choose|k: int| 0 <= k < contacts.len() && contacts[k] == f[j];
                    assert(follows(local.xor_spec(contacts[k].id), path));
                }
            }
        },
        ZoneView::Split { meta, left, right } => {
            lemma_checked_ok(*left, now, in_use, local, path.push(false));
            lemma_checked_ok(*right, now, in_use, local, path.push(true));
        },
    }
}

/// A bin whose contacts keep their identifiers and addresses stays in order.
proof fn lemma_same_keys_bin_ok(s: Seq<KadContact>, t: Seq<KadContact>)
    requires
        bin_ok(s),
        s.len() == t.len(),
        forall|i: int| 0 <= i < s.len() ==> (#[trigger] t[i]).id == s[i].id && t[i].ip == s[i].ip,
    ensures
        bin_ok(t),
{
    assert forall|i: int, j: int|
        #![trigger t[i], t[j]]
        0 <= i < j < t.len() implies t[i].id != t[j].id by {
        assert(t[i].id == s[i].id && t[j].id == s[j].id);
    }
    assert forall|i: int| 0 <= i < t.len() && !lan_ip((#[trigger] t[i]).ip) implies tally(
        t,
        in_subnet(subnet(t[i].ip)),
    ) <= MAX_CONTACTS_SUBNET_PER_BIN by {
        assert(s[i].ip == t[i].ip);
        lemma_same_ips_tally(s, t, is_net(subnet(t[i].ip)));
        lemma_tally_same(s, in_subnet(subnet(t[i].ip)), by_ip(is_net(subnet(t[i].ip))));
        lemma_tally_same(t, in_subnet(subnet(t[i].ip)), by_ip(is_net(subnet(t[i].ip))));
    }
}

/// Properties that agree are counted alike.
pub proof fn lemma_tally_same(
    s: Seq<KadContact>,
    p: spec_fn(KadContact) -> bool,
    q: spec_fn(KadContact) -> bool,
)
    requires
        forall|c: KadContact| #[trigger] p(c) == q(c),
    ensures
        tally(s, p) == tally(s, q),
    decreases s.len(),
{
    if s.len() > 0 {
        lemma_tally_same(s.drop_last(), p, q);
        assert(p(s.last()) == q(s.last()));
    }
}

/// Lists with the same addresses count alike by address.
pub proof fn lemma_same_ips_tally(
    s: Seq<KadContact>,
    t: Seq<KadContact>,
    q: spec_fn(Ipv4Addr) -> bool,
)
    requires
        s.len() == t.len(),
        forall|i: int| 0 <= i < s.len() ==> (#[trigger] t[i]).ip == s[i].ip,
    ensures
        tally(s, by_ip(q)) == tally(t, by_ip(q)),
{
    lemma_count_ips_of(s, q);
    lemma_count_ips_of(t, q);
    assert(ips_of(s) =~= ips_of(t));
}

/// The checks lose exactly the contacts whose addresses they list.
pub proof fn lemma_checked_tally(
    z: ZoneView,
    now: i64,
    in_use: Map<u128, u32>,
    q: spec_fn(Ipv4Addr) -> bool,
)
    ensures
        tally(contents(z), by_ip(q)) == tally(contents(checked(z, now, in_use)), by_ip(q))
            + count_ips(lost(z, now, in_use), q),
    decreases z,
{
    let p = by_ip(q);
    match z {
        ZoneView::Leaf { meta, contacts } => {
            if check_due(meta, contacts, now) {
                let keep = not_lost(now, in_use);
                let f = contacts.filter(keep);
                lemma_tally_filter(contacts, keep, p);
                lemma_filter_ext(contacts, |c: KadContact| !keep(c), negated(keep));
                lemma_count_ips_of(contacts.filter(negated(keep)), q);
                let t = all_with_due(f, now);
                lemma_same_ips_tally(f, t, q);
                let u = checked_leaf(contacts, now, in_use);
                if t.len() > 0 {
                    if front_due(t, now) {
                        lemma_same_ips_tally(t, u, q);
                    } else {
                        lemma_tally_remove(t, 0, p);
                        assert(t.remove(0) =~= t.skip(1));
                        lemma_tally_push(t.skip(1), t[0], p);
                    }
                }
            }
        },
        ZoneView::Split { meta, left, right } => {
            lemma_checked_tally(*left, now, in_use, q);
            lemma_checked_tally(*right, now, in_use, q);
            lemma_tally_add(contents(*left), contents(*right), p);
            lemma_tally_add(
                contents(checked(*left, now, in_use)),
                contents(checked(*right, now, in_use)),
                p,
            );
            lemma_count_add(lost(*left, now, in_use), lost(*right, now, in_use), q);
        },
    }
}

/// Cleaning loses exactly the contacts whose addresses it lists.
pub proof fn lemma_kept_tally(
    z: ZoneView,
    keep: spec_fn(KadContact) -> bool,
    q: spec_fn(Ipv4Addr) -> bool,
)
    requires
        contents(kept(z, keep)) == contents(z).filter(keep),
    ensures
        tally(contents(z), by_ip(q)) == tally(contents(kept(z, keep)), by_ip(q)) + count_ips(
            ips_of(contents(z).filter(negated(keep))),
            q,
        ),
{
    lemma_tally_filter(contents(z), keep, by_ip(q));
    lemma_filter_ext(contents(z), |c: KadContact| !keep(c), negated(keep));
    lemma_count_ips_of(contents(z).filter(negated(keep)), q);
}

/// Marking contacts as verified keeps the tree in order and every address.
pub proof fn lemma_all_verified(z: ZoneView, local: KadId, path: Seq<bool>)
    requires
        zone_ok(z, local, path),
    ensures
        zone_ok(all_verified(z), local, path),
        contents(all_verified(z)) == verified_contacts(contents(z)),
    decreases z,
{
    match z {
        ZoneView::Leaf { meta, contacts } => {
            let t = verified_contacts(contacts);
            lemma_same_keys_bin_ok(contacts, t);
            assert forall|i: int| 0 <= i < t.len() implies follows(
                local.xor_spec((#[trigger] t[i]).id),
                path,
            ) by {
                assert(follows(local.xor_spec(contacts[i].id), path));
            }
        },
        ZoneView::Split { meta, left, right } => {
            lemma_all_verified(*left, local, path.push(false));
            lemma_all_verified(*right, local, path.push(true));
            assert(contents(all_verified(z)) =~= verified_contacts(contents(z)));
        },
    }
}

// ---------------------------------------------------------------------------
// Signs of life
// ---------------------------------------------------------------------------
/// The index of the first contact with an address and port.
pub open spec fn addr_index(s: Seq<KadContact>, ip: Ipv4Addr, port: u16) -> Option<nat>
    decreases s.len(),
{
    if s.len() == 0 {
        None
    } else if s[0].ip == ip && s[0].udp_port == port {
        Some(0)
    } else {
        match addr_index(s.skip(1), ip, port) {
            None => None,
            Some(i) => Some(i + 1),
        }
    }
}

/// A list with one contact, changed, moved to its end.
pub open spec fn moved(s: Seq<KadContact>, i: int, c: KadContact) -> Seq<KadContact> {
    s.remove(i).push(c)
}

/// A zone in which the contact at an address has answered, if there is one.
pub open spec fn touched(z: ZoneView, ip: Ipv4Addr, port: u16, now: i64) -> Option<ZoneView>
    decreases z,
{
    match z {
        ZoneView::Leaf { meta, contacts } => match addr_index(contacts, ip, port) {
            None => None,
            Some(i) => Some(
                ZoneView::Leaf {
                    meta,
                    contacts: moved(contacts, i as int, contacts[i as int].after_answer(now)),
                },
            ),
        },
        ZoneView::Split { meta, left, right } => match touched(*left, ip, port, now) {
            Some(l) => Some(ZoneView::Split { meta, left: Box::new(l), right }),
            None => match touched(*right, ip, port, now) {
                Some(r) => Some(ZoneView::Split { meta, left, right: Box::new(r) }),
                None => None,
            },
        },
    }
}

proof fn lemma_addr_index(s: Seq<KadContact>, ip: Ipv4Addr, port: u16, i: nat)
    requires
        i < s.len(),
        s[i as int].ip == ip && s[i as int].udp_port == port,
        forall|j: int| 0 <= j < i ==> !((#[trigger] s[j]).ip == ip && s[j].udp_port == port),
    ensures
        addr_index(s, ip, port) == Some(i),
    decreases i,
{
    if i > 0 {
        let t = s.skip(1);
        assert(t[i - 1] == s[i as int]);
        assert(!(s[0].ip == ip && s[0].udp_port == port));
        assert forall|j: int| 0 <= j < i - 1 implies !((#[trigger] t[j]).ip == ip && t[j].udp_port
            == port) by {
            assert(t[j] == s[j + 1]);
        }
        lemma_addr_index(t, ip, port, (i - 1) as nat);
    }
}

proof fn lemma_addr_index_none(s: Seq<KadContact>, ip: Ipv4Addr, port: u16)
    requires
        forall|j: int| 0 <= j < s.len() ==> !((#[trigger] s[j]).ip == ip && s[j].udp_port == port),
    ensures
        addr_index(s, ip, port) is None,
    decreases s.len(),
{
    if s.len() > 0 {
        let t = s.skip(1);
        assert(!(s[0].ip == ip && s[0].udp_port == port));
        assert forall|j: int| 0 <= j < t.len() implies !((#[trigger] t[j]).ip == ip
            && t[j].udp_port == port) by {
            assert(t[j] == s[j + 1]);
        }
        lemma_addr_index_none(t, ip, port);
    }
}

proof fn lemma_addr_index_bound(s: Seq<KadContact>, ip: Ipv4Addr, port: u16)
    ensures
        addr_index(s, ip, port) matches Some(i) ==> i < s.len(),
    decreases s.len(),
{
    if s.len() > 0 {
        lemma_addr_index_bound(s.skip(1), ip, port);
    }
}

/// An answer keeps the tree in order and every address.
pub proof fn lemma_touched(
    z: ZoneView,
    ip: Ipv4Addr,
    port: u16,
    now: i64,
    local: KadId,
    path: Seq<bool>,
    q: spec_fn(Ipv4Addr) -> bool,
)
    requires
        zone_ok(z, local, path),
    ensures
        touched(z, ip, port, now) matches Some(t) ==> zone_ok(t, local, path) && tally(
            contents(t),
            by_ip(q),
        ) == tally(contents(z), by_ip(q)),
    decreases z,
{
    let p = by_ip(q);
    match z {
        ZoneView::Leaf { meta, contacts } => {
            lemma_addr_index_bound(contacts, ip, port);
            if let Some(i) = addr_index(contacts, ip, port) {
                let c = contacts[i as int].after_answer(now);
                lemma_replace_bin_ok(contacts, i as int, c);
                lemma_tally_remove(contacts, i as int, p);
                lemma_tally_push(contacts.remove(i as int), c, p);
                let m = moved(contacts, i as int, c);
                assert forall|k: int| 0 <= k < m.len() implies follows(
                    local.xor_spec((#[trigger] m[k]).id),
                    path,
                ) by {
                    let k2 = if k == m.len() - 1 {
                        i as int
                    } else if k < i {
                        k
                    } else {
                        k + 1
                    };
                    assert(m[k].id == contacts[k2].id);
                }
            }
        },
        ZoneView::Split { meta, left, right } => {
            lemma_touched(*left, ip, port, now, local, path.push(false), q);
            lemma_touched(*right, ip, port, now, local, path.push(true), q);
            lemma_tally_add(contents(*left), contents(*right), p);
            match touched(*left, ip, port, now) {
                Some(l) => {
                    lemma_tally_add(contents(l), contents(*right), p);
                },
                None => {
                    if let Some(r) = touched(*right, ip, port, now) {
                        lemma_tally_add(contents(*left), contents(r), p);
                    }
                },
            }
        },
    }
}

impl RoutingZone {
    /// Notes that the contact at an address answered.
    pub fn touch_contact_by_addr(&mut self, ip: Ipv4Addr, udp_port: u16, now: i64) -> (found: bool)
        requires
            clock_time(now),
        ensures
            match touched(old(self)@, ip, udp_port, now) {
                Some(t) => found && final(self)@ == t,
                None => !found && final(self)@ == old(self)@,
            },
        decreases old(self)@,
    {
        match &mut self.body {
            ZoneBody::Leaf(bin) => {
                let ghost s = bin.contacts@;
                let mut i: usize = 0;
                while i < bin.contacts.len()
                    invariant
                        i <= bin.contacts@.len(),
                        s == bin.contacts@,
                        forall|j: int|
                            0 <= j < i ==> !((#[trigger] s[j]).ip == ip && s[j].udp_port
                                == udp_port),
                    ensures
                        i <= s.len(),
                        s == bin.contacts@,
                        forall|j: int|
                            0 <= j < i ==> !((#[trigger] s[j]).ip == ip && s[j].udp_port
                                == udp_port),
                        i < s.len() ==> s[i as int].ip == ip && s[i as int].udp_port == udp_port,
                    decreases bin.contacts@.len() - i,
                {
                    if bin.contacts[i].ip == ip && bin.contacts[i].udp_port == udp_port {
                        break;
                    }
                    i = i + 1;
                }
                if i < bin.contacts.len() {
                    proof {
                        lemma_addr_index(s, ip, udp_port, i as nat);
                    }
                    let mut c = bin.contacts.remove(i);
                    c.update_type(now);
                    bin.contacts.push(c);
                    true
                } else {
                    proof {
                        lemma_addr_index_none(s, ip, udp_port);
                    }
                    false
                }
            },
            ZoneBody::Split(a, b) => {
                a.touch_contact_by_addr(ip, udp_port, now) || b.touch_contact_by_addr(
                    ip,
                    udp_port,
                    now,
                )
            },
        }
    }
}

// ---------------------------------------------------------------------------
// Samples
// ---------------------------------------------------------------------------
/// The contacts of some leaf below a zone.
pub open spec fn is_some_leaf(z: ZoneView, s: Seq<KadContact>) -> bool
    decreases z,
{
    match z {
        ZoneView::Leaf { contacts, .. } => s == contacts,
        ZoneView::Split { left, right, .. } => is_some_leaf(*left, s) || is_some_leaf(*right, s),
    }
}

/// The contacts of the leaves down to a depth, and of some leaf below each
/// zone at that depth.
pub open spec fn is_sample(z: ZoneView, depth: nat, s: Seq<KadContact>) -> bool
    decreases z,
{
    match z {
        ZoneView::Leaf { contacts, .. } => s == contacts,
        ZoneView::Split { left, right, .. } => if depth == 0 {
            is_some_leaf(z, s)
        } else {
            exists|n: int|
                0 <= n <= s.len() && is_sample(*left, (depth - 1) as nat, #[trigger] s.take(n))
                    && is_sample(*right, (depth - 1) as nat, s.skip(n))
        },
    }
}

/// A sample holds contacts of the zone only.
pub proof fn lemma_sample_in_contents(z: ZoneView, depth: nat, s: Seq<KadContact>, i: int)
    requires
        is_sample(z, depth, s),
        0 <= i < s.len(),
    ensures
        contents(z).contains(s[i]),
    decreases z,
{
    if let ZoneView::Split { left, right, .. } = z {
        lemma_contains_add(contents(*left), contents(*right), s[i]);
        if depth == 0 {
            lemma_some_leaf_in_contents(z, s, i);
        } else {
            let n = choose|n: int|
                0 <= n <= s.len() && is_sample(*left, (depth - 1) as nat, #[trigger] s.take(n))
                    && is_sample(*right, (depth - 1) as nat, s.skip(n));
            if i < n {
                assert(s.take(n)[i] == s[i]);
                lemma_sample_in_contents(*left, (depth - 1) as nat, s.take(n), i);
            } else {
                assert(s.skip(n)[i - n] == s[i]);
                lemma_sample_in_contents(*right, (depth - 1) as nat, s.skip(n), i - n);
            }
        }
    }
}

proof fn lemma_some_leaf_in_contents(z: ZoneView, s: Seq<KadContact>, i: int)
    requires
        is_some_leaf(z, s),
        0 <= i < s.len(),
    ensures
        contents(z).contains(s[i]),
    decreases z,
{
    if let ZoneView::Split { left, right, .. } = z {
        lemma_contains_add(contents(*left), contents(*right), s[i]);
        if is_some_leaf(*left, s) {
            lemma_some_leaf_in_contents(*left, s, i);
        } else {
            lemma_some_leaf_in_contents(*right, s, i);
        }
    }
}

/// Calls `rand::Rng::gen_range` on the thread's generator for a number from 0
/// to 1. Nothing is promised of which.
#[verifier::external_body]
fn random_side() -> (r: u8)
    ensures
        r < 2,
{
    rand::Rng::gen_range(&mut rand::thread_rng(), 0u8..2u8)
}

impl RoutingZone {
    fn random_bin(&self) -> (out: Vec<KadContact>)
        ensures
            is_some_leaf(self@, out@),
        decreases self,
    {
        match &self.body {
            ZoneBody::Leaf(bin) => {
                let mut out: Vec<KadContact> = Vec::new();
                append_contacts(&mut out, &bin.contacts);
                assert(out@ =~= bin.contacts@);
                out
            },
            ZoneBody::Split(a, b) => {
                if random_side() == 0 {
                    a.random_bin()
                } else {
                    b.random_bin()
                }
            },
        }
    }

    /// The contacts of the leaves down to a depth; for each zone at that
    /// depth, those of a leaf below it that chance picks.
    pub fn top_depth(&self, depth: usize) -> (out: Vec<KadContact>)
        ensures
            is_sample(self@, depth as nat, out@),
        decreases self,
    {
        match &self.body {
            ZoneBody::Leaf(bin) => {
                let mut out: Vec<KadContact> = Vec::new();
                append_contacts(&mut out, &bin.contacts);
                assert(out@ =~= bin.contacts@);
                out
            },
            ZoneBody::Split(a, b) => {
                if depth == 0 {
                    self.random_bin()
                } else {
                    let mut out = a.top_depth(depth - 1);
                    let ghost x = out@;
                    let rest = b.top_depth(depth - 1);
                    append_contacts(&mut out, &rest);
                    assert(out@.take(x.len() as int) =~= x);
                    assert(out@.skip(x.len() as int) =~= rest@);
                    assert(is_sample(a@, (depth - 1) as nat, out@.take(x.len() as int)));
                    out
                }
            },
        }
    }
}

// ---------------------------------------------------------------------------
// Lookups
// ---------------------------------------------------------------------------
/// Delay between two lookups of a zone.
pub const BIG_TIMER_INTERVAL_SECS: i64 = 3600;

/// Silence after which a zone's delay no longer counts: twenty minutes less five.
pub const BIG_TIMER_DISCONNECT_BYPASS_SECS: i64 = 900;

/// Whether a leaf may start a lookup: its delay is over, or the network has
/// been silent; and it is near the local identifier, near the root, or at
/// least four fifths empty.
pub open spec fn lookup_due(
    meta: ZoneMeta,
    s: Seq<KadContact>,
    now: i64,
    last_contact: Option<i64>,
) -> bool {
    &&& now >= meta.next_big_timer || (last_contact matches Some(t) && now - t
        >= BIG_TIMER_DISCONNECT_BYPASS_SECS)
    &&& meta.zone_index.val() < KK || meta.level < KBASE || 10 * (K_BUCKET_SIZE - s.len()) >= 8
        * K_BUCKET_SIZE
}

pub open spec fn opt_min(a: Option<u64>, b: Option<u64>) -> Option<u64> {
    match (a, b) {
        (Some(x), Some(y)) => Some(
            if x <= y {
                x
            } else {
                y
            },
        ),
        (None, y) => y,
        (x, None) => x,
    }
}

/// The least turn among the leaves that may start a lookup.
pub open spec fn first_turn(z: ZoneView, now: i64, last_contact: Option<i64>) -> Option<u64>
    decreases z,
{
    match z {
        ZoneView::Leaf { meta, contacts } => if lookup_due(meta, contacts, now, last_contact) {
            Some(meta.event_order)
        } else {
            None
        },
        ZoneView::Split { left, right, .. } => opt_min(
            first_turn(*left, now, last_contact),
            first_turn(*right, now, last_contact),
        ),
    }
}

/// The first leaf with a turn that may start a lookup.
pub open spec fn turn_leaf(z: ZoneView, turn: u64, now: i64, last_contact: Option<i64>) -> Option<
    ZoneMeta,
>
    decreases z,
{
    match z {
        ZoneView::Leaf { meta, contacts } => if meta.event_order == turn && lookup_due(
            meta,
            contacts,
            now,
            last_contact,
        ) {
            Some(meta)
        } else {
            None
        },
        ZoneView::Split { left, right, .. } => match turn_leaf(*left, turn, now, last_contact) {
            Some(m) => Some(m),
            None => turn_leaf(*right, turn, now, last_contact),
        },
    }
}

/// The zone once that leaf has started its lookup.
pub open spec fn after_turn(z: ZoneView, turn: u64, now: i64, last_contact: Option<i64>) -> ZoneView
    decreases z,
{
    match z {
        ZoneView::Leaf { meta, contacts } => if turn_leaf(z, turn, now, last_contact) is Some {
            ZoneView::Leaf {
                meta: ZoneMeta {
                    next_big_timer: (now + BIG_TIMER_INTERVAL_SECS) as i64,
                    ..meta
                },
                contacts,
            }
        } else {
            z
        },
        ZoneView::Split { meta, left, right } => if turn_leaf(
            *left,
            turn,
            now,
            last_contact,
        ) is Some {
            ZoneView::Split {
                meta,
                left: Box::new(after_turn(*left, turn, now, last_contact)),
                right,
            }
        } else {
            ZoneView::Split {
                meta,
                left,
                right: Box::new(after_turn(*right, turn, now, last_contact)),
            }
        },
    }
}

/// A leaf whose turn it is exists wherever a turn is due.
pub proof fn lemma_first_turn(z: ZoneView, now: i64, last_contact: Option<i64>)
    ensures
        first_turn(z, now, last_contact) matches Some(t) ==> turn_leaf(
            z,
            t,
            now,
            last_contact,
        ) is Some,
    decreases z,
{
    if let ZoneView::Split { left, right, .. } = z {
        lemma_first_turn(*left, now, last_contact);
        lemma_first_turn(*right, now, last_contact);
    }
}

/// A lookup changes no contact.
pub proof fn lemma_after_turn(
    z: ZoneView,
    turn: u64,
    now: i64,
    last_contact: Option<i64>,
    local: KadId,
    path: Seq<bool>,
)
    requires
        zone_ok(z, local, path),
    ensures
        zone_ok(after_turn(z, turn, now, last_contact), local, path),
        contents(after_turn(z, turn, now, last_contact)) == contents(z),
    decreases z,
{
    if let ZoneView::Split { left, right, .. } = z {
        lemma_after_turn(*left, turn, now, last_contact, local, path.push(false));
        lemma_after_turn(*right, turn, now, last_contact, local, path.push(true));
    }
}

/// The bits that every distance in a zone starts with, as a number: the zone's
/// index moved up to the top.
pub open spec fn zone_prefix(meta: ZoneMeta) -> u128 {
    if meta.level == 0 {
        0
    } else {
        meta.zone_index.val() << ((128 - meta.level) as u128)
    }
}

impl ZoneMeta {
    /// The identifier that lies in the zone, seen from `local_id`, and
    /// otherwise has the bits of `noise`.
    pub fn lookup_target(&self, local_id: &KadId, noise: &KadId) -> (r: KadId)
        requires
            self.level <= 127,
        ensures
            forall|i: int|
                0 <= i < self.level ==> #[trigger] r.xor_spec(*local_id).bit(i) == bit_of(
                    zone_prefix(*self),
                    i,
                ),
            forall|i: int|
                self.level <= i < 128 ==> #[trigger] r.xor_spec(*local_id).bit(i) == noise.bit(i),
    {
        let mut prefix = self.zone_index;
        prefix.shift_left(128 - self.level);
        let random = noise.with_prefix(&prefix, self.level);
        proof {
            lemma_xor_distance(random, *local_id);
        }
        random.xor_distance(local_id)
    }

    /// A random identifier in the zone.
    pub fn random_lookup_target(&self, local_id: &KadId) -> (r: KadId)
        requires
            self.level <= 127,
        ensures
            forall|i: int|
                0 <= i < self.level ==> #[trigger] r.xor_spec(*local_id).bit(i) == bit_of(
                    zone_prefix(*self),
                    i,
                ),
    {
        self.lookup_target(local_id, &KadId::random())
    }
}

impl RoutingZone {
    /// The least turn among the leaves that may start a lookup.
    pub fn next_turn(&self, now: i64, last_contact: Option<i64>) -> (r: Option<u64>)
        requires
            exists|n: nat| levels_ok(self@, n),
            clock_time(now),
        ensures
            r == first_turn(self@, now, last_contact),
        decreases self,
    {
        match &self.body {
            ZoneBody::Leaf(bin) => {
                if leaf_lookup_due(&self.meta, bin, now, last_contact) {
                    Some(self.meta.event_order)
                } else {
                    None
                }
            },
            ZoneBody::Split(a, b) => {
                proof {
                    let n = choose|n: nat| levels_ok(self@, n);
                    assert(levels_ok(a@, n + 1) && levels_ok(b@, n + 1));
                }
                match (a.next_turn(now, last_contact), b.next_turn(now, last_contact)) {
                    (Some(x), Some(y)) => Some(
                        if x <= y {
                            x
                        } else {
                            y
                        },
                    ),
                    (None, y) => y,
                    (x, None) => x,
                }
            },
        }
    }

    /// Lets the leaf whose turn it is start its lookup.
    pub fn take_turn(&mut self, turn: u64, now: i64, last_contact: Option<i64>) -> (r: Option<
        ZoneMeta,
    >)
        requires
            clock_time(now),
        ensures
            r == turn_leaf(old(self)@, turn, now, last_contact),
            final(self)@ == after_turn(old(self)@, turn, now, last_contact),
        decreases old(self)@,
    {
        let meta = self.meta;
        let mut fired = false;
        let r = match &mut self.body {
            ZoneBody::Leaf(bin) => {
                if meta.event_order == turn && leaf_lookup_due(&meta, bin, now, last_contact) {
                    fired = true;
                    Some(meta)
                } else {
                    None
                }
            },
            ZoneBody::Split(a, b) => {
                proof {
                    lemma_no_turn(a@, turn, now, last_contact);
                }
                match a.take_turn(turn, now, last_contact) {
                    Some(m) => Some(m),
                    None => {
                        b.take_turn(turn, now, last_contact)
                    },
                }
            },
        };
        if fired {
            self.meta.next_big_timer = now + BIG_TIMER_INTERVAL_SECS;
        }
        r
    }
}

/// Where no leaf has the turn, nothing changes.
proof fn lemma_no_turn(z: ZoneView, turn: u64, now: i64, last_contact: Option<i64>)
    ensures
        turn_leaf(z, turn, now, last_contact) is None ==> after_turn(z, turn, now, last_contact)
            == z,
    decreases z,
{
    if let ZoneView::Split { left, right, .. } = z {
        lemma_no_turn(*left, turn, now, last_contact);
        lemma_no_turn(*right, turn, now, last_contact);
    }
}

fn leaf_lookup_due(meta: &ZoneMeta, bin: &RoutingBin, now: i64, last_contact: Option<i64>) -> (r:
    bool)
    ensures
        r == lookup_due(*meta, bin.contacts@, now, last_contact),
{
    let silent = match last_contact {
        Some(t) => now as i128 - t as i128 >= BIG_TIMER_DISCONNECT_BYPASS_SECS as i128,
        None => false,
    };
    if !(now >= meta.next_big_timer || silent) {
        return false;
    }
    meta.zone_index.less_than_u32(KK as u32) || meta.level < KBASE as u32 || (bin.len()
        <= K_BUCKET_SIZE && 10 * (K_BUCKET_SIZE - bin.len()) >= 8 * K_BUCKET_SIZE)
}

// ---------------------------------------------------------------------------
// The closest contacts
// ---------------------------------------------------------------------------
/// How far a contact is from a target.
pub open spec fn far(t: KadId, c: KadContact) -> u128 {
    t.xor_spec(c.id).val()
}

/// Contacts by ascending distance.
pub open spec fn by_distance(t: KadId, s: Seq<KadContact>) -> bool {
    forall|i: int, j: int|
        #![trigger s[i], s[j]]
        0 <= i < j < s.len() ==> far(t, s[i]) < far(t, s[j])
}

/// The `k` contacts of `all` that are closest to a target, closest first, or
/// all of them where there are not that many.
pub open spec fn closest_of(t: KadId, all: Seq<KadContact>, k: nat, out: Seq<KadContact>) -> bool {
    &&& by_distance(t, out)
    &&& out.len() == if all.len() <= k {
        all.len()
    } else {
        k
    }
    &&& forall|i: int| 0 <= i < out.len() ==> all.contains(#[trigger] out[i])
    &&& forall|i: int, j: int|
        #![trigger all[i], out[j]]
        0 <= i < all.len() && 0 <= j < out.len() && !out.contains(all[i]) ==> far(t, out[j]) < far(
            t,
            all[i],
        )
}

/// A contact that is verified and of a good enough type.
pub open spec fn eligible(max_type: u8) -> spec_fn(KadContact) -> bool {
    |c: KadContact| c.contact_type <= max_type && c.verified
}

/// Everything in `a` is closer than everything in `b`.
pub open spec fn all_closer(t: KadId, a: Seq<KadContact>, b: Seq<KadContact>) -> bool {
    forall|i: int, j: int|
        #![trigger a[i], b[j]]
        0 <= i < a.len() && 0 <= j < b.len() ==> far(t, a[i]) < far(t, b[j])
}

/// The distances from a target that lies in a zone with a path, or not, to the
/// contacts on the target's side of the zone are smaller than those to the
/// contacts on the other side.
proof fn lemma_side_closer(
    z: ZoneView,
    local: KadId,
    path: Seq<bool>,
    target: KadId,
    near: Seq<KadContact>,
    other: Seq<KadContact>,
    side: bool,
)
    requires
        path.len() <= 126,
        side == local.xor_spec(target).bit(path.len() as int),
        forall|i: int|
            0 <= i < near.len() ==> follows(
                local.xor_spec((#[trigger] near[i]).id),
                path.push(side),
            ),
        forall|i: int|
            0 <= i < other.len() ==> follows(
                local.xor_spec((#[trigger] other[i]).id),
                path.push(!side),
            ),
    ensures
        all_closer(target, near, other),
{
    let n = path.len() as int;
    assert forall|i: int, j: int|
        #![trigger near[i], other[j]]
        0 <= i < near.len() && 0 <= j < other.len() implies far(target, near[i]) < far(
        target,
        other[j],
    ) by {
        let a = near[i].id;
        let b = other[j].id;
        let (l, t, x, y) = (local.val(), target.val(), a.val(), b.val());
        lemma_val_xor(target, a);
        lemma_val_xor(target, b);
        lemma_val_xor(local, target);
        lemma_val_xor(local, a);
        lemma_val_xor(local, b);
        assert(follows(local.xor_spec(a), path.push(side)));
        assert(follows(local.xor_spec(b), path.push(!side)));
        assert forall|k: int| 0 <= k < n implies bit_of(t ^ x, k) == bit_of(t ^ y, k) by {
            lemma_bit_xor(t, x, k);
            lemma_bit_xor(t, y, k);
            lemma_bit_xor(l, x, k);
            lemma_bit_xor(l, y, k);
            assert(path.push(side)[k] == path[k] && path.push(!side)[k] == path[k]);
        }
        lemma_bit_xor(t, x, n);
        lemma_bit_xor(t, y, n);
        lemma_bit_xor(l, t, n);
        lemma_bit_xor(l, x, n);
        lemma_bit_xor(l, y, n);
        assert(path.push(side)[n] == side && path.push(!side)[n] == !side);
        lemma_bits_order(t ^ x, t ^ y, n);
    }
}

/// Different identifiers are at different distances.
pub proof fn lemma_far_injective(t: KadId, a: KadContact, b: KadContact)
    requires
        far(t, a) == far(t, b),
    ensures
        a.id == b.id,
{
    super::types::lemma_val_injective(t.xor_spec(a.id), t.xor_spec(b.id));
    lemma_xor_distance(a.id, t);
    lemma_xor_distance(b.id, t);
    lemma_xor_distance(t, a.id);
    lemma_xor_distance(t, b.id);
}

proof fn lemma_insert_by_distance(t: KadId, s: Seq<KadContact>, i: int, c: KadContact)
    requires
        by_distance(t, s),
        0 <= i <= s.len(),
        forall|j: int| 0 <= j < i ==> far(t, #[trigger] s[j]) < far(t, c),
        forall|j: int| i <= j < s.len() ==> far(t, c) < far(t, #[trigger] s[j]),
    ensures
        by_distance(t, s.insert(i, c)),
        forall|x: KadContact| #[trigger] s.insert(i, c).contains(x) <==> s.contains(x) || x == c,
{
    let o = s.insert(i, c);
    assert forall|a: int, b: int|
        #![trigger o[a], o[b]]
        0 <= a < b < o.len() implies far(t, o[a]) < far(t, o[b]) by {
        let a2 = if a < i {
            a
        } else {
            a - 1
        };
        let b2 = if b < i {
            b
        } else {
            b - 1
        };
        if a != i {
            assert(o[a] == s[a2]);
        }
        if b != i {
            assert(o[b] == s[b2]);
        }
    }
    assert forall|x: KadContact| #[trigger] o.contains(x) <==> s.contains(x) || x == c by {
        if s.contains(x) {
            let k = choose|k: int| 0 <= k < s.len() && s[k] == x;
            let k2 = if k < i {
                k
            } else {
                k + 1
            };
            assert(o[k2] == x);
        }
        if o.contains(x) {
            let k = choose|k: int| 0 <= k < o.len() && o[k] == x;
            if k < i {
                assert(s[k] == x);
            } else if k > i {
                assert(s[k - 1] == x);
            }
        }
        assert(o[i] == c);
    }
}

/// Inserts a contact into a list by distance.
fn insert_by_distance(target: &KadId, out: &mut Vec<KadContact>, c: KadContact)
    requires
        by_distance(*target, old(out)@),
        forall|i: int| 0 <= i < old(out)@.len() ==> (#[trigger] old(out)@[i]).id != c.id,
    ensures
        by_distance(*target, final(out)@),
        final(out)@.len() == old(out)@.len() + 1,
        forall|x: KadContact| #[trigger]
            final(out)@.contains(x) <==> old(out)@.contains(x) || x == c,
{
    let ghost s = out@;
    let d: u128 = target.xor_distance(&c.id).to_u128();
    let mut i: usize = out.len();
    while i > 0 && d < target.xor_distance(&out[i - 1].id).to_u128()
        invariant
            i <= out@.len(),
            out@ == s,
            d == far(*target, c),
            forall|j: int| i <= j < s.len() ==> d < far(*target, #[trigger] s[j]),
        decreases i,
    {
        i = i - 1;
    }
    proof {
        if i > 0 {
            let l = i as int - 1;
            assert(far(*target, s[l]) <= d);
            assert(s[l].id != c.id);
            if far(*target, s[l]) == d {
                lemma_far_injective(*target, s[l], c);
            }
            assert forall|j: int| 0 <= j < i implies far(*target, #[trigger] s[j]) < d by {
                if j < l {
                    assert(far(*target, s[j]) < far(*target, s[l]));
                }
            }
        }
        lemma_insert_by_distance(*target, s, i as int, c);
    }
    out.insert(i, c);
}

/// Of a sorted list that holds all contacts, the front is the closest.
pub proof fn lemma_front_is_closest(
    t: KadId,
    all: Seq<KadContact>,
    sorted: Seq<KadContact>,
    k: nat,
    out: Seq<KadContact>,
)
    requires
        by_distance(t, sorted),
        sorted.len() == all.len(),
        forall|x: KadContact| #[trigger] sorted.contains(x) <==> all.contains(x),
        out == if sorted.len() <= k {
            sorted
        } else {
            sorted.take(k as int)
        },
    ensures
        closest_of(t, all, k, out),
{
    assert forall|i: int| 0 <= i < out.len() implies all.contains(#[trigger] out[i]) by {
        assert(out[i] == sorted[i]);
        assert(sorted.contains(sorted[i]));
    }
    assert forall|i: int, j: int|
        #![trigger out[i], out[j]]
        0 <= i < j < out.len() implies far(t, out[i]) < far(t, out[j]) by {
        assert(out[i] == sorted[i] && out[j] == sorted[j]);
    }
    assert forall|i: int, j: int|
        #![trigger all[i], out[j]]
        0 <= i < all.len() && 0 <= j < out.len() && !out.contains(all[i]) implies far(t, out[j])
        < far(t, all[i]) by {
        assert(all.contains(all[i]));
        assert(sorted.contains(all[i]));
        let m = choose|m: int| 0 <= m < sorted.len() && sorted[m] == all[i];
        if m < out.len() {
            assert(out[m] == sorted[m]);
        }
        assert(out[j] == sorted[j]);
        assert(j < m);
    }
}

impl RoutingBin {
    /// Adds the bin's eligible contacts to a list by distance, and keeps the
    /// closest.
    fn get_closest_to(
        &self,
        max_type: u8,
        target: &KadId,
        max_required: usize,
        result: &mut Vec<KadContact>,
    )
        requires
            by_distance(*target, old(result)@),
            distinct_ids(old(result)@ + self.contacts@),
        ensures
            closest_of(
                *target,
                old(result)@ + self.contacts@.filter(eligible(max_type)),
                max_required as nat,
                final(result)@,
            ),
    {
        let ghost r0 = result@;
        let ghost s = self.contacts@;
        let ghost ok = eligible(max_type);
        let mut i: usize = 0;
        proof {
            reveal(Seq::filter);
            assert(s.take(0).filter(ok) =~= Seq::empty());
            assert(r0 + s.take(0).filter(ok) =~= r0);
        }
        while i < self.contacts.len()
            invariant
                i <= s.len(),
                s == self.contacts@,
                ok == eligible(max_type),
                distinct_ids(r0 + s),
                by_distance(*target, result@),
                result@.len() == r0.len() + s.take(i as int).filter(ok).len(),
                forall|x: KadContact| #[trigger]
                    result@.contains(x) <==> (r0 + s.take(i as int).filter(ok)).contains(x),
            decreases s.len() - i,
        {
            let c = self.contacts[i];
            let ghost before = result@;
            let ghost e = s.take(i as int).filter(ok);
            proof {
                reveal(Seq::filter);
                assert(s.take(i as int + 1).drop_last() =~= s.take(i as int));
            }
            if c.contact_type <= max_type && c.verified {
                proof {
                    assert forall|k: int| 0 <= k < before.len() implies (#[trigger] before[k]).id
                        != c.id by {
                        assert(before.contains(before[k]));
                        assert((r0 + e).contains(before[k]));
                        lemma_contains_add(r0, e, before[k]);
                        assert((r0 + s)[r0.len() + i] == c);
                        if r0.contains(before[k]) {
                            let m = choose|m: int| 0 <= m < r0.len() && r0[m] == before[k];
                            assert((r0 + s)[m] == before[k]);
                        } else {
                            lemma_filter_members(s.take(i as int), ok);
                            let m = choose|m: int| 0 <= m < e.len() && e[m] == before[k];
                            assert(s.take(i as int).contains(e[m]));
                            let m2 = choose|m2: int| 0 <= m2 < i && s.take(i as int)[m2] == e[m];
                            assert((r0 + s)[r0.len() + m2] == before[k]);
                        }
                    }
                }
                insert_by_distance(target, result, c);
                proof {
                    assert(r0 + e.push(c) =~= (r0 + e) + seq![c]);
                    assert forall|x: KadContact| #[trigger]
                        result@.contains(x) <==> (r0 + e.push(c)).contains(x) by {
                        lemma_contains_add(r0 + e, seq![c], x);
                        assert(seq![c].contains(x) <==> x == c) by {
                            assert(seq![c][0] == c);
                        }
                    }
                }
            }
            i = i + 1;
        }
        let ghost sorted = result@;
        let ghost all = r0 + s.filter(ok);
        assert(s.take(i as int) =~= s);
        if result.len() > max_required {
            result.truncate(max_required);
        }
        proof {
            lemma_front_is_closest(*target, all, sorted, max_required as nat, result@);
        }
    }
}

/// Eligible contacts of two parts, one after the other.
proof fn lemma_closest_chain(
    t: KadId,
    r0: Seq<KadContact>,
    e1: Seq<KadContact>,
    e2: Seq<KadContact>,
    k: nat,
    mid: Seq<KadContact>,
    out: Seq<KadContact>,
)
    requires
        closest_of(t, r0 + e1, k, mid),
        mid.len() < k ==> closest_of(t, mid + e2, k, out),
        mid.len() >= k ==> out == mid,
        all_closer(t, r0 + e1, e2),
    ensures
        closest_of(t, r0 + (e1 + e2), k, out),
{
    let a = r0 + e1;
    let all = r0 + (e1 + e2);
    assert(all =~= a + e2);
    if mid.len() < k {
        assert(mid.len() == a.len());
        assert forall|i: int| 0 <= i < a.len() implies mid.contains(#[trigger] a[i]) by {
            lemma_all_taken(t, a, k, mid, i);
        }
        let b = mid + e2;
        assert forall|i: int| 0 <= i < out.len() implies all.contains(#[trigger] out[i]) by {
            assert(b.contains(out[i]));
            lemma_contains_add(mid, e2, out[i]);
            lemma_contains_add(a, e2, out[i]);
            if mid.contains(out[i]) {
                let m = choose|m: int| 0 <= m < mid.len() && mid[m] == out[i];
                assert(a.contains(mid[m]));
            }
        }
        assert forall|i: int, j: int|
            #![trigger all[i], out[j]]
            0 <= i < all.len() && 0 <= j < out.len() && !out.contains(all[i]) implies far(
            t,
            out[j],
        ) < far(t, all[i]) by {
            lemma_contains_add(mid, e2, all[i]);
            if i < a.len() {
                assert(all[i] == a[i]);
                assert(mid.contains(a[i]));
            } else {
                assert(all[i] == e2[i - a.len()]);
            }
            assert(b.contains(all[i]));
            let m = choose|m: int| 0 <= m < b.len() && b[m] == all[i];
            assert(!out.contains(b[m]));
        }
    } else {
        assert forall|i: int| 0 <= i < out.len() implies all.contains(#[trigger] out[i]) by {
            assert(a.contains(out[i]));
            lemma_contains_add(a, e2, out[i]);
        }
        assert forall|i: int, j: int|
            #![trigger all[i], out[j]]
            0 <= i < all.len() && 0 <= j < out.len() && !out.contains(all[i]) implies far(
            t,
            out[j],
        ) < far(t, all[i]) by {
            if i < a.len() {
                assert(all[i] == a[i]);
            } else {
                assert(all[i] == e2[i - a.len()]);
                assert(a.contains(out[j]));
                let m = choose|m: int| 0 <= m < a.len() && a[m] == out[j];
                assert(far(t, a[m]) < far(t, e2[i - a.len()]));
            }
        }
    }
}

/// Where fewer than `k` are asked for, all are taken.
proof fn lemma_all_taken(t: KadId, a: Seq<KadContact>, k: nat, out: Seq<KadContact>, i: int)
    requires
        closest_of(t, a, k, out),
        out.len() == a.len(),
        0 <= i < a.len(),
    ensures
        out.contains(a[i]),
{
    if !out.contains(a[i]) {
        // The list holds `a.len()` different contacts of `a`, none of them this one.
        let b = a.remove(i);
        assert(out.no_duplicates()) by {
            assert forall|x: int, y: int| 0 <= x < out.len() && 0 <= y < out.len() && x != y implies
                out[x] != out[y] by {
                if x < y {
                    assert(far(t, out[x]) < far(t, out[y]));
                } else {
                    assert(far(t, out[y]) < far(t, out[x]));
                }
            }
        }
        assert forall|x: KadContact| out.to_set().contains(x) implies b.to_set().contains(x) by {
            let m = choose|m: int| 0 <= m < out.len() && out[m] == x;
            assert(a.contains(out[m]));
            let n = choose|n: int| 0 <= n < a.len() && a[n] == x;
            assert(n != i) by {
                if n == i {
                    assert(out.contains(a[i]));
                }
            }
            if n < i {
                assert(b[n] == x);
            } else {
                assert(b[n - 1] == x);
            }
        }
        vstd::set_lib::lemma_len_subset(out.to_set(), b.to_set());
        out.unique_seq_to_set();
        b.lemma_cardinality_of_set();
    }
}

proof fn lemma_all_closer_filter(
    t: KadId,
    a: Seq<KadContact>,
    b: Seq<KadContact>,
    f: spec_fn(KadContact) -> bool,
)
    requires
        all_closer(t, a, b),
    ensures
        all_closer(t, a.filter(f), b.filter(f)),
        all_closer(t, a, b.filter(f)),
{
    lemma_filter_members(a, f);
    lemma_filter_members(b, f);
    let (x, y) = (a.filter(f), b.filter(f));
    assert forall|i: int, j: int|
        #![trigger x[i], y[j]]
        0 <= i < x.len() && 0 <= j < y.len() implies far(t, x[i]) < far(t, y[j]) by {
        assert(a.contains(x[i]) && b.contains(y[j]));
        let m = choose|m: int| 0 <= m < a.len() && a[m] == x[i];
        let n = choose|n: int| 0 <= n < b.len() && b[n] == y[j];
        assert(far(t, a[m]) < far(t, b[n]));
    }
    assert forall|i: int, j: int|
        #![trigger a[i], y[j]]
        0 <= i < a.len() && 0 <= j < y.len() implies far(t, a[i]) < far(t, y[j]) by {
        assert(b.contains(y[j]));
        let n = choose|n: int| 0 <= n < b.len() && b[n] == y[j];
        assert(far(t, a[i]) < far(t, b[n]));
    }
}

impl RoutingZone {
    /// Adds the zone's eligible contacts to a list by distance, and keeps the
    /// closest. The half on the target's side comes first: nothing in the
    /// other half is closer, so once the list is full that one is not visited.
    pub(crate) fn get_closest_to(
        &self,
        max_type: u8,
        target: &KadId,
        distance: &KadId,
        max_required: usize,
        result: &mut Vec<KadContact>,
        Ghost(local): Ghost<KadId>,
        Ghost(path): Ghost<Seq<bool>>,
    )
        requires
            zone_ok(self@, local, path),
            *distance == local.xor_spec(*target),
            by_distance(*target, old(result)@),
            all_closer(*target, old(result)@, contents(self@)),
        ensures
            closest_of(
                *target,
                old(result)@ + contents(self@).filter(eligible(max_type)),
                max_required as nat,
                final(result)@,
            ),
        decreases self,
    {
        let ghost r0 = result@;
        let ghost ok = eligible(max_type);
        let ghost k = max_required as nat;
        match &self.body {
            ZoneBody::Leaf(bin) => {
                proof {
                    let s = bin.contacts@;
                    let all = r0 + s;
                    assert(contents(self@) == s);
                    assert forall|i: int, j: int|
                        #![trigger all[i], all[j]]
                        0 <= i < j < all.len() implies all[i].id != all[j].id by {
                        if j < r0.len() {
                            assert(all[i] == r0[i] && all[j] == r0[j]);
                            assert(far(*target, r0[i]) < far(*target, r0[j]));
                        } else if i < r0.len() {
                            assert(all[i] == r0[i] && all[j] == s[j - r0.len()]);
                            assert(far(*target, r0[i]) < far(*target, s[j - r0.len()]));
                        } else {
                            assert(all[i] == s[i - r0.len()] && all[j] == s[j - r0.len()]);
                        }
                    }
                }
                bin.get_closest_to(max_type, target, max_required, result);
            },
            ZoneBody::Split(a, b) => {
                let ghost ca = contents(a@);
                let ghost cb = contents(b@);
                let closer = distance.get_bit_number(self.meta.level);
                let ghost near = if closer {
                    cb
                } else {
                    ca
                };
                let ghost other = if closer {
                    ca
                } else {
                    cb
                };
                proof {
                    assert(zone_ok(a@, local, path.push(false)) && zone_ok(
                        b@,
                        local,
                        path.push(true),
                    ));
                    assert(contents(self@) == ca + cb);
                    lemma_contents_follow(a@, local, path.push(false));
                    lemma_contents_follow(b@, local, path.push(true));
                    lemma_side_closer(self@, local, path, *target, near, other, closer);
                    assert(all_closer(*target, r0, near) && all_closer(*target, r0, other)) by {
                        assert forall|i: int, j: int|
                            #![trigger r0[i], ca[j]]
                            0 <= i < r0.len() && 0 <= j < ca.len() implies far(*target, r0[i])
                            < far(*target, ca[j]) by {
                            assert((ca + cb)[j] == ca[j]);
                        }
                        assert forall|i: int, j: int|
                            #![trigger r0[i], cb[j]]
                            0 <= i < r0.len() && 0 <= j < cb.len() implies far(*target, r0[i])
                            < far(*target, cb[j]) by {
                            assert((ca + cb)[j + ca.len()] == cb[j]);
                        }
                    }
                    lemma_all_closer_filter(*target, near, other, ok);
                    lemma_all_closer_filter(*target, r0, other, ok);
                }
                if closer {
                    b.get_closest_to(
                        max_type,
                        target,
                        distance,
                        max_required,
                        result,
                        Ghost(local),
                        Ghost(path.push(true)),
                    );
                } else {
                    a.get_closest_to(
                        max_type,
                        target,
                        distance,
                        max_required,
                        result,
                        Ghost(local),
                        Ghost(path.push(false)),
                    );
                }
                let ghost mid = result@;
                let ghost e1 = near.filter(ok);
                let ghost e2 = other.filter(ok);
                proof {
                    assert forall|i: int, j: int|
                        #![trigger mid[i], other[j]]
                        0 <= i < mid.len() && 0 <= j < other.len() implies far(*target, mid[i])
                        < far(*target, other[j]) by {
                        assert((r0 + e1).contains(mid[i]));
                        lemma_contains_add(r0, e1, mid[i]);
                        if r0.contains(mid[i]) {
                            let m = choose|m: int| 0 <= m < r0.len() && r0[m] == mid[i];
                            assert(far(*target, r0[m]) < far(*target, other[j]));
                        } else {
                            lemma_filter_members(near, ok);
                            let m = choose|m: int| 0 <= m < e1.len() && e1[m] == mid[i];
                            assert(near.contains(e1[m]));
                            let n = choose|n: int| 0 <= n < near.len() && near[n] == mid[i];
                            assert(far(*target, near[n]) < far(*target, other[j]));
                        }
                    }
                }
                if result.len() < max_required {
                    if closer {
                        a.get_closest_to(
                            max_type,
                            target,
                            distance,
                            max_required,
                            result,
                            Ghost(local),
                            Ghost(path.push(false)),
                        );
                    } else {
                        b.get_closest_to(
                            max_type,
                            target,
                            distance,
                            max_required,
                            result,
                            Ghost(local),
                            Ghost(path.push(true)),
                        );
                    }
                }
                proof {
                    assert(all_closer(*target, r0 + e1, e2)) by {
                        let x = r0 + e1;
                        assert forall|i: int, j: int|
                            #![trigger x[i], e2[j]]
                            0 <= i < x.len() && 0 <= j < e2.len() implies far(*target, x[i])
                            < far(*target, e2[j]) by {
                            if i < r0.len() {
                                assert(x[i] == r0[i]);
                                assert(far(*target, r0[i]) < far(*target, e2[j]));
                            } else {
                                assert(x[i] == e1[i - r0.len()]);
                                assert(far(*target, e1[i - r0.len()]) < far(*target, e2[j]));
                            }
                        }
                    }
                    lemma_closest_chain(*target, r0, e1, e2, k, mid, result@);
                    Seq::filter_distributes_over_add(ca, cb, ok);
                    if closer {
                        lemma_closest_swap(*target, r0, e1, e2, k, result@);
                    }
                }
            },
        }
    }
}

/// The order in which contacts are offered does not matter.
proof fn lemma_closest_swap(
    t: KadId,
    r0: Seq<KadContact>,
    a: Seq<KadContact>,
    b: Seq<KadContact>,
    k: nat,
    out: Seq<KadContact>,
)
    requires
        closest_of(t, r0 + (a + b), k, out),
    ensures
        closest_of(t, r0 + (b + a), k, out),
{
    let x = r0 + (a + b);
    let y = r0 + (b + a);
    assert forall|c: KadContact| x.contains(c) <==> #[trigger] y.contains(c) by {
        lemma_contains_add(r0, a + b, c);
        lemma_contains_add(r0, b + a, c);
        lemma_contains_add(a, b, c);
        lemma_contains_add(b, a, c);
    }
    assert forall|i: int| 0 <= i < out.len() implies y.contains(#[trigger] out[i]) by {
        assert(x.contains(out[i]));
    }
    assert forall|i: int, j: int|
        #![trigger y[i], out[j]]
        0 <= i < y.len() && 0 <= j < out.len() && !out.contains(y[i]) implies far(t, out[j])
        < far(t, y[i]) by {
        assert(y.contains(y[i]));
        assert(x.contains(y[i]));
        let m = choose|m: int| 0 <= m < x.len() && x[m] == y[i];
        assert(!out.contains(x[m]));
    }
}

/// Cleaning adds no identifier.
pub proof fn lemma_filter_ids(s: Seq<KadContact>, keep: spec_fn(KadContact) -> bool, id: KadId)
    ensures
        has_id(s.filter(keep), id) ==> has_id(s, id),
{
    lemma_filter_members(s, keep);
    if has_id(s.filter(keep), id) {
        let f = s.filter(keep);
        let k = index_of_id(f, id);
        assert(s.contains(f[k]));
        let m = choose|m: int| 0 <= m < s.len() && s[m] == f[k];
        assert(s[m].id == id);
    }
}

/// The checks add no identifier.
pub proof fn lemma_checked_ids(z: ZoneView, now: i64, in_use: Map<u128, u32>, id: KadId)
    ensures
        has_id(contents(checked(z, now, in_use)), id) ==> has_id(contents(z), id),
    decreases z,
{
    match z {
        ZoneView::Leaf { meta, contacts } => {
            if check_due(meta, contacts, now) {
                let f = contacts.filter(not_lost(now, in_use));
                let t = all_with_due(f, now);
                let u = checked_leaf(contacts, now, in_use);
                if has_id(u, id) {
                    let i = index_of_id(u, id);
                    let j = if front_due(t, now) {
                        i
                    } else if i == u.len() - 1 {
                        0
                    } else {
                        i + 1
                    };
                    assert(u[i].id == t[j].id);
                    assert(t[j].id == f[j].id);
                    assert(has_id(f, id));
                    lemma_filter_ids(contacts, not_lost(now, in_use), id);
                }
            }
        },
        ZoneView::Split { meta, left, right } => {
            lemma_checked_ids(*left, now, in_use, id);
            lemma_checked_ids(*right, now, in_use, id);
            lemma_has_id_add(contents(*left), contents(*right), id);
            lemma_has_id_add(
                contents(checked(*left, now, in_use)),
                contents(checked(*right, now, in_use)),
                id,
            );
        },
    }
}

/// Merging leaves adds no identifier.
pub proof fn lemma_consolidated_ids(z: ZoneView, order: u64, now: i64, id: KadId)
    ensures
        has_id(contents(consolidated(z, order, now).zone), id) ==> has_id(contents(z), id),
    decreases z,
{
    if let ZoneView::Split { meta, left, right } = z {
        let a = consolidated(*left, order, now);
        let b = consolidated(*right, a.order, now);
        lemma_consolidated_ids(*left, order, now, id);
        lemma_consolidated_ids(*right, a.order, now, id);
        let r = consolidated(z, order, now);
        lemma_has_id_add(contents(*left), contents(*right), id);
        lemma_has_id_add(contents(a.zone), contents(b.zone), id);
        if a.zone is Leaf && b.zone is Leaf && (a.zone->contacts).len() + (
        b.zone->contacts).len() < K_BUCKET_SIZE / 2 {
            let s = a.zone->contacts;
            let t = b.zone->contacts;
            let o = offered(Seq::empty(), s + t);
            assert(contents(a.zone) == s && contents(b.zone) == t);
            assert(contents(r.zone) == o);
            if has_id(o, id) {
                let k = index_of_id(o, id);
                lemma_offered_ok(Seq::empty(), s + t);
                assert((s + t).contains(o[k]));
                let m = choose|m: int| 0 <= m < (s + t).len() && (s + t)[m] == o[k];
                assert((s + t)[m].id == id);
            }
        } else {
            assert(r.zone == (ZoneView::Split {
                meta,
                left: Box::new(a.zone),
                right: Box::new(b.zone),
            }));
        }
    }
}

/// An answer adds no identifier.
pub proof fn lemma_touched_ids(z: ZoneView, ip: Ipv4Addr, port: u16, now: i64, id: KadId)
    ensures
        touched(z, ip, port, now) matches Some(t) ==> (has_id(contents(t), id) ==> has_id(
            contents(z),
            id,
        )),
    decreases z,
{
    match z {
        ZoneView::Leaf { meta, contacts } => {
            lemma_addr_index_bound(contacts, ip, port);
            if let Some(i) = addr_index(contacts, ip, port) {
                let m = moved(contacts, i as int, contacts[i as int].after_answer(now));
                if has_id(m, id) {
                    let k = index_of_id(m, id);
                    let k2 = if k == m.len() - 1 {
                        i as int
                    } else if k < i {
                        k
                    } else {
                        k + 1
                    };
                    assert(contacts[k2].id == m[k].id);
                }
            }
        },
        ZoneView::Split { meta, left, right } => {
            lemma_touched_ids(*left, ip, port, now, id);
            lemma_touched_ids(*right, ip, port, now, id);
            lemma_has_id_add(contents(*left), contents(*right), id);
            match touched(*left, ip, port, now) {
                Some(l) => {
                    lemma_has_id_add(contents(l), contents(*right), id);
                },
                None => {
                    if let Some(r) = touched(*right, ip, port, now) {
                        lemma_has_id_add(contents(*left), contents(r), id);
                    }
                },
            }
        },
    }
}

/// A leaf with its own contacts is the same leaf.
pub proof fn lemma_with_leaf_same(z: ZoneView, d: KadId)
    ensures
        with_leaf(z, d, leaf_at(z, d)) == z,
    decreases z,
{
    if let ZoneView::Split { meta, left, right } = z {
        if d.bit(meta.level as int) {
            lemma_with_leaf_same(*right, d);
        } else {
            lemma_with_leaf_same(*left, d);
        }
    }
}

/// The leaf whose turn it is stands at a level of the tree.
pub proof fn lemma_turn_level(
    z: ZoneView,
    turn: u64,
    now: i64,
    last_contact: Option<i64>,
    level: nat,
)
    requires
        levels_ok(z, level),
    ensures
        turn_leaf(z, turn, now, last_contact) matches Some(m) ==> m.level <= 127,
    decreases z,
{
    if let ZoneView::Split { left, right, .. } = z {
        lemma_turn_level(*left, turn, now, last_contact, level + 1);
        lemma_turn_level(*right, turn, now, last_contact, level + 1);
    }
}

} // verus!
