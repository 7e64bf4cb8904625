//! Which entry of a full table has to go.
//!
//! Entries carry the time at which they were made or last used. The oldest one
//! leaves; of two that are equally old, the one whose key ranks lower. Of the
//! entries that several claimants of one address have, the newest leaves.
use vstd::prelude::*;

use crate::clock::{elapsed, ms_since};
use crate::key_map::{word, word_of, KeyMap, MapKey};
use crate::net::{IpAddr, SocketAddr};
use crate::rank::{be_val, bytes_before, lemma_be_val_injective, Ranked};

verus! {

/// Values that carry a time.
pub trait Stamped {
    spec fn stamp(self) -> u64;

    fn get_stamp(&self) -> (r: u64)
        ensures
            r == self.stamp(),
    ;
}

impl Stamped for u64 {
    open spec fn stamp(self) -> u64 {
        self
    }

    fn get_stamp(&self) -> (r: u64) {
        *self
    }
}

// ---------------------------------------------------------------------------
// Keys
// ---------------------------------------------------------------------------
proof fn lemma_be_val_bound(s: Seq<u8>)
    requires
        s.len() <= 32,
    ensures
        be_val(s) < vstd::arithmetic::power2::pow2((8 * s.len()) as nat),
    decreases s.len(),
{
    if s.len() == 0 {
        vstd::arithmetic::power2::lemma2_to64();
    } else {
        lemma_be_val_bound(s.drop_last());
        let n = (s.len() - 1) as nat;
        vstd::arithmetic::power2::lemma_pow2_adds(8 * n, 8);
        vstd::arithmetic::power2::lemma2_to64();
    }
}

/// Whether two keys hold the same bytes.
pub fn same_key(a: &[u8; 32], b: &[u8; 32]) -> (r: bool)
    ensures
        r == (*a == *b),
{
    let mut i: usize = 0;
    while i < 32
        invariant
            i <= 32,
            forall|j: int| 0 <= j < i ==> a@[j] == b@[j],
        decreases 32 - i,
    {
        if a[i] != b[i] {
            assert(a@ != b@);
            return false;
        }
        i = i + 1;
    }
    assert(*a =~= *b);
    true
}

pub open spec fn ip_rank(ip: IpAddr) -> nat {
    match ip {
        IpAddr::V4(a) => a.bits as nat,
        IpAddr::V6(x) => (0x1_0000_0000 + x) as nat,
    }
}

fn ip_before(a: &IpAddr, b: &IpAddr) -> (r: bool)
    ensures
        r == (ip_rank(*a) < ip_rank(*b)),
{
    match (a, b) {
        (IpAddr::V4(x), IpAddr::V4(y)) => x.bits < y.bits,
        (IpAddr::V4(_), IpAddr::V6(_)) => true,
        (IpAddr::V6(_), IpAddr::V4(_)) => false,
        (IpAddr::V6(x), IpAddr::V6(y)) => *x < *y,
    }
}

impl Ranked for SocketAddr {
    open spec fn rank(self) -> nat {
        ip_rank(self.ip) * 0x1_0000 + self.port as nat
    }

    proof fn lemma_rank(self, other: Self) {
    }

    fn before(&self, other: &Self) -> (r: bool) {
        ip_before(&self.ip, &other.ip) || (self.ip == other.ip && self.port < other.port)
    }
}

/// A static key that claims an address.
#[derive(Clone, Copy, Debug, PartialEq, Eq)]
pub struct Claim {
    pub addr: SocketAddr,
    pub key: [u8; 32],
}

impl MapKey for Claim {
    open spec fn digest_of(self) -> u128 {
        self.addr.digest_of() ^ word_of(self.key@)
    }

    fn digest(&self) -> (r: u128) {
        self.addr.digest() ^ word(&self.key)
    }

    fn same(&self, other: &Self) -> (r: bool) {
        self.addr == other.addr && same_key(&self.key, &other.key)
    }
}

/// One more than every number of 32 bytes.
pub open spec fn key_span() -> nat {
    vstd::arithmetic::power2::pow2(256)
}

impl Ranked for Claim {
    open spec fn rank(self) -> nat {
        self.addr.rank() * key_span() + be_val(self.key@)
    }

    proof fn lemma_rank(self, other: Self) {
        lemma_claim_rank(self, other);
        if self.rank() == other.rank() {
            self.addr.lemma_rank(other.addr);
            lemma_be_val_injective(self.key@, other.key@);
            assert(self.key =~= other.key);
        }
    }

    fn before(&self, other: &Self) -> (r: bool) {
        proof {
            lemma_claim_rank(*self, *other);
            lemma_claim_rank(*other, *self);
            self.addr.lemma_rank(other.addr);
        }
        self.addr.before(&other.addr) || (self.addr == other.addr && bytes_before(
            &self.key,
            &other.key,
        ))
    }
}

proof fn lemma_claim_rank(a: Claim, b: Claim)
    ensures
        a.addr.rank() < b.addr.rank() ==> a.rank() < b.rank(),
        a.addr.rank() > b.addr.rank() ==> a.rank() > b.rank(),
        a.addr.rank() == b.addr.rank() ==> (a.rank() < b.rank() <==> be_val(a.key@) < be_val(
            b.key@,
        )),
{
    lemma_be_val_bound(a.key@);
    lemma_be_val_bound(b.key@);
    let (x, y, s) = (a.addr.rank(), b.addr.rank(), key_span());
    if x < y {
        assert((x + 1) * s <= y * s) by (nonlinear_arith)
            requires
                x + 1 <= y,
        ;
        assert((x + 1) * s == x * s + s) by (nonlinear_arith);
    } else if y < x {
        assert((y + 1) * s <= x * s) by (nonlinear_arith)
            requires
                y + 1 <= x,
        ;
        assert((y + 1) * s == y * s + s) by (nonlinear_arith);
    }
}

/// The digest of a packet.
#[derive(Clone, Copy, Debug, PartialEq, Eq)]
pub struct PacketDigest {
    pub bytes: [u8; 32],
}

impl MapKey for PacketDigest {
    open spec fn digest_of(self) -> u128 {
        word_of(self.bytes@)
    }

    fn digest(&self) -> (r: u128) {
        word(&self.bytes)
    }

    fn same(&self, other: &Self) -> (r: bool) {
        same_key(&self.bytes, &other.bytes)
    }
}

impl Ranked for PacketDigest {
    open spec fn rank(self) -> nat {
        be_val(self.bytes@)
    }

    proof fn lemma_rank(self, other: Self) {
        if self.rank() == other.rank() {
            lemma_be_val_injective(self.bytes@, other.bytes@);
            assert(self.bytes =~= other.bytes);
        }
    }

    fn before(&self, other: &Self) -> (r: bool) {
        bytes_before(&self.bytes, &other.bytes)
    }
}

// ---------------------------------------------------------------------------
// The oldest entry
// ---------------------------------------------------------------------------
/// The times of a table's entries.
pub open spec fn stamps<K, V: Stamped>(m: Map<K, V>) -> Map<K, u64> {
    Map::new(|k: K| m.contains_key(k), |k: K| m[k].stamp())
}

/// Whether one entry is at least as old as another.
pub open spec fn no_newer<K: Ranked>(t: Map<K, u64>, a: K, b: K) -> bool {
    t[a] < t[b] || (t[a] == t[b] && a.rank() <= b.rank())
}

pub open spec fn is_oldest<K: Ranked>(t: Map<K, u64>, k: K) -> bool {
    t.contains_key(k) && forall|j: K| #[trigger] t.contains_key(j) ==> no_newer(t, k, j)
}

/// The key of the oldest entry.
pub open spec fn oldest<K: Ranked>(t: Map<K, u64>) -> K {
    choose|k: K| is_oldest(t, k)
}

pub proof fn lemma_oldest<K: Ranked>(t: Map<K, u64>, k: K)
    requires
        is_oldest(t, k),
    ensures
        oldest(t) == k,
{
    let o = oldest(t);
    assert(is_oldest(t, o));
    assert(no_newer(t, k, o) && no_newer(t, o, k));
    k.lemma_rank(o);
}

fn no_newer_keys<K: Ranked, V: Stamped>(m: &KeyMap<K, V>, a: &K, b: &K) -> (r: bool)
    requires
        m@.contains_key(*a),
        m@.contains_key(*b),
    ensures
        r == no_newer(stamps(m@), *a, *b),
{
    match (m.get(a), m.get(b)) {
        (Some(x), Some(y)) => {
            let (s, t): (u64, u64) = (x.get_stamp(), y.get_stamp());
            s < t || (s == t && !b.before(a))
        },
        _ => false,
    }
}

/// The key of the oldest entry; none where the table is empty.
pub fn oldest_key<K: Ranked, V: Stamped>(m: &KeyMap<K, V>) -> (r: Option<K>)
    ensures
        match r {
            Some(k) => m@.contains_key(k) && k == oldest(stamps(m@)),
            None => m@.dom() =~= Set::empty(),
        },
{
    let keys = m.keys();
    if keys.len() == 0 {
        assert forall|k: K| !m@.contains_key(k) by {
            assert(!keys@.contains(k));
        }
        return None;
    }
    let mut best = keys[0];
    let mut i: usize = 1;
    assert(keys@.contains(keys@[0]));
    while i < keys.len()
        invariant
            1 <= i <= keys@.len(),
            forall|k: K| #[trigger] keys@.contains(k) <==> m@.contains_key(k),
            m@.contains_key(best),
            forall|j: int|
                0 <= j < i ==> no_newer(stamps(m@), best, #[trigger] keys@[j]),
        decreases keys@.len() - i,
    {
        assert(keys@.contains(keys@[i as int]));
        let k = keys[i];
        if !no_newer_keys(m, &best, &k) {
            best = k;
        }
        i = i + 1;
    }
    proof {
        let t = stamps(m@);
        assert forall|j: K| #[trigger] t.contains_key(j) implies no_newer(t, best, j) by {
            assert(keys@.contains(j));
            let n = choose|n: int| 0 <= n < keys@.len() && keys@[n] == j;
            assert(no_newer(t, best, keys@[n]));
        }
        lemma_oldest(t, best);
    }
    Some(best)
}

/// A table without its oldest entry, if it has `cap` entries or more.
pub open spec fn with_room<K: Ranked, V>(m: Map<K, V>, t: Map<K, u64>, cap: nat) -> Map<K, V> {
    if m.dom().len() >= cap {
        m.remove(oldest(t))
    } else {
        m
    }
}

/// Makes room in a table that holds as many entries as it may.
pub fn make_room<K: Ranked, V: Stamped>(m: &mut KeyMap<K, V>, cap: usize)
    requires
        cap > 0,
    ensures
        final(m)@ == with_room(old(m)@, stamps(old(m)@), cap as nat),
        old(m)@.dom().len() <= cap ==> final(m)@.dom().len() < cap,
        final(m)@.dom().finite(),
{
    let n: usize = m.len();
    if n >= cap {
        match oldest_key(m) {
            Some(k) => {
                m.remove(&k);
            },
            None => {
                assert(m@.dom() =~= Set::empty());
                assert(m@.dom().len() == 0);
            },
        }
    }
}

// ---------------------------------------------------------------------------
// Entries that are too old
// ---------------------------------------------------------------------------
/// The entries whose time is less than `limit` ago.
pub open spec fn younger<K, V>(m: Map<K, V>, t: Map<K, u64>, now: u64, limit: u64) -> Map<K, V> {
    m.restrict(Set::new(|k: K| elapsed(t[k], now) < limit))
}

/// Keeps the entries whose time is less than `limit` ago.
pub fn keep_younger<K: MapKey, V: Stamped>(m: &mut KeyMap<K, V>, now: u64, limit: u64)
    ensures
        final(m)@ == younger(old(m)@, stamps(old(m)@), now, limit),
        old(m)@.dom().finite() ==> final(m)@.dom().len() <= old(m)@.dom().len(),
        final(m)@.dom().finite(),
{
    let ghost m0 = m@;
    let keys = m.keys();
    let _ = m.len();
    let mut i: usize = 0;
    while i < keys.len()
        invariant
            i <= keys@.len(),
            forall|k: K| #[trigger] keys@.contains(k) <==> m0.contains_key(k),
            forall|k: K| #[trigger]
                m@.contains_key(k) <==> m0.contains_key(k) && !(exists|j: int|
                    0 <= j < i && #[trigger] keys@[j] == k && elapsed(m0[k].stamp(), now) >= limit),
            forall|k: K| #[trigger] m@.contains_key(k) ==> m@[k] == m0[k],
        decreases keys@.len() - i,
    {
        let k = keys[i];
        let ghost before = m@;
        let old = match m.get(&k) {
            Some(v) => ms_since(v.get_stamp(), now) >= limit,
            None => false,
        };
        if old {
            m.remove(&k);
        }
        proof {
            assert(keys@[i as int] == k);
            assert(keys@.contains(k));
            assert forall|q: K| #[trigger] m@.contains_key(q) <==> m0.contains_key(q) && !(exists|
                j: int,
            |
                0 <= j < i + 1 && #[trigger] keys@[j] == q && elapsed(m0[q].stamp(), now)
                    >= limit) by {
                assert(before.contains_key(q) <==> m0.contains_key(q) && !(exists|j: int|
                    0 <= j < i && #[trigger] keys@[j] == q && elapsed(m0[q].stamp(), now)
                        >= limit));
            }
        }
        i = i + 1;
    }
    proof {
        let want = younger(m0, stamps(m0), now, limit);
        assert forall|k: K| m@.contains_key(k) <==> want.contains_key(k) by {
            if m0.contains_key(k) {
                assert(keys@.contains(k));
                let j = choose|j: int| 0 <= j < keys@.len() && keys@[j] == k;
                assert(keys@[j] == k);
            }
        }
        assert(m@ =~= want);
        assert(m@.dom().subset_of(m0.dom()));
        vstd::set_lib::lemma_len_subset(m@.dom(), m0.dom());
    }
}

// ---------------------------------------------------------------------------
// Claimants of one address
// ---------------------------------------------------------------------------
/// The entries that claim an address.
pub open spec fn claims_at(t: Map<Claim, u64>, addr: SocketAddr) -> Set<Claim> {
    t.dom().filter(|c: Claim| c.addr == addr)
}

pub open spec fn is_newest_at(t: Map<Claim, u64>, addr: SocketAddr, k: Claim) -> bool {
    &&& t.contains_key(k) && k.addr == addr
    &&& forall|j: Claim| #[trigger] t.contains_key(j) && j.addr == addr ==> no_newer(t, j, k)
}

/// The newest entry of an address.
pub open spec fn newest_at(t: Map<Claim, u64>, addr: SocketAddr) -> Claim {
    choose|k: Claim| is_newest_at(t, addr, k)
}

proof fn lemma_newest_at(t: Map<Claim, u64>, addr: SocketAddr, k: Claim)
    requires
        is_newest_at(t, addr, k),
    ensures
        newest_at(t, addr) == k,
{
    let o = newest_at(t, addr);
    assert(is_newest_at(t, addr, o));
    assert(no_newer(t, k, o) && no_newer(t, o, k));
    k.lemma_rank(o);
}

/// The table without so many of the newest entries of an address.
pub open spec fn without_newest(t: Map<Claim, u64>, addr: SocketAddr, n: nat) -> Map<Claim, u64>
    decreases n,
{
    if n == 0 {
        t
    } else {
        without_newest(t.remove(newest_at(t, addr)), addr, (n - 1) as nat)
    }
}

/// The table without so many of its oldest entries.
pub open spec fn without_oldest(t: Map<Claim, u64>, n: nat) -> Map<Claim, u64>
    decreases n,
{
    if n == 0 {
        t
    } else {
        without_oldest(t.remove(oldest(t)), (n - 1) as nat)
    }
}

pub open spec fn excess(n: nat, cap: nat) -> nat {
    if n > cap {
        (n - cap) as nat
    } else {
        0
    }
}

/// What is left of a table that keeps `per_addr` entries of an address, and
/// `total` of all: the newest of the address leave, then the oldest of all.
pub open spec fn trimmed(t: Map<Claim, u64>, addr: SocketAddr, per_addr: nat, total: nat) -> Map<
    Claim,
    u64,
> {
    let t1 = without_newest(t, addr, excess(claims_at(t, addr).len(), per_addr));
    without_oldest(t1, excess(t1.dom().len(), total))
}

fn list_claims<V>(m: &KeyMap<Claim, V>, addr: SocketAddr) -> (r: Vec<Claim>)
    ensures
        r@.no_duplicates(),
        forall|c: Claim| #[trigger] r@.contains(c) <==> m@.contains_key(c) && c.addr == addr,
{
    let keys = m.keys();
    let mut out: Vec<Claim> = Vec::new();
    let mut i: usize = 0;
    while i < keys.len()
        invariant
            i <= keys@.len(),
            forall|c: Claim| #[trigger] keys@.contains(c) <==> m@.contains_key(c),
            out@.no_duplicates(),
            forall|j: int|
                0 <= j < i && (#[trigger] keys@[j]).addr == addr ==> out@.contains(keys@[j]),
            forall|c: Claim| #[trigger] out@.contains(c) ==> m@.contains_key(c) && c.addr == addr,
        decreases keys@.len() - i,
    {
        let c = keys[i];
        if c.addr == addr {
            let ghost before = out@;
            if !has_claim(&out, &c) {
                assert(keys@.contains(c));
                out.push(c);
                proof {
                    assert(out@.drop_last() =~= before);
                    assert forall|q: Claim| #[trigger] out@.contains(q) implies before.contains(q)
                        || q == c by {
                        let j = choose|j: int| 0 <= j < out@.len() && out@[j] == q;
                        if j < before.len() {
                            assert(before[j] == q);
                        }
                    }
                    assert forall|q: Claim| #[trigger] before.contains(q) implies out@.contains(
                        q,
                    ) by {
                        let j = choose|j: int| 0 <= j < before.len() && before[j] == q;
                        assert(out@[j] == q);
                    }
                    assert(out@[out@.len() - 1] == c);
                }
            }
        }
        i = i + 1;
    }
    proof {
        assert forall|c: Claim| m@.contains_key(c) && c.addr == addr implies #[trigger] out@.contains(
            c,
        ) by {
            assert(keys@.contains(c));
            let j = choose|j: int| 0 <= j < keys@.len() && keys@[j] == c;
            assert(keys@[j].addr == addr);
        }
    }
    out
}

fn has_claim(v: &Vec<Claim>, c: &Claim) -> (r: bool)
    ensures
        r == v@.contains(*c),
{
    let mut i: usize = 0;
    while i < v.len()
        invariant
            i <= v@.len(),
            forall|j: int| 0 <= j < i ==> v@[j] != *c,
        decreases v@.len() - i,
    {
        if v[i].same(c) {
            return true;
        }
        i = i + 1;
    }
    false
}

fn newest_claim<V: Stamped>(m: &KeyMap<Claim, V>, list: &Vec<Claim>, addr: SocketAddr) -> (r: Claim)
    requires
        list@.len() > 0,
        forall|c: Claim| #[trigger] list@.contains(c) <==> m@.contains_key(c) && c.addr == addr,
    ensures
        r == newest_at(stamps(m@), addr),
        m@.contains_key(r),
        r.addr == addr,
{
    let mut best = list[0];
    let mut i: usize = 1;
    assert(list@.contains(list@[0]));
    while i < list.len()
        invariant
            1 <= i <= list@.len(),
            forall|c: Claim| #[trigger]
                list@.contains(c) <==> m@.contains_key(c) && c.addr == addr,
            m@.contains_key(best) && best.addr == addr,
            forall|j: int| 0 <= j < i ==> no_newer(stamps(m@), #[trigger] list@[j], best),
        decreases list@.len() - i,
    {
        assert(list@.contains(list@[i as int]));
        let k = list[i];
        if !no_newer_keys(m, &k, &best) {
            best = k;
        }
        i = i + 1;
    }
    proof {
        let t = stamps(m@);
        assert forall|j: Claim| #[trigger] t.contains_key(j) && j.addr == addr implies no_newer(
            t,
            j,
            best,
        ) by {
            assert(list@.contains(j));
            let n = choose|n: int| 0 <= n < list@.len() && list@[n] == j;
            assert(no_newer(t, list@[n], best));
        }
        lemma_newest_at(t, addr, best);
    }
    best
}

proof fn lemma_list_len(t: Map<Claim, u64>, addr: SocketAddr, list: Seq<Claim>)
    requires
        list.no_duplicates(),
        forall|c: Claim| #[trigger] list.contains(c) <==> t.contains_key(c) && c.addr == addr,
    ensures
        claims_at(t, addr).len() == list.len(),
        claims_at(t, addr).finite(),
{
    assert(list.to_set() =~= claims_at(t, addr));
    list.unique_seq_to_set();
}

/// Trims a table to `per_addr` entries of an address and `total` of all.
pub fn trim_claims<V: Stamped>(
    m: &mut KeyMap<Claim, V>,
    addr: SocketAddr,
    per_addr: usize,
    total: usize,
)
    ensures
        final(m)@ == old(m)@.restrict(
            trimmed(stamps(old(m)@), addr, per_addr as nat, total as nat).dom(),
        ),
        final(m)@.dom().finite(),
        final(m)@.dom().len() <= total,
{
    let ghost m0 = m@;
    let ghost t0 = stamps(m@);
    let ghost mut t = t0;
    let mut list = list_claims(m, addr);
    proof {
        assert(m0 =~= m0.restrict(t0.dom()));
        lemma_list_len(t, addr, list@);
    }
    let ghost goal = without_newest(t0, addr, excess(claims_at(t0, addr).len(), per_addr as nat));
    while list.len() > per_addr
        invariant
            t == stamps(m@),
            m@ == m0.restrict(t.dom()),
            list@.no_duplicates(),
            forall|c: Claim| #[trigger]
                list@.contains(c) <==> m@.contains_key(c) && c.addr == addr,
            list@.len() == claims_at(t, addr).len(),
            goal == without_newest(t, addr, excess(claims_at(t, addr).len(), per_addr as nat)),
        decreases list@.len(),
    {
        let k = newest_claim(m, &list, addr);
        let ghost n = list@.len();
        m.remove(&k);
        list = list_claims(m, addr);
        proof {
            let t2 = t.remove(k);
            assert(stamps(m@) =~= t2);
            assert(m@ =~= m0.restrict(t2.dom()));
            lemma_list_len(t2, addr, list@);
            assert(claims_at(t2, addr) =~= claims_at(t, addr).remove(k));
            assert(claims_at(t, addr).contains(k));
            assert(claims_at(t, addr).finite()) by {
                assert(claims_at(t, addr) =~= claims_at(t2, addr).insert(k));
            }
            t = t2;
        }
    }
    assert(t == goal);
    let ghost end = trimmed(t0, addr, per_addr as nat, total as nat);
    let mut n: usize = m.len();
    assert(m@.dom() =~= t.dom());
    while n > total
        invariant
            t == stamps(m@),
            m@ == m0.restrict(t.dom()),
            m@.dom().finite(),
            n == m@.dom().len(),
            n == t.dom().len(),
            end == without_oldest(t, excess(t.dom().len(), total as nat)),
        decreases n,
    {
        match oldest_key(m) {
            Some(k) => {
                m.remove(&k);
                proof {
                    let t2 = t.remove(k);
                    assert(stamps(m@) =~= t2);
                    assert(m@ =~= m0.restrict(t2.dom()));
                    assert(t.dom() =~= m@.dom().insert(k));
                    assert(t2.dom() =~= m@.dom());
                    t = t2;
                }
            },
            None => {
                assert(m@.dom().len() == 0);
            },
        }
        n = m.len();
    }
}

/// Among finitely many entries there is an oldest.
pub proof fn lemma_oldest_exists<K: Ranked>(t: Map<K, u64>)
    requires
        t.dom().finite(),
        t.dom().len() > 0,
    ensures
        is_oldest(t, oldest(t)),
    decreases t.dom().len(),
{
    let c = t.dom().choose();
    assert(t.dom().contains(c));
    let rest = t.remove(c);
    assert(rest.dom() =~= t.dom().remove(c));
    if rest.dom().len() == 0 {
        assert forall|j: K| #[trigger] t.contains_key(j) implies no_newer(t, c, j) by {
            if j != c {
                assert(rest.dom().contains(j));
                assert(rest.dom() =~= Set::empty());
            }
        }
        assert(is_oldest(t, c));
    } else {
        lemma_oldest_exists(rest);
        let o = oldest(rest);
        assert(rest.contains_key(o));
        let k = if no_newer(t, c, o) {
            c
        } else {
            o
        };
        assert forall|j: K| #[trigger] t.contains_key(j) implies no_newer(t, k, j) by {
            if j != c {
                assert(rest.contains_key(j));
                assert(no_newer(rest, o, j));
            }
        }
        assert(is_oldest(t, k));
    }
}

/// A table with fewer entries than it may have stays as it is. Of a full one exactly
/// one entry goes, and none that stays has an earlier time.
pub proof fn lemma_room_made<K: Ranked, V>(m: Map<K, V>, t: Map<K, u64>, cap: nat)
    requires
        m.dom().finite(),
        t.dom() == m.dom(),
        cap > 0,
    ensures
        m.dom().len() < cap ==> with_room(m, t, cap) == m,
        m.dom().len() >= cap ==> exists|k: K| #[trigger]
            m.contains_key(k) && with_room(m, t, cap) == m.remove(k) && (forall|j: K| #[trigger]
                m.contains_key(j) ==> t[k] <= t[j]),
{
    if m.dom().len() >= cap {
        lemma_oldest_exists(t);
        let k = oldest(t);
        assert(t.dom().contains(k));
        assert(m.contains_key(k));
        assert forall|j: K| #[trigger] m.contains_key(j) implies t[k] <= t[j] by {
            assert(t.dom().contains(j));
            assert(t.contains_key(j));
            assert(no_newer(t, k, j));
        }
    }
}

} // verus!
