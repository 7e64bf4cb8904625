//! A hash map for keys of any kind that can be digested and compared.
use vstd::prelude::*;

use std::collections::HashMap;
use vstd::std_specs::iter::IteratorSpec;

use crate::kad::types::{lemma_seq_to_16, seq_to_16, KadId};
use crate::net::{IpAddr, SocketAddr};

verus! {

/// A key: a digest picks its bucket, and comparison tells it from the others
/// there. An identifier of sixteen bytes is its own digest, so that each has a
/// bucket to itself.
pub trait MapKey: Copy {
    spec fn digest_of(self) -> u128;

    fn digest(&self) -> (r: u128)
        ensures
            r == self.digest_of(),
    ;

    fn same(&self, other: &Self) -> (r: bool)
        ensures
            r == (*self == *other),
    ;
}

/// The value of a key in a bucket.
pub open spec fn bucket_get<K, V>(s: Seq<(K, V)>, k: K) -> Option<V>
    decreases s.len(),
{
    if s.len() == 0 {
        None
    } else if s.last().0 == k {
        Some(s.last().1)
    } else {
        bucket_get(s.drop_last(), k)
    }
}

/// The keys of a bucket belong there, each once.
pub open spec fn bucket_ok<K: MapKey, V>(s: Seq<(K, V)>, d: u128) -> bool {
    &&& forall|i: int| 0 <= i < s.len() ==> (#[trigger] s[i]).0.digest_of() == d
    &&& forall|i: int, j: int|
        #![trigger s[i], s[j]]
        0 <= i < j < s.len() ==> s[i].0 != s[j].0
}

/// A map from keys to values.
#[verifier::reject_recursive_types(K)]
#[verifier::reject_recursive_types(V)]
pub struct KeyMap<K: MapKey, V> {
    buckets: HashMap<u128, Vec<(K, V)>>,
    count: usize,
    model: Ghost<Map<K, V>>,
}

proof fn lemma_bucket_get<K, V>(s: Seq<(K, V)>, i: int)
    requires
        0 <= i < s.len(),
        forall|a: int, b: int|
            #![trigger s[a], s[b]]
            0 <= a < b < s.len() ==> s[a].0 != s[b].0,
    ensures
        bucket_get(s, s[i].0) == Some(s[i].1),
    decreases s.len(),
{
    if i < s.len() - 1 {
        assert(s[i].0 != s[s.len() - 1].0);
        let t = s.drop_last();
        assert forall|a: int, b: int|
            #![trigger t[a], t[b]]
            0 <= a < b < t.len() implies t[a].0 != t[b].0 by {
            assert(t[a] == s[a] && t[b] == s[b]);
        }
        lemma_bucket_get(t, i);
        assert(t[i] == s[i]);
    }
}

proof fn lemma_bucket_get_none<K, V>(s: Seq<(K, V)>, k: K)
    requires
        forall|i: int| 0 <= i < s.len() ==> (#[trigger] s[i]).0 != k,
    ensures
        bucket_get(s, k) is None,
    decreases s.len(),
{
    if s.len() > 0 {
        assert(s[s.len() - 1].0 != k);
        let t = s.drop_last();
        assert forall|i: int| 0 <= i < t.len() implies (#[trigger] t[i]).0 != k by {
            assert(t[i] == s[i]);
        }
        lemma_bucket_get_none(t, k);
    }
}

impl<K: MapKey, V> View for KeyMap<K, V> {
    type V = Map<K, V>;

    closed spec fn view(&self) -> Map<K, V> {
        self.model@
    }
}

/// A map with a value set. One with as many keys as the machine can count
/// takes no more.
pub open spec fn put<K, V>(m: Map<K, V>, k: K, v: V) -> Map<K, V> {
    if m.contains_key(k) || m.dom().len() < usize::MAX {
        m.insert(k, v)
    } else {
        m
    }
}

/// The bucket of a digest; empty where there is none.
spec fn bucket_at<K: MapKey, V>(m: Map<u128, Vec<(K, V)>>, d: u128) -> Seq<(K, V)> {
    if m.contains_key(d) {
        m[d]@
    } else {
        Seq::empty()
    }
}

impl<K: MapKey, V> KeyMap<K, V> {
    #[verifier::type_invariant]
    spec fn inv(&self) -> bool {
        &&& forall|d: u128| #[trigger]
            self.buckets@.contains_key(d) ==> bucket_ok(self.buckets@[d]@, d)
        &&& forall|k: K| #[trigger]
            self.model@.contains_key(k) ==> bucket_get(
                bucket_at(self.buckets@, k.digest_of()),
                k,
            ) == Some(self.model@[k])
        &&& forall|k: K|
            !#[trigger] self.model@.contains_key(k) ==> bucket_get(
                bucket_at(self.buckets@, k.digest_of()),
                k,
            ) is None
        &&& self.model@.dom().finite()
        &&& self.count == self.model@.dom().len()
    }

    pub fn new() -> (r: KeyMap<K, V>)
        ensures
            r@ == Map::<K, V>::empty(),
    {
        broadcast use vstd::std_specs::hash::group_hash_axioms;

        KeyMap { buckets: HashMap::new(), count: 0, model: Ghost(Map::empty()) }
    }

    /// How many keys there are.
    pub fn len(&self) -> (n: usize)
        ensures
            n == self@.dom().len(),
            self@.dom().finite(),
    {
        proof {
            use_type_invariant(self);
        }
        self.count
    }

    /// The value of a key.
    pub fn get(&self, k: &K) -> (r: Option<&V>)
        ensures
            match r {
                Some(v) => self@.contains_key(*k) && *v == self@[*k],
                None => !self@.contains_key(*k),
            },
    {
        broadcast use vstd::std_specs::hash::group_hash_axioms;

        proof {
            use_type_invariant(self);
        }
        let d: u128 = k.digest();
        match self.buckets.get(&d) {
            None => None,
            Some(b) => {
                let mut i: usize = 0;
                while i < b.len()
                    invariant
                        i <= b@.len(),
                        bucket_ok(b@, d),
                        d == k.digest_of(),
                        self.buckets@.contains_key(d),
                        self.buckets@[d]@ == b@,
                        self.model@.contains_key(*k) ==> bucket_get(b@, *k) == Some(
                            self.model@[*k],
                        ),
                        !self.model@.contains_key(*k) ==> bucket_get(b@, *k) is None,
                        forall|j: int| 0 <= j < i ==> (#[trigger] b@[j]).0 != *k,
                    decreases b@.len() - i,
                {
                    if b[i].0.same(k) {
                        proof {
                            lemma_bucket_get(b@, i as int);
                        }
                        return Some(&b[i].1);
                    }
                    i = i + 1;
                }
                proof {
                    lemma_bucket_get_none(b@, *k);
                }
                None
            },
        }
    }

    pub fn contains_key(&self, k: &K) -> (r: bool)
        ensures
            r == self@.contains_key(*k),
    {
        self.get(k).is_some()
    }

    /// Takes a key out.
    pub fn remove(&mut self, k: &K) -> (r: Option<V>)
        ensures
            final(self)@ == old(self)@.remove(*k),
            match r {
                Some(v) => old(self)@.contains_key(*k) && v == old(self)@[*k],
                None => !old(self)@.contains_key(*k),
            },
    {
        broadcast use vstd::std_specs::hash::group_hash_axioms;

        proof {
            use_type_invariant(&*self);
        }
        let d: u128 = k.digest();
        let mut taken = KeyMap::new();
        std::mem::swap(&mut taken, self);
        proof {
            use_type_invariant(&taken);
        }
        let KeyMap { buckets: mut buckets, count, model } = taken;
        let ghost m = model@;
        let ghost bs = buckets@;
        match buckets.remove(&d) {
            None => {
                proof {
                    assert(buckets@ =~= bs);
                    assert(bucket_at(bs, d) == Seq::<(K, V)>::empty());
                    assert(!m.contains_key(*k));
                    assert(m.remove(*k) =~= m);
                }
                *self = KeyMap { buckets, count, model };
                None
            },
            Some(mut b) => {
                let mut i: usize = 0;
                let ghost s = b@;
                while i < b.len()
                    invariant
                        i <= b@.len(),
                        b@ == s,
                        forall|j: int| 0 <= j < i ==> (#[trigger] s[j]).0 != *k,
                    ensures
                        i <= b@.len(),
                        b@ == s,
                        forall|j: int| 0 <= j < i ==> (#[trigger] s[j]).0 != *k,
                        i < s.len() ==> s[i as int].0 == *k,
                    decreases b@.len() - i,
                {
                    if b[i].0.same(k) {
                        break ;
                    }
                    i = i + 1;
                }
                if i < b.len() {
                    let (key, v) = b.remove(i);
                    proof {
                        lemma_bucket_remove(s, i as int, d);
                        lemma_bucket_get(s, i as int);
                        assert(m.contains_key(*k));
                    }
                    buckets.insert(d, b);
                    let ghost m2 = m.remove(*k);
                    proof {
                        assert forall|q: K| #[trigger] m2.contains_key(q) implies bucket_get(
                            bucket_at(buckets@, q.digest_of()),
                            q,
                        ) == Some(m2[q]) by {
                            assert(m.contains_key(q));
                        }
                        assert forall|q: K| !#[trigger] m2.contains_key(q) implies bucket_get(
                            bucket_at(buckets@, q.digest_of()),
                            q,
                        ) is None by {
                            if q != *k {
                                assert(!m.contains_key(q));
                            }
                        }
                        assert(m2.dom() =~= m.dom().remove(*k));
                    }
                    *self = KeyMap { buckets, count: count - 1, model: Ghost(m2) };
                    Some(v)
                } else {
                    proof {
                        lemma_bucket_get_none(s, *k);
                        assert(!m.contains_key(*k));
                        assert(m.remove(*k) =~= m);
                    }
                    buckets.insert(d, b);
                    proof {
                        assert forall|q: u128| bucket_at(buckets@, q) == bucket_at(bs, q) by {}
                        assert forall|q: K| #[trigger] m.contains_key(q) implies bucket_get(
                            bucket_at(buckets@, q.digest_of()),
                            q,
                        ) == Some(m[q]) by {
                            assert(bucket_at(buckets@, q.digest_of()) == bucket_at(
                                bs,
                                q.digest_of(),
                            ));
                        }
                        assert forall|q: K| !#[trigger] m.contains_key(q) implies bucket_get(
                            bucket_at(buckets@, q.digest_of()),
                            q,
                        ) is None by {
                            assert(bucket_at(buckets@, q.digest_of()) == bucket_at(
                                bs,
                                q.digest_of(),
                            ));
                        }
                    }
                    *self = KeyMap { buckets, count, model };
                    None
                }
            },
        }
    }

    /// Sets the value of a key.
    pub fn insert(&mut self, k: K, v: V)
        ensures
            final(self)@ == put(old(self)@, k, v),
    {
        broadcast use vstd::std_specs::hash::group_hash_axioms;

        let ghost m0 = self@;
        proof {
            use_type_invariant(&*self);
        }
        if self.count == usize::MAX && !self.contains_key(&k) {
            return ;
        }
        let _ = self.remove(&k);
        proof {
            use_type_invariant(&*self);
            assert(m0.contains_key(k) ==> m0.remove(k).dom() =~= m0.dom().remove(k));
            assert(!m0.contains_key(k) ==> m0.remove(k).dom() =~= m0.dom());
        }
        let d: u128 = k.digest();
        let mut taken = KeyMap::new();
        std::mem::swap(&mut taken, self);
        proof {
            use_type_invariant(&taken);
        }
        let KeyMap { buckets: mut buckets, count, model } = taken;
        let ghost m = model@;
        let ghost bs = buckets@;
        let mut b = match buckets.remove(&d) {
            Some(b) => b,
            None => Vec::new(),
        };
        let ghost s = b@;
        proof {
            assert(s =~= bucket_at(bs, d));
            assert(!m.contains_key(k));
            assert(bucket_get(s, k) is None);
            assert(bucket_ok(s, d));
            lemma_bucket_push(s, k, v, d);
        }
        b.push((k, v));
        buckets.insert(d, b);
        let ghost m2 = m.insert(k, v);
        proof {
            assert(m2 =~= m0.insert(k, v));
            assert(m2.dom() =~= m.dom().insert(k));
            assert forall|q: K| #[trigger] m2.contains_key(q) implies bucket_get(
                bucket_at(buckets@, q.digest_of()),
                q,
            ) == Some(m2[q]) by {
                if q != k {
                    assert(m.contains_key(q));
                }
            }
            assert forall|q: K| !#[trigger] m2.contains_key(q) implies bucket_get(
                bucket_at(buckets@, q.digest_of()),
                q,
            ) is None by {
                assert(!m.contains_key(q));
            }
        }
        *self = KeyMap { buckets, count: count + 1, model: Ghost(m2) };
    }

    /// All keys, each once, in no particular order.
    pub fn keys(&self) -> (r: Vec<K>)
        ensures
            forall|k: K| #[trigger] r@.contains(k) <==> self@.contains_key(k),
            r@.no_duplicates(),
    {
        broadcast use vstd::std_specs::hash::group_hash_axioms;

        proof {
            use_type_invariant(self);
        }
        let digests = digests_of(&self.buckets);
        let mut out: Vec<K> = Vec::new();
        let mut n: usize = 0;
        while n < digests.len()
            invariant
                n <= digests@.len(),
                forall|q: u128| #[trigger] digests@.contains(q) <==> self.buckets@.contains_key(q),
                digests@.no_duplicates(),
                forall|q: u128| #[trigger]
                    self.buckets@.contains_key(q) ==> bucket_ok(self.buckets@[q]@, q),
                forall|k: K| #[trigger]
                    out@.contains(k) <==> in_buckets(self.buckets@, digests@.take(n as int), k),
                out@.no_duplicates(),
            decreases digests@.len() - n,
        {
            broadcast use vstd::std_specs::hash::group_hash_axioms;

            let d: u128 = digests[n];
            let ghost before = out@;
            assert(digests@.contains(digests@[n as int]));
            if let Some(b) = self.buckets.get(&d) {
                proof {
                    assert forall|k: K| in_bucket(b@, k) implies !before.contains(k) by {
                        let t = digests@.take(n as int);
                        if in_buckets(self.buckets@, t, k) {
                            let j = choose|j: int|
                                0 <= j < t.len() && in_bucket(
                                    self.buckets@[#[trigger] t[j]]@,
                                    k,
                                );
                            assert(digests@.contains(digests@[j]));
                            let q = self.buckets@[t[j]]@;
                            let c = choose|c: int| 0 <= c < q.len() && (#[trigger] q[c]).0 == k;
                            let e = choose|e: int| 0 <= e < b@.len() && (#[trigger] b@[e]).0 == k;
                            assert(q[c].0.digest_of() == t[j]);
                            assert(b@[e].0.digest_of() == d);
                            assert(digests@[j] == digests@[n as int]);
                        }
                    }
                }
                append_keys(&mut out, b);
                proof {
                    let t = digests@.take(n as int);
                    let t2 = digests@.take(n as int + 1);
                    assert forall|k: K| #[trigger] out@.contains(k) <==> in_buckets(
                        self.buckets@,
                        t2,
                        k,
                    ) by {
                        assert(before.contains(k) <==> in_buckets(self.buckets@, t, k));
                        if in_buckets(self.buckets@, t, k) {
                            let j = choose|j: int|
                                0 <= j < t.len() && in_bucket(
                                    self.buckets@[#[trigger] t[j]]@,
                                    k,
                                );
                            assert(t2[j] == t[j]);
                        }
                        if in_bucket(b@, k) {
                            assert(t2[n as int] == d);
                            assert(in_bucket(self.buckets@[t2[n as int]]@, k));
                        }
                        if in_buckets(self.buckets@, t2, k) {
                            let j = choose|j: int|
                                0 <= j < t2.len() && in_bucket(
                                    self.buckets@[#[trigger] t2[j]]@,
                                    k,
                                );
                            if j < n {
                                assert(t[j] == t2[j]);
                            }
                        }
                    }
                }
            }
            n = n + 1;
        }
        proof {
            assert(digests@.take(n as int) =~= digests@);
            assert forall|k: K| #[trigger] out@.contains(k) <==> self@.contains_key(k) by {
                let d = k.digest_of();
                let s = bucket_at(self.buckets@, d);
                lemma_in_bucket(s, k);
                if self@.contains_key(k) {
                    assert(bucket_get(s, k) is Some);
                    assert(self.buckets@.contains_key(d));
                    assert(digests@.contains(d));
                    let j = choose|j: int| 0 <= j < digests@.len() && digests@[j] == d;
                    assert(in_bucket(self.buckets@[digests@[j]]@, k));
                }
                if in_buckets(self.buckets@, digests@, k) {
                    let j = choose|j: int|
                        0 <= j < digests@.len() && in_bucket(
                            self.buckets@[#[trigger] digests@[j]]@,
                            k,
                        );
                    assert(digests@.contains(digests@[j]));
                    let t = self.buckets@[digests@[j]]@;
                    let c = choose|c: int| 0 <= c < t.len() && (#[trigger] t[c]).0 == k;
                    assert(t[c].0.digest_of() == digests@[j]);
                }
            }
        }
        out
    }
}

/// Whether a key is in one of the buckets of some digests.
spec fn in_buckets<K, V>(m: Map<u128, Vec<(K, V)>>, ds: Seq<u128>, k: K) -> bool {
    exists|j: int| 0 <= j < ds.len() && in_bucket(m[#[trigger] ds[j]]@, k)
}

fn digests_of<T>(m: &HashMap<u128, T>) -> (r: Vec<u128>)
    ensures
        forall|q: u128| #[trigger] r@.contains(q) <==> m@.contains_key(q),
        r@.no_duplicates(),
{
    broadcast use vstd::std_specs::hash::group_hash_axioms;

    let mut out: Vec<u128> = Vec::new();
    let ghost all = vstd::std_specs::hash::spec_keys_iter(m).remaining().unref();
    for d in it: m.keys()
        invariant
            it.seq().unref() == all,
            out@ == all.take(it.index() as int),
    {
        assert(all[it.index() as int] == *d);
        out.push(*d);
        assert(out@ =~= all.take(it.index() as int + 1));
    }
    assert(out@ =~= all);
    assert(all.to_set() == m@.dom());
    assert(all.no_duplicates()) by {
        let refs = vstd::std_specs::hash::spec_keys_iter(m).remaining();
        assert(refs.no_duplicates());
        assert forall|i: int, j: int| 0 <= i < j < all.len() implies all[i] != all[j] by {
            assert(refs[i] != refs[j]);
        }
    }
    assert forall|q: u128| #[trigger] out@.contains(q) <==> m@.contains_key(q) by {
        assert(all.to_set().contains(q) <==> m@.dom().contains(q));
    }
    out
}

fn append_keys<K: MapKey, V>(out: &mut Vec<K>, b: &Vec<(K, V)>)
    requires
        old(out)@.no_duplicates(),
        forall|i: int, j: int|
            #![trigger b@[i], b@[j]]
            0 <= i < j < b@.len() ==> b@[i].0 != b@[j].0,
        forall|k: K| in_bucket(b@, k) ==> !#[trigger] old(out)@.contains(k),
    ensures
        final(out)@.no_duplicates(),
        forall|k: K| #[trigger]
            final(out)@.contains(k) <==> old(out)@.contains(k) || in_bucket(b@, k),
{
    let ghost before = out@;
    let mut i: usize = 0;
    assert forall|k: K| #[trigger] out@.contains(k) <==> before.contains(k) || in_bucket(
        b@.take(0),
        k,
    ) by {}
    while i < b.len()
        invariant
            i <= b@.len(),
            forall|k: K| #[trigger]
                out@.contains(k) <==> before.contains(k) || in_bucket(b@.take(i as int), k),
            out@.no_duplicates(),
            forall|x: int, y: int|
                #![trigger b@[x], b@[y]]
                0 <= x < y < b@.len() ==> b@[x].0 != b@[y].0,
            forall|k: K| in_bucket(b@, k) ==> !#[trigger] before.contains(k),
        decreases b@.len() - i,
    {
        let x = b[i].0;
        let ghost mid = out@;
        proof {
            assert(!mid.contains(x)) by {
                assert(b@[i as int].0 == x);
                assert(in_bucket(b@, x));
                let t = b@.take(i as int);
                if in_bucket(t, x) {
                    let c = choose|c: int| 0 <= c < t.len() && (#[trigger] t[c]).0 == x;
                    assert(b@[c].0 == b@[i as int].0);
                }
            }
        }
        out.push(x);
        proof {
            let t = b@.take(i as int);
            let t2 = b@.take(i as int + 1);
            assert forall|k: K| #[trigger] out@.contains(k) <==> before.contains(k) || in_bucket(
                t2,
                k,
            ) by {
                assert(mid.contains(k) <==> before.contains(k) || in_bucket(t, k));
                if out@.contains(k) {
                    let p = choose|p: int| 0 <= p < out@.len() && out@[p] == k;
                    if p < mid.len() {
                        assert(mid[p] == k);
                    } else {
                        assert(t2[i as int].0 == k);
                    }
                }
                if mid.contains(k) {
                    let p = choose|p: int| 0 <= p < mid.len() && mid[p] == k;
                    assert(out@[p] == k);
                }
                if in_bucket(t, k) {
                    let c = choose|c: int| 0 <= c < t.len() && (#[trigger] t[c]).0 == k;
                    assert(t2[c].0 == k);
                }
                if in_bucket(t2, k) {
                    let c = choose|c: int| 0 <= c < t2.len() && (#[trigger] t2[c]).0 == k;
                    if c < i {
                        assert(t[c].0 == k);
                    } else {
                        assert(out@[mid.len() as int] == k);
                    }
                }
            }
        }
        i = i + 1;
    }
    assert(b@.take(i as int) =~= b@);
}

/// Whether a key is in a bucket.
spec fn in_bucket<K, V>(s: Seq<(K, V)>, k: K) -> bool {
    exists|i: int| 0 <= i < s.len() && (#[trigger] s[i]).0 == k
}

proof fn lemma_in_bucket<K, V>(s: Seq<(K, V)>, k: K)
    ensures
        in_bucket(s, k) <==> bucket_get(s, k) is Some,
    decreases s.len(),
{
    if s.len() > 0 {
        lemma_in_bucket(s.drop_last(), k);
        let t = s.drop_last();
        if in_bucket(s, k) {
            let i = choose|i: int| 0 <= i < s.len() && (#[trigger] s[i]).0 == k;
            if i < t.len() {
                assert(t[i].0 == k);
            }
        }
        if in_bucket(t, k) {
            let i = choose|i: int| 0 <= i < t.len() && (#[trigger] t[i]).0 == k;
            assert(s[i].0 == k);
        }
        if s.last().0 == k {
            assert(s[s.len() - 1].0 == k);
        }
    }
}

proof fn lemma_bucket_remove<K: MapKey, V>(s: Seq<(K, V)>, i: int, d: u128)
    requires
        bucket_ok(s, d),
        0 <= i < s.len(),
    ensures
        bucket_ok(s.remove(i), d),
        bucket_get(s.remove(i), s[i].0) is None,
        forall|q: K| q != s[i].0 ==> #[trigger] bucket_get(s.remove(i), q) == bucket_get(s, q),
{
    let t = s.remove(i);
    assert forall|a: int| 0 <= a < t.len() implies (#[trigger] t[a]).0.digest_of() == d && t[a].0
        != s[i].0 by {
        let a2 = if a < i {
            a
        } else {
            a + 1
        };
        assert(t[a] == s[a2]);
    }
    assert forall|a: int, b: int|
        #![trigger t[a], t[b]]
        0 <= a < b < t.len() implies t[a].0 != t[b].0 by {
        let a2 = if a < i {
            a
        } else {
            a + 1
        };
        let b2 = if b < i {
            b
        } else {
            b + 1
        };
        assert(t[a] == s[a2] && t[b] == s[b2]);
    }
    lemma_bucket_get_none(t, s[i].0);
    assert forall|q: K| q != s[i].0 implies #[trigger] bucket_get(t, q) == bucket_get(s, q) by {
        lemma_in_bucket(s, q);
        lemma_in_bucket(t, q);
        if in_bucket(s, q) {
            let a = choose|a: int| 0 <= a < s.len() && (#[trigger] s[a]).0 == q;
            let a2 = if a < i {
                a
            } else {
                a - 1
            };
            assert(t[a2] == s[a]);
            lemma_bucket_get(s, a);
            lemma_bucket_get(t, a2);
        } else if in_bucket(t, q) {
            let a = choose|a: int| 0 <= a < t.len() && (#[trigger] t[a]).0 == q;
            let a2 = if a < i {
                a
            } else {
                a + 1
            };
            assert(s[a2].0 == q);
        }
    }
}

proof fn lemma_bucket_push<K: MapKey, V>(s: Seq<(K, V)>, k: K, v: V, d: u128)
    requires
        bucket_ok(s, d),
        k.digest_of() == d,
        bucket_get(s, k) is None,
    ensures
        bucket_ok(s.push((k, v)), d),
        bucket_get(s.push((k, v)), k) == Some(v),
        forall|q: K| q != k ==> #[trigger] bucket_get(s.push((k, v)), q) == bucket_get(s, q),
{
    let t = s.push((k, v));
    lemma_in_bucket(s, k);
    assert forall|a: int, b: int|
        #![trigger t[a], t[b]]
        0 <= a < b < t.len() implies t[a].0 != t[b].0 by {
        assert(t[a] == s[a]);
        if b < s.len() {
            assert(t[b] == s[b]);
        } else {
            assert(!in_bucket(s, k));
        }
    }
    assert(t.drop_last() =~= s);
}

// ---------------------------------------------------------------------------
// Keys
// ---------------------------------------------------------------------------
/// The first sixteen bytes as one number.
pub open spec fn word_of(b: Seq<u8>) -> u128 {
    KadId(seq_to_16(b.take(16))).val()
}

/// The first sixteen bytes as one number.
pub fn word(b: &[u8]) -> (r: u128)
    requires
        b@.len() >= 16,
    ensures
        r == word_of(b@),
{
    let a: [u8; 16] = [
        b[0], b[1], b[2], b[3], b[4], b[5], b[6], b[7], b[8], b[9], b[10], b[11], b[12], b[13],
        b[14], b[15],
    ];
    proof {
        assert(a@ =~= b@.take(16));
        lemma_seq_to_16(a);
    }
    KadId(a).to_u128()
}

impl MapKey for u64 {
    open spec fn digest_of(self) -> u128 {
        self as u128
    }

    fn digest(&self) -> (r: u128) {
        *self as u128
    }

    fn same(&self, other: &Self) -> (r: bool) {
        *self == *other
    }
}

impl MapKey for u32 {
    open spec fn digest_of(self) -> u128 {
        self as u128
    }

    fn digest(&self) -> (r: u128) {
        *self as u128
    }

    fn same(&self, other: &Self) -> (r: bool) {
        *self == *other
    }
}

impl MapKey for IpAddr {
    open spec fn digest_of(self) -> u128 {
        match self {
            IpAddr::V4(a) => a.bits as u128,
            IpAddr::V6(x) => x,
        }
    }

    fn digest(&self) -> (r: u128) {
        match self {
            IpAddr::V4(a) => a.bits as u128,
            IpAddr::V6(x) => *x,
        }
    }

    fn same(&self, other: &Self) -> (r: bool) {
        *self == *other
    }
}

/// An address with an opcode.
#[derive(Clone, Copy, Debug, PartialEq, Eq, Hash, Structural)]
pub struct IpOp {
    pub ip: IpAddr,
    pub op: u8,
}

impl MapKey for IpOp {
    open spec fn digest_of(self) -> u128 {
        self.ip.digest_of().wrapping_mul(256).wrapping_add(self.op as u128)
    }

    fn digest(&self) -> (r: u128) {
        self.ip.digest().wrapping_mul(256).wrapping_add(self.op as u128)
    }

    fn same(&self, other: &Self) -> (r: bool) {
        *self == *other
    }
}

impl MapKey for SocketAddr {
    open spec fn digest_of(self) -> u128 {
        self.ip.digest_of().wrapping_mul(0x1_0000).wrapping_add(self.port as u128)
    }

    fn digest(&self) -> (r: u128) {
        self.ip.digest().wrapping_mul(0x1_0000).wrapping_add(self.port as u128)
    }

    fn same(&self, other: &Self) -> (r: bool) {
        *self == *other
    }
}

} // verus!
