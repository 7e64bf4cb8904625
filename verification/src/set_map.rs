//! A map from keys to sets.
use vstd::prelude::*;

use crate::key_map::{KeyMap, MapKey};

verus! {

/// A map from keys to sets.
#[verifier::reject_recursive_types(K)]
#[verifier::reject_recursive_types(E)]
pub struct SetMap<K: MapKey, E: MapKey> {
    lists: KeyMap<K, Vec<E>>,
}

spec fn sets_of<K, E>(m: Map<K, Vec<E>>) -> Map<K, Set<E>> {
    Map::new(|k: K| m.contains_key(k), |k: K| m[k]@.to_set())
}

impl<K: MapKey, E: MapKey> View for SetMap<K, E> {
    type V = Map<K, Set<E>>;

    closed spec fn view(&self) -> Map<K, Set<E>> {
        sets_of(self.lists@)
    }
}

/// The set of a key; empty where there is none.
pub open spec fn set_at<K, E>(m: Map<K, Set<E>>, k: K) -> Set<E> {
    if m.contains_key(k) {
        m[k]
    } else {
        Set::empty()
    }
}

/// The map with one element more.
pub open spec fn with_element<K, E>(m: Map<K, Set<E>>, k: K, e: E) -> Map<K, Set<E>> {
    m.insert(k, set_at(m, k).insert(e))
}

/// The map with one element less. A set that is left empty goes with it.
pub open spec fn without_element<K, E>(m: Map<K, Set<E>>, k: K, e: E) -> Map<K, Set<E>> {
    if !m.contains_key(k) {
        m
    } else if m[k].remove(e) =~= Set::empty() {
        m.remove(k)
    } else {
        m.insert(k, m[k].remove(e))
    }
}

impl<K: MapKey, E: MapKey> SetMap<K, E> {
    #[verifier::type_invariant]
    spec fn inv(&self) -> bool {
        forall|k: K| #[trigger] self.lists@.contains_key(k) ==> self.lists@[k]@.no_duplicates()
    }

    pub fn new() -> (r: SetMap<K, E>)
        ensures
            r@ == Map::<K, Set<E>>::empty(),
    {
        let r = SetMap { lists: KeyMap::new() };
        assert(r@ =~= Map::empty());
        r
    }

    /// How many keys there are.
    pub fn len(&self) -> (n: usize)
        ensures
            n == self@.dom().len(),
            self@.dom().finite(),
    {
        assert(self@.dom() =~= self.lists@.dom());
        self.lists.len()
    }

    pub fn contains_key(&self, k: &K) -> (r: bool)
        ensures
            r == self@.contains_key(*k),
    {
        self.lists.contains_key(k)
    }

    /// All keys, each once, in no particular order.
    pub fn keys(&self) -> (r: Vec<K>)
        ensures
            forall|k: K| #[trigger] r@.contains(k) <==> self@.contains_key(k),
            r@.no_duplicates(),
    {
        let r = self.lists.keys();
        assert forall|k: K| #[trigger] r@.contains(k) <==> self@.contains_key(k) by {
            assert(r@.contains(k) <==> self.lists@.contains_key(k));
        }
        r
    }

    /// The elements of a key, each once, in no particular order.
    pub fn members(&self, k: &K) -> (r: Option<&Vec<E>>)
        ensures
            match r {
                Some(v) => self@.contains_key(*k) && v@.no_duplicates() && v@.to_set() == self@[*k]
                    && v@.len() == self@[*k].len() && self@[*k].finite(),
                None => !self@.contains_key(*k),
            },
    {
        proof {
            use_type_invariant(self);
        }
        match self.lists.get(k) {
            Some(v) => {
                proof {
                    v@.unique_seq_to_set();
                }
                Some(v)
            },
            None => None,
        }
    }

    /// Puts an element into the set of a key.
    pub fn put(&mut self, k: K, e: E)
        requires
            old(self)@.contains_key(k) || old(self)@.dom().len() < usize::MAX,
        ensures
            final(self)@ == with_element(old(self)@, k, e),
    {
        let mut taken = SetMap::new();
        std::mem::swap(&mut taken, self);
        proof {
            use_type_invariant(&taken);
        }
        let SetMap { lists: mut lists } = taken;
        let ghost m = lists@;
        let _ = lists.len();
        let mut v = match lists.remove(&k) {
            Some(v) => v,
            None => Vec::new(),
        };
        let ghost before = v@;
        proof {
            assert(sets_of(m).dom() =~= m.dom());
            assert(before.to_set() =~= set_at(sets_of(m), k));
            if !m.contains_key(k) {
                assert(m.remove(k) =~= m);
            }
        }
        if !holds(&v, &e) {
            v.push(e);
            assert(v@.to_set() =~= before.to_set().insert(e)) by {
                lemma_push_set(before, e);
            }
        } else {
            assert(before.to_set().insert(e) =~= before.to_set());
        }
        lists.insert(k, v);
        *self = SetMap { lists };
        assert(self@ =~= with_element(sets_of(m), k, e));
    }

    /// Takes an element out of the set of a key.
    pub fn take(&mut self, k: &K, e: &E)
        ensures
            final(self)@ == without_element(old(self)@, *k, *e),
    {
        let mut taken = SetMap::new();
        std::mem::swap(&mut taken, self);
        proof {
            use_type_invariant(&taken);
        }
        let SetMap { lists: mut lists } = taken;
        let ghost m = lists@;
        let _ = lists.len();
        match lists.remove(k) {
            Some(v) => {
                let kept = all_but(&v, e);
                if kept.len() > 0 {
                    proof {
                        assert(kept@.to_set().contains(kept@[0]));
                        assert(kept@.to_set() =~= m[*k]@.to_set().remove(*e));
                    }
                    lists.insert(*k, kept);
                } else {
                    assert(kept@.to_set() =~= Set::empty());
                    assert(m[*k]@.to_set().remove(*e) =~= kept@.to_set());
                }
            },
            None => {
                assert(m.remove(*k) =~= m);
            },
        }
        *self = SetMap { lists };
        assert(self@ =~= without_element(sets_of(m), *k, *e));
    }
}

proof fn lemma_push_set<E>(s: Seq<E>, e: E)
    ensures
        s.push(e).to_set() == s.to_set().insert(e),
{
    let t = s.push(e);
    assert forall|x: E| t.contains(x) <==> s.contains(x) || x == e by {
        if t.contains(x) {
            let j = choose|j: int| 0 <= j < t.len() && t[j] == x;
            if j < s.len() {
                assert(s[j] == x);
            }
        }
        if s.contains(x) {
            let j = choose|j: int| 0 <= j < s.len() && s[j] == x;
            assert(t[j] == x);
        }
        assert(t[s.len() as int] == e);
    }
    assert(t.to_set() =~= s.to_set().insert(e));
}

fn holds<E: MapKey>(v: &Vec<E>, e: &E) -> (r: bool)
    ensures
        r == v@.contains(*e),
{
    let mut i: usize = 0;
    while i < v.len()
        invariant
            i <= v@.len(),
            forall|j: int| 0 <= j < i ==> v@[j] != *e,
        decreases v@.len() - i,
    {
        if v[i].same(e) {
            return true;
        }
        i = i + 1;
    }
    false
}

fn all_but<E: MapKey>(v: &Vec<E>, e: &E) -> (r: Vec<E>)
    requires
        v@.no_duplicates(),
    ensures
        r@.no_duplicates(),
        r@.to_set() == v@.to_set().remove(*e),
{
    let mut out: Vec<E> = Vec::new();
    let mut i: usize = 0;
    assert(v@.take(0).to_set() =~= Set::empty());
    assert(out@.to_set() =~= v@.take(0).to_set().remove(*e));
    while i < v.len()
        invariant
            i <= v@.len(),
            v@.no_duplicates(),
            out@.no_duplicates(),
            out@.to_set() == v@.take(i as int).to_set().remove(*e),
        decreases v@.len() - i,
    {
        let x = v[i];
        let ghost part = v@.take(i as int);
        let ghost before = out@;
        proof {
            assert(v@.take(i as int + 1) =~= part.push(x));
            lemma_push_set(part, x);
            assert(!part.contains(x));
        }
        if !x.same(e) {
            assert(!before.contains(x)) by {
                if before.contains(x) {
                    assert(before.to_set().contains(x));
                    assert(part.to_set().contains(x));
                }
            }
            out.push(x);
            proof {
                lemma_push_set(before, x);
            }
        }
        assert(out@.to_set() =~= v@.take(i as int + 1).to_set().remove(*e));
        i = i + 1;
    }
    assert(v@.take(i as int) =~= v@);
    out
}

} // verus!
