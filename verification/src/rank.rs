//! Keys in a total order.
use vstd::prelude::*;

use crate::key_map::MapKey;

verus! {

/// Keys in a total order.
pub trait Ranked: MapKey {
    spec fn rank(self) -> nat;

    proof fn lemma_rank(self, other: Self)
        ensures
            self.rank() == other.rank() ==> self == other,
    ;

    fn before(&self, other: &Self) -> (r: bool)
        ensures
            r == (self.rank() < other.rank()),
    ;
}

/// Bytes as a number, the first byte the most significant.
pub open spec fn be_val(s: Seq<u8>) -> nat
    decreases s.len(),
{
    if s.len() == 0 {
        0
    } else {
        be_val(s.drop_last()) * 256 + s.last() as nat
    }
}

pub proof fn lemma_first_difference(a: Seq<u8>, b: Seq<u8>, i: int)
    requires
        a.len() == b.len(),
        0 <= i < a.len(),
        a.take(i) == b.take(i),
        a[i] < b[i],
    ensures
        be_val(a) < be_val(b),
    decreases a.len(),
{
    let (x, y) = (a.drop_last(), b.drop_last());
    if i == a.len() - 1 {
        assert(x =~= a.take(i));
        assert(y =~= b.take(i));
    } else {
        assert(x.take(i) =~= a.take(i));
        assert(y.take(i) =~= b.take(i));
        lemma_first_difference(x, y, i);
    }
}

pub proof fn lemma_be_val_injective(a: Seq<u8>, b: Seq<u8>)
    requires
        a.len() == b.len(),
        be_val(a) == be_val(b),
    ensures
        a == b,
    decreases a.len(),
{
    if a.len() > 0 {
        lemma_be_val_injective(a.drop_last(), b.drop_last());
        assert(a =~= a.drop_last().push(a.last()));
        assert(b =~= b.drop_last().push(b.last()));
    } else {
        assert(a =~= b);
    }
}

/// Whether bytes stand for a smaller number than as many others.
pub fn bytes_before(a: &[u8], b: &[u8]) -> (r: bool)
    requires
        a@.len() == b@.len(),
    ensures
        r == (be_val(a@) < be_val(b@)),
{
    let mut i: usize = 0;
    while i < a.len()
        invariant
            i <= a@.len(),
            a@.len() == b@.len(),
            a@.take(i as int) == b@.take(i as int),
        decreases a@.len() - i,
    {
        if a[i] < b[i] {
            proof {
                lemma_first_difference(a@, b@, i as int);
            }
            return true;
        }
        if a[i] > b[i] {
            proof {
                lemma_first_difference(b@, a@, i as int);
            }
            return false;
        }
        proof {
            assert(a@.take(i as int + 1) =~= a@.take(i as int).push(a@[i as int]));
            assert(b@.take(i as int + 1) =~= b@.take(i as int).push(b@[i as int]));
        }
        i = i + 1;
    }
    assert(a@.take(i as int) =~= a@);
    assert(b@.take(i as int) =~= b@);
    false
}

/// Whether no element ranks lower.
pub open spec fn is_least<K: Ranked>(s: Set<K>, k: K) -> bool {
    s.contains(k) && forall|j: K| #[trigger] s.contains(j) ==> k.rank() <= j.rank()
}

/// The element that ranks lowest.
pub open spec fn least<K: Ranked>(s: Set<K>) -> K {
    choose|k: K| is_least(s, k)
}

pub proof fn lemma_least<K: Ranked>(s: Set<K>, k: K)
    requires
        is_least(s, k),
    ensures
        least(s) == k,
{
    let o = least(s);
    assert(is_least(s, o));
    o.lemma_rank(k);
}

/// Every finite set that is not empty has an element that ranks lowest.
pub proof fn lemma_least_exists<K: Ranked>(s: Set<K>)
    requires
        s.finite(),
        s.len() > 0,
    ensures
        is_least(s, least(s)),
    decreases s.len(),
{
    let x = s.choose();
    let rest = s.remove(x);
    if rest.len() == 0 {
        assert forall|j: K| #[trigger] s.contains(j) implies x.rank() <= j.rank() by {
            if j != x {
                assert(rest.contains(j));
            }
        }
        assert(is_least(s, x));
    } else {
        lemma_least_exists(rest);
        let y = least(rest);
        if x.rank() <= y.rank() {
            assert forall|j: K| #[trigger] s.contains(j) implies x.rank() <= j.rank() by {
                if j != x {
                    assert(rest.contains(j));
                }
            }
            assert(is_least(s, x));
        } else {
            assert forall|j: K| #[trigger] s.contains(j) implies y.rank() <= j.rank() by {
                if j != x {
                    assert(rest.contains(j));
                }
            }
            assert(is_least(s, y));
        }
    }
}

/// The elements that rank above one.
pub open spec fn above<K: Ranked>(s: Set<K>, c: K) -> Set<K> {
    s.filter(|k: K| c.rank() < k.rank())
}

/// Up to `n` elements, the lowest ones in ascending order.
pub open spec fn lowest<K: Ranked>(s: Set<K>, n: nat) -> Seq<K>
    decreases n,
{
    if n == 0 || s =~= Set::empty() {
        Seq::empty()
    } else {
        seq![least(s)] + lowest(s.remove(least(s)), (n - 1) as nat)
    }
}

/// The lowest elements are as many as asked for or as there are, each ranks below
/// the next, and every other element ranks above them all.
pub proof fn lemma_lowest<K: Ranked>(s: Set<K>, n: nat)
    requires
        s.finite(),
    ensures
        lowest(s, n).len() == (if s.len() < n {
            s.len()
        } else {
            n
        }),
        forall|i: int| 0 <= i < lowest(s, n).len() ==> s.contains(#[trigger] lowest(s, n)[i]),
        forall|i: int, j: int|
            #![trigger lowest(s, n)[i], lowest(s, n)[j]]
            0 <= i < j < lowest(s, n).len() ==> lowest(s, n)[i].rank() < lowest(s, n)[j].rank(),
        forall|k: K, i: int|
            #![trigger s.contains(k), lowest(s, n)[i]]
            s.contains(k) && !lowest(s, n).contains(k) && 0 <= i < lowest(s, n).len() ==> lowest(
                s,
                n,
            )[i].rank() < k.rank(),
        forall|k: K| #[trigger]
            s.contains(k) && !lowest(s, n).contains(k) ==> lowest(s, n).len() == n,
    decreases n,
{
    let l = lowest(s, n);
    if n == 0 {
    } else if s =~= Set::empty() {
        assert(s.len() == 0);
    } else {
        assert(s.len() > 0) by {
            if s.len() == 0 {
                assert(s =~= Set::empty());
            }
        }
        lemma_least_exists(s);
        let m = least(s);
        let rest = s.remove(m);
        let t = lowest(rest, (n - 1) as nat);
        lemma_lowest(rest, (n - 1) as nat);
        assert(l == seq![m] + t);
        assert forall|i: int| 0 <= i < t.len() implies #[trigger] t[i] == l[i + 1] && rest.contains(
            t[i],
        ) && m.rank() < t[i].rank() by {
            t[i].lemma_rank(m);
        }
        assert forall|i: int| 0 <= i < l.len() implies s.contains(#[trigger] l[i]) by {
            if i > 0 {
                assert(t[i - 1] == l[i]);
            }
        }
        assert forall|i: int, j: int|
            #![trigger l[i], l[j]]
            0 <= i < j < l.len() implies l[i].rank() < l[j].rank() by {
            assert(t[j - 1] == l[j]);
            if i > 0 {
                assert(t[i - 1] == l[i]);
            }
        }
        assert forall|k: K| s.contains(k) && !l.contains(k) implies rest.contains(k) && !t.contains(
            k,
        ) by {
            assert(l[0] == m);
            if t.contains(k) {
                let i = choose|i: int| 0 <= i < t.len() && t[i] == k;
                assert(l[i + 1] == k);
            }
        }
        assert forall|k: K, i: int|
            #![trigger s.contains(k), l[i]]
            s.contains(k) && !l.contains(k) && 0 <= i < l.len() implies l[i].rank() < k.rank() by {
            if i > 0 {
                assert(t[i - 1] == l[i]);
            } else {
                k.lemma_rank(m);
            }
        }
    }
}

/// The index of the element of a list that ranks lowest.
pub fn least_index<K: Ranked>(v: &Vec<K>) -> (r: usize)
    requires
        v@.len() > 0,
    ensures
        r < v@.len(),
        is_least(v@.to_set(), v@[r as int]),
        v@[r as int] == least(v@.to_set()),
{
    let mut best: usize = 0;
    let mut i: usize = 1;
    while i < v.len()
        invariant
            1 <= i <= v@.len(),
            best < i,
            forall|j: int| 0 <= j < i ==> v@[best as int].rank() <= #[trigger] v@[j].rank(),
        decreases v@.len() - i,
    {
        if v[i].before(&v[best]) {
            best = i;
        }
        i = i + 1;
    }
    proof {
        let s = v@.to_set();
        assert(v@.contains(v@[best as int]));
        assert forall|j: K| #[trigger] s.contains(j) implies v@[best as int].rank() <= j.rank() by {
            let n = choose|n: int| 0 <= n < v@.len() && v@[n] == j;
            assert(v@[n].rank() == j.rank());
        }
        lemma_least(s, v@[best as int]);
    }
    best
}

/// Up to `n` elements of a list without repetitions, the lowest ones in
/// ascending order.
pub fn take_lowest<K: Ranked>(v: Vec<K>, n: usize) -> (r: Vec<K>)
    requires
        v@.no_duplicates(),
    ensures
        r@ == lowest(v@.to_set(), n as nat),
{
    let ghost all = v@.to_set();
    let mut rest = v;
    let mut out: Vec<K> = Vec::new();
    let mut left: usize = n;
    assert(out@ + lowest(all, n as nat) =~= lowest(all, n as nat));
    while left > 0 && rest.len() > 0
        invariant
            rest@.no_duplicates(),
            out@ + lowest(rest@.to_set(), left as nat) == lowest(all, n as nat),
        decreases left,
    {
        let i: usize = least_index(&rest);
        let ghost before = rest@;
        let ghost done = out@;
        let k = rest.remove(i);
        out.push(k);
        proof {
            assert(before.to_set().contains(before[0]));
            lemma_remove_set(before, i as int);
            let tail = lowest(rest@.to_set(), (left - 1) as nat);
            assert(lowest(before.to_set(), left as nat) == seq![k] + tail);
            assert(out@ + tail =~= done + (seq![k] + tail));
        }
        left = left - 1;
    }
    proof {
        if rest@.len() == 0 {
            assert(rest@.to_set() =~= Set::empty());
        }
        assert(out@ + Seq::<K>::empty() =~= out@);
    }
    out
}

proof fn lemma_remove_set<K>(s: Seq<K>, i: int)
    requires
        s.no_duplicates(),
        0 <= i < s.len(),
    ensures
        s.remove(i).no_duplicates(),
        s.remove(i).to_set() == s.to_set().remove(s[i]),
{
    let t = s.remove(i);
    assert forall|x: int, y: int| 0 <= x < y < t.len() implies t[x] != t[y] by {
        let a = if x < i { x } else { x + 1 };
        let b = if y < i { y } else { y + 1 };
        assert(t[x] == s[a] && t[y] == s[b]);
    }
    assert forall|k: K| t.contains(k) <==> s.contains(k) && k != s[i] by {
        if t.contains(k) {
            let x = choose|x: int| 0 <= x < t.len() && t[x] == k;
            let a = if x < i { x } else { x + 1 };
            assert(s[a] == k);
        }
        if s.contains(k) && k != s[i] {
            let x = choose|x: int| 0 <= x < s.len() && s[x] == k;
            let a = if x < i { x } else { x - 1 };
            assert(t[a] == k);
        }
    }
    assert(t.to_set() =~= s.to_set().remove(s[i]));
}

} // verus!
