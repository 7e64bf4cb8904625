//! A stable sort by key.
use vstd::prelude::*;

verus! {

/// What an item is sorted by, and where it stands in the unsorted list.
#[derive(Clone, Copy, Debug, PartialEq, Eq, Structural)]
pub struct SortKey {
    pub major: u64,
    pub minor: u128,
    pub index: usize,
}

impl SortKey {
    /// Strictly before: by `major`, then `minor`, then position.
    pub open spec fn before(self, other: SortKey) -> bool {
        ||| self.major < other.major
        ||| self.major == other.major && self.minor < other.minor
        ||| self.major == other.major && self.minor == other.minor && self.index < other.index
    }

    pub fn is_before(&self, other: &SortKey) -> (r: bool)
        ensures
            r == self.before(*other),
    {
        self.major < other.major || (self.major == other.major && (self.minor < other.minor || (
        self.minor == other.minor && self.index < other.index)))
    }
}

/// Nothing stands before what precedes it.
pub open spec fn sorted(s: Seq<SortKey>) -> bool {
    forall|i: int, j: int|
        #![trigger s[i], s[j]]
        0 <= i < j < s.len() ==> !s[j].before(s[i])
}

fn merge(a: &Vec<SortKey>, b: &Vec<SortKey>) -> (r: Vec<SortKey>)
    requires
        sorted(a@),
        sorted(b@),
    ensures
        sorted(r@),
        r@.to_multiset() == a@.to_multiset().add(b@.to_multiset()),
{
    broadcast use vstd::seq_lib::group_to_multiset_ensures;

    let mut r: Vec<SortKey> = Vec::new();
    let mut i: usize = 0;
    let mut j: usize = 0;
    assert(a@.take(0) =~= Seq::<SortKey>::empty() && b@.take(0) =~= Seq::<SortKey>::empty());
    assert(r@.to_multiset() =~= a@.take(0).to_multiset().add(b@.take(0).to_multiset()));
    while i < a.len() || j < b.len()
        invariant
            i <= a@.len(),
            j <= b@.len(),
            sorted(a@),
            sorted(b@),
            sorted(r@),
            forall|k: int, m: int|
                #![trigger a@[m], r@[k]]
                0 <= k < r@.len() && i <= m < a@.len() ==> !a@[m].before(r@[k]),
            forall|k: int, m: int|
                #![trigger b@[m], r@[k]]
                0 <= k < r@.len() && j <= m < b@.len() ==> !b@[m].before(r@[k]),
            r@.to_multiset() == a@.take(i as int).to_multiset().add(
                b@.take(j as int).to_multiset(),
            ),
        decreases (a@.len() - i) + (b@.len() - j),
    {
        broadcast use vstd::seq_lib::group_to_multiset_ensures;

        let ghost before = r@;
        let from_a = if i < a.len() && j < b.len() {
            !b[j].is_before(&a[i])
        } else {
            i < a.len()
        };
        if from_a {
            let x = a[i];
            r.push(x);
            assert forall|m: int| j <= m < b@.len() implies !b@[m].before(x) by {
                assert(!b@[j as int].before(x));
                assert(m > j ==> !b@[m].before(b@[j as int]));
            }
            assert(a@.take(i as int + 1) =~= a@.take(i as int).push(x));
            assert(r@.to_multiset() =~= before.to_multiset().insert(x));
            assert(r@.to_multiset() =~= a@.take(i as int + 1).to_multiset().add(
                b@.take(j as int).to_multiset(),
            ));
            i = i + 1;
        } else {
            let x = b[j];
            r.push(x);
            assert forall|m: int| i <= m < a@.len() implies !a@[m].before(x) by {
                assert(x.before(a@[i as int]));
                assert(m > i ==> !a@[m].before(a@[i as int]));
            }
            assert(b@.take(j as int + 1) =~= b@.take(j as int).push(x));
            assert(r@.to_multiset() =~= before.to_multiset().insert(x));
            assert(r@.to_multiset() =~= a@.take(i as int).to_multiset().add(
                b@.take(j as int + 1).to_multiset(),
            ));
            j = j + 1;
        }
    }
    assert(a@.take(i as int) =~= a@);
    assert(b@.take(j as int) =~= b@);
    r
}

/// Sorts keys.
pub fn sort_keys(v: &Vec<SortKey>) -> (r: Vec<SortKey>)
    ensures
        sorted(r@),
        r@.to_multiset() == v@.to_multiset(),
{
    assert(v@.subrange(0, v@.len() as int) =~= v@);
    sort_part(v, 0, v.len())
}

fn sort_part(v: &Vec<SortKey>, lo: usize, hi: usize) -> (r: Vec<SortKey>)
    requires
        lo <= hi <= v@.len(),
    ensures
        sorted(r@),
        r@.to_multiset() == v@.subrange(lo as int, hi as int).to_multiset(),
    decreases hi - lo,
{
    if hi - lo <= 1 {
        let mut r: Vec<SortKey> = Vec::new();
        if hi - lo == 1 {
            r.push(v[lo]);
        }
        assert(r@ =~= v@.subrange(lo as int, hi as int));
        return r;
    }
    let mid: usize = lo + (hi - lo) / 2;
    let a = sort_part(v, lo, mid);
    let b = sort_part(v, mid, hi);
    assert(v@.subrange(lo as int, hi as int) =~= v@.subrange(lo as int, mid as int) + v@.subrange(
        mid as int,
        hi as int,
    ));
    proof {
        vstd::seq_lib::lemma_multiset_commutative(
            v@.subrange(lo as int, mid as int),
            v@.subrange(mid as int, hi as int),
        );
    }
    merge(&a, &b)
}

/// Sorting keys that carry their own positions gives each of them once, in
/// strictly ascending order.
pub proof fn lemma_sorted_positions(keys: Seq<SortKey>, out: Seq<SortKey>)
    requires
        sorted(out),
        out.to_multiset() == keys.to_multiset(),
        forall|k: int| 0 <= k < keys.len() ==> (#[trigger] keys[k]).index == k,
    ensures
        out.len() == keys.len(),
        forall|i: int|
            0 <= i < out.len() ==> 0 <= (#[trigger] out[i]).index < keys.len() && out[i]
                == keys[out[i].index as int],
        forall|i: int, j: int|
            #![trigger out[i], out[j]]
            0 <= i < j < out.len() ==> out[i].before(out[j]),
        forall|k: int| 0 <= k < keys.len() ==> out.contains(#[trigger] keys[k]),
{
    broadcast use vstd::seq_lib::group_to_multiset_ensures;

    assert(out.len() == out.to_multiset().len());
    assert(keys.len() == keys.to_multiset().len());
    assert forall|i: int| 0 <= i < out.len() implies 0 <= (#[trigger] out[i]).index < keys.len()
        && out[i] == keys[out[i].index as int] by {
        assert(out.contains(out[i]));
        assert(out.to_multiset().count(out[i]) > 0);
        assert(keys.to_multiset().count(out[i]) > 0);
        assert(keys.contains(out[i]));
    }
    assert forall|k: int| 0 <= k < keys.len() implies out.contains(#[trigger] keys[k]) by {
        assert(keys.contains(keys[k]));
        assert(keys.to_multiset().count(keys[k]) > 0);
        assert(out.to_multiset().count(keys[k]) > 0);
    }
    assert(keys.no_duplicates()) by {
        assert forall|i: int, j: int| 0 <= i < keys.len() && 0 <= j < keys.len() && i != j implies
            keys[i] != keys[j] by {
            assert(keys[i].index == i && keys[j].index == j);
        }
    }
    keys.lemma_multiset_has_no_duplicates();
    assert forall|x: SortKey| out.to_multiset().contains(x) implies out.to_multiset().count(x)
        == 1 by {
        assert(keys.to_multiset().contains(x));
    }
    out.lemma_multiset_has_no_duplicates_conv();
    assert forall|i: int, j: int|
        #![trigger out[i], out[j]]
        0 <= i < j < out.len() implies out[i].before(out[j]) by {
        assert(out[i] != out[j]);
        assert(!out[j].before(out[i]));
        assert(out[i] == keys[out[i].index as int] && out[j] == keys[out[j].index as int]);
    }
}

} // verus!
