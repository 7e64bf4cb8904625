//! The IP filter: blocked address ranges, where they come from, and what they block.
use vstd::prelude::*;
use vstd::utf8::*;

use super::ip_text::{
    ip_text, ip_to_string, lenient_ip, parse_ip_lenient, parse_ip_strict, parse_u32, push_ip,
    strict_ip, u32_text,
};
use crate::net::Ipv4Addr;
use crate::security::{
    bogus_v4, is_bogus_v4, is_lan_or_cgnat_v4, is_lan_v4, is_special_use_v4, lan_ip,
    lan_or_cgnat_v4, special_use_v4,
};
use crate::sort::{lemma_sorted_positions, sort_keys, SortKey};
use crate::text::{
    chars_of, find_byte, find_char, find_first, find_last, rfind_char, string_from_utf8_lossy,
    string_of, text_of, trim_slice, trimmed,
};

verus! {

/// The longest line of a text filter that is read, its end included.
pub const MAX_TEXT_FILTER_LINE_BYTES: usize = 8192;

/// Lines of a text filter that are read at most.
pub const MAX_TEXT_FILTER_LINES: usize = 5000000;

/// The largest binary filter that is read: 256 MiB.
pub const MAX_P2B_BYTES: usize = 268435456;

/// Entries block while their access level is below this one.
pub const IPFILTER_BLOCK_LEVEL: u32 = 127;

// ---------------------------------------------------------------------------
// Ranges
// ---------------------------------------------------------------------------
/// A blocked range, both ends included, with how often it matched.
#[derive(Debug)]
pub struct IpRange {
    pub start: u32,
    pub end: u32,
    pub description: String,
    pub hits: u64,
}

pub struct RangeView {
    pub start: u32,
    pub end: u32,
    pub description: Seq<char>,
    pub hits: u64,
}

impl View for IpRange {
    type V = RangeView;

    open spec fn view(&self) -> RangeView {
        RangeView {
            start: self.start,
            end: self.end,
            description: self.description@,
            hits: self.hits,
        }
    }
}

pub open spec fn range_views(rs: Seq<IpRange>) -> Seq<RangeView> {
    rs.map_values(|r: IpRange| r@)
}

impl IpRange {
    pub fn new(start: u32, end: u32, description: String) -> (r: IpRange)
        ensures
            r@ == new_range(start, end, description@),
    {
        IpRange { start, end, description, hits: 0 }
    }

    /// The same range again.
    pub fn duplicate(&self) -> (r: IpRange)
        ensures
            r@ == self@,
    {
        IpRange {
            start: self.start,
            end: self.end,
            description: self.description.clone(),
            hits: self.hits,
        }
    }

    pub fn hit_count(&self) -> (r: u64)
        ensures
            r == self.hits,
    {
        self.hits
    }

    /// Counts `n` more matches, modulo 2^64.
    pub fn add_hits(&mut self, n: u64)
        ensures
            final(self)@ == (RangeView { hits: old(self).hits.wrapping_add(n), ..old(self)@ }),
    {
        self.hits = self.hits.wrapping_add(n);
    }
}

pub open spec fn new_range(start: u32, end: u32, description: Seq<char>) -> RangeView {
    RangeView { start, end, description, hits: 0 }
}

/// Whether some range holds the address.
pub open spec fn covers(rs: Seq<RangeView>, x: u32) -> bool {
    exists|i: int| 0 <= i < rs.len() && #[trigger] holds(rs[i], x)
}

pub open spec fn holds(r: RangeView, x: u32) -> bool {
    r.start <= x <= r.end
}

/// No range is empty.
pub open spec fn proper(rs: Seq<RangeView>) -> bool {
    forall|i: int| 0 <= i < rs.len() ==> (#[trigger] rs[i]).start <= rs[i].end
}

/// Ranges in ascending order that neither overlap nor touch.
pub open spec fn normal(rs: Seq<RangeView>) -> bool {
    &&& proper(rs)
    &&& forall|i: int, j: int|
        #![trigger rs[i], rs[j]]
        0 <= i < j < rs.len() ==> rs[i].end + 1 < rs[j].start
}

/// `o` lists the positions of `rs` by ascending start, earlier positions first
/// among equal ones.
pub open spec fn by_start(rs: Seq<RangeView>, o: Seq<int>) -> bool {
    &&& o.len() == rs.len()
    &&& forall|i: int| 0 <= i < o.len() ==> 0 <= #[trigger] o[i] < rs.len()
    &&& forall|i: int, j: int|
        #![trigger o[i], o[j]]
        0 <= i < j < o.len() ==> rs[o[i]].start < rs[o[j]].start || (rs[o[i]].start
            == rs[o[j]].start && o[i] < o[j])
    &&& forall|k: int| 0 <= k < rs.len() ==> #[trigger] o.contains(k)
}

/// The ranges at the positions `o`.
pub open spec fn at(rs: Seq<RangeView>, o: Seq<int>) -> Seq<RangeView> {
    o.map_values(|k: int| rs[k])
}

pub open spec fn plus_one(x: u32) -> u32 {
    if x == u32::MAX {
        x
    } else {
        (x + 1) as u32
    }
}

/// Two ranges as one. It keeps the first description that is not empty.
pub open spec fn join(a: RangeView, b: RangeView) -> RangeView {
    RangeView {
        start: a.start,
        end: if a.end >= b.end {
            a.end
        } else {
            b.end
        },
        description: if a.description.len() == 0 {
            b.description
        } else {
            a.description
        },
        hits: a.hits.wrapping_add(b.hits),
    }
}

/// Ranges in ascending order, with those that overlap or touch joined.
pub open spec fn merged(ts: Seq<RangeView>) -> Seq<RangeView>
    decreases ts.len(),
{
    if ts.len() == 0 {
        Seq::empty()
    } else {
        let m = merged(ts.drop_last());
        let x = ts.last();
        if m.len() > 0 && x.start <= plus_one(m.last().end) {
            m.drop_last().push(join(m.last(), x))
        } else {
            m.push(x)
        }
    }
}

/// What sorting and merging some ranges gives.
pub open spec fn normalised(rs: Seq<RangeView>, out: Seq<RangeView>) -> bool {
    exists|o: Seq<int>| #[trigger] by_start(rs, o) && out == merged(at(rs, o))
}

proof fn lemma_covers_push(rs: Seq<RangeView>, x: RangeView, ip: u32)
    ensures
        covers(rs.push(x), ip) <==> covers(rs, ip) || holds(x, ip),
{
    let p = rs.push(x);
    if covers(rs, ip) {
        let i = choose|i: int| 0 <= i < rs.len() && #[trigger] holds(rs[i], ip);
        assert(holds(p[i], ip));
    }
    if holds(x, ip) {
        assert(holds(p[rs.len() as int], ip));
    }
    if covers(p, ip) {
        let i = choose|i: int| 0 <= i < p.len() && #[trigger] holds(p[i], ip);
        if i < rs.len() {
            assert(holds(rs[i], ip));
        }
    }
}

/// What a sum of hits loses where the counter of a range starts over: nothing
/// as long as it fits, and else whole rounds of the counter.
pub open spec fn same_hits(before: nat, after: nat) -> bool {
    &&& after <= before
    &&& (before - after) % 0x1_0000_0000_0000_0000 == 0
    &&& before <= u64::MAX ==> after == before
}

pub open spec fn sum_hits(rs: Seq<RangeView>) -> nat
    decreases rs.len(),
{
    if rs.len() == 0 {
        0
    } else {
        sum_hits(rs.drop_last()) + rs.last().hits as nat
    }
}

proof fn lemma_sum_hits_push(rs: Seq<RangeView>, x: RangeView)
    ensures
        sum_hits(rs.push(x)) == sum_hits(rs) + x.hits,
{
    assert(rs.push(x).drop_last() =~= rs);
}

proof fn lemma_sum_hits_remove(rs: Seq<RangeView>, i: int)
    requires
        0 <= i < rs.len(),
    ensures
        sum_hits(rs) == sum_hits(rs.remove(i)) + rs[i].hits,
    decreases rs.len(),
{
    let front = rs.drop_last();
    if i == rs.len() - 1 {
        assert(rs.remove(i) =~= front);
    } else {
        lemma_sum_hits_remove(front, i);
        assert(rs.remove(i) =~= front.remove(i).push(rs.last()));
        lemma_sum_hits_push(front.remove(i), rs.last());
    }
}

/// In another order ranges have as many hits.
proof fn lemma_sum_hits_order(rs: Seq<RangeView>, o: Seq<int>)
    requires
        o.len() == rs.len(),
        o.no_duplicates(),
        forall|i: int| 0 <= i < o.len() ==> 0 <= #[trigger] o[i] < rs.len(),
        forall|k: int| 0 <= k < rs.len() ==> #[trigger] o.contains(k),
    ensures
        sum_hits(at(rs, o)) == sum_hits(rs),
    decreases rs.len(),
{
    if rs.len() > 0 {
        let n = rs.len() - 1;
        assert(o.contains(n));
        let i = choose|i: int| 0 <= i < o.len() && o[i] == n;
        let front = rs.drop_last();
        let p = o.remove(i);
        assert forall|x: int, y: int| 0 <= x < p.len() && 0 <= y < p.len() && x != y implies p[x]
            != p[y] by {
            let a = if x < i {
                x
            } else {
                x + 1
            };
            let b = if y < i {
                y
            } else {
                y + 1
            };
            assert(p[x] == o[a] && p[y] == o[b]);
        }
        assert forall|x: int| 0 <= x < p.len() implies 0 <= #[trigger] p[x] < front.len() by {
            let a = if x < i {
                x
            } else {
                x + 1
            };
            assert(p[x] == o[a]);
            assert(o[a] != o[i]);
        }
        assert forall|k: int| 0 <= k < front.len() implies #[trigger] p.contains(k) by {
            assert(o.contains(k));
            let a = choose|a: int| 0 <= a < o.len() && o[a] == k;
            let x = if a < i {
                a
            } else {
                a - 1
            };
            assert(p[x] == k);
        }
        lemma_sum_hits_order(front, p);
        assert(at(rs, o).remove(i) =~= at(front, p)) by {
            assert forall|x: int| 0 <= x < p.len() implies at(rs, o).remove(i)[x] == at(
                front,
                p,
            )[x] by {
                let a = if x < i {
                    x
                } else {
                    x + 1
                };
                assert(p[x] == o[a]);
                assert(0 <= p[x] < front.len());
            }
        }
        lemma_sum_hits_remove(at(rs, o), i);
        lemma_sum_hits_remove(rs, n);
        assert(rs.remove(n) =~= front);
    }
}

proof fn lemma_sum_hits_add(a: Seq<RangeView>, b: Seq<RangeView>)
    ensures
        sum_hits(a + b) == sum_hits(a) + sum_hits(b),
    decreases b.len(),
{
    if b.len() == 0 {
        assert(a + b =~= a);
    } else {
        lemma_sum_hits_add(a, b.drop_last());
        assert((a + b).drop_last() =~= a + b.drop_last());
    }
}

proof fn lemma_merged_hits(ts: Seq<RangeView>)
    ensures
        same_hits(sum_hits(ts), sum_hits(merged(ts))),
    decreases ts.len(),
{
    if ts.len() > 0 {
        let front = ts.drop_last();
        let x = ts.last();
        let m = merged(front);
        lemma_merged_hits(front);
        if m.len() > 0 && x.start <= plus_one(m.last().end) {
            let l = m.last();
            let y = join(l, x);
            let head = m.drop_last();
            lemma_sum_hits_push(head, y);
            assert(y.hits == l.hits + x.hits || y.hits + 0x1_0000_0000_0000_0000 == l.hits
                + x.hits);
        } else {
            lemma_sum_hits_push(m, x);
        }
    }
}

/// Merging ranges in ascending order keeps the addresses that they hold and
/// the sum of their hits, and leaves them apart from each other.
pub proof fn lemma_merged(ts: Seq<RangeView>)
    requires
        proper(ts),
        forall|i: int, j: int|
            #![trigger ts[i], ts[j]]
            0 <= i < j < ts.len() ==> ts[i].start <= ts[j].start,
    ensures
        normal(merged(ts)),
        forall|ip: u32| #[trigger] covers(merged(ts), ip) <==> covers(ts, ip),
        ts.len() > 0 ==> merged(ts).len() > 0 && merged(ts).last().start <= ts.last().start,
        merged(ts).len() <= ts.len(),
        same_hits(sum_hits(ts), sum_hits(merged(ts))),
    decreases ts.len(),
{
    lemma_merged_hits(ts);
    if ts.len() == 0 {
        assert forall|ip: u32| #[trigger] covers(merged(ts), ip) <==> covers(ts, ip) by {}
    } else {
        let front = ts.drop_last();
        let x = ts.last();
        assert forall|i: int| 0 <= i < front.len() implies (#[trigger] front[i]).start
            <= front[i].end by {
            assert(front[i] == ts[i]);
        }
        assert forall|i: int, j: int|
            #![trigger front[i], front[j]]
            0 <= i < j < front.len() implies front[i].start <= front[j].start by {
            assert(front[i] == ts[i] && front[j] == ts[j]);
        }
        lemma_merged(front);
        let m = merged(front);
        assert(ts =~= front.push(x));
        assert(x == ts[ts.len() - 1]);
        if front.len() > 0 {
            assert(front.last() == ts[ts.len() - 2]);
        }
        if m.len() > 0 && x.start <= plus_one(m.last().end) {
            let l = m.last();
            let y = join(l, x);
            let head = m.drop_last();
            let out = head.push(y);
            assert(m =~= head.push(l));
            assert(l == m[m.len() - 1]);
            assert forall|ip: u32| #[trigger] covers(out, ip) <==> covers(ts, ip) by {
                lemma_covers_push(head, y, ip);
                lemma_covers_push(head, l, ip);
                lemma_covers_push(front, x, ip);
                assert(covers(m, ip) <==> covers(front, ip));
                assert(holds(y, ip) <==> holds(l, ip) || holds(x, ip));
            }
            assert forall|i: int, j: int|
                #![trigger out[i], out[j]]
                0 <= i < j < out.len() implies out[i].end + 1 < out[j].start by {
                assert(out[i] == m[i]);
                assert(out[j].start == m[j].start);
            }
            assert forall|i: int| 0 <= i < out.len() implies (#[trigger] out[i]).start
                <= out[i].end by {
                if i < head.len() {
                    assert(out[i] == m[i]);
                }
            }
        } else {
            let out = m.push(x);
            assert forall|ip: u32| #[trigger] covers(out, ip) <==> covers(ts, ip) by {
                lemma_covers_push(m, x, ip);
                lemma_covers_push(front, x, ip);
                assert(covers(m, ip) <==> covers(front, ip));
            }
            assert forall|i: int, j: int|
                #![trigger out[i], out[j]]
                0 <= i < j < out.len() implies out[i].end + 1 < out[j].start by {
                assert(out[i] == m[i]);
                if j < m.len() {
                    assert(out[j] == m[j]);
                } else {
                    let l = m[m.len() - 1];
                    assert(i < m.len() - 1 ==> m[i].end + 1 < l.start);
                }
            }
            assert forall|i: int| 0 <= i < out.len() implies (#[trigger] out[i]).start
                <= out[i].end by {
                if i < m.len() {
                    assert(out[i] == m[i]);
                }
            }
        }
    }
}

/// Sorting and merging keeps exactly the addresses that the ranges hold and the
/// sum of their hits, gives ranges that neither overlap nor touch, and gives
/// some if there were some.
pub proof fn lemma_normalised(rs: Seq<RangeView>, out: Seq<RangeView>)
    requires
        proper(rs),
        normalised(rs, out),
    ensures
        normal(out),
        forall|ip: u32| #[trigger] covers(out, ip) <==> covers(rs, ip),
        out.len() == 0 <==> rs.len() == 0,
        out.len() <= rs.len(),
        same_hits(sum_hits(rs), sum_hits(out)),
{
    let o = choose|o: Seq<int>| #[trigger] by_start(rs, o) && out == merged(at(rs, o));
    let ts = at(rs, o);
    assert forall|i: int| 0 <= i < ts.len() implies (#[trigger] ts[i]).start <= ts[i].end by {
        assert(ts[i] == rs[o[i]]);
    }
    assert forall|i: int, j: int|
        #![trigger ts[i], ts[j]]
        0 <= i < j < ts.len() implies ts[i].start <= ts[j].start by {
        assert(ts[i] == rs[o[i]] && ts[j] == rs[o[j]]);
    }
    lemma_merged(ts);
    lemma_sum_hits_order(rs, o);
    assert forall|ip: u32| #[trigger] covers(out, ip) <==> covers(rs, ip) by {
        assert(covers(merged(ts), ip) <==> covers(ts, ip));
        if covers(ts, ip) {
            let i = choose|i: int| 0 <= i < ts.len() && #[trigger] holds(ts[i], ip);
            assert(holds(rs[o[i]], ip));
        }
        if covers(rs, ip) {
            let k = choose|k: int| 0 <= k < rs.len() && #[trigger] holds(rs[k], ip);
            assert(o.contains(k));
            let i = choose|i: int| 0 <= i < o.len() && o[i] == k;
            assert(holds(ts[i], ip));
        }
    }
}

proof fn lemma_merged_normal(rs: Seq<RangeView>)
    requires
        normal(rs),
    ensures
        merged(rs) == rs,
    decreases rs.len(),
{
    if rs.len() > 0 {
        let front = rs.drop_last();
        assert(forall|i: int| 0 <= i < front.len() ==> #[trigger] front[i] == rs[i]);
        lemma_merged_normal(front);
        if front.len() > 0 {
            let (i, j) = (rs.len() - 2, rs.len() - 1);
            assert(front.last() == rs[i]);
            assert(rs[i].end + 1 < rs[j].start);
        }
        assert(front.push(rs.last()) =~= rs);
    } else {
        assert(merged(rs) =~= rs);
    }
}

proof fn lemma_identity(o: Seq<int>, i: int)
    requires
        forall|i: int| 0 <= i < o.len() ==> 0 <= #[trigger] o[i] < o.len(),
        forall|i: int, j: int| #![trigger o[i], o[j]] 0 <= i < j < o.len() ==> o[i] < o[j],
        0 <= i < o.len(),
    ensures
        i <= o[i],
    decreases i,
{
    if i > 0 {
        lemma_identity(o, i - 1);
        assert(o[i - 1] < o[i]);
    }
}

proof fn lemma_identity_above(o: Seq<int>, i: int)
    requires
        forall|i: int| 0 <= i < o.len() ==> 0 <= #[trigger] o[i] < o.len(),
        forall|i: int, j: int| #![trigger o[i], o[j]] 0 <= i < j < o.len() ==> o[i] < o[j],
        0 <= i < o.len(),
    ensures
        o[i] <= i,
    decreases o.len() - i,
{
    if i + 1 < o.len() {
        lemma_identity_above(o, i + 1);
        assert(o[i] < o[i + 1]);
    }
}

/// Sorting and merging changes nothing of ranges in order that neither overlap
/// nor touch.
pub proof fn lemma_normalised_normal(rs: Seq<RangeView>, out: Seq<RangeView>)
    requires
        normal(rs),
        normalised(rs, out),
    ensures
        out == rs,
{
    let o = choose|o: Seq<int>| #[trigger] by_start(rs, o) && out == merged(at(rs, o));
    assert forall|i: int, j: int| #![trigger o[i], o[j]] 0 <= i < j < o.len() implies o[i]
        < o[j] by {
        let (a, b) = (o[i], o[j]);
        if b < a {
            assert(rs[b].end + 1 < rs[a].start);
            assert(rs[b].start <= rs[b].end);
        }
    }
    assert forall|i: int| 0 <= i < rs.len() implies at(rs, o)[i] == rs[i] by {
        lemma_identity(o, i);
        lemma_identity_above(o, i);
    }
    assert(at(rs, o) =~= rs);
    lemma_merged_normal(rs);
}

/// The bounds of ranges are fixed by the addresses that they hold: two lists
/// of ranges that neither overlap nor touch and hold the same addresses have
/// the same bounds.
pub proof fn lemma_normal_unique(a: Seq<RangeView>, b: Seq<RangeView>, i: int)
    requires
        normal(a),
        normal(b),
        forall|ip: u32| #[trigger] covers(a, ip) <==> covers(b, ip),
        0 <= i < a.len(),
    ensures
        exists|j: int|
            0 <= j < b.len() && a[i].start == (#[trigger] b[j]).start && a[i].end == b[j].end,
{
    let s = a[i].start;
    let e = a[i].end;
    assert(holds(a[i], s));
    assert(covers(a, s));
    assert(covers(b, s));
    let j = choose|j: int| 0 <= j < b.len() && #[trigger] holds(b[j], s);
    if b[j].start < s {
        let p = (s - 1) as u32;
        assert(holds(b[j], p));
        assert(covers(b, p));
        assert(covers(a, p));
        let k = choose|k: int| 0 <= k < a.len() && #[trigger] holds(a[k], p);
        assert(a[k].start <= a[k].end && a[i].start <= a[i].end);
        assert(false);
    }
    if b[j].end < e {
        let n = (b[j].end + 1) as u32;
        assert(holds(a[i], n));
        assert(covers(a, n));
        assert(covers(b, n));
        let k = choose|k: int| 0 <= k < b.len() && #[trigger] holds(b[k], n);
        assert(b[k].start <= b[k].end && b[j].start <= b[j].end);
        assert(false);
    }
    if b[j].end > e {
        let n = (e + 1) as u32;
        assert(holds(b[j], n));
        assert(covers(b, n));
        assert(covers(a, n));
        let k = choose|k: int| 0 <= k < a.len() && #[trigger] holds(a[k], n);
        assert(a[k].start <= a[k].end && a[i].start <= a[i].end);
        assert(false);
    }
}

fn sorted_positions(rs: &Vec<IpRange>) -> (r: Vec<usize>)
    ensures
        by_start(range_views(rs@), r@.map_values(|k: usize| k as int)),
{
    let ghost vs = range_views(rs@);
    let mut keys: Vec<SortKey> = Vec::new();
    let mut i: usize = 0;
    while i < rs.len()
        invariant
            i <= rs@.len(),
            keys@.len() == i,
            forall|k: int|
                0 <= k < i ==> #[trigger] keys@[k] == (SortKey {
                    major: 0,
                    minor: rs@[k].start as u128,
                    index: k as usize,
                }),
        decreases rs@.len() - i,
    {
        keys.push(SortKey { major: 0, minor: rs[i].start as u128, index: i });
        i = i + 1;
    }
    let out = sort_keys(&keys);
    let mut r: Vec<usize> = Vec::new();
    let mut j: usize = 0;
    while j < out.len()
        invariant
            j <= out@.len(),
            r@.len() == j,
            forall|k: int| 0 <= k < j ==> #[trigger] r@[k] == out@[k].index,
        decreases out@.len() - j,
    {
        r.push(out[j].index);
        j = j + 1;
    }
    proof {
        let o = r@.map_values(|k: usize| k as int);
        lemma_sorted_positions(keys@, out@);
        assert(forall|i: int|
            0 <= i < o.len() ==> #[trigger] o[i] == out@[i].index && vs[o[i]].start
                == out@[i].minor);
        assert forall|k: int| 0 <= k < vs.len() implies #[trigger] o.contains(k) by {
            assert(out@.contains(keys@[k]));
            let p = choose|p: int| 0 <= p < out@.len() && out@[p] == keys@[k];
            assert(o[p] == k);
        }
    }
    r
}

/// Sorts ranges and joins those that overlap or touch.
fn normalise(rs: &Vec<IpRange>) -> (out: Vec<IpRange>)
    ensures
        normalised(range_views(rs@), range_views(out@)),
{
    let ghost vs = range_views(rs@);
    let order = sorted_positions(rs);
    let ghost o = order@.map_values(|k: usize| k as int);
    let ghost ts = at(vs, o);
    let mut out: Vec<IpRange> = Vec::new();
    let mut i: usize = 0;
    assert(range_views(out@) =~= merged(ts.take(0)));
    while i < order.len()
        invariant
            i <= order@.len(),
            vs == range_views(rs@),
            o == order@.map_values(|k: usize| k as int),
            by_start(vs, o),
            ts == at(vs, o),
            range_views(out@) == merged(ts.take(i as int)),
        decreases order@.len() - i,
    {
        assert(0 <= o[i as int] < vs.len());
        let r = rs[order[i]].duplicate();
        let ghost before = out@;
        let ghost m = merged(ts.take(i as int));
        assert(ts.take(i as int + 1).drop_last() =~= ts.take(i as int));
        assert(ts.take(i as int + 1).last() == r@);
        assert(m.len() == before.len());
        if out.len() > 0 && r.start <= out[out.len() - 1].end.saturating_add(1) {
            assert(m.last() == before.last()@);
            let n: usize = out.len();
            let last = out.pop().unwrap();
            let end: u32 = if last.end >= r.end {
                last.end
            } else {
                r.end
            };
            let empty = last.description.as_str().is_empty();
            let description = if empty {
                r.description.clone()
            } else {
                last.description.clone()
            };
            let y = IpRange {
                start: last.start,
                end,
                description,
                hits: last.hits.wrapping_add(r.hits),
            };
            assert(y@ == join(last@, r@));
            out.push(y);
            assert(range_views(out@) =~= m.drop_last().push(y@));
        } else {
            out.push(r);
            assert(before.len() > 0 ==> m.last() == before.last()@);
            assert(range_views(out@) =~= m.push(r@));
        }
        i = i + 1;
    }
    assert(ts.take(i as int) =~= ts);
    out
}

// ---------------------------------------------------------------------------
// Lines of text filters
// ---------------------------------------------------------------------------
/// A PeerGuardian line: `description:start-end`, split at the last colon and
/// the first dash after it.
pub open spec fn p2p_line(line: Seq<char>) -> Option<RangeView> {
    match find_last(line, ':') {
        None => None,
        Some(c) => {
            let range = trimmed(line.skip(c as int + 1));
            match find_first(range, '-') {
                None => None,
                Some(d) => match (
                    lenient_ip(range.take(d as int)),
                    lenient_ip(range.skip(d as int + 1)),
                ) {
                    (Some(s), Some(e)) => if s <= e {
                        Some(new_range(s as u32, e as u32, trimmed(line.take(c as int))))
                    } else {
                        None
                    },
                    _ => None,
                },
            }
        },
    }
}

/// The bounds in the first field of a line: `start-end`, or one address.
pub open spec fn line_bounds(field: Seq<char>) -> Option<(nat, nat)> {
    match find_first(field, '-') {
        Some(d) => match (lenient_ip(field.take(d as int)), lenient_ip(field.skip(d as int + 1))) {
            (Some(s), Some(e)) => Some((s, e)),
            _ => None,
        },
        None => match lenient_ip(field) {
            Some(s) => Some((s, s)),
            None => None,
        },
    }
}

/// An `ipfilter.dat` line: `range , level , description`. The level and the
/// range must be there; a level of 127 or more permits.
pub open spec fn ipfilter_line(line: Seq<char>) -> Option<RangeView> {
    match find_first(line, ',') {
        None => None,
        Some(c) => {
            let rest = line.skip(c as int + 1);
            let (level, description) = match find_first(rest, ',') {
                Some(d) => (rest.take(d as int), trimmed(rest.skip(d as int + 1))),
                None => (rest, Seq::empty()),
            };
            match u32_text(trimmed(level)) {
                None => None,
                Some(n) => if n >= IPFILTER_BLOCK_LEVEL {
                    None
                } else {
                    match line_bounds(trimmed(line.take(c as int))) {
                        None => None,
                        Some((s, e)) => if s <= e {
                            Some(new_range(s as u32, e as u32, description))
                        } else {
                            None
                        },
                    }
                },
            }
        },
    }
}

pub open spec fn is_comment(line: Seq<char>) -> bool {
    ||| line.len() == 0
    ||| line[0] == '#'
    ||| line.len() >= 2 && line[0] == '/' && line[1] == '/'
}

/// The range on one line of a text filter, its end of line included. Lines
/// that are too long, blank or comments have none.
pub open spec fn line_range(raw: Seq<u8>, dat: bool) -> Option<RangeView> {
    let line = trimmed(text_of(raw));
    if raw.len() > MAX_TEXT_FILTER_LINE_BYTES || is_comment(line) {
        None
    } else {
        text_line(line, dat)
    }
}

/// The range on one trimmed line. An `ipfilter.dat` may also hold PeerGuardian lines.
pub open spec fn text_line(line: Seq<char>, dat: bool) -> Option<RangeView> {
    if dat && ipfilter_line(line) is Some {
        ipfilter_line(line)
    } else {
        p2p_line(line)
    }
}

/// The lines of some bytes; each but the last ends with a line feed.
pub open spec fn split_lines(data: Seq<u8>) -> Seq<Seq<u8>>
    decreases data.len(),
{
    if data.len() == 0 {
        Seq::empty()
    } else {
        match find_first(data, 10u8) {
            None => seq![data],
            Some(i) => if i < data.len() {
                seq![data.take(i as int + 1)] + split_lines(data.skip(i as int + 1))
            } else {
                Seq::empty()
            },
        }
    }
}

pub open spec fn as_seq<T>(o: Option<T>) -> Seq<T> {
    match o {
        None => Seq::empty(),
        Some(x) => seq![x],
    }
}

/// The ranges on some lines, in order.
pub open spec fn lines_ranges(lines: Seq<Seq<u8>>, dat: bool) -> Seq<RangeView>
    decreases lines.len(),
{
    if lines.len() == 0 {
        Seq::empty()
    } else {
        lines_ranges(lines.drop_last(), dat) + as_seq(line_range(lines.last(), dat))
    }
}

/// The lines of a text filter that are read.
pub open spec fn read_lines(data: Seq<u8>) -> Seq<Seq<u8>> {
    let lines = split_lines(data);
    if lines.len() <= MAX_TEXT_FILTER_LINES {
        lines
    } else {
        lines.take(MAX_TEXT_FILTER_LINES as int)
    }
}

/// The ranges in the bytes of a text filter.
pub open spec fn text_ranges(data: Seq<u8>, dat: bool) -> Seq<RangeView> {
    lines_ranges(read_lines(data), dat)
}

/// Reads a PeerGuardian line.
pub fn parse_p2p_line(line: &[char]) -> (r: Option<IpRange>)
    ensures
        match r {
            Some(x) => p2p_line(line@) == Some(x@),
            None => p2p_line(line@) is None,
        },
{
    let len: usize = line.len();
    let colon: usize = match rfind_char(line, ':') {
        Some(c) => c,
        None => {
            return None;
        },
    };
    let before = vstd::slice::slice_subrange(line, 0, colon);
    let after = vstd::slice::slice_subrange(line, colon + 1, len);
    assert(before@ =~= line@.take(colon as int));
    assert(after@ =~= line@.skip(colon + 1));
    let range = trim_slice(after);
    let range_len: usize = range.len();
    let dash: usize = match find_char(range, '-') {
        Some(d) => d,
        None => {
            return None;
        },
    };
    let lo = vstd::slice::slice_subrange(range, 0, dash);
    let hi = vstd::slice::slice_subrange(range, dash + 1, range_len);
    assert(lo@ =~= range@.take(dash as int));
    assert(hi@ =~= range@.skip(dash + 1));
    let start: u32 = match parse_ip_lenient(lo) {
        Some(ip) => ip.bits,
        None => {
            return None;
        },
    };
    let end: u32 = match parse_ip_lenient(hi) {
        Some(ip) => ip.bits,
        None => {
            return None;
        },
    };
    if start > end {
        return None;
    }
    Some(IpRange::new(start, end, string_of(trim_slice(before))))
}

fn parse_bounds(field: &[char]) -> (r: Option<(u32, u32)>)
    ensures
        match r {
            Some((s, e)) => line_bounds(field@) == Some((s as nat, e as nat)),
            None => line_bounds(field@) is None,
        },
{
    let len: usize = field.len();
    match find_char(field, '-') {
        Some(dash) => {
            let lo = vstd::slice::slice_subrange(field, 0, dash);
            let hi = vstd::slice::slice_subrange(field, dash + 1, len);
            assert(lo@ =~= field@.take(dash as int));
            assert(hi@ =~= field@.skip(dash + 1));
            match (parse_ip_lenient(lo), parse_ip_lenient(hi)) {
                (Some(s), Some(e)) => Some((s.bits, e.bits)),
                _ => None,
            }
        },
        None => match parse_ip_lenient(field) {
            Some(s) => Some((s.bits, s.bits)),
            None => None,
        },
    }
}

/// Reads an `ipfilter.dat` line.
pub fn parse_ipfilter_line(line: &[char]) -> (r: Option<IpRange>)
    ensures
        match r {
            Some(x) => ipfilter_line(line@) == Some(x@),
            None => ipfilter_line(line@) is None,
        },
{
    let len: usize = line.len();
    let comma: usize = match find_char(line, ',') {
        Some(c) => c,
        None => {
            return None;
        },
    };
    let field = vstd::slice::slice_subrange(line, 0, comma);
    let rest = vstd::slice::slice_subrange(line, comma + 1, len);
    assert(field@ =~= line@.take(comma as int));
    assert(rest@ =~= line@.skip(comma + 1));
    let rest_len: usize = rest.len();
    let second: Option<usize> = find_char(rest, ',');
    let level_end: usize = match second {
        Some(d) => d,
        None => rest_len,
    };
    let level = vstd::slice::slice_subrange(rest, 0, level_end);
    assert(second is Some ==> level@ =~= rest@.take(level_end as int));
    assert(second is None ==> level@ =~= rest@);
    match parse_u32(trim_slice(level)) {
        None => {
            return None;
        },
        Some(n) => {
            if n >= IPFILTER_BLOCK_LEVEL {
                return None;
            }
        },
    }
    let description = match second {
        Some(d) => {
            let text = vstd::slice::slice_subrange(rest, d + 1, rest_len);
            assert(text@ =~= rest@.skip(d + 1));
            string_of(trim_slice(text))
        },
        None => String::new(),
    };
    assert(second is None ==> description@ =~= Seq::<char>::empty());
    match parse_bounds(trim_slice(field)) {
        None => None,
        Some((s, e)) => if s > e {
            None
        } else {
            Some(IpRange::new(s, e, description))
        },
    }
}

/// Reads one line of a text filter, its end of line included.
pub fn parse_text_line(raw: &[u8], dat: bool) -> (r: Option<IpRange>)
    ensures
        match r {
            Some(x) => line_range(raw@, dat) == Some(x@),
            None => line_range(raw@, dat) is None,
        },
{
    if raw.len() > MAX_TEXT_FILTER_LINE_BYTES {
        return None;
    }
    let text = string_from_utf8_lossy(raw);
    let chars = chars_of(text.as_str());
    let line = trim_slice(chars.as_slice());
    if line.len() == 0 || line[0] == '#' || (line.len() >= 2 && line[0] == '/' && line[1] == '/') {
        return None;
    }
    if dat {
        let r = parse_ipfilter_line(line);
        if r.is_some() {
            return r;
        }
    }
    parse_p2p_line(line)
}

/// Every range on a line is proper.
pub proof fn lemma_lines_proper(lines: Seq<Seq<u8>>, dat: bool)
    ensures
        proper(lines_ranges(lines, dat)),
    decreases lines.len(),
{
    if lines.len() > 0 {
        lemma_lines_proper(lines.drop_last(), dat);
        let a = lines_ranges(lines.drop_last(), dat);
        let b = as_seq(line_range(lines.last(), dat));
        assert forall|i: int| 0 <= i < (a + b).len() implies (#[trigger] (a + b)[i]).start <= (a
            + b)[i].end by {
            if i < a.len() {
                assert((a + b)[i] == a[i]);
            } else {
                let line = trimmed(text_of(lines.last()));
                assert((a + b)[i] == text_line(line, dat)->Some_0);
                lemma_line_proper(line, dat);
            }
        }
    }
}

proof fn lemma_line_proper(line: Seq<char>, dat: bool)
    ensures
        text_line(line, dat) matches Some(r) ==> r.start <= r.end,
{
    if ipfilter_line(line) is Some {
        let c = find_first(line, ',')->Some_0;
        lemma_bounds_fit(trimmed(line.take(c as int)));
    }
    if p2p_line(line) is Some {
        let c = find_last(line, ':')->Some_0;
        let range = trimmed(line.skip(c as int + 1));
        let d = find_first(range, '-')->Some_0;
        lemma_lenient_fits(range.take(d as int));
        lemma_lenient_fits(range.skip(d as int + 1));
    }
}

proof fn lemma_bounds_fit(field: Seq<char>)
    ensures
        line_bounds(field) matches Some((s, e)) ==> s <= u32::MAX && e <= u32::MAX,
{
    lemma_lenient_fits(field);
    if let Some(d) = find_first(field, '-') {
        lemma_lenient_fits(field.take(d as int));
        lemma_lenient_fits(field.skip(d as int + 1));
    }
}

proof fn lemma_lenient_fits(s: Seq<char>)
    ensures
        lenient_ip(s) matches Some(v) ==> v <= u32::MAX,
{
    super::ip_text::lemma_dotted_fits(trimmed(s), 4, true);
}

/// Collects the ranges of a text filter line by line, for callers that stream a file.
#[derive(Debug)]
pub struct TextLoad {
    pub ranges: Vec<IpRange>,
    pub lines: usize,
    pub dat: bool,
}

impl TextLoad {
    pub open spec fn wf(&self) -> bool {
        self.lines <= MAX_TEXT_FILTER_LINES && proper(range_views(self.ranges@))
    }

    /// Starts a load; `dat` tells an `ipfilter.dat` from a PeerGuardian text.
    pub fn new(dat: bool) -> (r: TextLoad)
        ensures
            r.wf(),
            r.ranges@.len() == 0,
            r.lines == 0,
            r.dat == dat,
    {
        TextLoad { ranges: Vec::new(), lines: 0, dat }
    }

    /// Takes the next line, its end of line included. Returns false once the
    /// limit on lines is reached, and then takes nothing.
    pub fn line(&mut self, raw: &[u8]) -> (more: bool)
        requires
            old(self).wf(),
        ensures
            final(self).wf(),
            final(self).dat == old(self).dat,
            more == (old(self).lines < MAX_TEXT_FILTER_LINES),
            more ==> final(self).lines == old(self).lines + 1 && range_views(final(self).ranges@)
                == range_views(old(self).ranges@) + as_seq(line_range(raw@, old(self).dat)),
            !more ==> *final(self) == *old(self),
    {
        if self.lines >= MAX_TEXT_FILTER_LINES {
            return false;
        }
        let ghost before = self.ranges@;
        self.lines = self.lines + 1;
        match parse_text_line(raw, self.dat) {
            Some(r) => {
                proof {
                    lemma_line_proper(trimmed(text_of(raw@)), self.dat);
                }
                self.ranges.push(r);
                assert(range_views(self.ranges@) =~= range_views(before) + seq![r@]);
            },
            None => {
                assert(range_views(self.ranges@) =~= range_views(before) + Seq::empty());
            },
        }
        true
    }
}

/// Splitting at the next line feed.
proof fn lemma_split_step(data: Seq<u8>, pos: int, i: nat)
    requires
        0 <= pos < data.len(),
        find_first(data.skip(pos), 10u8) == Some(i),
        pos + i < data.len(),
    ensures
        split_lines(data.skip(pos)) == seq![data.subrange(pos, pos + i + 1)] + split_lines(
            data.skip(pos + i + 1),
        ),
{
    let s = data.skip(pos);
    assert(s.take(i as int + 1) =~= data.subrange(pos, pos + i + 1));
    assert(s.skip(i as int + 1) =~= data.skip(pos + i + 1));
}

fn load_text(data: &[u8], dat: bool) -> (load: TextLoad)
    ensures
        load.wf(),
        range_views(load.ranges@) == text_ranges(data@, dat),
{
    let mut load = TextLoad::new(dat);
    let mut pos: usize = 0;
    let ghost all = split_lines(data@);
    let ghost mut done: Seq<Seq<u8>> = Seq::empty();
    assert(data@.skip(0) =~= data@);
    assert(done + all =~= all);
    assert(range_views(load.ranges@) =~= lines_ranges(done, dat));
    while pos < data.len()
        invariant
            pos <= data@.len(),
            load.wf(),
            load.dat == dat,
            all == split_lines(data@),
            done + split_lines(data@.skip(pos as int)) == all,
            load.lines == done.len(),
            range_views(load.ranges@) == lines_ranges(done, dat),
        decreases data@.len() - pos,
    {
        let ghost tail = split_lines(data@.skip(pos as int));
        let end: usize = match find_byte(data, pos, 10) {
            Some(i) => {
                proof {
                    lemma_split_step(data@, pos as int, i as nat);
                }
                pos + i + 1
            },
            None => data.len(),
        };
        let raw = vstd::slice::slice_subrange(data, pos, end);
        proof {
            if find_first(data@.skip(pos as int), 10u8) is None {
                assert(data@.skip(pos as int) =~= raw@);
                assert(tail == seq![raw@]);
                assert(data@.skip(end as int).len() == 0);
                assert(tail =~= seq![raw@] + split_lines(data@.skip(end as int)));
            }
            assert(tail == seq![raw@] + split_lines(data@.skip(end as int)));
            assert(all[done.len() as int] == raw@);
        }
        let more = load.line(raw);
        if !more {
            proof {
                assert(all.len() > done.len());
                assert(done =~= all.take(done.len() as int));
            }
            return load;
        }
        proof {
            let next = done.push(raw@);
            assert(next.drop_last() =~= done);
            assert(next + split_lines(data@.skip(end as int)) =~= done + tail);
            done = next;
        }
        pos = end;
    }
    assert(data@.skip(pos as int).len() == 0);
    assert(done =~= all);
    load
}

// ---------------------------------------------------------------------------
// Binary filters
// ---------------------------------------------------------------------------
pub open spec fn be32(s: Seq<u8>) -> u32 {
    (s[0] * 0x100_0000 + s[1] * 0x1_0000 + s[2] * 0x100 + s[3]) as u32
}

/// The records of a binary filter: a name up to a zero byte, then the two ends
/// in network order. A record that is cut off ends the list; one whose ends
/// are swapped is left out.
pub open spec fn p2b_records(s: Seq<u8>) -> Seq<RangeView>
    decreases s.len(),
{
    match find_first(s, 0u8) {
        None => Seq::empty(),
        Some(i) => if i + 9 > s.len() {
            Seq::empty()
        } else {
            let rest = s.skip(i as int + 1);
            let start = be32(rest);
            let end = be32(rest.skip(4));
            (if start <= end {
                seq![new_range(start, end, text_of(s.take(i as int)))]
            } else {
                Seq::empty()
            }) + p2b_records(s.skip(i as int + 9))
        },
    }
}

/// The header of a binary filter: four bytes of 255, `P2B`, and version 1 or 2.
pub open spec fn p2b_header(data: Seq<u8>) -> bool {
    &&& data.len() >= 8
    &&& data[0] == 0xFF && data[1] == 0xFF && data[2] == 0xFF && data[3] == 0xFF
    &&& data[4] == 0x50 && data[5] == 0x32 && data[6] == 0x42
    &&& data[7] == 1 || data[7] == 2
}

fn has_p2b_header(data: &[u8]) -> (r: bool)
    ensures
        r == p2b_header(data@),
{
    data.len() >= 8 && data[0] == 0xFF && data[1] == 0xFF && data[2] == 0xFF && data[3] == 0xFF
        && data[4] == 0x50 && data[5] == 0x32 && data[6] == 0x42 && (data[7] == 1 || data[7] == 2)
}

fn be32_at(data: &[u8], pos: usize) -> (r: u32)
    requires
        pos + 4 <= data@.len(),
    ensures
        r == be32(data@.skip(pos as int)),
{
    data[pos] as u32 * 0x100_0000 + data[pos + 1] as u32 * 0x1_0000 + data[pos + 2] as u32 * 0x100
        + data[pos + 3] as u32
}

fn load_p2b(data: &[u8]) -> (out: Vec<IpRange>)
    requires
        p2b_header(data@),
    ensures
        range_views(out@) == p2b_records(data@.skip(8)),
        proper(range_views(out@)),
{
    let mut out: Vec<IpRange> = Vec::new();
    let mut pos: usize = 8;
    let ghost all = p2b_records(data@.skip(8));
    assert(range_views(out@) + all =~= all);
    while pos < data.len()
        invariant
            pos <= data@.len(),
            all == p2b_records(data@.skip(8)),
            range_views(out@) + p2b_records(data@.skip(pos as int)) == all,
            proper(range_views(out@)),
        decreases data@.len() - pos,
    {
        let ghost s = data@.skip(pos as int);
        let ghost before = out@;
        let i: usize = match find_byte(data, pos, 0) {
            Some(i) => i,
            None => {
                assert(range_views(out@) + Seq::empty() =~= range_views(out@));
                return out;
            },
        };
        let end_of_name: usize = pos + i;
        if data.len() - end_of_name < 9 {
            assert(range_views(out@) + Seq::empty() =~= range_views(out@));
            return out;
        }
        let name = vstd::slice::slice_subrange(data, pos, end_of_name);
        assert(name@ =~= s.take(i as int));
        let ghost rest = s.skip(i as int + 1);
        assert(rest =~= data@.skip(end_of_name + 1));
        assert(rest.skip(4) =~= data@.skip(end_of_name + 5));
        let start: u32 = be32_at(data, end_of_name + 1);
        let end: u32 = be32_at(data, end_of_name + 5);
        assert(s.skip(i as int + 9) =~= data@.skip(end_of_name + 9));
        let ghost tail = p2b_records(data@.skip(end_of_name + 9));
        if start <= end {
            let r = IpRange::new(start, end, string_from_utf8_lossy(name));
            out.push(r);
            assert(range_views(out@) =~= range_views(before) + seq![r@]);
            assert(range_views(out@) + tail =~= range_views(before) + (seq![r@] + tail));
        } else {
            assert(range_views(out@) + (Seq::empty() + tail) =~= range_views(out@) + tail);
        }
        pos = end_of_name + 9;
    }
    assert(data@.skip(pos as int).len() == 0);
    assert(range_views(out@) + Seq::empty() =~= range_views(out@));
    out
}

// ---------------------------------------------------------------------------
// Formats
// ---------------------------------------------------------------------------
/// The form of a filter file, by its extension.
#[derive(Clone, Copy, Debug, PartialEq, Eq, Structural)]
pub enum FilterFormat {
    P2b,
    P2p,
    Dat,
}

/// Whether a text is `p2` and then one of two characters, in either case.
pub open spec fn is_p2_ext(ext: Seq<char>, lower: char, upper: char) -> bool {
    &&& ext.len() == 3
    &&& ext[0] == 'p' || ext[0] == 'P'
    &&& ext[1] == '2'
    &&& ext[2] == lower || ext[2] == upper
}

pub open spec fn format_of(ext: Seq<char>) -> FilterFormat {
    if is_p2_ext(ext, 'b', 'B') {
        FilterFormat::P2b
    } else if is_p2_ext(ext, 'p', 'P') {
        FilterFormat::P2p
    } else {
        FilterFormat::Dat
    }
}

impl FilterFormat {
    /// The form that an extension names: `p2b`, `p2p`, or else `ipfilter.dat`.
    pub fn from_extension(ext: &str) -> (r: FilterFormat)
        ensures
            r == format_of(ext@),
    {
        let c = chars_of(ext);
        if c.len() == 3 && (c[0] == 'p' || c[0] == 'P') && c[1] == '2' {
            if c[2] == 'b' || c[2] == 'B' {
                return FilterFormat::P2b;
            }
            if c[2] == 'p' || c[2] == 'P' {
                return FilterFormat::P2p;
            }
        }
        FilterFormat::Dat
    }
}

/// The ranges in the bytes of a filter file, or nothing where it cannot be read.
pub open spec fn file_ranges(data: Seq<u8>, format: FilterFormat) -> Option<Seq<RangeView>> {
    match format {
        FilterFormat::P2b => if data.len() <= MAX_P2B_BYTES && p2b_header(data) {
            Some(p2b_records(data.skip(8)))
        } else {
            None
        },
        FilterFormat::P2p => Some(text_ranges(data, false)),
        FilterFormat::Dat => Some(text_ranges(data, true)),
    }
}

fn count_text_entries(data: &[u8], dat: bool) -> (n: usize)
    ensures
        n == text_ranges(data@, dat).len(),
{
    let load = load_text(data, dat);
    assert(range_views(load.ranges@).len() == load.ranges@.len());
    load.ranges.len()
}

fn count_p2b_entries(data: &[u8]) -> (n: usize)
    ensures
        n == (if p2b_header(data@) {
            p2b_records(data@.skip(8)).len()
        } else {
            0
        }),
{
    if !has_p2b_header(data) {
        return 0;
    }
    let out = load_p2b(data);
    assert(range_views(out@).len() == out@.len());
    out.len()
}

/// How many entries a filter file holds: what a load of the same bytes would
/// read, so that a bad download can be refused before it replaces anything.
pub fn count_valid_entries(data: &[u8], ext_hint: &str) -> (n: usize)
    ensures
        n == (match format_of(ext_hint@) {
            FilterFormat::P2b => if p2b_header(data@) {
                p2b_records(data@.skip(8)).len()
            } else {
                0
            },
            FilterFormat::P2p => text_ranges(data@, false).len(),
            FilterFormat::Dat => text_ranges(data@, true).len(),
        }),
{
    match FilterFormat::from_extension(ext_hint) {
        FilterFormat::P2b => count_p2b_entries(data),
        FilterFormat::P2p => count_text_entries(data, false),
        FilterFormat::Dat => count_text_entries(data, true),
    }
}

// ---------------------------------------------------------------------------
// Decisions
// ---------------------------------------------------------------------------
/// Why an address is blocked, or that it passes.
pub enum Decision {
    /// It can be no peer, or it is local and local addresses are blocked.
    Special,
    /// The filter is on, but its ranges are not there yet.
    NotReady,
    /// The range with this index holds it.
    Range(int),
    Pass,
}

/// The ends of each range.
pub open spec fn bounds(rs: Seq<RangeView>) -> Seq<(u32, u32)> {
    rs.map_values(|r: RangeView| (r.start, r.end))
}

pub open spec fn within(b: (u32, u32), x: u32) -> bool {
    b.0 <= x <= b.1
}

/// Ranges in ascending order that do not overlap.
pub open spec fn ascending(bs: Seq<(u32, u32)>) -> bool {
    &&& forall|i: int| 0 <= i < bs.len() ==> (#[trigger] bs[i]).0 <= bs[i].1
    &&& forall|i: int, j: int|
        #![trigger bs[i], bs[j]]
        0 <= i < j < bs.len() ==> bs[i].1 < bs[j].0
}

pub open spec fn in_some(bs: Seq<(u32, u32)>, x: u32) -> bool {
    exists|i: int| 0 <= i < bs.len() && #[trigger] within(bs[i], x)
}

/// What a filter decides on an address. With `fail_closed` nothing passes
/// while an enabled filter waits for its ranges.
pub open spec fn decide(
    ip: Ipv4Addr,
    block_private: bool,
    enabled: bool,
    ranges_ready: bool,
    bs: Seq<(u32, u32)>,
    fail_closed: bool,
) -> Decision {
    if bogus_v4(ip) || (block_private && lan_or_cgnat_v4(ip)) {
        Decision::Special
    } else if enabled && !ranges_ready && fail_closed {
        Decision::NotReady
    } else if enabled && (ranges_ready || fail_closed) && in_some(bs, ip.bits) {
        Decision::Range(choose|i: int| 0 <= i < bs.len() && #[trigger] within(bs[i], ip.bits))
    } else {
        Decision::Pass
    }
}

/// Finds the range that holds an address, by halving.
fn search_bounds(bs: &Vec<(u32, u32)>, x: u32) -> (r: Option<usize>)
    requires
        ascending(bs@),
    ensures
        match r {
            Some(i) => i < bs@.len() && within(bs@[i as int], x) && i == (choose|i: int|
                0 <= i < bs@.len() && #[trigger] within(bs@[i], x)),
            None => !in_some(bs@, x),
        },
{
    let mut lo: usize = 0;
    let mut hi: usize = bs.len();
    while lo < hi
        invariant
            lo <= hi <= bs@.len(),
            ascending(bs@),
            forall|i: int| 0 <= i < lo ==> (#[trigger] bs@[i]).1 < x,
            forall|i: int| hi <= i < bs@.len() ==> x < (#[trigger] bs@[i]).0,
        decreases hi - lo,
    {
        let mid: usize = lo + (hi - lo) / 2;
        let b = bs[mid];
        if x < b.0 {
            assert forall|i: int| mid <= i < bs@.len() implies x < (#[trigger] bs@[i]).0 by {
                assert(i > mid ==> bs@[mid as int].1 < bs@[i].0);
            }
            hi = mid;
        } else if x > b.1 {
            assert forall|i: int| 0 <= i < mid + 1 implies (#[trigger] bs@[i]).1 < x by {
                assert(i < mid ==> bs@[i].1 < bs@[mid as int].0);
            }
            lo = mid + 1;
        } else {
            proof {
                assert(within(bs@[mid as int], x));
                let c = choose|i: int| 0 <= i < bs@.len() && #[trigger] within(bs@[i], x);
                if c < mid {
                    assert(bs@[c].1 < bs@[mid as int].0);
                }
                if c > mid {
                    assert(bs@[mid as int].1 < bs@[c].0);
                }
            }
            return Some(mid);
        }
    }
    None
}

// ---------------------------------------------------------------------------
// Snapshots
// ---------------------------------------------------------------------------
/// A snapshot that another task keeps up to date: as it was last seen, or the
/// fact that the task failed in the middle of a change.
#[derive(Debug)]
pub enum SharedIpFilter {
    Readable(IpFilterSnapshot),
    Poisoned,
}

/// A shared snapshot as a mathematical value.
pub enum FilterSlot {
    Readable(SnapshotView),
    Poisoned,
}

pub open spec fn slot_of(f: Option<SharedIpFilter>) -> Option<FilterSlot> {
    match f {
        None => None,
        Some(SharedIpFilter::Readable(s)) => Some(FilterSlot::Readable(s@)),
        Some(SharedIpFilter::Poisoned) => Some(FilterSlot::Poisoned),
    }
}

/// What the busy paths need of a filter: its bounds and settings, with
/// counters of their own that are collected from time to time.
#[derive(Debug)]
pub struct IpFilterSnapshot {
    pub ranges: Vec<(u32, u32)>,
    /// Matches of each range.
    pub range_hits: Vec<u64>,
    pub enabled: bool,
    pub block_private: bool,
    /// False while an enabled filter waits for its ranges.
    pub ranges_ready: bool,
    /// Matches of ranges, and blocks while they were not there.
    pub hit_counter: u64,
    /// Blocks of addresses that no peer has, or that are local.
    pub special_hit_counter: u64,
}

pub struct SnapshotView {
    pub ranges: Seq<(u32, u32)>,
    pub range_hits: Seq<u64>,
    pub enabled: bool,
    pub block_private: bool,
    pub ranges_ready: bool,
    pub hit_counter: u64,
    pub special_hit_counter: u64,
}

impl View for IpFilterSnapshot {
    type V = SnapshotView;

    open spec fn view(&self) -> SnapshotView {
        SnapshotView {
            ranges: self.ranges@,
            range_hits: self.range_hits@,
            enabled: self.enabled,
            block_private: self.block_private,
            ranges_ready: self.ranges_ready,
            hit_counter: self.hit_counter,
            special_hit_counter: self.special_hit_counter,
        }
    }
}

impl SnapshotView {
    pub open spec fn wf(self) -> bool {
        ascending(self.ranges) && self.range_hits.len() == self.ranges.len()
    }

    pub open spec fn decision(self, ip: Ipv4Addr, fail_closed: bool) -> Decision {
        decide(
            ip,
            self.block_private,
            self.enabled,
            self.ranges_ready,
            self.ranges,
            fail_closed,
        )
    }

    /// With all counters at zero.
    pub open spec fn emptied(self) -> SnapshotView {
        SnapshotView {
            hit_counter: 0,
            special_hit_counter: 0,
            range_hits: Seq::new(self.range_hits.len(), |i: int| 0u64),
            ..self
        }
    }

    /// The counters after a decision.
    pub open spec fn counted(self, d: Decision) -> SnapshotView {
        match d {
            Decision::Special => SnapshotView {
                special_hit_counter: self.special_hit_counter.wrapping_add(1),
                ..self
            },
            Decision::NotReady => SnapshotView {
                hit_counter: self.hit_counter.wrapping_add(1),
                ..self
            },
            Decision::Range(i) => SnapshotView {
                hit_counter: self.hit_counter.wrapping_add(1),
                range_hits: self.range_hits.update(i, self.range_hits[i].wrapping_add(1)),
                ..self
            },
            Decision::Pass => self,
        }
    }
}

impl IpFilterSnapshot {
    fn record_range_hit(&mut self, idx: usize)
        requires
            idx < old(self).range_hits@.len(),
        ensures
            final(self)@ == old(self)@.counted(Decision::Range(idx as int)),
    {
        let n: u64 = self.range_hits[idx];
        self.range_hits.set(idx, n.wrapping_add(1));
        self.hit_counter = self.hit_counter.wrapping_add(1);
    }

    fn check(&mut self, ip: Ipv4Addr, fail_closed: bool) -> (blocked: bool)
        requires
            old(self)@.wf(),
        ensures
            blocked == !(old(self)@.decision(ip, fail_closed) is Pass),
            final(self)@ == old(self)@.counted(old(self)@.decision(ip, fail_closed)),
            final(self)@.wf(),
    {
        if is_bogus_v4(ip) || (self.block_private && is_lan_or_cgnat_v4(ip)) {
            self.special_hit_counter = self.special_hit_counter.wrapping_add(1);
            return true;
        }
        if self.enabled && !self.ranges_ready && fail_closed {
            self.hit_counter = self.hit_counter.wrapping_add(1);
            return true;
        }
        if self.enabled && (self.ranges_ready || fail_closed) {
            if let Some(idx) = search_bounds(&self.ranges, ip.bits) {
                self.record_range_hit(idx);
                return true;
            }
        }
        false
    }

    /// Whether an address is blocked. While an enabled filter waits for its
    /// ranges, every address is.
    pub fn is_blocked(&mut self, ip: Ipv4Addr) -> (blocked: bool)
        requires
            old(self)@.wf(),
        ensures
            blocked == !(old(self)@.decision(ip, true) is Pass),
            final(self)@ == old(self)@.counted(old(self)@.decision(ip, true)),
            final(self)@.wf(),
    {
        self.check(ip, true)
    }

    /// Whether an address is blocked for Kad. While an enabled filter waits
    /// for its ranges, only the special addresses are: else no bootstrap
    /// answer could come in.
    pub fn is_blocked_for_kad(&mut self, ip: Ipv4Addr) -> (blocked: bool)
        requires
            old(self)@.wf(),
        ensures
            blocked == !(old(self)@.decision(ip, false) is Pass),
            final(self)@ == old(self)@.counted(old(self)@.decision(ip, false)),
            final(self)@.wf(),
    {
        self.check(ip, false)
    }
}

/// Once the ranges are there, both checks agree; before that the one for Kad
/// blocks less.
pub proof fn lemma_kad_check_weaker(s: SnapshotView, ip: Ipv4Addr)
    ensures
        s.ranges_ready || !s.enabled ==> s.decision(ip, true) == s.decision(ip, false),
        !(s.decision(ip, false) is Pass) ==> !(s.decision(ip, true) is Pass),
        s.enabled && !s.ranges_ready ==> !(s.decision(ip, true) is Pass),
{
}

// ---------------------------------------------------------------------------
// The filter
// ---------------------------------------------------------------------------
/// One line of the filter's statistics.
#[derive(Debug)]
pub struct IpFilterEntry {
    pub start_ip: String,
    pub end_ip: String,
    pub description: String,
    pub hits: u64,
}

#[derive(Debug)]
pub struct IpFilterStats {
    pub enabled: bool,
    pub block_private: bool,
    pub ranges_ready: bool,
    pub range_count: usize,
    pub total_hits: u64,
    pub entries: Vec<IpFilterEntry>,
}

/// The filter with its descriptions and counters.
#[derive(Debug)]
pub struct IpFilter {
    blocked_ranges: Vec<IpRange>,
    enabled: bool,
    block_private: bool,
    ranges_ready: bool,
    total_range_hits: u64,
    total_special_hits: u64,
}

pub struct FilterView {
    pub ranges: Seq<RangeView>,
    pub enabled: bool,
    pub block_private: bool,
    pub ranges_ready: bool,
    pub range_hits: u64,
    pub special_hits: u64,
}

impl View for IpFilter {
    type V = FilterView;

    closed spec fn view(&self) -> FilterView {
        FilterView {
            ranges: range_views(self.blocked_ranges@),
            enabled: self.enabled,
            block_private: self.block_private,
            ranges_ready: self.ranges_ready,
            range_hits: self.total_range_hits,
            special_hits: self.total_special_hits,
        }
    }
}

impl FilterView {
    /// The ranges are in order and apart from each other.
    pub open spec fn wf(self) -> bool {
        normal(self.ranges)
    }

    pub open spec fn decision(self, ip: Ipv4Addr, fail_closed: bool) -> Decision {
        decide(
            ip,
            self.block_private,
            self.enabled,
            self.ranges_ready,
            bounds(self.ranges),
            fail_closed,
        )
    }

    /// A snapshot brought up to date: with our ranges and settings, its own
    /// totals, and the matches that it has for those of our ranges that it had.
    pub open spec fn refreshed(self, snap: SnapshotView) -> SnapshotView {
        SnapshotView {
            ranges: bounds(self.ranges),
            range_hits: Seq::new(
                self.ranges.len(),
                |j: int| pending_hits(snap, self.ranges[j].start, self.ranges[j].end),
            ),
            enabled: self.enabled,
            block_private: self.block_private,
            ranges_ready: self.ranges_ready,
            ..snap
        }
    }

    /// With what a snapshot has counted: its totals, and the matches of each
    /// range that we still have.
    pub open spec fn collected(self, snap: SnapshotView) -> FilterView {
        FilterView {
            range_hits: self.range_hits.wrapping_add(snap.hit_counter),
            special_hits: self.special_hits.wrapping_add(snap.special_hit_counter),
            ranges: credited(self.ranges, snap.ranges, snap.range_hits, snap.range_hits.len()),
            ..self
        }
    }

    /// The counters after a decision.
    pub open spec fn counted(self, d: Decision) -> FilterView {
        match d {
            Decision::Special => FilterView {
                special_hits: self.special_hits.wrapping_add(1),
                ..self
            },
            Decision::NotReady => FilterView {
                range_hits: self.range_hits.wrapping_add(1),
                ..self
            },
            Decision::Range(i) => FilterView {
                range_hits: self.range_hits.wrapping_add(1),
                ranges: self.ranges.update(
                    i,
                    RangeView { hits: self.ranges[i].hits.wrapping_add(1), ..self.ranges[i] },
                ),
                ..self
            },
            Decision::Pass => self,
        }
    }

    /// Matches of all ranges together.
    pub open spec fn hits_sum(self) -> nat {
        sum_hits(self.ranges)
    }

    /// The total that statistics show.
    pub open spec fn total_hits(self) -> nat {
        (if self.range_hits >= self.hits_sum() {
            self.range_hits as nat
        } else {
            self.hits_sum()
        }) + self.special_hits as nat
    }
}

proof fn lemma_sum_hits_mono(rs: Seq<RangeView>, i: int)
    requires
        0 <= i <= rs.len(),
    ensures
        sum_hits(rs.take(i)) <= sum_hits(rs),
    decreases rs.len(),
{
    if i == rs.len() {
        assert(rs.take(i) =~= rs);
    } else {
        assert(rs.drop_last().take(i) =~= rs.take(i));
        lemma_sum_hits_mono(rs.drop_last(), i);
    }
}

pub open spec fn same_bounds(r: RangeView, s: u32, e: u32) -> bool {
    r.start == s && r.end == e
}

/// The matches that a range had in an older list, if it was there and had some.
pub open spec fn saved_hits(old: Seq<RangeView>, s: u32, e: u32) -> Option<u64> {
    if exists|i: int| 0 <= i < old.len() && #[trigger] same_bounds(old[i], s, e) && old[i].hits > 0 {
        Some(
            old[choose|i: int|
                0 <= i < old.len() && #[trigger] same_bounds(old[i], s, e) && old[i].hits > 0].hits,
        )
    } else {
        None
    }
}

/// New ranges with the matches that the same ranges had before.
pub open spec fn with_saved(old: Seq<RangeView>, new: Seq<RangeView>) -> Seq<RangeView> {
    new.map_values(
        |r: RangeView|
            match saved_hits(old, r.start, r.end) {
                Some(h) => RangeView { hits: h, ..r },
                None => r,
            },
    )
}

/// What replacing the ranges of a filter gives.
pub open spec fn committed(old: FilterView, new_ranges: Seq<RangeView>, out: FilterView) -> bool {
    exists|m: Seq<RangeView>|
        #[trigger] normalised(new_ranges, m) && out == (FilterView {
            ranges: with_saved(old.ranges, m),
            ranges_ready: true,
            ..old
        })
}

proof fn lemma_same_bounds_normal(a: Seq<RangeView>, b: Seq<RangeView>)
    requires
        normal(a),
        a.len() == b.len(),
        forall|i: int| 0 <= i < a.len() ==> same_bounds(#[trigger] b[i], a[i].start, a[i].end),
    ensures
        normal(b),
        bounds(b) == bounds(a),
        forall|ip: u32| #[trigger] covers(b, ip) <==> covers(a, ip),
{
    assert forall|i: int, j: int|
        #![trigger b[i], b[j]]
        0 <= i < j < b.len() implies b[i].end + 1 < b[j].start by {
        assert(same_bounds(b[i], a[i].start, a[i].end) && same_bounds(b[j], a[j].start, a[j].end));
    }
    assert forall|i: int| 0 <= i < b.len() implies (#[trigger] b[i]).start <= b[i].end by {
        assert(same_bounds(b[i], a[i].start, a[i].end));
        assert(a[i].start <= a[i].end);
    }
    assert(bounds(b) =~= bounds(a));
    assert forall|ip: u32| #[trigger] covers(b, ip) <==> covers(a, ip) by {
        if covers(a, ip) {
            let i = choose|i: int| 0 <= i < a.len() && #[trigger] holds(a[i], ip);
            assert(holds(b[i], ip));
        }
        if covers(b, ip) {
            let i = choose|i: int| 0 <= i < b.len() && #[trigger] holds(b[i], ip);
            assert(holds(a[i], ip));
        }
    }
}

proof fn lemma_bounds_ascending(rs: Seq<RangeView>)
    requires
        normal(rs),
    ensures
        ascending(bounds(rs)),
        forall|ip: u32| #[trigger] in_some(bounds(rs), ip) <==> covers(rs, ip),
{
    let bs = bounds(rs);
    assert forall|i: int| 0 <= i < bs.len() implies (#[trigger] bs[i]).0 <= bs[i].1 by {
        assert(rs[i].start <= rs[i].end);
    }
    assert forall|i: int, j: int|
        #![trigger bs[i], bs[j]]
        0 <= i < j < bs.len() implies bs[i].1 < bs[j].0 by {
        assert(rs[i].end + 1 < rs[j].start);
    }
    assert forall|ip: u32| #[trigger] in_some(bs, ip) <==> covers(rs, ip) by {
        if in_some(bs, ip) {
            let i = choose|i: int| 0 <= i < bs.len() && #[trigger] within(bs[i], ip);
            assert(holds(rs[i], ip));
        }
        if covers(rs, ip) {
            let i = choose|i: int| 0 <= i < rs.len() && #[trigger] holds(rs[i], ip);
            assert(within(bs[i], ip));
        }
    }
}

/// A filter whose ranges were replaced is in order, keeps its settings and its
/// totals, and has exactly the addresses of the new ranges in its own.
pub proof fn lemma_committed(old: FilterView, new_ranges: Seq<RangeView>, out: FilterView)
    requires
        proper(new_ranges),
        committed(old, new_ranges, out),
    ensures
        out.wf(),
        out.ranges_ready,
        out.enabled == old.enabled && out.block_private == old.block_private,
        out.range_hits == old.range_hits && out.special_hits == old.special_hits,
        forall|ip: u32| #[trigger] covers(out.ranges, ip) <==> covers(new_ranges, ip),
        out.ranges.len() == 0 <==> new_ranges.len() == 0,
{
    let m = choose|m: Seq<RangeView>|
        #[trigger] normalised(new_ranges, m) && out == (FilterView {
            ranges: with_saved(old.ranges, m),
            ranges_ready: true,
            ..old
        });
    lemma_normalised(new_ranges, m);
    lemma_same_bounds_normal(m, out.ranges);
    assert forall|ip: u32| #[trigger] covers(out.ranges, ip) <==> covers(new_ranges, ip) by {
        assert(covers(out.ranges, ip) <==> covers(m, ip));
        assert(covers(m, ip) <==> covers(new_ranges, ip));
    }
}

/// An enabled filter with its ranges in place blocks an address exactly if it
/// can be no peer, is local while those are blocked, or lies in a range.
pub proof fn lemma_blocked_iff(f: FilterView, ip: Ipv4Addr, fail_closed: bool)
    requires
        f.wf(),
        f.ranges_ready,
    ensures
        !(f.decision(ip, fail_closed) is Pass) <==> bogus_v4(ip) || (f.block_private
            && lan_or_cgnat_v4(ip)) || (f.enabled && covers(f.ranges, ip.bits)),
{
    lemma_bounds_ascending(f.ranges);
    assert(in_some(bounds(f.ranges), ip.bits) <==> covers(f.ranges, ip.bits));
}

/// Finds the range that holds an address, by halving.
fn search_ranges(rs: &Vec<IpRange>, x: u32) -> (r: Option<usize>)
    requires
        normal(range_views(rs@)),
    ensures
        match r {
            Some(i) => {
                let bs = bounds(range_views(rs@));
                i < rs@.len() && within(bs[i as int], x) && i == (choose|i: int|
                    0 <= i < bs.len() && #[trigger] within(bs[i], x))
            },
            None => !in_some(bounds(range_views(rs@)), x),
        },
{
    let ghost vs = range_views(rs@);
    let ghost bs = bounds(vs);
    proof {
        lemma_bounds_ascending(vs);
    }
    let mut lo: usize = 0;
    let mut hi: usize = rs.len();
    while lo < hi
        invariant
            lo <= hi <= rs@.len(),
            bs == bounds(range_views(rs@)),
            ascending(bs),
            forall|i: int| 0 <= i < lo ==> (#[trigger] bs[i]).1 < x,
            forall|i: int| hi <= i < bs.len() ==> x < (#[trigger] bs[i]).0,
        decreases hi - lo,
    {
        let mid: usize = lo + (hi - lo) / 2;
        let (start, end) = (rs[mid].start, rs[mid].end);
        assert(bs[mid as int] == (start, end));
        if x < start {
            assert forall|i: int| mid <= i < bs.len() implies x < (#[trigger] bs[i]).0 by {
                assert(i > mid ==> bs[mid as int].1 < bs[i].0);
            }
            hi = mid;
        } else if x > end {
            assert forall|i: int| 0 <= i < mid + 1 implies (#[trigger] bs[i]).1 < x by {
                assert(i < mid ==> bs[i].1 < bs[mid as int].0);
            }
            lo = mid + 1;
        } else {
            proof {
                assert(within(bs[mid as int], x));
                let c = choose|i: int| 0 <= i < bs.len() && #[trigger] within(bs[i], x);
                if c < mid {
                    assert(bs[c].1 < bs[mid as int].0);
                }
                if c > mid {
                    assert(bs[mid as int].1 < bs[c].0);
                }
            }
            return Some(mid);
        }
    }
    None
}

/// Finds the range with exactly these bounds.
fn find_exact(rs: &Vec<IpRange>, s: u32, e: u32) -> (r: Option<usize>)
    requires
        normal(range_views(rs@)),
    ensures
        match r {
            Some(i) => i < rs@.len() && same_bounds(rs@[i as int]@, s, e),
            None => forall|j: int| 0 <= j < rs@.len() ==> !same_bounds((#[trigger] rs@[j])@, s, e),
        },
{
    let ghost vs = range_views(rs@);
    let ghost bs = bounds(vs);
    proof {
        lemma_bounds_ascending(vs);
    }
    match search_ranges(rs, s) {
        Some(i) => {
            if rs[i].start == s && rs[i].end == e {
                return Some(i);
            }
            assert forall|j: int| 0 <= j < rs@.len() implies !same_bounds(
                (#[trigger] rs@[j])@,
                s,
                e,
            ) by {
                assert(bs[i as int] == (rs@[i as int].start, rs@[i as int].end));
                assert(bs[j] == (rs@[j].start, rs@[j].end));
                assert(vs[j].start <= vs[j].end);
            }
            None
        },
        None => {
            assert forall|j: int| 0 <= j < rs@.len() implies !same_bounds(
                (#[trigger] rs@[j])@,
                s,
                e,
            ) by {
                assert(vs[j].start <= vs[j].end);
                assert(same_bounds(rs@[j]@, s, e) ==> within(bs[j], s));
            }
            None
        },
    }
}

impl IpFilter {
    /// A filter without ranges. Where it is enabled it waits for them.
    pub fn new(enabled: bool, block_private: bool) -> (r: IpFilter)
        ensures
            r@ == (FilterView {
                ranges: Seq::empty(),
                enabled,
                block_private,
                ranges_ready: !enabled,
                range_hits: 0,
                special_hits: 0,
            }),
            r@.wf(),
    {
        let r = IpFilter {
            blocked_ranges: Vec::new(),
            enabled,
            block_private,
            ranges_ready: !enabled,
            total_range_hits: 0,
            total_special_hits: 0,
        };
        assert(r@.ranges =~= Seq::empty());
        r
    }

    /// Says that the ranges are in place, or that there are none to load.
    pub fn mark_ranges_ready(&mut self)
        ensures
            final(self)@ == (FilterView { ranges_ready: true, ..old(self)@ }),
    {
        self.ranges_ready = true;
    }

    /// Says that the ranges are not in place.
    pub fn mark_ranges_not_ready(&mut self)
        ensures
            final(self)@ == (FilterView { ranges_ready: false, ..old(self)@ }),
    {
        self.ranges_ready = false;
    }

    pub fn ranges_ready(&self) -> (r: bool)
        ensures
            r == self@.ranges_ready,
    {
        self.ranges_ready
    }

    /// Replaces the ranges, keeping the matches of those that stay the same.
    /// Only this function replaces them, and only with ranges that were read
    /// in full, so a load that fails leaves the filter as it was.
    pub fn commit_ranges(&mut self, new_ranges: Vec<IpRange>) -> (n: usize)
        requires
            old(self)@.wf(),
            proper(range_views(new_ranges@)),
        ensures
            committed(old(self)@, range_views(new_ranges@), final(self)@),
            final(self)@.wf(),
            n == final(self)@.ranges.len(),
    {
        let ghost before = self@;
        let m = normalise(&new_ranges);
        let ghost mv = range_views(m@);
        let mut out: Vec<IpRange> = Vec::new();
        let mut i: usize = 0;
        let ghost want = with_saved(before.ranges, mv);
        while i < m.len()
            invariant
                i <= m@.len(),
                mv == range_views(m@),
                before == self@,
                before.wf(),
                want == with_saved(before.ranges, mv),
                out@.len() == i,
                forall|k: int| 0 <= k < i ==> (#[trigger] out@[k])@ == want[k],
            decreases m@.len() - i,
        {
            let mut r = m[i].duplicate();
            match find_exact(&self.blocked_ranges, r.start, r.end) {
                Some(j) => {
                    let hits: u64 = self.blocked_ranges[j].hits;
                    proof {
                        lemma_saved_hits(before.ranges, j as int, r.start, r.end);
                    }
                    if hits > 0 {
                        r.hits = hits;
                    }
                },
                None => {
                    assert forall|k: int| 0 <= k < before.ranges.len() implies !same_bounds(
                        #[trigger] before.ranges[k],
                        r.start,
                        r.end,
                    ) by {
                        assert(before.ranges[k] == self.blocked_ranges@[k]@);
                    }
                    assert(saved_hits(before.ranges, r.start, r.end) is None);
                },
            }
            assert(r@ == want[i as int]);
            out.push(r);
            i = i + 1;
        }
        assert(range_views(out@) =~= want);
        self.blocked_ranges = out;
        self.ranges_ready = true;
        proof {
            assert(normalised(range_views(new_ranges@), mv));
            assert(committed(before, range_views(new_ranges@), self@));
            lemma_committed(before, range_views(new_ranges@), self@);
        }
        self.blocked_ranges.len()
    }

    /// Replaces the ranges by those of a filter file. `None` means that the
    /// bytes are no such file; the filter is then as it was.
    pub fn load_from_file(&mut self, data: &[u8], ext: &str) -> (n: Option<usize>)
        requires
            old(self)@.wf(),
        ensures
            final(self)@.wf(),
            match file_ranges(data@, format_of(ext@)) {
                Some(rs) => n == Some(final(self)@.ranges.len() as usize) && committed(
                    old(self)@,
                    rs,
                    final(self)@,
                ),
                None => n is None && final(self)@ == old(self)@,
            },
    {
        match FilterFormat::from_extension(ext) {
            FilterFormat::P2b => self.load_p2b_file(data),
            FilterFormat::P2p => self.load_p2p_file(data),
            FilterFormat::Dat => self.load_dat_file(data),
        }
    }

    /// Replaces the ranges by those of an `ipfilter.dat`.
    pub fn load_dat_file(&mut self, data: &[u8]) -> (n: Option<usize>)
        requires
            old(self)@.wf(),
        ensures
            n == Some(final(self)@.ranges.len() as usize),
            committed(old(self)@, text_ranges(data@, true), final(self)@),
            final(self)@.wf(),
    {
        let load = load_text(data, true);
        Some(self.commit_ranges(load.ranges))
    }

    /// Replaces the ranges by those of a PeerGuardian text.
    pub fn load_p2p_file(&mut self, data: &[u8]) -> (n: Option<usize>)
        requires
            old(self)@.wf(),
        ensures
            n == Some(final(self)@.ranges.len() as usize),
            committed(old(self)@, text_ranges(data@, false), final(self)@),
            final(self)@.wf(),
    {
        let load = load_text(data, false);
        Some(self.commit_ranges(load.ranges))
    }

    /// Replaces the ranges by those of a binary filter. Bytes that are too
    /// many or lack the header change nothing.
    pub fn load_p2b_file(&mut self, data: &[u8]) -> (n: Option<usize>)
        requires
            old(self)@.wf(),
        ensures
            final(self)@.wf(),
            match file_ranges(data@, FilterFormat::P2b) {
                Some(rs) => n == Some(final(self)@.ranges.len() as usize) && committed(
                    old(self)@,
                    rs,
                    final(self)@,
                ),
                None => n is None && final(self)@ == old(self)@,
            },
    {
        if data.len() > MAX_P2B_BYTES || !has_p2b_header(data) {
            return None;
        }
        let ranges = load_p2b(data);
        Some(self.commit_ranges(ranges))
    }

    fn check(&mut self, ip: Ipv4Addr, fail_closed: bool) -> (blocked: bool)
        requires
            old(self)@.wf(),
        ensures
            blocked == !(old(self)@.decision(ip, fail_closed) is Pass),
            final(self)@ == old(self)@.counted(old(self)@.decision(ip, fail_closed)),
            final(self)@.wf(),
    {
        if is_bogus_v4(ip) || (self.block_private && is_lan_or_cgnat_v4(ip)) {
            self.total_special_hits = self.total_special_hits.wrapping_add(1);
            return true;
        }
        if self.enabled && !self.ranges_ready && fail_closed {
            self.total_range_hits = self.total_range_hits.wrapping_add(1);
            return true;
        }
        if self.enabled && (self.ranges_ready || fail_closed) {
            let ghost before = self@;
            if let Some(idx) = search_ranges(&self.blocked_ranges, ip.bits) {
                let mut r = self.blocked_ranges[idx].duplicate();
                r.add_hits(1);
                self.blocked_ranges.set(idx, r);
                self.total_range_hits = self.total_range_hits.wrapping_add(1);
                proof {
                    assert(in_some(bounds(before.ranges), ip.bits));
                    assert(self@.ranges =~= before.ranges.update(
                        idx as int,
                        RangeView {
                            hits: before.ranges[idx as int].hits.wrapping_add(1),
                            ..before.ranges[idx as int]
                        },
                    ));
                    lemma_same_bounds_normal(before.ranges, self@.ranges);
                }
                return true;
            }
        }
        false
    }

    /// Whether an address is blocked. While an enabled filter waits for its
    /// ranges, every address is.
    pub fn is_blocked(&mut self, ip: Ipv4Addr) -> (blocked: bool)
        requires
            old(self)@.wf(),
        ensures
            blocked == !(old(self)@.decision(ip, true) is Pass),
            final(self)@ == old(self)@.counted(old(self)@.decision(ip, true)),
            final(self)@.wf(),
    {
        self.check(ip, true)
    }

    /// The same check, under the name that the packet paths use.
    pub fn is_blocked_readonly(&mut self, ip: Ipv4Addr) -> (blocked: bool)
        requires
            old(self)@.wf(),
        ensures
            blocked == !(old(self)@.decision(ip, true) is Pass),
            final(self)@ == old(self)@.counted(old(self)@.decision(ip, true)),
            final(self)@.wf(),
    {
        self.check(ip, true)
    }

    /// Whether an address is blocked for Kad: see
    /// [`IpFilterSnapshot::is_blocked_for_kad`].
    pub fn is_blocked_readonly_for_kad(&mut self, ip: Ipv4Addr) -> (blocked: bool)
        requires
            old(self)@.wf(),
        ensures
            blocked == !(old(self)@.decision(ip, false) is Pass),
            final(self)@ == old(self)@.counted(old(self)@.decision(ip, false)),
            final(self)@.wf(),
    {
        self.check(ip, false)
    }

    pub fn range_count(&self) -> (n: usize)
        ensures
            n == self@.ranges.len(),
    {
        self.blocked_ranges.len()
    }

    pub fn is_enabled(&self) -> (r: bool)
        ensures
            r == self@.enabled,
    {
        self.enabled
    }

    pub fn blocks_private(&self) -> (r: bool)
        ensures
            r == self@.block_private,
    {
        self.block_private
    }

    /// Turns the filter on or off. Turned on it waits for its ranges; turned
    /// off it has nothing to wait for.
    pub fn set_enabled(&mut self, enabled: bool)
        ensures
            final(self)@ == (FilterView { enabled, ranges_ready: !enabled, ..old(self)@ }),
    {
        self.enabled = enabled;
        self.ranges_ready = !enabled;
    }

    pub fn set_block_private(&mut self, block_private: bool)
        ensures
            final(self)@ == (FilterView { block_private, ..old(self)@ }),
    {
        self.block_private = block_private;
    }

    /// Adds the ranges of another filter.
    pub fn merge_ranges_from(&mut self, other: &IpFilter)
        requires
            old(self)@.wf(),
            other@.wf(),
        ensures
            final(self)@.wf(),
            other@.ranges.len() == 0 ==> final(self)@ == old(self)@,
            other@.ranges.len() > 0 ==> normalised(
                old(self)@.ranges + other@.ranges,
                final(self)@.ranges,
            ) && final(self)@ == (FilterView { ranges: final(self)@.ranges, ..old(self)@ }),
            forall|ip: u32| #[trigger]
                covers(final(self)@.ranges, ip) <==> covers(old(self)@.ranges, ip) || covers(
                    other@.ranges,
                    ip,
                ),
            same_hits(
                sum_hits(old(self)@.ranges) + sum_hits(other@.ranges),
                sum_hits(final(self)@.ranges),
            ),
    {
        let ghost a = self@.ranges;
        let ghost b = other@.ranges;
        if other.blocked_ranges.len() == 0 {
            assert forall|ip: u32| #[trigger] covers(a, ip) <==> covers(a, ip) || covers(b, ip) by {}
            return ;
        }
        let mut all: Vec<IpRange> = Vec::new();
        append_ranges(&mut all, &self.blocked_ranges);
        append_ranges(&mut all, &other.blocked_ranges);
        assert(range_views(all@) =~= a + b);
        self.blocked_ranges = normalise(&all);
        proof {
            lemma_proper_add(a, b);
            lemma_sum_hits_add(a, b);
            lemma_normalised(a + b, self@.ranges);
            assert forall|ip: u32| #[trigger]
                covers(self@.ranges, ip) <==> covers(a, ip) || covers(b, ip) by {
                assert(covers(self@.ranges, ip) <==> covers(a + b, ip));
                lemma_covers_add(a, b, ip);
            }
        }
    }

    /// A snapshot of the bounds and settings, with all counters at zero.
    pub fn create_shared_snapshot(&self) -> (r: IpFilterSnapshot)
        requires
            self@.wf(),
        ensures
            r@.wf(),
            r@ == (SnapshotView {
                ranges: bounds(self@.ranges),
                range_hits: Seq::new(self@.ranges.len(), |i: int| 0u64),
                enabled: self@.enabled,
                block_private: self@.block_private,
                ranges_ready: self@.ranges_ready,
                hit_counter: 0,
                special_hit_counter: 0,
            }),
            forall|ip: Ipv4Addr, fail_closed: bool|
                r@.decision(ip, fail_closed) == #[trigger] self@.decision(ip, fail_closed),
    {
        let ranges = self.all_bounds();
        let mut range_hits: Vec<u64> = Vec::new();
        let mut i: usize = 0;
        while i < ranges.len()
            invariant
                i <= ranges@.len(),
                range_hits@ == Seq::new(i as nat, |i: int| 0u64),
            decreases ranges@.len() - i,
        {
            range_hits.push(0);
            i = i + 1;
            assert(range_hits@ =~= Seq::new(i as nat, |i: int| 0u64));
        }
        proof {
            lemma_bounds_ascending(self@.ranges);
        }
        IpFilterSnapshot {
            ranges,
            range_hits,
            enabled: self.enabled,
            block_private: self.block_private,
            ranges_ready: self.ranges_ready,
            hit_counter: 0,
            special_hit_counter: 0,
        }
    }

    fn all_bounds(&self) -> (r: Vec<(u32, u32)>)
        ensures
            r@ == bounds(self@.ranges),
    {
        let mut out: Vec<(u32, u32)> = Vec::new();
        let mut i: usize = 0;
        while i < self.blocked_ranges.len()
            invariant
                i <= self.blocked_ranges@.len(),
                out@ == bounds(self@.ranges).take(i as int),
            decreases self.blocked_ranges@.len() - i,
        {
            out.push((self.blocked_ranges[i].start, self.blocked_ranges[i].end));
            i = i + 1;
            assert(out@ =~= bounds(self@.ranges).take(i as int));
        }
        assert(out@ =~= bounds(self@.ranges));
        out
    }

    /// Brings a snapshot up to date. Its totals stay, and so do the matches of
    /// the ranges that it keeps.
    pub fn update_shared_snapshot(&self, shared: &mut IpFilterSnapshot)
        requires
            self@.wf(),
            old(shared)@.wf(),
        ensures
            final(shared)@.wf(),
            final(shared)@ == self@.refreshed(old(shared)@),
            forall|ip: Ipv4Addr, fail_closed: bool|
                final(shared)@.decision(ip, fail_closed) == #[trigger] self@.decision(
                    ip,
                    fail_closed,
                ),
    {
        let ghost before = shared@;
        let ranges = self.all_bounds();
        let mut range_hits: Vec<u64> = Vec::new();
        let ghost want = |j: int|
            pending_hits(before, self@.ranges[j].start, self@.ranges[j].end);
        let mut i: usize = 0;
        while i < ranges.len()
            invariant
                i <= ranges@.len(),
                ranges@ == bounds(self@.ranges),
                before == shared@,
                before.wf(),
                want == (|j: int| pending_hits(
                    before,
                    self@.ranges[j].start,
                    self@.ranges[j].end,
                )),
                range_hits@.len() == i,
                forall|k: int| 0 <= k < i ==> #[trigger] range_hits@[k] == want(k),
            decreases ranges@.len() - i,
        {
            let b = ranges[i];
            assert(b == (self@.ranges[i as int].start, self@.ranges[i as int].end));
            let n: u64 = match search_bounds(&shared.ranges, b.0) {
                Some(j) => if shared.ranges[j].0 == b.0 && shared.ranges[j].1 == b.1 {
                    shared.range_hits[j]
                } else {
                    0
                },
                None => 0,
            };
            proof {
                lemma_pending_hits(before, b.0, b.1);
            }
            range_hits.push(n);
            i = i + 1;
        }
        shared.ranges = ranges;
        shared.range_hits = range_hits;
        shared.enabled = self.enabled;
        shared.block_private = self.block_private;
        shared.ranges_ready = self.ranges_ready;
        proof {
            lemma_bounds_ascending(self@.ranges);
            assert(shared@.range_hits =~= Seq::new(
                self@.ranges.len(),
                |j: int| pending_hits(before, self@.ranges[j].start, self@.ranges[j].end),
            ));
        }
    }

    /// Moves the counters of a snapshot into the filter: its totals, and the
    /// matches of each range that the filter still has.
    pub fn collect_shared_hits(&mut self, shared: &mut IpFilterSnapshot)
        requires
            old(self)@.wf(),
        ensures
            final(self)@.wf(),
            final(self)@ == old(self)@.collected(old(shared)@),
            final(shared)@ == old(shared)@.emptied(),
    {
        let ghost before = self@;
        let ghost snap = shared@;
        self.total_range_hits = self.total_range_hits.wrapping_add(shared.hit_counter);
        self.total_special_hits = self.total_special_hits.wrapping_add(shared.special_hit_counter);
        shared.hit_counter = 0;
        shared.special_hit_counter = 0;
        let ghost mid = self@;
        let mut i: usize = 0;
        while i < shared.range_hits.len()
            invariant
                i <= shared.range_hits@.len() == snap.range_hits.len(),
                shared@ == (SnapshotView {
                    hit_counter: 0,
                    special_hit_counter: 0,
                    range_hits: shared.range_hits@,
                    ..snap
                }),
                forall|k: int| 0 <= k < i ==> #[trigger] shared.range_hits@[k] == 0,
                forall|k: int|
                    i <= k < snap.range_hits.len() ==> #[trigger] shared.range_hits@[k]
                        == snap.range_hits[k],
                self@ == (FilterView {
                    ranges: credited(before.ranges, snap.ranges, snap.range_hits, i as nat),
                    ..mid
                }),
                self@.wf(),
            decreases snap.range_hits.len() - i,
        {
            let n: u64 = shared.range_hits[i];
            shared.range_hits.set(i, 0);
            if n > 0 && i < shared.ranges.len() {
                let (s, e) = shared.ranges[i];
                let ghost rs = self@.ranges;
                match find_exact(&self.blocked_ranges, s, e) {
                    Some(j) => {
                        let mut r = self.blocked_ranges[j].duplicate();
                        r.add_hits(n);
                        self.blocked_ranges.set(j, r);
                        proof {
                            assert(self@.ranges =~= rs.update(
                                j as int,
                                RangeView {
                                    hits: rs[j as int].hits.wrapping_add(n),
                                    ..rs[j as int]
                                },
                            ));
                            lemma_credit(rs, self@.ranges, j as int, s, e, n);
                        }
                    },
                    None => {
                        proof {
                            assert forall|k: int| 0 <= k < rs.len() implies !same_bounds(
                                #[trigger] rs[k],
                                s,
                                e,
                            ) by {
                                assert(rs[k] == self.blocked_ranges@[k]@);
                            }
                            assert(credit(rs, s, e, n) =~= rs);
                        }
                    },
                }
            }
            i = i + 1;
        }
        assert(shared@.range_hits =~= Seq::new(snap.range_hits.len(), |i: int| 0u64));
    }

    /// The statistics. The total is the larger of the two ways to count range
    /// matches, plus the special ones.
    pub fn get_stats(&self) -> (r: IpFilterStats)
        requires
            self@.total_hits() <= u64::MAX,
        ensures
            r.enabled == self@.enabled,
            r.block_private == self@.block_private,
            r.ranges_ready == self@.ranges_ready,
            r.range_count == self@.ranges.len(),
            r.total_hits == self@.total_hits(),
            r.entries@.len() == self@.ranges.len(),
            forall|i: int|
                0 <= i < r.entries@.len() ==> entry_of(#[trigger] r.entries@[i], self@.ranges[i]),
    {
        let ghost rs = self@.ranges;
        let mut sum: u64 = 0;
        let mut entries: Vec<IpFilterEntry> = Vec::new();
        let mut i: usize = 0;
        assert(rs.take(0) =~= Seq::empty());
        while i < self.blocked_ranges.len()
            invariant
                i <= self.blocked_ranges@.len(),
                rs == self@.ranges,
                rs.len() == self.blocked_ranges@.len(),
                sum == sum_hits(rs.take(i as int)),
                sum_hits(rs) <= u64::MAX,
                entries@.len() == i,
                forall|k: int| 0 <= k < i ==> entry_of(#[trigger] entries@[k], rs[k]),
            decreases self.blocked_ranges@.len() - i,
        {
            let r = &self.blocked_ranges[i];
            proof {
                assert(rs.take(i as int + 1).drop_last() =~= rs.take(i as int));
                lemma_sum_hits_mono(rs, i as int + 1);
            }
            sum = sum + r.hits;
            entries.push(
                IpFilterEntry {
                    start_ip: ip_to_string(Ipv4Addr { bits: r.start }),
                    end_ip: ip_to_string(Ipv4Addr { bits: r.end }),
                    description: r.description.clone(),
                    hits: r.hits,
                },
            );
            i = i + 1;
        }
        assert(rs.take(i as int) =~= rs);
        let range_total: u64 = if self.total_range_hits >= sum {
            self.total_range_hits
        } else {
            sum
        };
        IpFilterStats {
            enabled: self.enabled,
            block_private: self.block_private,
            ranges_ready: self.ranges_ready,
            range_count: self.blocked_ranges.len(),
            total_hits: range_total + self.total_special_hits,
            entries,
        }
    }

    /// Adds a range. One whose ends are swapped is refused.
    pub fn add_range(&mut self, start: Ipv4Addr, end: Ipv4Addr, description: String) -> (added:
        bool)
        requires
            old(self)@.wf(),
        ensures
            added == (start.bits <= end.bits),
            final(self)@.wf(),
            !added ==> final(self)@ == old(self)@,
            added ==> final(self)@ == (FilterView { ranges: final(self)@.ranges, ..old(self)@ })
                && normalised(
                old(self)@.ranges.push(new_range(start.bits, end.bits, description@)),
                final(self)@.ranges,
            ),
            added ==> forall|ip: u32| #[trigger]
                covers(final(self)@.ranges, ip) <==> covers(old(self)@.ranges, ip) || start.bits
                    <= ip <= end.bits,
            same_hits(sum_hits(old(self)@.ranges), sum_hits(final(self)@.ranges)),
    {
        if start.bits > end.bits {
            return false;
        }
        let ghost a = self@.ranges;
        let ghost x = new_range(start.bits, end.bits, description@);
        let mut all: Vec<IpRange> = Vec::new();
        append_ranges(&mut all, &self.blocked_ranges);
        all.push(IpRange::new(start.bits, end.bits, description));
        assert(range_views(all@) =~= a.push(x));
        self.blocked_ranges = normalise(&all);
        proof {
            assert(proper(a.push(x))) by {
                let p = a.push(x);
                assert forall|i: int| 0 <= i < p.len() implies (#[trigger] p[i]).start
                    <= p[i].end by {
                    if i < a.len() {
                        assert(p[i] == a[i]);
                    }
                }
            }
            lemma_sum_hits_push(a, x);
            lemma_normalised(a.push(x), self@.ranges);
            assert forall|ip: u32| #[trigger]
                covers(self@.ranges, ip) <==> covers(a, ip) || start.bits <= ip <= end.bits by {
                assert(covers(self@.ranges, ip) <==> covers(a.push(x), ip));
                lemma_covers_push(a, x, ip);
            }
        }
        true
    }

    /// Takes out the range with exactly these ends. False if there is none, or
    /// if a text is no address.
    pub fn remove_range(&mut self, start_ip: &str, end_ip: &str) -> (removed: bool)
        requires
            old(self)@.wf(),
        ensures
            final(self)@.wf(),
            match (strict_ip(start_ip@), strict_ip(end_ip@)) {
                (Some(s), Some(e)) => {
                    &&& final(self)@ == (FilterView {
                        ranges: without(old(self)@.ranges, s as u32, e as u32),
                        ..old(self)@
                    })
                    &&& removed == has_range(old(self)@.ranges, s as u32, e as u32)
                },
                _ => !removed && final(self)@ == old(self)@,
            },
    {
        let sc = chars_of(start_ip);
        let ec = chars_of(end_ip);
        let s: u32 = match parse_ip_strict(sc.as_slice()) {
            Some(ip) => ip.bits,
            None => {
                return false;
            },
        };
        let e: u32 = match parse_ip_strict(ec.as_slice()) {
            Some(ip) => ip.bits,
            None => {
                return false;
            },
        };
        let ghost rs = self@.ranges;
        match find_exact(&self.blocked_ranges, s, e) {
            Some(j) => {
                self.blocked_ranges.remove(j);
                proof {
                    assert(self@.ranges =~= rs.remove(j as int));
                    lemma_without(rs, j as int, s, e);
                    assert(same_bounds(rs[j as int], s, e));
                    assert(has_range(rs, s, e));
                }
                true
            },
            None => {
                proof {
                    assert forall|k: int| 0 <= k < rs.len() implies !same_bounds(
                        #[trigger] rs[k],
                        s,
                        e,
                    ) by {
                        assert(rs[k] == self.blocked_ranges@[k]@);
                    }
                    lemma_without_none(rs, s, e);
                    assert(!has_range(rs, s, e));
                }
                false
            },
        }
    }

    /// The ranges as the text of an `ipfilter.dat`, so that a binary import
    /// can be stored under that name and read back at the next start.
    pub fn canonical_dat_bytes(&self) -> (r: Vec<u8>)
        ensures
            r@ == encode_utf8(dat_text(self@.ranges)),
    {
        let mut out: Vec<char> = Vec::new();
        let mut i: usize = 0;
        let ghost rs = self@.ranges;
        assert(out@ =~= dat_text(rs.take(0)));
        while i < self.blocked_ranges.len()
            invariant
                i <= self.blocked_ranges@.len(),
                rs == self@.ranges,
                rs.len() == self.blocked_ranges@.len(),
                out@ == dat_text(rs.take(i as int)),
            decreases self.blocked_ranges@.len() - i,
        {
            let ghost before = out@;
            let r = &self.blocked_ranges[i];
            push_ip(&mut out, Ipv4Addr { bits: r.start });
            push_text(&mut out, " - ");
            push_ip(&mut out, Ipv4Addr { bits: r.end });
            push_text(&mut out, " , 000 , Ember imported range\n");
            assert(out@ =~= before + dat_line(r.start, r.end));
            assert(rs.take(i as int + 1).drop_last() =~= rs.take(i as int));
            i = i + 1;
        }
        assert(rs.take(i as int) =~= rs);
        let text = string_of(out.as_slice());
        let b = text.as_str().as_bytes();
        let mut bytes: Vec<u8> = Vec::new();
        crate::bytes::put_bytes(&mut bytes, b);
        assert(bytes@ =~= b@);
        bytes
    }
}

fn push_text(out: &mut Vec<char>, s: &str)
    ensures
        final(out)@ == old(out)@ + s@,
{
    let ghost before = out@;
    let c = chars_of(s);
    let mut i: usize = 0;
    assert(out@ =~= before + c@.take(0));
    while i < c.len()
        invariant
            i <= c@.len(),
            out@ == before + c@.take(i as int),
        decreases c@.len() - i,
    {
        out.push(c[i]);
        i = i + 1;
        assert(out@ =~= before + c@.take(i as int));
    }
    assert(c@.take(i as int) =~= c@);
}

/// One line of the canonical text.
pub open spec fn dat_line(start: u32, end: u32) -> Seq<char> {
    ip_text(Ipv4Addr { bits: start }) + " - "@ + ip_text(Ipv4Addr { bits: end })
        + " , 000 , Ember imported range\n"@
}

/// The canonical text of some ranges.
pub open spec fn dat_text(rs: Seq<RangeView>) -> Seq<char>
    decreases rs.len(),
{
    if rs.len() == 0 {
        Seq::empty()
    } else {
        dat_text(rs.drop_last()) + dat_line(rs.last().start, rs.last().end)
    }
}

fn append_ranges(out: &mut Vec<IpRange>, rs: &Vec<IpRange>)
    ensures
        range_views(final(out)@) == range_views(old(out)@) + range_views(rs@),
{
    let ghost before = range_views(out@);
    let ghost vs = range_views(rs@);
    let mut i: usize = 0;
    assert(range_views(out@) =~= before + vs.take(0));
    while i < rs.len()
        invariant
            i <= rs@.len(),
            vs == range_views(rs@),
            range_views(out@) == before + vs.take(i as int),
        decreases rs@.len() - i,
    {
        let ghost mid = out@;
        out.push(rs[i].duplicate());
        assert(range_views(out@) =~= range_views(mid).push(vs[i as int]));
        i = i + 1;
        assert(range_views(out@) =~= before + vs.take(i as int));
    }
    assert(vs.take(i as int) =~= vs);
}

/// Whether a range with these ends is there.
pub open spec fn has_range(rs: Seq<RangeView>, s: u32, e: u32) -> bool {
    exists|i: int| 0 <= i < rs.len() && #[trigger] same_bounds(rs[i], s, e)
}

/// The ranges but those with these ends.
pub open spec fn without(rs: Seq<RangeView>, s: u32, e: u32) -> Seq<RangeView> {
    rs.filter(|r: RangeView| !same_bounds(r, s, e))
}

proof fn lemma_without_none(rs: Seq<RangeView>, s: u32, e: u32)
    requires
        forall|k: int| 0 <= k < rs.len() ==> !same_bounds(#[trigger] rs[k], s, e),
    ensures
        without(rs, s, e) == rs,
    decreases rs.len(),
{
    reveal(Seq::filter);
    if rs.len() > 0 {
        assert(!same_bounds(rs[rs.len() - 1], s, e));
        assert forall|k: int| 0 <= k < rs.drop_last().len() implies !same_bounds(
            #[trigger] rs.drop_last()[k],
            s,
            e,
        ) by {
            assert(rs.drop_last()[k] == rs[k]);
        }
        lemma_without_none(rs.drop_last(), s, e);
        assert(rs =~= rs.drop_last().push(rs.last()));
    }
}

proof fn lemma_without(rs: Seq<RangeView>, j: int, s: u32, e: u32)
    requires
        normal(rs),
        0 <= j < rs.len(),
        same_bounds(rs[j], s, e),
    ensures
        without(rs, s, e) == rs.remove(j),
        normal(rs.remove(j)),
{
    let f = |r: RangeView| !same_bounds(r, s, e);
    let a = rs.take(j);
    let b = rs.skip(j + 1);
    assert(rs =~= a + (seq![rs[j]] + b));
    Seq::filter_distributes_over_add(a, seq![rs[j]] + b, f);
    Seq::filter_distributes_over_add(seq![rs[j]], b, f);
    assert(seq![rs[j]].filter(f) =~= Seq::empty()) by {
        reveal_with_fuel(Seq::filter, 2);
        assert(seq![rs[j]].drop_last() =~= Seq::empty());
    }
    assert forall|k: int| 0 <= k < a.len() implies !same_bounds(#[trigger] a[k], s, e) by {
        assert(a[k] == rs[k]);
        assert(rs[k].start <= rs[k].end && rs[k].end + 1 < rs[j].start);
    }
    assert forall|k: int| 0 <= k < b.len() implies !same_bounds(#[trigger] b[k], s, e) by {
        assert(b[k] == rs[k + j + 1]);
        assert(rs[j].start <= rs[j].end && rs[j].end + 1 < rs[k + j + 1].start);
    }
    lemma_without_none(a, s, e);
    lemma_without_none(b, s, e);
    let out = rs.remove(j);
    assert(out =~= a + b);
    assert(Seq::<RangeView>::empty() + b =~= b);
    assert forall|i: int, k: int|
        #![trigger out[i], out[k]]
        0 <= i < k < out.len() implies out[i].end + 1 < out[k].start by {
        let i2 = if i < j {
            i
        } else {
            i + 1
        };
        let k2 = if k < j {
            k
        } else {
            k + 1
        };
        assert(out[i] == rs[i2] && out[k] == rs[k2]);
    }
    assert forall|i: int| 0 <= i < out.len() implies (#[trigger] out[i]).start <= out[i].end by {
        let i2 = if i < j {
            i
        } else {
            i + 1
        };
        assert(out[i] == rs[i2]);
    }
}

/// Adds `n` matches to the range with these ends.
pub open spec fn credit(rs: Seq<RangeView>, s: u32, e: u32, n: u64) -> Seq<RangeView> {
    rs.map_values(
        |r: RangeView|
            if same_bounds(r, s, e) {
                RangeView { hits: r.hits.wrapping_add(n), ..r }
            } else {
                r
            },
    )
}

/// Adds the first `k` counters of a snapshot to the ranges that they belong to.
pub open spec fn credited(
    rs: Seq<RangeView>,
    bs: Seq<(u32, u32)>,
    hits: Seq<u64>,
    k: nat,
) -> Seq<RangeView>
    decreases k,
{
    if k == 0 {
        rs
    } else {
        let before = credited(rs, bs, hits, (k - 1) as nat);
        if hits[k - 1] > 0 && k - 1 < bs.len() {
            credit(before, bs[k - 1].0, bs[k - 1].1, hits[k - 1])
        } else {
            before
        }
    }
}

proof fn lemma_credit(
    rs: Seq<RangeView>,
    out: Seq<RangeView>,
    j: int,
    s: u32,
    e: u32,
    n: u64,
)
    requires
        normal(rs),
        0 <= j < rs.len(),
        same_bounds(rs[j], s, e),
        out == rs.update(j, RangeView { hits: rs[j].hits.wrapping_add(n), ..rs[j] }),
    ensures
        out == credit(rs, s, e, n),
        normal(out),
{
    assert forall|k: int| 0 <= k < rs.len() && k != j implies !same_bounds(
        #[trigger] rs[k],
        s,
        e,
    ) by {
        assert(rs[k].start <= rs[k].end && rs[j].start <= rs[j].end);
        if k < j {
            assert(rs[k].end + 1 < rs[j].start);
        } else {
            assert(rs[j].end + 1 < rs[k].start);
        }
    }
    assert(out =~= credit(rs, s, e, n));
    lemma_same_bounds_normal(rs, out);
}

proof fn lemma_saved_hits(rs: Seq<RangeView>, j: int, s: u32, e: u32)
    requires
        normal(rs),
        0 <= j < rs.len(),
        same_bounds(rs[j], s, e),
    ensures
        saved_hits(rs, s, e) == (if rs[j].hits > 0 {
            Some(rs[j].hits)
        } else {
            None
        }),
{
    assert forall|k: int| 0 <= k < rs.len() && k != j implies !same_bounds(
        #[trigger] rs[k],
        s,
        e,
    ) by {
        assert(rs[k].start <= rs[k].end && rs[j].start <= rs[j].end);
        if k < j {
            assert(rs[k].end + 1 < rs[j].start);
        } else {
            assert(rs[j].end + 1 < rs[k].start);
        }
    }
}

proof fn lemma_credited(rs: Seq<RangeView>, hits: Seq<u64>, k: nat)
    requires
        normal(rs),
        hits.len() == rs.len(),
        k <= rs.len(),
    ensures
        credited(rs, bounds(rs), hits, k) == Seq::new(
            rs.len(),
            |j: int|
                if j < k {
                    RangeView { hits: rs[j].hits.wrapping_add(hits[j]), ..rs[j] }
                } else {
                    rs[j]
                },
        ),
    decreases k,
{
    let bs = bounds(rs);
    let want = Seq::new(
        rs.len(),
        |j: int|
            if j < k {
                RangeView { hits: rs[j].hits.wrapping_add(hits[j]), ..rs[j] }
            } else {
                rs[j]
            },
    );
    if k == 0 {
        assert(want =~= rs);
    } else {
        lemma_credited(rs, hits, (k - 1) as nat);
        let before = credited(rs, bs, hits, (k - 1) as nat);
        let (s, e) = bs[k - 1];
        assert forall|j: int| 0 <= j < rs.len() implies (same_bounds(#[trigger] before[j], s, e)
            <==> j == k - 1) by {
            assert(rs[j].start <= rs[j].end && rs[k - 1].start <= rs[k - 1].end);
        }
        assert(credited(rs, bs, hits, k) =~= want);
    }
}

/// What a snapshot counts, its filter gets: where both have the same ranges, each
/// decision that blocks raises one total by one once it is collected, and where
/// it was for a range the matches of that range. What passes raises none.
pub proof fn lemma_hits_collected(f: FilterView, snap: SnapshotView, d: Decision)
    requires
        f.wf(),
        snap.wf(),
        snap.ranges == bounds(f.ranges),
        d matches Decision::Range(i) ==> 0 <= i < snap.ranges.len(),
    ensures
        f.collected(snap.counted(d)) == f.collected(snap).counted(d),
{
    let t = snap.counted(d);
    lemma_credited(f.ranges, snap.range_hits, f.ranges.len());
    lemma_credited(f.ranges, t.range_hits, f.ranges.len());
    assert(f.collected(t).ranges =~= f.collected(snap).counted(d).ranges);
}

/// The matches of the range with these ends that a snapshot has not handed over yet.
pub open spec fn pending_hits(snap: SnapshotView, s: u32, e: u32) -> u64 {
    if exists|j: int| 0 <= j < snap.ranges.len() && #[trigger] snap.ranges[j] == (s, e) {
        snap.range_hits[choose|j: int|
            0 <= j < snap.ranges.len() && #[trigger] snap.ranges[j] == (s, e)]
    } else {
        0
    }
}

proof fn lemma_pending_hits(snap: SnapshotView, s: u32, e: u32)
    requires
        snap.wf(),
    ensures
        forall|j: int|
            0 <= j < snap.ranges.len() && within(#[trigger] snap.ranges[j], s) ==> pending_hits(
                snap,
                s,
                e,
            ) == (if snap.ranges[j] == (s, e) {
                snap.range_hits[j]
            } else {
                0
            }),
        !in_some(snap.ranges, s) ==> pending_hits(snap, s, e) == 0,
{
    let bs = snap.ranges;
    if exists|j: int| 0 <= j < bs.len() && #[trigger] bs[j] == (s, e) {
        let c = choose|j: int| 0 <= j < bs.len() && #[trigger] bs[j] == (s, e);
        assert(bs[c].0 <= bs[c].1);
        assert(within(bs[c], s));
        assert forall|j: int| 0 <= j < bs.len() && within(#[trigger] bs[j], s) implies j == c by {
            if j < c {
                assert(bs[j].1 < bs[c].0);
            }
            if c < j {
                assert(bs[c].1 < bs[j].0);
            }
        }
    }
}

proof fn lemma_proper_add(a: Seq<RangeView>, b: Seq<RangeView>)
    requires
        proper(a),
        proper(b),
    ensures
        proper(a + b),
{
    assert forall|i: int| 0 <= i < (a + b).len() implies (#[trigger] (a + b)[i]).start <= (a
        + b)[i].end by {
        if i < a.len() {
            assert((a + b)[i] == a[i]);
        } else {
            assert((a + b)[i] == b[i - a.len()]);
        }
    }
}

proof fn lemma_covers_add(a: Seq<RangeView>, b: Seq<RangeView>, ip: u32)
    ensures
        covers(a + b, ip) <==> covers(a, ip) || covers(b, ip),
{
    if covers(a, ip) {
        let i = choose|i: int| 0 <= i < a.len() && #[trigger] holds(a[i], ip);
        assert(holds((a + b)[i], ip));
    }
    if covers(b, ip) {
        let i = choose|i: int| 0 <= i < b.len() && #[trigger] holds(b[i], ip);
        assert(holds((a + b)[i + a.len()], ip));
    }
    if covers(a + b, ip) {
        let i = choose|i: int| 0 <= i < (a + b).len() && #[trigger] holds((a + b)[i], ip);
        if i < a.len() {
            assert(holds(a[i], ip));
        } else {
            assert(holds(b[i - a.len()], ip));
        }
    }
}

pub open spec fn entry_of(e: IpFilterEntry, r: RangeView) -> bool {
    &&& e.start_ip@ == ip_text(Ipv4Addr { bits: r.start })
    &&& e.end_ip@ == ip_text(Ipv4Addr { bits: r.end })
    &&& e.description@ == r.description
    &&& e.hits == r.hits
}

/// Whether an address is private, or otherwise of special use.
pub fn is_private_or_reserved(ip: Ipv4Addr) -> (r: bool)
    ensures
        r == special_use_v4(ip),
{
    is_special_use_v4(ip)
}

/// Whether an address is that of a local machine.
pub fn is_lan_ip(ip: Ipv4Addr) -> (r: bool)
    ensures
        r == lan_ip(ip),
{
    is_lan_v4(ip)
}

pub open spec fn valid_contact_ip(ip: Ipv4Addr, block_private: bool) -> bool {
    !bogus_v4(ip) && !(block_private && lan_or_cgnat_v4(ip))
}

/// Whether a contact or a source can have this address.
pub fn is_valid_contact_ip(ip: Ipv4Addr, block_private: bool) -> (r: bool)
    ensures
        r == valid_contact_ip(ip, block_private),
{
    if is_bogus_v4(ip) {
        return false;
    }
    if block_private && is_lan_or_cgnat_v4(ip) {
        return false;
    }
    true
}

} // verus!
