//! Which blocks of a file are sent and asked for, and when.
use vstd::prelude::*;

use crate::clock::elapsed;
use crate::ember::eviction::stamps;
use crate::ember::xfer::{
    block_count, block_len, bytes_in, enqueued, is_block, percent, progress_due, wanted, RecvState,
    SendState,
};

verus! {

// ---------------------------------------------------------------------------
// Blocks
// ---------------------------------------------------------------------------
/// A file is cut into blocks of 1024 bytes: just so many that they hold it.
pub proof fn lemma_block_count(size: u64)
    ensures
        size <= 1024 * block_count(size),
        size > 0 ==> 1024 * (block_count(size) - 1) < size,
        size == 0 ==> block_count(size) == 0,
{
}

/// Every block has 1024 bytes but the last one, which has what is left.
pub proof fn lemma_block_len(size: u64, block: u64)
    requires
        block < block_count(size),
    ensures
        block + 1 < block_count(size) ==> block_len(size, block) == 1024,
        block + 1 == block_count(size) ==> block_len(size, block) == size - 1024 * block,
        1 <= block_len(size, block) <= 1024,
{
}

/// Bytes count as a block if they start at a multiple of 1024 within the file and
/// reach to the next one, or to the end of the file.
pub proof fn lemma_is_block(size: u64, offset: u64, len: int)
    ensures
        is_block(size, offset, len) <==> offset < size && offset as int % 1024 == 0 && len == if size
            - offset < 1024 {
            size - offset
        } else {
            1024
        },
{
    assert(offset as int % 1024 == 0 ==> offset == 1024 * (offset as int / 1024));
}

/// So many blocks hold 1024 bytes each, but no more than the file has.
pub proof fn lemma_bytes_in(blocks: u64, size: u64)
    ensures
        bytes_in(blocks, size) <= size,
        bytes_in(blocks, size) <= 1024 * blocks,
        bytes_in(blocks, size) == size || bytes_in(blocks, size) == 1024 * blocks,
{
}

// ---------------------------------------------------------------------------
// Progress
// ---------------------------------------------------------------------------
/// A percentage is the largest whole number that the part has reached. Of nothing
/// all is done.
pub proof fn lemma_percent(part: u64, whole: u64)
    requires
        part <= whole,
        whole <= u64::MAX / 100,
    ensures
        whole == 0 ==> percent(part, whole) == 100,
        whole > 0 ==> percent(part, whole) * whole <= 100 * part,
        whole > 0 ==> 100 * part < (percent(part, whole) + 1) * whole,
        0 <= percent(part, whole) <= 100,
{
    if whole > 0 {
        let p = 100 * part;
        let w = whole as int;
        assert(p / w * w <= p < (p / w + 1) * w && 0 <= p / w) by (nonlinear_arith)
            requires
                w > 0,
                p >= 0,
        ;
        assert(p / w <= 100) by (nonlinear_arith)
            requires
                w > 0,
                p <= 100 * w,
        ;
    }
}

/// A percentage is reported once it is higher than the last one that was.
pub proof fn lemma_progress(pct: int, reported: u8)
    requires
        0 <= pct <= 100,
    ensures
        progress_due(pct, reported) == if pct > reported {
            Some(pct as u8)
        } else {
            None
        },
{
}

// ---------------------------------------------------------------------------
// Sending
// ---------------------------------------------------------------------------
proof fn lemma_filter_holds(s: Seq<u64>, keep: spec_fn(u64) -> bool, b: u64)
    ensures
        s.filter(keep).contains(b) <==> s.contains(b) && keep(b),
    decreases s.len(),
{
    reveal(Seq::filter);
    if s.len() > 0 {
        let f = s.drop_last();
        let g = f.filter(keep);
        lemma_filter_holds(f, keep, b);
        assert(s =~= f.push(s.last()));
        if s.contains(b) && b != s.last() {
            let i = choose|i: int| 0 <= i < s.len() && s[i] == b;
            assert(f[i] == b);
        }
        if f.contains(b) {
            let i = choose|i: int| 0 <= i < f.len() && f[i] == b;
            assert(s[i] == b);
        }
        assert(s[s.len() - 1] == s.last());
        if keep(s.last()) {
            let h = g.push(s.last());
            assert(h[h.len() - 1] == s.last());
            if g.contains(b) {
                let i = choose|i: int| 0 <= i < g.len() && g[i] == b;
                assert(h[i] == b);
            }
            if h.contains(b) && b != s.last() {
                let i = choose|i: int| 0 <= i < h.len() && h[i] == b;
                assert(g[i] == b);
            }
        }
    }
}

/// What is taken out of an ascending list is ascending, and no larger than its last.
proof fn lemma_filter_ascends(s: Seq<u64>, keep: spec_fn(u64) -> bool, i: int, j: int)
    requires
        forall|a: int, b: int| #![trigger s[a], s[b]] 0 <= a < b < s.len() ==> s[a] < s[b],
        0 <= i < j < s.filter(keep).len(),
    ensures
        s.filter(keep)[i] < s.filter(keep)[j],
    decreases s.len(),
{
    reveal(Seq::filter);
    if s.len() > 0 {
        let f = s.drop_last();
        let g = f.filter(keep);
        assert forall|a: int, b: int| #![trigger f[a], f[b]] 0 <= a < b < f.len() implies f[a]
            < f[b] by {
            assert(s[a] < s[b]);
        }
        if j < g.len() {
            lemma_filter_ascends(f, keep, i, j);
        } else {
            lemma_filter_holds(f, keep, g[i]);
            assert(g.contains(g[i]));
            let k = choose|k: int| 0 <= k < f.len() && f[k] == g[i];
            assert(s[k] < s[s.len() - 1]);
        }
    }
}

/// The blocks of a request that are not queued yet: those from its first on, as many
/// as it names, that the file has, in ascending order.
proof fn lemma_wanted(queue: Seq<u64>, start: u64, count: u16, total: u64, b: u64)
    requires
        start + count <= u64::MAX,
    ensures
        wanted(queue, start, count, total).contains(b) <==> start <= b < start + count && b < total
            && !queue.contains(b),
        forall|i: int, j: int|
            #![trigger wanted(queue, start, count, total)[i], wanted(queue, start, count, total)[j]]
            0 <= i < j < wanted(queue, start, count, total).len() ==> wanted(
                queue,
                start,
                count,
                total,
            )[i] < wanted(queue, start, count, total)[j],
{
    let s = Seq::new(count as nat, |i: int| (start + i) as u64);
    let keep = |b: u64| b < total && !queue.contains(b);
    let w = wanted(queue, start, count, total);
    assert(w == s.filter(keep));
    lemma_filter_holds(s, keep, b);
    if start <= b < start + count {
        assert(s[b - start] == b);
    }
    if s.contains(b) {
        let i = choose|i: int| 0 <= i < s.len() && s[i] == b;
        assert(b == start + i);
    }
    assert forall|i: int, j: int| #![trigger w[i], w[j]] 0 <= i < j < w.len() implies w[i] < w[j] by {
        lemma_filter_ascends(s, keep, i, j);
    }
}

/// A request adds blocks of its range that the file has, and no others, and takes
/// none away. No more than 64 blocks wait; while there is room for all of the range,
/// all of it waits, and where there is not, those that come first do.
pub proof fn lemma_request_queued(
    queue: Seq<u64>,
    start: u64,
    count: u16,
    total: u64,
    a: u64,
    b: u64,
)
    requires
        queue.len() <= 64,
        start + count <= u64::MAX,
    ensures
        ({
            let r = enqueued(queue, start, count, total);
            &&& r.len() <= 64
            &&& queue.contains(b) ==> r.contains(b)
            &&& r.contains(b) ==> queue.contains(b) || (start <= b < start + count && b < total)
            &&& r.len() < 64 && start <= b < start + count && b < total ==> r.contains(b)
            &&& r.contains(b) && !queue.contains(b) && start <= a < b ==> r.contains(a)
        }),
{
    let w = wanted(queue, start, count, total);
    let r = enqueued(queue, start, count, total);
    let room = 64 - queue.len();
    lemma_wanted(queue, start, count, total, a);
    lemma_wanted(queue, start, count, total, b);
    let n = if w.len() <= room {
        w.len() as int
    } else {
        room
    };
    assert(r =~= queue + w.take(n));
    if queue.contains(b) {
        let i = choose|i: int| 0 <= i < queue.len() && queue[i] == b;
        assert(r[i] == b);
    }
    if r.contains(b) && !queue.contains(b) {
        let i = choose|i: int| 0 <= i < r.len() && r[i] == b;
        assert(i >= queue.len());
        let k = i - queue.len();
        assert(w[k] == b);
        assert(w.contains(b));
        if start <= a < b && !queue.contains(a) {
            assert(w.contains(a));
            let j = choose|j: int| 0 <= j < w.len() && w[j] == a;
            if j > k {
                assert(w[k] < w[j]);
            }
            assert(r[queue.len() + j] == a);
        }
        if queue.contains(a) {
            let i = choose|i: int| 0 <= i < queue.len() && queue[i] == a;
            assert(r[i] == a);
        }
    }
    if r.len() < 64 && start <= b < start + count && b < total && !queue.contains(b) {
        let j = choose|j: int| 0 <= j < w.len() && w[j] == b;
        assert(r[queue.len() + j] == b);
    }
}

/// A transfer has stalled after a minute and a half of silence; an offer that was not
/// accepted, after five minutes and a half.
pub proof fn lemma_stalled(s: SendState, now: u64)
    ensures
        s.accepted ==> (s.stalled(now) <==> elapsed(s.updated_at, now) > 90000),
        !s.accepted ==> (s.stalled(now) <==> elapsed(s.updated_at, now) > 330000),
{
}

// ---------------------------------------------------------------------------
// Receiving
// ---------------------------------------------------------------------------
/// A block that was asked for is waited for during two seconds.
pub proof fn lemma_waiting(s: RecvState, now: u64, b: u64)
    ensures
        s.waiting(now).contains_key(b) <==> s.inflight@.contains_key(b) && elapsed(
            stamps(s.inflight@)[b],
            now,
        ) <= 2000,
{
}

/// The blocks to ask for are blocks of the file that are neither there nor waited
/// for, each once, in ascending order. Together with those that are waited for they
/// are no more than 64; while they are fewer, none is left out, and else those that
/// come first are asked for.
pub proof fn lemma_asked(s: RecvState, now: u64, a: u64, b: u64)
    requires
        s.wf(),
        s.waiting(now).dom().len() <= 64,
    ensures
        ({
            let r = s.to_ask(now);
            let w = s.waiting(now);
            let lacks = |x: u64| x < s.total_blocks && !s.held().contains(x) && !w.contains_key(x);
            &&& r.len() + w.dom().len() <= 64
            &&& r.contains(b) ==> lacks(b)
            &&& r.len() + w.dom().len() < 64 && lacks(b) ==> r.contains(b)
            &&& r.contains(b) && a < b && lacks(a) ==> r.contains(a)
            &&& forall|i: int, j: int|
                #![trigger r[i], r[j]]
                0 <= i < j < r.len() ==> r[i] < r[j]
        }),
{
    let w = s.waiting(now);
    let all = Seq::new(s.total_blocks as nat, |i: int| i as u64);
    let keep = |b: u64| !s.held().contains(b) && !w.contains_key(b);
    let f = all.filter(keep);
    let r = s.to_ask(now);
    let room = 64 - w.dom().len();
    let n = if f.len() <= room {
        f.len() as int
    } else {
        room
    };
    assert(r =~= f.take(n));
    lemma_filter_holds(all, keep, a);
    lemma_filter_holds(all, keep, b);
    if a < s.total_blocks {
        assert(all[a as int] == a);
    }
    if b < s.total_blocks {
        assert(all[b as int] == b);
    }
    assert forall|i: int, j: int| #![trigger f[i], f[j]] 0 <= i < j < f.len() implies f[i] < f[j] by {
        lemma_filter_ascends(all, keep, i, j);
    }
    if r.contains(b) {
        let i = choose|i: int| 0 <= i < r.len() && r[i] == b;
        assert(f[i] == b);
        assert(f.contains(b));
        if a < b && f.contains(a) {
            let j = choose|j: int| 0 <= j < f.len() && f[j] == a;
            if j > i {
                assert(f[i] < f[j]);
            }
            assert(r[j] == a);
        }
    }
    if r.len() + w.dom().len() < 64 && f.contains(b) {
        let j = choose|j: int| 0 <= j < f.len() && f[j] == b;
        assert(r[j] == b);
    }
}

} // verus!
