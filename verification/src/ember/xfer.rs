//! Handing a file from one member to another.
//!
//! The receiver asks for the blocks that it lacks, and the sender answers. No
//! block moves before the receiver has accepted the offer, and one that is
//! lost on the way is asked for again. Which blocks to ask for and to answer
//! with is decided here; reading, writing and sending them is not. Times are
//! in milliseconds of a clock that does not run back.
use vstd::prelude::*;

use crate::clock::{elapsed, ms_since};
use crate::ember::eviction::{keep_younger, stamps, younger};
use crate::key_map::KeyMap;

verus! {

/// The bytes of a block.
pub const XFER_BLOCK_SIZE: u64 = 1024;

/// How many blocks may be asked for at a time.
pub const XFER_WINDOW_BLOCKS: usize = 64;

/// After this time a block that did not come is asked for again.
pub const XFER_BLOCK_TIMEOUT_MS: u64 = 2000;

/// A transfer that is silent this long has ended.
pub const XFER_STALL_SECS: u64 = 90;

/// How long an offer may wait for an answer.
pub const XFER_OFFER_TTL_SECS: u64 = 300;

/// How much longer than the receiver the sender keeps an offer open, so that
/// a late answer still finds it.
pub const OFFER_GRACE_SECS: u64 = 30;

/// Progress is reported in steps of so many percent.
pub const PROGRESS_STEP_PCT: u8 = 1;

/// How many blocks a file of `size` bytes has.
pub open spec fn block_count(size: u64) -> u64 {
    ((size + XFER_BLOCK_SIZE - 1) / XFER_BLOCK_SIZE as int) as u64
}

/// How many blocks a file of `size` bytes has.
pub fn xfer_block_count(size: u64) -> (r: u64)
    ensures
        r == block_count(size),
{
    if size % XFER_BLOCK_SIZE == 0 {
        size / XFER_BLOCK_SIZE
    } else {
        size / XFER_BLOCK_SIZE + 1
    }
}

/// A file of `size` bytes: the bytes of a block.
pub open spec fn block_len(size: u64, block: u64) -> int {
    if (block + 1) * XFER_BLOCK_SIZE <= size {
        XFER_BLOCK_SIZE as int
    } else {
        size - block * XFER_BLOCK_SIZE
    }
}

/// A part of a whole in percent; a whole of nothing is done.
pub open spec fn percent(part: u64, whole: u64) -> int {
    if whole == 0 {
        100
    } else {
        let n = if part * 100 > u64::MAX {
            u64::MAX as int
        } else {
            part * 100
        };
        n / whole as int
    }
}

/// The percentage to report: one that has moved a whole step since the last one.
pub open spec fn progress_due(pct: int, reported: u8) -> Option<u8> {
    if pct / PROGRESS_STEP_PCT as int > reported as int / PROGRESS_STEP_PCT as int {
        Some(pct as u8)
    } else {
        None
    }
}

/// What was reported is not reported again, not even at the end, and a lower
/// percentage never is.
pub proof fn lemma_progress_once(pct: int, reported: u8)
    requires
        0 <= pct <= 100,
        progress_due(pct, reported) is Some,
    ensures
        forall|next: int| 0 <= next <= pct ==> #[trigger] progress_due(next, pct as u8) is None,
{
}

fn get_percent(part: u64, whole: u64) -> (r: u64)
    ensures
        r == percent(part, whole),
{
    if whole == 0 {
        100
    } else if part > u64::MAX / 100 {
        u64::MAX / whole
    } else {
        part * 100 / whole
    }
}

pub open spec fn bytes_in(blocks: u64, size: u64) -> u64 {
    if blocks * XFER_BLOCK_SIZE < size {
        (blocks * XFER_BLOCK_SIZE) as u64
    } else {
        size
    }
}

fn get_bytes(blocks: u64, size: u64) -> (r: u64)
    ensures
        r == bytes_in(blocks, size),
{
    if blocks > u64::MAX / XFER_BLOCK_SIZE {
        size
    } else if blocks * XFER_BLOCK_SIZE < size {
        blocks * XFER_BLOCK_SIZE
    } else {
        size
    }
}

// ---------------------------------------------------------------------------
// Sending
// ---------------------------------------------------------------------------
/// A file that we have offered or are sending.
pub struct SendState {
    pub channel_id: [u8; 16],
    pub peer: [u8; 32],
    /// The key of this transfer.
    pub key: [u8; 32],
    pub name: String,
    pub size: u64,
    /// Whether the receiver has said yes.
    pub accepted: bool,
    pub queue: Vec<u64>,
    pub sent_blocks: u64,
    pub updated_at: u64,
    pub reported_pct: u8,
}

/// The blocks of a request that can be answered and do not wait yet.
pub open spec fn wanted(queue: Seq<u64>, start: u64, count: u16, total: u64) -> Seq<u64> {
    let n: int = if start + count > u64::MAX {
        u64::MAX - start
    } else {
        count as int
    };
    Seq::new(n as nat, |i: int| (start + i) as u64).filter(
        |b: u64| b < total && !queue.contains(b),
    )
}

/// The queue with a request: its blocks follow as far as a window holds them.
pub open spec fn enqueued(queue: Seq<u64>, start: u64, count: u16, total: u64) -> Seq<u64> {
    let w = wanted(queue, start, count, total);
    let room = XFER_WINDOW_BLOCKS - queue.len();
    if w.len() <= room {
        queue + w
    } else {
        queue + w.take(room)
    }
}

impl SendState {
    pub open spec fn queue(&self) -> Seq<u64> {
        self.queue@
    }

    pub open spec fn reported(&self) -> u8 {
        self.reported_pct
    }

    /// The queue holds blocks of the file, each once, and no more than a window.
    pub open spec fn wf(&self) -> bool {
        &&& self.queue().len() <= XFER_WINDOW_BLOCKS
        &&& self.queue().no_duplicates()
        &&& forall|i: int|
            0 <= i < self.queue().len() ==> #[trigger] self.queue()[i] < block_count(self.size)
    }

    /// Whether only the queue and the time may have changed.
    pub open spec fn same_transfer(&self, o: &SendState) -> bool {
        &&& self.channel_id == o.channel_id && self.peer == o.peer && self.key == o.key
        &&& self.name == o.name && self.size == o.size && self.accepted == o.accepted
    }

    /// An offer that was made now.
    pub fn new(
        channel_id: [u8; 16],
        peer: [u8; 32],
        key: [u8; 32],
        name: String,
        size: u64,
        now: u64,
    ) -> (r: SendState)
        ensures
            r.wf(),
            r.queue() == Seq::<u64>::empty(),
            r.reported() == 0,
            r.channel_id == channel_id,
            r.peer == peer,
            r.key == key,
            r.name == name,
            r.size == size,
            !r.accepted,
            r.sent_blocks == 0,
            r.updated_at == now,
    {
        SendState {
            channel_id,
            peer,
            key,
            name,
            size,
            accepted: false,
            queue: Vec::new(),
            sent_blocks: 0,
            updated_at: now,
            reported_pct: 0,
        }
    }

    pub fn bytes_sent(&self) -> (r: u64)
        ensures
            r == bytes_in(self.sent_blocks, self.size),
    {
        get_bytes(self.sent_blocks, self.size)
    }

    /// The percentage, if it has moved a step since it was last reported.
    pub fn progress_step(&mut self) -> (r: Option<u8>)
        ensures
            ({
                let p = percent(old(self).sent_blocks, block_count(old(self).size));
                let pct = if p > 100 {
                    100
                } else {
                    p
                };
                &&& r == progress_due(pct, old(self).reported())
                &&& final(self).reported() == match r {
                    Some(p) => p,
                    None => old(self).reported(),
                }
            }),
            final(self).same_transfer(old(self)),
            final(self).queue() == old(self).queue(),
            final(self).sent_blocks == old(self).sent_blocks,
            final(self).updated_at == old(self).updated_at,
    {
        let p: u64 = get_percent(self.sent_blocks, self.total_blocks());
        let pct: u8 = if p > 100 {
            100
        } else {
            p as u8
        };
        if pct / PROGRESS_STEP_PCT > self.reported_pct / PROGRESS_STEP_PCT {
            self.reported_pct = pct;
            return Some(pct);
        }
        None
    }

    pub fn total_blocks(&self) -> (r: u64)
        ensures
            r == block_count(self.size),
    {
        xfer_block_count(self.size)
    }

    fn is_queued(&self, block: u64) -> (r: bool)
        ensures
            r == self.queue().contains(block),
    {
        let mut i: usize = 0;
        while i < self.queue.len()
            invariant
                i <= self.queue@.len(),
                forall|j: int| 0 <= j < i ==> self.queue@[j] != block,
            decreases self.queue@.len() - i,
        {
            if self.queue[i] == block {
                return true;
            }
            i = i + 1;
        }
        false
    }

    /// Takes a request for `count` blocks from `start` on. Blocks past the end
    /// and blocks that wait already are passed over; what does not fit into a
    /// window is not taken.
    pub fn enqueue(&mut self, start: u64, count: u16, now: u64)
        requires
            old(self).wf(),
        ensures
            final(self).queue() == enqueued(
                old(self).queue(),
                start,
                count,
                block_count(old(self).size),
            ),
            final(self).updated_at == now,
            final(self).same_transfer(old(self)),
            final(self).sent_blocks == old(self).sent_blocks,
            final(self).reported() == old(self).reported(),
            final(self).wf(),
    {
        let total: u64 = self.total_blocks();
        let n: u64 = if count as u64 > u64::MAX - start {
            u64::MAX - start
        } else {
            count as u64
        };
        let ghost q = self.queue@;
        let ghost all = Seq::new(n as nat, |i: int| (start + i) as u64);
        let ghost pick = |b: u64| b < total && !q.contains(b);
        let ghost w = all.filter(pick);
        let ghost room = XFER_WINDOW_BLOCKS - q.len();
        let mut i: u64 = 0;
        let mut full = false;
        proof {
            reveal(Seq::filter);
            assert(all.take(0).filter(pick) =~= Seq::<u64>::empty());
            assert(q + Seq::<u64>::empty() =~= q);
        }
        while i < n && !full
            invariant
                i <= n,
                n <= u64::MAX - start,
                q.len() <= XFER_WINDOW_BLOCKS,
                total == block_count(old(self).size),
                all == Seq::new(n as nat, |i: int| (start + i) as u64),
                pick == |b: u64| b < total && !q.contains(b),
                w == all.filter(pick),
                room == XFER_WINDOW_BLOCKS - q.len(),
                q == old(self).queue(),
                old(self).wf(),
                self.same_transfer(old(self)),
                self.sent_blocks == old(self).sent_blocks,
                self.reported_pct == old(self).reported(),
                self.wf(),
                !full ==> self.queue@ == q + all.take(i as int).filter(pick),
                !full ==> self.queue@.len() <= XFER_WINDOW_BLOCKS,
                full ==> w.len() > room && self.queue@ == q + w.take(room),
            decreases n - i, !full as int,
        {
            let block: u64 = start + i;
            let ghost part = all.take(i as int);
            let ghost next = all.take(i as int + 1);
            proof {
                reveal(Seq::filter);
                assert(next.drop_last() =~= part);
                assert(next.last() == block);
                assert forall|b: u64| part.filter(pick).contains(b) implies b < block by {
                    lemma_filter_below(part, pick, block, b);
                }
            }
            let ghost before = self.queue@;
            if block >= total || self.is_queued(block) {
                proof {
                    assert(!pick(block)) by {
                        if block < total {
                            assert(before.contains(block));
                            let j = choose|j: int| 0 <= j < before.len() && before[j] == block;
                            if j >= q.len() {
                                assert(part.filter(pick)[j - q.len()] == block);
                                assert(part.filter(pick).contains(block));
                            } else {
                                assert(q[j] == block);
                            }
                        }
                    }
                }
            } else {
                proof {
                    assert(!q.contains(block)) by {
                        if q.contains(block) {
                            let j = choose|j: int| 0 <= j < q.len() && q[j] == block;
                            assert(before[j] == block);
                        }
                    }
                    assert(pick(block));
                }
                if self.queue.len() >= XFER_WINDOW_BLOCKS {
                    full = true;
                    proof {
                        lemma_filter_prefix(all, pick, i as int + 1);
                        let f = next.filter(pick);
                        assert(f =~= part.filter(pick).push(block));
                        assert(w.take(f.len() as int) == f);
                        assert(w.take(room) =~= f.take(room));
                        assert(f.take(room) =~= part.filter(pick));
                    }
                } else {
                    self.queue.push(block);
                    proof {
                        assert(self.queue@ =~= q + next.filter(pick));
                        assert(self.queue@.no_duplicates()) by {
                            assert forall|x: int, y: int|
                                0 <= x < y < self.queue@.len() implies self.queue@[x]
                                != self.queue@[y] by {
                                if y == before.len() {
                                    assert(before.contains(before[x]));
                                }
                            }
                        }
                    }
                }
            }
            if !full {
                i = i + 1;
            }
        }
        proof {
            if !full {
                assert(all.take(n as int) =~= all);
            }
        }
        self.updated_at = now;
    }

    /// The block to answer with next.
    pub fn next_block(&mut self) -> (r: Option<u64>)
        requires
            old(self).wf(),
        ensures
            match r {
                Some(b) => {
                    &&& old(self).queue().len() > 0 && b == old(self).queue()[0]
                    &&& final(self).queue() == old(self).queue().skip(1)
                },
                None => old(self).queue().len() == 0 && final(self).queue() == old(self).queue(),
            },
            final(self).same_transfer(old(self)),
            final(self).sent_blocks == old(self).sent_blocks,
            final(self).updated_at == old(self).updated_at,
            final(self).reported() == old(self).reported(),
            final(self).wf(),
    {
        if self.queue.len() == 0 {
            return None;
        }
        let ghost q = self.queue@;
        let block: u64 = self.queue.remove(0);
        proof {
            assert(self.queue@ =~= q.skip(1));
        }
        Some(block)
    }

    /// Whether there is a block to send.
    pub fn has_work(&self) -> (r: bool)
        ensures
            r == (self.accepted && self.queue().len() > 0),
    {
        self.accepted && self.queue.len() > 0
    }

    /// Notes that a block was sent.
    pub fn note_sent(&mut self, now: u64)
        ensures
            final(self).sent_blocks == if old(self).sent_blocks == u64::MAX {
                u64::MAX as int
            } else {
                old(self).sent_blocks + 1
            },
            final(self).updated_at == now,
            final(self).same_transfer(old(self)),
            final(self).queue() == old(self).queue(),
            final(self).reported() == old(self).reported(),
    {
        self.sent_blocks = self.sent_blocks.saturating_add(1);
        self.updated_at = now;
    }

    /// Whether the receiver has been silent too long: the stall time once it
    /// has accepted, and longer than it may take to accept before.
    pub open spec fn stalled(&self, now: u64) -> bool {
        elapsed(self.updated_at, now) > 1000 * if self.accepted {
            XFER_STALL_SECS as int
        } else {
            XFER_OFFER_TTL_SECS + OFFER_GRACE_SECS
        }
    }

    /// Whether the receiver has been silent too long.
    pub fn is_stalled(&self, now: u64) -> (r: bool)
        ensures
            r == self.stalled(now),
    {
        let window: u64 = if self.accepted {
            XFER_STALL_SECS
        } else {
            XFER_OFFER_TTL_SECS + OFFER_GRACE_SECS
        };
        ms_since(self.updated_at, now) > 1000 * window
    }
}

proof fn lemma_filter_below(s: Seq<u64>, pick: spec_fn(u64) -> bool, bound: u64, b: u64)
    requires
        forall|i: int| 0 <= i < s.len() ==> s[i] < bound,
        s.filter(pick).contains(b),
    ensures
        b < bound,
    decreases s.len(),
{
    reveal(Seq::filter);
    if s.len() > 0 {
        let t = s.drop_last();
        let f = s.filter(pick);
        let j = choose|j: int| 0 <= j < f.len() && f[j] == b;
        if pick(s.last()) && j == f.len() - 1 {
            assert(b == s.last());
        } else {
            assert(t.filter(pick)[j] == b);
            assert(t.filter(pick).contains(b));
            lemma_filter_below(t, pick, bound, b);
        }
    }
}

/// What a filter keeps of a prefix is a prefix of what it keeps.
proof fn lemma_filter_prefix(s: Seq<u64>, pick: spec_fn(u64) -> bool, n: int)
    requires
        0 <= n <= s.len(),
    ensures
        s.take(n).filter(pick).len() <= s.filter(pick).len(),
        s.filter(pick).take(s.take(n).filter(pick).len() as int) == s.take(n).filter(pick),
    decreases s.len(),
{
    reveal(Seq::filter);
    if n == s.len() {
        assert(s.take(n) =~= s);
        assert(s.filter(pick).take(s.filter(pick).len() as int) =~= s.filter(pick));
    } else {
        let t = s.drop_last();
        lemma_filter_prefix(t, pick, n);
        assert(t.take(n) =~= s.take(n));
        let k = s.take(n).filter(pick).len() as int;
        assert(s.filter(pick).take(k) =~= t.filter(pick).take(k));
    }
}

/// No request makes more than a window of blocks wait, and none makes a block
/// wait twice.
pub proof fn lemma_enqueued_bounded(queue: Seq<u64>, start: u64, count: u16, total: u64)
    requires
        queue.len() <= XFER_WINDOW_BLOCKS,
    ensures
        enqueued(queue, start, count, total).len() <= XFER_WINDOW_BLOCKS,
        enqueued(queue, start, count, total).take(queue.len() as int) == queue,
{
    assert(enqueued(queue, start, count, total).take(queue.len() as int) =~= queue);
}

/// An offer outlives the receiver's time to answer it.
pub proof fn lemma_offer_outlives_prompt(s: SendState, now: u64)
    requires
        !s.accepted,
        elapsed(s.updated_at, now) <= 1000 * XFER_OFFER_TTL_SECS,
    ensures
        !s.stalled(now),
{
}

// ---------------------------------------------------------------------------
// Receiving
// ---------------------------------------------------------------------------
/// A file that we have accepted and are pulling in.
pub struct RecvState {
    pub channel_id: [u8; 16],
    pub peer: [u8; 32],
    /// The key of this transfer.
    pub key: [u8; 32],
    pub name: String,
    pub size: u64,
    pub root: [u8; 32],
    /// One bit for each block.
    pub have: Vec<u64>,
    pub have_blocks: u64,
    pub total_blocks: u64,
    /// When each block that has not come was asked for.
    pub inflight: KeyMap<u64, u64>,
    pub updated_at: u64,
    pub reported_pct: u8,
}

/// What to do with a block that came.
#[derive(Clone, Copy, Debug, PartialEq, Eq, Structural)]
pub enum BlockWrite {
    /// It is no block of the file.
    Refused,
    /// It is there already.
    Duplicate,
    /// It is new, and has to be written at its place.
    Store { block: u64 },
}

/// Whether so many bytes at a place are a block of the file.
pub open spec fn is_block(size: u64, offset: u64, len: int) -> bool {
    &&& len > 0
    &&& offset < size
    &&& offset % XFER_BLOCK_SIZE == 0
    &&& len == block_len(size, offset / XFER_BLOCK_SIZE)
}

/// Whether the bit of a block is set.
pub open spec fn block_bit(words: Seq<u64>, b: u64) -> bool {
    b / 64 < words.len() && words[(b / 64) as int] & (1u64 << (b % 64)) != 0
}

/// Blocks in ascending order as runs of a first block and a number.
pub open spec fn runs_of(s: Seq<u64>) -> Seq<(u64, u16)>
    decreases s.len(),
{
    if s.len() == 0 {
        Seq::empty()
    } else {
        let r = runs_of(s.drop_last());
        let b = s.last();
        if r.len() > 0 && r.last().0 + r.last().1 == b {
            r.drop_last().push((r.last().0, (r.last().1 + 1) as u16))
        } else {
            r.push((b, 1))
        }
    }
}

impl RecvState {
    /// The blocks that have come.
    pub open spec fn held(&self) -> Set<u64> {
        Set::new(|b: u64| b < self.total_blocks && block_bit(self.have@, b))
    }

    pub open spec fn wf(&self) -> bool {
        &&& self.total_blocks == block_count(self.size)
        &&& self.have@.len() * 64 >= self.total_blocks
        &&& self.held().finite()
        &&& self.held().len() == self.have_blocks
        &&& self.inflight@.dom().finite()
        &&& self.inflight@.dom().len() <= XFER_WINDOW_BLOCKS
    }

    pub open spec fn same_transfer(&self, o: &RecvState) -> bool {
        &&& self.channel_id == o.channel_id && self.peer == o.peer && self.key == o.key
        &&& self.name == o.name && self.size == o.size && self.root == o.root
        &&& self.total_blocks == o.total_blocks
    }

    /// A transfer that begins now.
    pub fn new(
        channel_id: [u8; 16],
        peer: [u8; 32],
        key: [u8; 32],
        name: String,
        size: u64,
        root: [u8; 32],
        now: u64,
    ) -> (r: RecvState)
        requires
            block_count(size) + 64 <= usize::MAX,
        ensures
            r.wf(),
            r.held() == Set::<u64>::empty(),
            r.inflight@ == Map::<u64, u64>::empty(),
            r.channel_id == channel_id,
            r.peer == peer,
            r.key == key,
            r.name == name,
            r.size == size,
            r.root == root,
            r.updated_at == now,
            r.reported_pct == 0,
    {
        let total_blocks: u64 = xfer_block_count(size);
        let words: usize = if total_blocks == 0 {
            1
        } else {
            (total_blocks as usize + 63) / 64
        };
        let mut have: Vec<u64> = Vec::new();
        let mut i: usize = 0;
        while i < words
            invariant
                i <= words,
                have@.len() == i,
                forall|j: int| 0 <= j < i ==> have@[j] == 0,
            decreases words - i,
        {
            have.push(0);
            i = i + 1;
        }
        let r = RecvState {
            channel_id,
            peer,
            key,
            name,
            size,
            root,
            have,
            have_blocks: 0,
            total_blocks,
            inflight: KeyMap::new(),
            updated_at: now,
            reported_pct: 0,
        };
        proof {
            assert forall|b: u64| !block_bit(r.have@, b) by {
                let k: u64 = (b % 64) as u64;
                assert(0u64 & (1u64 << k) == 0) by (bit_vector);
            }
            assert(r.held() =~= Set::<u64>::empty());
        }
        r
    }

    pub fn bytes_received(&self) -> (r: u64)
        ensures
            r == bytes_in(self.have_blocks, self.size),
    {
        get_bytes(self.have_blocks, self.size)
    }

    fn has(&self, block: u64) -> (r: bool)
        requires
            self.wf(),
            block < self.total_blocks,
        ensures
            r == self.held().contains(block),
    {
        let n: usize = self.have.len();
        assert(block / 64 < n);
        let (word, bit): (usize, u64) = ((block / 64) as usize, block % 64);
        self.have[word] & (1u64 << bit) != 0
    }

    /// Notes that a block was written.
    pub fn block_stored(&mut self, block: u64)
        requires
            old(self).wf(),
            block < old(self).total_blocks,
        ensures
            final(self).wf(),
            final(self).held() == old(self).held().insert(block),
            final(self).inflight@ == old(self).inflight@,
            final(self).same_transfer(old(self)),
            final(self).updated_at == old(self).updated_at,
            final(self).reported_pct == old(self).reported_pct,
    {
        if self.has(block) {
            assert(self.held().insert(block) =~= self.held());
            return;
        }
        let n: usize = self.have.len();
        assert(block / 64 < n);
        let (word, bit): (usize, u64) = ((block / 64) as usize, block % 64);
        let ghost words = self.have@;
        let w: u64 = self.have[word];
        self.have.set(word, w | (1u64 << bit));
        proof {
            lemma_bit_set(words, block, bit);
            assert(self.held() =~= old(self).held().insert(block));
            lemma_held_bound(*old(self));
        }
        self.have_blocks = self.have_blocks + 1;
    }

    /// What to do with a block of `len` bytes that came for a place. One that
    /// is new has to be written there, and then noted with `block_stored`.
    pub fn write_block(&mut self, offset: u64, len: usize, now: u64) -> (r: BlockWrite)
        requires
            old(self).wf(),
        ensures
            final(self).wf(),
            final(self).held() == old(self).held(),
            final(self).same_transfer(old(self)),
            final(self).reported_pct == old(self).reported_pct,
            !is_block(old(self).size, offset, len as int) ==> {
                &&& r is Refused
                &&& *final(self) == *old(self)
            },
            is_block(old(self).size, offset, len as int) ==> {
                let b = (offset / XFER_BLOCK_SIZE) as u64;
                &&& b < old(self).total_blocks
                &&& r == if old(self).held().contains(b) {
                    BlockWrite::Duplicate
                } else {
                    BlockWrite::Store { block: b }
                }
                &&& final(self).inflight@ == old(self).inflight@.remove(b)
                &&& final(self).updated_at == now
            },
    {
        if len == 0 || offset >= self.size || offset % XFER_BLOCK_SIZE != 0 {
            return BlockWrite::Refused;
        }
        let block: u64 = offset / XFER_BLOCK_SIZE;
        let expected: u64 = if self.size - offset < XFER_BLOCK_SIZE {
            self.size - offset
        } else {
            XFER_BLOCK_SIZE
        };
        proof {
            assert(block * XFER_BLOCK_SIZE == offset);
            assert((block + 1) * XFER_BLOCK_SIZE == offset + XFER_BLOCK_SIZE) by (nonlinear_arith)
                requires
                    block * XFER_BLOCK_SIZE == offset,
            ;
            assert(expected == block_len(self.size, block));
            assert(block < self.total_blocks);
        }
        if len as u64 != expected {
            return BlockWrite::Refused;
        }
        self.inflight.remove(&block);
        self.updated_at = now;
        if self.has(block) {
            return BlockWrite::Duplicate;
        }
        BlockWrite::Store { block }
    }

    pub fn is_complete(&self) -> (r: bool)
        requires
            self.wf(),
        ensures
            r == (forall|b: u64| b < self.total_blocks ==> #[trigger] self.held().contains(b)),
    {
        proof {
            lemma_complete(*self);
        }
        self.have_blocks >= self.total_blocks
    }

    /// The percentage, if it has moved a step since it was last reported.
    pub fn progress_step(&mut self) -> (r: Option<u8>)
        requires
            old(self).wf(),
        ensures
            ({
                let pct = percent(old(self).have_blocks, old(self).total_blocks);
                &&& 0 <= pct <= 100
                &&& r == progress_due(pct, old(self).reported_pct)
                &&& final(self).reported_pct == match r {
                    Some(p) => p,
                    None => old(self).reported_pct,
                }
            }),
            final(self).wf(),
            final(self).held() == old(self).held(),
            final(self).inflight@ == old(self).inflight@,
            final(self).same_transfer(old(self)),
            final(self).updated_at == old(self).updated_at,
    {
        proof {
            lemma_held_bound(*self);
            lemma_percent_bound(self.have_blocks, self.total_blocks);
        }
        let pct: u8 = get_percent(self.have_blocks, self.total_blocks) as u8;
        if pct / PROGRESS_STEP_PCT > self.reported_pct / PROGRESS_STEP_PCT {
            self.reported_pct = pct;
            return Some(pct);
        }
        None
    }

    /// The requests that still may be answered.
    pub open spec fn waiting(&self, now: u64) -> Map<u64, u64> {
        younger(
            self.inflight@,
            stamps(self.inflight@),
            now,
            (XFER_BLOCK_TIMEOUT_MS + 1) as u64,
        )
    }

    /// The blocks to ask for: the first ones that are neither there nor waited
    /// for, as many as a window still holds.
    pub open spec fn to_ask(&self, now: u64) -> Seq<u64> {
        let w = self.waiting(now);
        let lacking = Seq::new(self.total_blocks as nat, |i: int| i as u64).filter(
            |b: u64| !self.held().contains(b) && !w.contains_key(b),
        );
        let room = XFER_WINDOW_BLOCKS - w.dom().len();
        if lacking.len() <= room {
            lacking
        } else {
            lacking.take(room)
        }
    }

    /// The blocks to ask for now, in runs of a first block and a number.
    pub fn next_requests(&mut self, now: u64) -> (r: Vec<(u64, u16)>)
        requires
            old(self).wf(),
        ensures
            r@ == runs_of(old(self).to_ask(now)),
            forall|b: u64| #[trigger]
                final(self).inflight@.contains_key(b) <==> old(self).waiting(now).contains_key(b)
                    || old(self).to_ask(now).contains(b),
            forall|b: u64| #[trigger]
                final(self).inflight@.contains_key(b) ==> final(self).inflight@[b] == {
                    let w = old(self).waiting(now);
                    if w.contains_key(b) {
                        w[b]
                    } else {
                        now
                    }
                },
            final(self).wf(),
            final(self).held() == old(self).held(),
            final(self).same_transfer(old(self)),
            final(self).updated_at == old(self).updated_at,
            final(self).reported_pct == old(self).reported_pct,
    {
        keep_younger(&mut self.inflight, now, XFER_BLOCK_TIMEOUT_MS + 1);
        let ghost w = self.inflight@;
        let ghost s0 = *self;
        let ghost all = Seq::new(self.total_blocks as nat, |i: int| i as u64);
        let ghost pick = |b: u64| !s0.held().contains(b) && !w.contains_key(b);
        let n: usize = self.inflight.len();
        let mut budget: usize = XFER_WINDOW_BLOCKS - n;
        let mut runs: Vec<(u64, u16)> = Vec::new();
        let mut run: Option<(u64, u16)> = None;
        let mut block: u64 = 0;
        proof {
            reveal(Seq::filter);
            assert(all.take(0).filter(pick) =~= Seq::<u64>::empty());
            assert(w =~= old(self).waiting(now));
        }
        let ghost mut asked = Seq::<u64>::empty();
        while block < self.total_blocks && budget > 0
            invariant
                block <= self.total_blocks,
                self.total_blocks == s0.total_blocks,
                self.have@ == s0.have@,
                self.have_blocks == s0.have_blocks,
                self.same_transfer(&s0),
                self.updated_at == s0.updated_at,
                self.reported_pct == s0.reported_pct,
                self.wf(),
                s0.wf(),
                all == Seq::new(s0.total_blocks as nat, |i: int| i as u64),
                pick == |b: u64| !s0.held().contains(b) && !w.contains_key(b),
                asked == all.take(block as int).filter(pick),
                budget + w.dom().len() + asked.len() == XFER_WINDOW_BLOCKS,
                self.inflight@.dom().len() == w.dom().len() + asked.len(),
                forall|b: u64| #[trigger]
                    self.inflight@.contains_key(b) <==> w.contains_key(b) || asked.contains(b),
                forall|b: u64| #[trigger]
                    self.inflight@.contains_key(b) ==> self.inflight@[b] == if w.contains_key(b) {
                        w[b]
                    } else {
                        now
                    },
                forall|b: u64| #[trigger] asked.contains(b) ==> b < block,
                match run {
                    Some((start, count)) => {
                        &&& runs_of(asked) == runs@.push((start, count))
                        &&& asked.len() > 0 && start + count == block
                        &&& count <= asked.len()
                        &&& asked.last() + 1 == block
                    },
                    None => {
                        &&& runs_of(asked) == runs@
                        &&& asked.len() > 0 ==> asked.last() + 1 < block
                        &&& runs@.len() > 0 ==> asked.len() > 0
                        &&& runs@.len() > 0 ==> runs@.last().0 + runs@.last().1 == asked.last() + 1
                    },
                },
            decreases self.total_blocks - block,
        {
            let ghost next = all.take(block as int + 1);
            let ghost before = self.inflight@;
            proof {
                reveal(Seq::filter);
                assert(next.drop_last() =~= all.take(block as int));
                assert(next.last() == block);
                assert(self.held() =~= s0.held());
                assert(!asked.contains(block));
            }
            if self.has(block) || self.inflight.contains_key(&block) {
                assert(!pick(block));
                assert(next.filter(pick) =~= asked);
                if let Some(pending) = run {
                    runs.push(pending);
                    run = None;
                }
            } else {
                self.inflight.insert(block, now);
                budget = budget - 1;
                proof {
                    assert(pick(block));
                    let more = asked.push(block);
                    assert(next.filter(pick) =~= more);
                    assert(more.drop_last() =~= asked);
                    assert(more.last() == block);
                    assert forall|b: u64| #[trigger] more.contains(b) <==> asked.contains(b) || b
                        == block by {
                        if more.contains(b) {
                            let j = choose|j: int| 0 <= j < more.len() && more[j] == b;
                            if j < asked.len() {
                                assert(asked[j] == b);
                            }
                        }
                        if asked.contains(b) {
                            let j = choose|j: int| 0 <= j < asked.len() && asked[j] == b;
                            assert(more[j] == b);
                        }
                        assert(more[asked.len() as int] == block);
                    }
                    asked = more;
                }
                run =
                match run {
                    Some((start, count)) => {
                        proof {
                            let r = runs@.push((start, count));
                            assert(r.drop_last() =~= runs@);
                            assert(r.last() == (start, count));
                        }
                        Some((start, count + 1))
                    },
                    None => Some((block, 1)),
                };
                assert(self.inflight@.dom() =~= before.dom().insert(block));
            }
            block = block + 1;
        }
        if let Some(pending) = run {
            runs.push(pending);
        }
        proof {
            let lacking = all.filter(pick);
            assert(self.held() =~= s0.held());
            assert(s0.held() =~= old(self).held());
            lemma_filter_prefix(all, pick, block as int);
            if block == s0.total_blocks {
                assert(all.take(block as int) =~= all);
                assert(asked == lacking);
            } else {
                assert(lacking.take(asked.len() as int) == asked);
            }
            assert(lacking.take(lacking.len() as int) =~= lacking);
            assert(asked =~= old(self).to_ask(now));
        }
        runs
    }

    /// Whether the sender has been silent too long.
    pub fn is_stalled(&self, now: u64) -> (r: bool)
        ensures
            r == (elapsed(self.updated_at, now) > 1000 * XFER_STALL_SECS),
    {
        ms_since(self.updated_at, now) > 1000 * XFER_STALL_SECS
    }
}

/// An offer that waits for the user.
pub struct PendingOffer {
    pub channel_id: [u8; 16],
    pub peer: [u8; 32],
    /// The key of this transfer.
    pub key: [u8; 32],
    pub name: String,
    pub size: u64,
    pub root: [u8; 32],
    pub received_at: u64,
}

proof fn lemma_bit_set(words: Seq<u64>, block: u64, bit: u64)
    requires
        block / 64 < words.len(),
        bit == block % 64,
    ensures
        forall|b: u64| #[trigger]
            block_bit(
                words.update((block / 64) as int, words[(block / 64) as int] | (1u64 << bit)),
                b,
            ) <==> block_bit(words, b) || b == block,
{
    let k = (block / 64) as int;
    let w = words[k];
    let after = words.update(k, w | (1u64 << bit));
    assert forall|b: u64| #[trigger] block_bit(after, b) <==> block_bit(words, b) || b == block by {
        let i: u64 = (b % 64) as u64;
        assert(((w | (1u64 << bit)) & (1u64 << i) != 0) == (i == bit || w & (1u64 << i) != 0))
            by (bit_vector)
            requires
                bit < 64,
                i < 64,
        ;
    }
}

spec fn below(n: u64) -> Set<u64> {
    Set::new(|b: u64| b < n)
}

proof fn lemma_below(n: u64)
    ensures
        below(n).finite(),
        below(n).len() == n,
    decreases n,
{
    if n == 0 {
        assert(below(0) =~= Set::<u64>::empty());
    } else {
        let m = (n - 1) as u64;
        lemma_below(m);
        assert(below(n) =~= below(m).insert(m));
    }
}

proof fn lemma_held_bound(s: RecvState)
    requires
        s.wf(),
    ensures
        s.have_blocks <= s.total_blocks,
        forall|b: u64| b < s.total_blocks && !#[trigger] s.held().contains(b) ==> s.have_blocks
            < s.total_blocks,
{
    let all = below(s.total_blocks);
    lemma_below(s.total_blocks);
    assert(s.held().subset_of(all));
    vstd::set_lib::lemma_len_subset(s.held(), all);
    assert forall|b: u64| b < s.total_blocks && !#[trigger] s.held().contains(
        b,
    ) implies s.have_blocks < s.total_blocks by {
        assert(s.held().subset_of(all.remove(b)));
        assert(all.contains(b));
        vstd::set_lib::lemma_len_subset(s.held(), all.remove(b));
    }
}

proof fn lemma_complete(s: RecvState)
    requires
        s.wf(),
    ensures
        s.have_blocks >= s.total_blocks <==> (forall|b: u64|
            b < s.total_blocks ==> #[trigger] s.held().contains(b)),
{
    lemma_held_bound(s);
    if forall|b: u64| b < s.total_blocks ==> #[trigger] s.held().contains(b) {
        lemma_below(s.total_blocks);
        assert(s.held() =~= below(s.total_blocks));
    }
}

proof fn lemma_percent_bound(part: u64, whole: u64)
    requires
        part <= whole,
    ensures
        0 <= percent(part, whole) <= 100,
{
    if whole > 0 {
        let n = if part * 100 > u64::MAX {
            u64::MAX as int
        } else {
            part * 100
        };
        assert(0 <= n <= 100 * whole);
        assert(n / whole as int <= 100) by (nonlinear_arith)
            requires
                n <= 100 * whole,
                whole > 0,
        ;
        assert(n / whole as int >= 0) by (nonlinear_arith)
            requires
                n >= 0,
                whole > 0,
        ;
    }
}

/// The blocks that runs name, in order.
pub open spec fn blocks_of(runs: Seq<(u64, u16)>) -> Seq<u64>
    decreases runs.len(),
{
    if runs.len() == 0 {
        Seq::empty()
    } else {
        blocks_of(runs.drop_last()) + Seq::new(
            runs.last().1 as nat,
            |i: int| (runs.last().0 + i) as u64,
        )
    }
}

/// The runs of a request name exactly the blocks to ask for.
pub proof fn lemma_runs_name_blocks(s: Seq<u64>)
    requires
        s.len() <= XFER_WINDOW_BLOCKS,
    ensures
        blocks_of(runs_of(s)) == s,
        runs_of(s).len() > 0 ==> runs_of(s).last().1 <= s.len(),
    decreases s.len(),
{
    if s.len() > 0 {
        let t = s.drop_last();
        let b = s.last();
        lemma_runs_name_blocks(t);
        let r = runs_of(t);
        if r.len() > 0 && r.last().0 + r.last().1 == b {
            let (start, count) = r.last();
            let q = r.drop_last().push((start, (count + 1) as u16));
            assert(q.drop_last() =~= r.drop_last());
            assert(blocks_of(q) =~= blocks_of(r).push(b));
        } else {
            let q = r.push((b, 1));
            assert(q.drop_last() =~= r);
            assert(blocks_of(q) =~= blocks_of(r).push(b));
        }
        assert(t.push(b) =~= s);
    }
}

/// The blocks of a file cover it, each byte once: the byte at a place belongs
/// to one block, and lies within what that block writes.
pub proof fn lemma_blocks_tile(size: u64, at: u64)
    requires
        at < size,
    ensures
        ({
            let b = (at / XFER_BLOCK_SIZE) as u64;
            &&& b < block_count(size)
            &&& b * XFER_BLOCK_SIZE <= at < b * XFER_BLOCK_SIZE + block_len(size, b)
            &&& forall|o: u64|
                o < block_count(size) && #[trigger] (o * XFER_BLOCK_SIZE) <= at < o
                    * XFER_BLOCK_SIZE + block_len(size, o) ==> o == b
        }),
{
}

} // verus!
