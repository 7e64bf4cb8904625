//! Flood protection: how much traffic a peer may send, and which answers were asked for.
use vstd::prelude::*;

use std::collections::VecDeque;

use crate::clock::{elapsed, ms_since};
use crate::key_map::{put, IpOp, KeyMap, MapKey};
use crate::net::{IpAddr, SocketAddr};

verus! {

/// The window in which requests of one kind are counted.
pub const OPCODE_WINDOW_MS: u64 = 15000;

pub const DEFAULT_OPCODE_LIMIT: u32 = 5;

/// How long a request waits for its answer, in seconds.
pub const TRACKER_EXPIRY_SECS: u64 = 180;

pub const MAX_OUTGOING_PER_IP_PER_SEC: u32 = 30;

/// Packets of search results that one request admits: enough for a page.
pub const SEARCH_RES_BUDGET_PER_REQUEST: u32 = 20;

pub const MAX_PACKETS_PER_SEC_UNKNOWN: u32 = 20;

pub const MAX_PACKETS_PER_SEC_KNOWN: u32 = 40;

pub const MAX_IP_ENTRIES: usize = 10000;

pub const MAX_OPCODE_ENTRIES: usize = 50000;

/// Keys that one attempt to free a slot looks at.
pub const EVICTION_PROBES: usize = 8;

pub const MAX_COMPRESSED_PER_SEC: u32 = 10;

pub const MAX_COMPRESSED_BYTES_PER_SEC: usize = 65536;

pub const MAX_COMPRESSED_ENTRIES: usize = 10000;

pub const MAX_GLOBAL_COMPRESSED_PER_SEC: u32 = 1000;

pub const MAX_GLOBAL_COMPRESSED_BYTES_PER_SEC: usize = 1048576;

/// One second of the clock, which counts milliseconds and never goes back.
pub const SECOND_MS: u64 = 1000;

/// Counters that were not touched for this long are forgotten.
pub const COUNTER_MEMORY_MS: u64 = 60000;

// ---------------------------------------------------------------------------
// Opcodes
// ---------------------------------------------------------------------------
/// Requests of one kind that a peer may send within a window.
pub open spec fn limit_of(opcode: u8) -> u32 {
    if opcode == 0x01 {
        2
    } else if opcode == 0x11 || opcode == 0x50 || opcode == 0x52 || opcode == 0x53 || opcode
        == 0x60 {
        3
    } else if opcode == 0x21 {
        10
    } else if opcode == 0x43 || opcode == 0x44 || opcode == 0x45 {
        8
    } else {
        DEFAULT_OPCODE_LIMIT
    }
}

pub fn opcode_limit(opcode: u8) -> (r: u32)
    ensures
        r == limit_of(opcode),
{
    match opcode {
        0x01 => 2,
        0x11 => 3,
        0x21 => 10,
        0x33 => 5,
        0x34 => 5,
        0x35 => 5,
        0x43 => 8,
        0x44 => 8,
        0x45 => 8,
        0x50 => 3,
        0x51 => 5,
        0x52 => 3,
        0x53 => 3,
        0x60 => 3,
        _ => DEFAULT_OPCODE_LIMIT,
    }
}

/// Whether an opcode asks for something. Answers are never counted by opcode.
pub open spec fn asks(opcode: u8) -> bool {
    ||| opcode == 0x01
    ||| opcode == 0x08
    ||| opcode == 0x11
    ||| opcode == 0x21
    ||| opcode == 0x33
    ||| opcode == 0x34
    ||| opcode == 0x35
    ||| opcode == 0x43
    ||| opcode == 0x44
    ||| opcode == 0x45
    ||| opcode == 0x50
    ||| opcode == 0x51
    ||| opcode == 0x52
    ||| opcode == 0x53
    ||| opcode == 0x60
}

pub fn is_request_opcode(opcode: u8) -> (r: bool)
    ensures
        r == asks(opcode),
{
    opcode == 0x01 || opcode == 0x08 || opcode == 0x11 || opcode == 0x21 || opcode == 0x33 || opcode
        == 0x34 || opcode == 0x35 || opcode == 0x43 || opcode == 0x44 || opcode == 0x45 || opcode
        == 0x50 || opcode == 0x51 || opcode == 0x52 || opcode == 0x53 || opcode == 0x60
}

// ---------------------------------------------------------------------------
// Windows
// ---------------------------------------------------------------------------
/// What was counted since a point in time.
#[derive(Clone, Copy, Debug, PartialEq, Eq, Structural)]
pub struct Window {
    pub count: u32,
    pub bytes: usize,
    pub start: u64,
}

pub open spec fn sat_usize(n: int) -> usize {
    if n <= usize::MAX {
        n as usize
    } else {
        usize::MAX
    }
}

pub open spec fn sat_inc(n: u32) -> u32 {
    if n == u32::MAX {
        n
    } else {
        (n + 1) as u32
    }
}

/// A window after one more packet: a window that is over starts anew.
pub open spec fn charged(w: Window, bytes: usize, now: u64, length: u64) -> Window {
    if elapsed(w.start, now) >= length {
        Window { count: 1, bytes, start: now }
    } else {
        Window { count: sat_inc(w.count), bytes: sat_usize(w.bytes + bytes), start: w.start }
    }
}

fn charge_window(w: Window, bytes: usize, now: u64, length: u64) -> (r: Window)
    ensures
        r == charged(w, bytes, now, length),
{
    if ms_since(w.start, now) >= length {
        Window { count: 1, bytes, start: now }
    } else {
        Window {
            count: w.count.saturating_add(1),
            bytes: w.bytes.saturating_add(bytes),
            start: w.start,
        }
    }
}

// ---------------------------------------------------------------------------
// Tables of windows
// ---------------------------------------------------------------------------
/// A table of windows with a fixed number of slots, and the order in which
/// they are looked at when one is needed.
#[verifier::reject_recursive_types(K)]
pub struct RateTable<K: MapKey> {
    counters: KeyMap<K, Window>,
    order: VecDeque<K>,
}

#[verifier::reject_recursive_types(K)]
pub struct RateView<K> {
    pub counters: Map<K, Window>,
    pub order: Seq<K>,
}

impl<K: MapKey> View for RateTable<K> {
    type V = RateView<K>;

    closed spec fn view(&self) -> RateView<K> {
        RateView { counters: self.counters@, order: self.order@ }
    }
}

impl<K> RateView<K> {
    /// The order names each key once.
    pub open spec fn wf(self) -> bool {
        &&& self.order.no_duplicates()
        &&& forall|k: K| #[trigger] self.order.contains(k) <==> self.counters.contains_key(k)
        &&& self.counters.dom().finite()
    }

    /// The outcome of looking at up to `n` keys for one whose window is over:
    /// the first such key goes, the others move to the end of the order.
    pub open spec fn evicted(self, n: nat, now: u64, length: u64) -> (RateView<K>, bool)
        decreases n,
    {
        if n == 0 || self.order.len() == 0 {
            (self, false)
        } else {
            let k = self.order[0];
            let rest = self.order.skip(1);
            if !self.counters.contains_key(k) {
                (RateView { order: rest, ..self }).evicted((n - 1) as nat, now, length)
            } else if elapsed(self.counters[k].start, now) >= length {
                (RateView { order: rest, counters: self.counters.remove(k) }, true)
            } else {
                (RateView { order: rest.push(k), ..self }).evicted((n - 1) as nat, now, length)
            }
        }
    }

    /// The table with a slot for a key, and whether there is one.
    pub open spec fn with_slot(self, k: K, now: u64, length: u64, cap: usize) -> (
        RateView<K>,
        bool,
    ) {
        if self.counters.contains_key(k) {
            (self, true)
        } else if self.counters.dom().len() >= cap {
            let (t, freed) = self.evicted(EVICTION_PROBES as nat, now, length);
            if freed {
                (RateView { order: t.order.push(k), ..t }, true)
            } else {
                (t, false)
            }
        } else {
            (RateView { order: self.order.push(k), ..self }, true)
        }
    }

    /// The window of a key; one that starts now where there is none.
    pub open spec fn window(self, k: K, now: u64) -> Window {
        if self.counters.contains_key(k) {
            self.counters[k]
        } else {
            Window { count: 0, bytes: 0, start: now }
        }
    }

    /// The table after one more packet of a key, and the key's window; no
    /// window where there was no slot.
    pub open spec fn after_packet(
        self,
        k: K,
        bytes: usize,
        now: u64,
        length: u64,
        cap: usize,
    ) -> (RateView<K>, Option<Window>) {
        let (t, ok) = self.with_slot(k, now, length, cap);
        if ok {
            let w = charged(t.window(k, now), bytes, now, length);
            (RateView { counters: t.counters.insert(k, w), ..t }, Some(w))
        } else {
            (t, None)
        }
    }

    /// The table without the windows that started too long ago.
    pub open spec fn recent(self, now: u64, memory: u64) -> RateView<K> {
        RateView {
            counters: self.counters.restrict(
                Set::new(
                    |k: K|
                        self.counters.contains_key(k) && elapsed(self.counters[k].start, now)
                            < memory,
                ),
            ),
            order: self.order.filter(
                |k: K|
                    self.counters.contains_key(k) && elapsed(self.counters[k].start, now) < memory,
            ),
        }
    }
}

proof fn lemma_rotate<K>(s: Seq<K>)
    requires
        s.no_duplicates(),
        s.len() > 0,
    ensures
        s.skip(1).push(s[0]).no_duplicates(),
        forall|k: K| #[trigger] s.skip(1).push(s[0]).contains(k) <==> s.contains(k),
        s.skip(1).no_duplicates(),
        forall|k: K| #[trigger] s.skip(1).contains(k) <==> s.contains(k) && k != s[0],
{
    let r = s.skip(1);
    let t = r.push(s[0]);
    assert forall|k: K| #[trigger] r.contains(k) <==> s.contains(k) && k != s[0] by {
        if r.contains(k) {
            let i = choose|i: int| 0 <= i < r.len() && r[i] == k;
            assert(s[i + 1] == k);
        }
        if s.contains(k) && k != s[0] {
            let i = choose|i: int| 0 <= i < s.len() && s[i] == k;
            assert(r[i - 1] == k);
        }
    }
    assert forall|k: K| #[trigger] t.contains(k) <==> s.contains(k) by {
        if t.contains(k) {
            let i = choose|i: int| 0 <= i < t.len() && t[i] == k;
            if i < r.len() {
                assert(r[i] == k);
                assert(r.contains(k));
            } else {
                assert(s[0] == k);
            }
        }
        if s.contains(k) {
            if k == s[0] {
                assert(t[r.len() as int] == k);
            } else {
                assert(r.contains(k));
                let i = choose|i: int| 0 <= i < r.len() && r[i] == k;
                assert(t[i] == k);
            }
        }
    }
    assert forall|i: int, j: int| 0 <= i < t.len() && 0 <= j < t.len() && i != j implies t[i]
        != t[j] by {
        let a = if i < r.len() {
            i + 1
        } else {
            0
        };
        let b = if j < r.len() {
            j + 1
        } else {
            0
        };
        assert(t[i] == s[a] && t[j] == s[b]);
    }
}

/// Looking for a slot keeps the table in order; only a window that is over
/// goes, and all others stay as they are.
pub proof fn lemma_evicted<K>(t: RateView<K>, n: nat, now: u64, length: u64)
    requires
        t.wf(),
    ensures
        ({
            let (u, freed) = t.evicted(n, now, length);
            &&& u.wf()
            &&& u.counters.submap_of(t.counters)
            &&& forall|k: K| #[trigger]
                t.counters.contains_key(k) && elapsed(t.counters[k].start, now) < length
                    ==> u.counters.contains_key(k)
            &&& freed ==> u.counters.dom().len() + 1 == t.counters.dom().len()
            &&& !freed ==> u.counters == t.counters
        }),
    decreases n,
{
    if n > 0 && t.order.len() > 0 {
        let k = t.order[0];
        lemma_rotate(t.order);
        assert(t.order.contains(k));
        if elapsed(t.counters[k].start, now) >= length {
            let u = RateView { order: t.order.skip(1), counters: t.counters.remove(k) };
            assert(u.counters.dom() =~= t.counters.dom().remove(k));
        } else {
            let u = RateView { order: t.order.skip(1).push(k), ..t };
            assert(u.wf());
            lemma_evicted(u, (n - 1) as nat, now, length);
        }
    }
}

proof fn lemma_push_key<K>(t: RateView<K>, k: K, w: Window)
    requires
        t.wf(),
        !t.counters.contains_key(k),
    ensures
        (RateView { order: t.order.push(k), counters: t.counters.insert(k, w) }).wf(),
{
    let u = RateView { order: t.order.push(k), counters: t.counters.insert(k, w) };
    assert forall|q: K| #[trigger] u.order.contains(q) <==> u.counters.contains_key(q) by {
        if u.order.contains(q) {
            let i = choose|i: int| 0 <= i < u.order.len() && u.order[i] == q;
            if i < t.order.len() {
                assert(t.order[i] == q);
                assert(t.order.contains(q));
            }
        }
        if u.counters.contains_key(q) {
            if q == k {
                assert(u.order[t.order.len() as int] == q);
            } else {
                assert(t.order.contains(q));
                let i = choose|i: int| 0 <= i < t.order.len() && t.order[i] == q;
                assert(u.order[i] == q);
            }
        }
    }
    assert(!t.order.contains(k));
    assert(u.order.no_duplicates());
}

/// A packet keeps the table in order and within its slots, and leaves every
/// other window that is not over as it is.
pub proof fn lemma_after_packet<K>(
    t: RateView<K>,
    k: K,
    bytes: usize,
    now: u64,
    length: u64,
    cap: usize,
)
    requires
        t.wf(),
    ensures
        ({
            let (u, w) = t.after_packet(k, bytes, now, length, cap);
            &&& u.wf()
            &&& t.counters.dom().len() <= cap && cap > 0 ==> u.counters.dom().len() <= cap
            &&& forall|q: K| #[trigger]
                t.counters.contains_key(q) && q != k && elapsed(t.counters[q].start, now) < length
                    ==> u.counters.contains_key(q) && u.counters[q] == t.counters[q]
            &&& w is None ==> u.counters == t.counters
        }),
{
    let (u, w) = t.after_packet(k, bytes, now, length, cap);
    if t.counters.contains_key(k) {
        assert(u.counters.dom() =~= t.counters.dom());
    } else if t.counters.dom().len() >= cap {
        lemma_evicted(t, EVICTION_PROBES as nat, now, length);
        let (x, freed) = t.evicted(EVICTION_PROBES as nat, now, length);
        if freed {
            lemma_push_key(x, k, w->Some_0);
            assert(u.counters.dom() =~= x.counters.dom().insert(k));
        }
    } else {
        lemma_push_key(t, k, w->Some_0);
        assert(u.counters.dom() =~= t.counters.dom().insert(k));
    }
}

impl<K: MapKey> RateTable<K> {
    pub fn new() -> (r: RateTable<K>)
        ensures
            r@ == (RateView::<K> { counters: Map::empty(), order: Seq::<K>::empty() }),
            r@.wf(),
    {
        let r = RateTable { counters: KeyMap::new(), order: VecDeque::new() };
        assert(r@.order =~= Seq::empty());
        r
    }

    pub fn len(&self) -> (n: usize)
        ensures
            n == self@.counters.dom().len(),
    {
        self.counters.len()
    }

    fn pop(&mut self) -> (k: K)
        requires
            old(self)@.order.len() > 0,
        ensures
            k == old(self)@.order[0],
            final(self)@ == (RateView { order: old(self)@.order.skip(1), ..old(self)@ }),
    {
        let ghost o = self.order@;
        let k = self.order.pop_front().unwrap();
        assert(self.order@ =~= o.skip(1));
        k
    }

    /// Frees a slot whose window is over, looking at a few keys at most. A
    /// window that is not over is never freed: its owner would start anew.
    fn evict_idle(&mut self, now: u64, length: u64) -> (freed: bool)
        ensures
            (final(self)@, freed) == old(self)@.evicted(EVICTION_PROBES as nat, now, length),
    {
        let ghost v = self@;
        let mut n: usize = EVICTION_PROBES;
        while n > 0
            invariant
                n <= EVICTION_PROBES,
                v == old(self)@,
                self@.evicted(n as nat, now, length) == v.evicted(
                    EVICTION_PROBES as nat,
                    now,
                    length,
                ),
            decreases n,
        {
            if self.order.len() == 0 {
                return false;
            }
            let k = self.pop();
            let current: Option<Window> = match self.counters.get(&k) {
                Some(w) => Some(*w),
                None => None,
            };
            match current {
                Some(w) => {
                    if ms_since(w.start, now) >= length {
                        self.counters.remove(&k);
                        return true;
                    }
                    self.order.push_back(k);
                },
                None => {},
            }
            n = n - 1;
        }
        false
    }

    /// Counts one more packet of a key. `None` means that there is no slot
    /// for the key, so the packet must be dropped.
    fn charge(&mut self, k: K, bytes: usize, now: u64, length: u64, cap: usize) -> (w: Option<
        Window,
    >)
        requires
            old(self)@.wf(),
            old(self)@.counters.dom().len() <= cap,
            0 < cap < 0xFFFF_FFFF,
        ensures
            (final(self)@, w) == old(self)@.after_packet(k, bytes, now, length, cap),
            final(self)@.wf(),
            final(self)@.counters.dom().len() <= cap,
    {
        let ghost v = self@;
        proof {
            lemma_after_packet(v, k, bytes, now, length, cap);
            lemma_evicted(v, EVICTION_PROBES as nat, now, length);
        }
        if !self.counters.contains_key(&k) {
            if self.counters.len() >= cap {
                if !self.evict_idle(now, length) {
                    return None;
                }
            }
            self.order.push_back(k);
        }
        let before: Window = match self.counters.get(&k) {
            Some(w) => *w,
            None => Window { count: 0, bytes: 0, start: now },
        };
        let w = charge_window(before, bytes, now, length);
        self.counters.insert(k, w);
        Some(w)
    }

    /// Forgets the windows that started too long ago.
    fn forget_old(&mut self, now: u64, memory: u64)
        requires
            old(self)@.wf(),
        ensures
            final(self)@ == old(self)@.recent(now, memory),
            final(self)@.wf(),
            final(self)@.counters.dom().len() <= old(self)@.counters.dom().len(),
    {
        let ghost v = self@;
        let ghost young = |k: K|
            v.counters.contains_key(k) && elapsed(v.counters[k].start, now) < memory;
        let mut kept: VecDeque<K> = VecDeque::new();
        let mut i: usize = 0;
        proof {
            reveal(Seq::filter);
            assert(v.order.take(0).filter(young) =~= Seq::empty());
            assert(v.order.skip(0) =~= v.order);
            assert forall|k: K| #[trigger] v.counters.contains_key(k) implies v.order.contains(
                k,
            ) by {}
        }
        while i < self.order.len()
            invariant
                i <= v.order.len(),
                self.order@ == v.order,
                v == old(self)@,
                v.wf(),
                young == (|k: K|
                    v.counters.contains_key(k) && elapsed(v.counters[k].start, now) < memory),
                kept@ == v.order.take(i as int).filter(young),
                self.counters@.submap_of(v.counters),
                forall|k: K| #[trigger]
                    self.counters@.contains_key(k) <==> v.counters.contains_key(k) && (young(k)
                        || v.order.skip(i as int).contains(k)),
            decreases v.order.len() - i,
        {
            let k = self.order[i];
            proof {
                reveal(Seq::filter);
                assert(v.order.take(i as int + 1).drop_last() =~= v.order.take(i as int));
                assert(v.order.contains(k));
                assert(v.order.skip(i as int)[0] == k);
                assert(v.order.skip(i as int).contains(k));
                lemma_skip_contains(v.order, i as int);
            }
            let fresh = match self.counters.get(&k) {
                Some(w) => ms_since(w.start, now) < memory,
                None => false,
            };
            if fresh {
                kept.push_back(k);
            } else {
                self.counters.remove(&k);
            }
            i = i + 1;
        }
        assert(v.order.take(i as int) =~= v.order);
        self.order = kept;
        proof {
            assert(self@.counters =~= v.recent(now, memory).counters);
            lemma_recent(v, now, memory);
        }
    }
}

proof fn lemma_skip_contains<K>(s: Seq<K>, i: int)
    requires
        0 <= i < s.len(),
        s.no_duplicates(),
    ensures
        forall|k: K| #[trigger] s.skip(i + 1).contains(k) <==> s.skip(i).contains(k) && k != s[i],
{
    let a = s.skip(i);
    let b = s.skip(i + 1);
    assert forall|k: K| #[trigger] b.contains(k) <==> a.contains(k) && k != s[i] by {
        if b.contains(k) {
            let j = choose|j: int| 0 <= j < b.len() && b[j] == k;
            assert(a[j + 1] == k);
            assert(s[i + 1 + j] == k);
        }
        if a.contains(k) && k != s[i] {
            let j = choose|j: int| 0 <= j < a.len() && a[j] == k;
            assert(s[i + j] == k);
            assert(b[j - 1] == k);
        }
    }
}

/// Forgetting keeps a table in order.
pub proof fn lemma_recent<K>(t: RateView<K>, now: u64, memory: u64)
    requires
        t.wf(),
    ensures
        t.recent(now, memory).wf(),
        t.recent(now, memory).counters.dom().len() <= t.counters.dom().len(),
{
    let young = |k: K| t.counters.contains_key(k) && elapsed(t.counters[k].start, now) < memory;
    let u = t.recent(now, memory);
    assert(u.order == t.order.filter(young));
    lemma_filter_keys(t.order, young);
    assert forall|k: K| #[trigger] u.order.contains(k) <==> u.counters.contains_key(k) by {
        assert(t.order.contains(k) <==> t.counters.contains_key(k));
    }
    assert(u.counters.dom().subset_of(t.counters.dom()));
    vstd::set_lib::lemma_len_subset(u.counters.dom(), t.counters.dom());
}

proof fn lemma_filter_keys<K>(s: Seq<K>, f: spec_fn(K) -> bool)
    requires
        s.no_duplicates(),
    ensures
        s.filter(f).no_duplicates(),
        forall|k: K| #[trigger] s.filter(f).contains(k) <==> s.contains(k) && f(k),
    decreases s.len(),
{
    reveal(Seq::filter);
    if s.len() > 0 {
        let t = s.drop_last();
        let x = s.last();
        assert(t.no_duplicates());
        lemma_filter_keys(t, f);
        let g = t.filter(f);
        let h = s.filter(f);
        assert(h == if f(x) {
            g.push(x)
        } else {
            g
        });
        assert(!t.contains(x)) by {
            if t.contains(x) {
                let i = choose|i: int| 0 <= i < t.len() && t[i] == x;
                assert(s[i] == s[s.len() - 1]);
            }
        }
        assert(!g.contains(x));
        assert forall|k: K| #[trigger] h.contains(k) <==> s.contains(k) && f(k) by {
            if h.contains(k) {
                let i = choose|i: int| 0 <= i < h.len() && h[i] == k;
                if i < g.len() {
                    assert(g[i] == k);
                    assert(g.contains(k));
                    let j = choose|j: int| 0 <= j < t.len() && t[j] == k;
                    assert(s[j] == k);
                } else {
                    assert(s[s.len() - 1] == k);
                }
            }
            if s.contains(k) && f(k) {
                let i = choose|i: int| 0 <= i < s.len() && s[i] == k;
                if i < t.len() {
                    assert(t[i] == k);
                    assert(g.contains(k));
                    let j = choose|j: int| 0 <= j < g.len() && g[j] == k;
                    assert(h[j] == k);
                } else {
                    assert(h[h.len() - 1] == k);
                }
            }
        }
    }
}

// ---------------------------------------------------------------------------
// Flood protection
// ---------------------------------------------------------------------------
/// Counters of what peers send, and the requests that wait for answers.
pub struct FloodProtection {
    ip_counters: RateTable<IpAddr>,
    opcode_counters: RateTable<IpOp>,
    outgoing_counters: RateTable<IpAddr>,
    compressed_counters: RateTable<IpAddr>,
    global_compressed: Window,
    outgoing_requests: KeyMap<IpOp, u32>,
    search_response_budgets: KeyMap<IpOp, u32>,
    request_times: KeyMap<IpOp, u64>,
    recent_ips: KeyMap<IpAddr, u64>,
}

pub struct FloodView {
    /// Packets by address, within a second.
    pub ip: RateView<IpAddr>,
    /// Requests by address and opcode, within fifteen seconds.
    pub opcode: RateView<IpOp>,
    /// Packets that we sent, by address, within a second.
    pub outgoing: RateView<IpAddr>,
    /// Compressed packets by address, within a second.
    pub compressed: RateView<IpAddr>,
    /// Compressed packets of all, within a second.
    pub global: Window,
    /// Requests that wait for an answer, by address and opcode.
    pub requests: Map<IpOp, u32>,
    /// Packets of search results that are still admitted.
    pub budgets: Map<IpOp, u32>,
    /// When the last request was sent.
    pub times: Map<IpOp, u64>,
    /// When we last sent a request to an address.
    pub recent: Map<IpAddr, u64>,
}

impl View for FloodProtection {
    type V = FloodView;

    closed spec fn view(&self) -> FloodView {
        FloodView {
            ip: self.ip_counters@,
            opcode: self.opcode_counters@,
            outgoing: self.outgoing_counters@,
            compressed: self.compressed_counters@,
            global: self.global_compressed,
            requests: self.outgoing_requests@,
            budgets: self.search_response_budgets@,
            times: self.request_times@,
            recent: self.recent_ips@,
        }
    }
}

/// The number of a key; zero where it has none.
pub open spec fn number_of(m: Map<IpOp, u32>, k: IpOp) -> u32 {
    if m.contains_key(k) {
        m[k]
    } else {
        0
    }
}

pub open spec fn sat_plus(n: u32, d: u32) -> u32 {
    if n + d > u32::MAX {
        u32::MAX
    } else {
        (n + d) as u32
    }
}

pub open spec fn is_search(opcode: u8) -> bool {
    opcode == 0x33 || opcode == 0x34 || opcode == 0x35
}

/// The request that an answer belongs to, where that is one.
pub open spec fn request_for(response: u8) -> Option<u8> {
    if response == 0x09 {
        Some(0x01)
    } else if response == 0x19 {
        Some(0x11)
    } else if response == 0x22 {
        Some(0x19)
    } else if response == 0x29 {
        Some(0x21)
    } else if response == 0x3B {
        Some(0x33)
    } else if response == 0x4B {
        Some(0x43)
    } else if response == 0x4C {
        Some(0x4B)
    } else if response == 0x5A {
        Some(0x51)
    } else if response == 0x61 {
        Some(0x60)
    } else if response == 0x58 {
        Some(0x50)
    } else {
        None
    }
}

impl FloodView {
    pub open spec fn wf(self) -> bool {
        &&& self.ip.wf() && self.ip.counters.dom().len() <= MAX_IP_ENTRIES
        &&& self.opcode.wf() && self.opcode.counters.dom().len() <= MAX_OPCODE_ENTRIES
        &&& self.outgoing.wf() && self.outgoing.counters.dom().len() <= MAX_IP_ENTRIES
        &&& self.compressed.wf() && self.compressed.counters.dom().len() <= MAX_COMPRESSED_ENTRIES
    }

    /// Whether a peer owes us an answer that may come compressed.
    pub open spec fn owes_packed(self, ip: IpAddr) -> bool {
        ||| self.requests.contains_key(IpOp { ip, op: 0x01 })
        ||| self.requests.contains_key(IpOp { ip, op: 0x21 })
        ||| self.requests.contains_key(IpOp { ip, op: 0x33 })
        ||| self.requests.contains_key(IpOp { ip, op: 0x34 })
        ||| self.requests.contains_key(IpOp { ip, op: 0x35 })
    }

    /// What a compressed packet does: a peer over its own budget is refused
    /// before the budget of all is charged; once that one is spent, only peers
    /// that owe us an answer get through.
    pub open spec fn after_compressed(self, ip: IpAddr, bytes: usize, now: u64) -> (
        FloodView,
        bool,
    ) {
        let (t, w) = self.compressed.after_packet(
            ip,
            bytes,
            now,
            SECOND_MS,
            MAX_COMPRESSED_ENTRIES,
        );
        let v = FloodView { compressed: t, ..self };
        match w {
            None => (v, true),
            Some(w) => if w.count > MAX_COMPRESSED_PER_SEC || w.bytes
                > MAX_COMPRESSED_BYTES_PER_SEC {
                (v, true)
            } else {
                let g = charged(self.global, bytes, now, SECOND_MS);
                (
                    FloodView { global: g, ..v },
                    (g.count > MAX_GLOBAL_COMPRESSED_PER_SEC || g.bytes
                        > MAX_GLOBAL_COMPRESSED_BYTES_PER_SEC) && !self.owes_packed(ip),
                )
            },
        }
    }

    /// What a request does to the counters by opcode, and whether it is too much.
    pub open spec fn after_request(self, ip: IpAddr, known: bool, opcode: u8, now: u64) -> (
        FloodView,
        bool,
    ) {
        if !asks(opcode) {
            (self, false)
        } else {
            let (t, w) = self.opcode.after_packet(
                IpOp { ip, op: opcode },
                0,
                now,
                OPCODE_WINDOW_MS,
                MAX_OPCODE_ENTRIES,
            );
            (
                FloodView { opcode: t, ..self },
                match w {
                    None => true,
                    Some(w) => w.count > if known {
                        2 * limit_of(opcode)
                    } else {
                        limit_of(opcode) as int
                    },
                },
            )
        }
    }

    /// What a packet does to the counters, and whether it is too much.
    pub open spec fn after_packet(self, ip: IpAddr, known: bool, opcode: u8, now: u64) -> (
        FloodView,
        bool,
    ) {
        let (v, over) = self.after_request(ip, known, opcode, now);
        if over {
            (v, true)
        } else {
            let (t, w) = v.ip.after_packet(ip, 0, now, SECOND_MS, MAX_IP_ENTRIES);
            (
                FloodView { ip: t, ..v },
                match w {
                    None => true,
                    Some(w) => w.count > if known {
                        MAX_PACKETS_PER_SEC_KNOWN
                    } else {
                        MAX_PACKETS_PER_SEC_UNKNOWN
                    },
                },
            )
        }
    }

    /// What a packet of ours does to the counters, and whether it is too much.
    pub open spec fn after_outgoing(self, ip: IpAddr, now: u64) -> (FloodView, bool) {
        let (t, w) = self.outgoing.after_packet(ip, 0, now, SECOND_MS, MAX_IP_ENTRIES);
        (
            FloodView { outgoing: t, ..self },
            match w {
                None => true,
                Some(w) => w.count > MAX_OUTGOING_PER_IP_PER_SEC,
            },
        )
    }

    /// One more request that waits for an answer.
    pub open spec fn awaiting(self, ip: IpAddr, opcode: u8, now: u64) -> FloodView {
        let k = IpOp { ip, op: opcode };
        FloodView {
            requests: put(self.requests, k, sat_plus(number_of(self.requests, k), 1)),
            budgets: if is_search(opcode) {
                put(
                    self.budgets,
                    k,
                    sat_plus(number_of(self.budgets, k), SEARCH_RES_BUDGET_PER_REQUEST),
                )
            } else {
                self.budgets
            },
            times: put(self.times, k, now),
            recent: put(self.recent, ip, now),
            ..self
        }
    }

    /// All that is known of a kind of request is forgotten.
    pub open spec fn dropped(self, k: IpOp) -> FloodView {
        FloodView {
            requests: self.requests.remove(k),
            budgets: self.budgets.remove(k),
            times: self.times.remove(k),
            ..self
        }
    }

    /// One request less, if one waits.
    pub open spec fn consumed(self, k: IpOp) -> (FloodView, bool) {
        if number_of(self.requests, k) == 0 {
            (self, false)
        } else if self.requests[k] == 1 {
            (self.dropped(k), true)
        } else {
            (
                FloodView {
                    requests: self.requests.insert(k, (self.requests[k] - 1) as u32),
                    ..self
                },
                true,
            )
        }
    }

    /// One packet of search results less, if one is admitted.
    pub open spec fn budget_spent(self, k: IpOp) -> (FloodView, bool) {
        if number_of(self.budgets, k) == 0 {
            (self, false)
        } else if self.budgets[k] == 1 {
            (self.dropped(k), true)
        } else {
            (
                FloodView { budgets: self.budgets.insert(k, (self.budgets[k] - 1) as u32), ..self },
                true,
            )
        }
    }

    /// Of three kinds of publish, the one whose last request is the oldest.
    pub open spec fn oldest_publish(self, ip: IpAddr) -> Option<u8> {
        let (a, b, c) = (
            IpOp { ip, op: 0x43 },
            IpOp { ip, op: 0x44 },
            IpOp { ip, op: 0x45 },
        );
        let (ha, hb, hc) = (
            self.times.contains_key(a),
            self.times.contains_key(b),
            self.times.contains_key(c),
        );
        if ha && (hb ==> self.times[a] <= self.times[b]) && (hc ==> self.times[a]
            <= self.times[c]) {
            Some(0x43)
        } else if hb && (hc ==> self.times[b] <= self.times[c]) {
            Some(0x44)
        } else if hc {
            Some(0x45)
        } else {
            None
        }
    }

    /// What an answer does, and whether it was asked for.
    pub open spec fn after_response(self, ip: IpAddr, response: u8) -> (FloodView, bool) {
        match request_for(response) {
            None => (self, false),
            Some(op) => if response == 0x3B {
                let (a, b, c) = (
                    self.budget_spent(IpOp { ip, op: 0x33 }),
                    self.budget_spent(IpOp { ip, op: 0x34 }),
                    self.budget_spent(IpOp { ip, op: 0x35 }),
                );
                if a.1 {
                    a
                } else if b.1 {
                    b
                } else {
                    c
                }
            } else if response == 0x4B {
                match self.oldest_publish(ip) {
                    Some(op) => self.consumed(IpOp { ip, op }),
                    None => (self, false),
                }
            } else {
                let a = self.consumed(IpOp { ip, op });
                if !a.1 && response == 0x58 {
                    self.consumed(IpOp { ip, op: 0x53 })
                } else {
                    a
                }
            },
        }
    }

    /// A kind of request whose last one was sent too long ago.
    pub open spec fn is_overdue(self, k: IpOp, now: u64) -> bool {
        self.times.contains_key(k) && elapsed(self.times[k], now) / 1000 > TRACKER_EXPIRY_SECS
    }

    pub open spec fn overdue(self, now: u64) -> Set<IpOp> {
        Set::new(|k: IpOp| self.is_overdue(k, now))
    }

    pub open spec fn long_ago(self, now: u64) -> Set<IpAddr> {
        Set::new(
            |k: IpAddr|
                self.recent.contains_key(k) && elapsed(self.recent[k], now) >= 1000
                    * TRACKER_EXPIRY_SECS,
        )
    }

    /// What is left after a cleaning.
    pub open spec fn cleaned(self, now: u64) -> FloodView {
        FloodView {
            ip: self.ip.recent(now, COUNTER_MEMORY_MS),
            opcode: self.opcode.recent(now, (2 * OPCODE_WINDOW_MS) as u64),
            outgoing: self.outgoing.recent(now, COUNTER_MEMORY_MS),
            compressed: self.compressed.recent(now, COUNTER_MEMORY_MS),
            global: self.global,
            requests: self.requests.remove_keys(self.overdue(now)),
            budgets: self.budgets.remove_keys(self.overdue(now)),
            times: self.times.remove_keys(self.overdue(now)),
            recent: self.recent.remove_keys(self.long_ago(now)),
        }
    }
}

fn get_number(m: &KeyMap<IpOp, u32>, k: &IpOp) -> (n: u32)
    ensures
        n == number_of(m@, *k),
{
    match m.get(k) {
        Some(n) => *n,
        None => 0,
    }
}

fn remove_all<K: MapKey, V>(m: &mut KeyMap<K, V>, ks: &Vec<K>)
    ensures
        final(m)@ == old(m)@.remove_keys(ks@.to_set()),
{
    let ghost m0 = m@;
    let mut i: usize = 0;
    assert(m0.remove_keys(ks@.take(0).to_set()) =~= m0);
    while i < ks.len()
        invariant
            i <= ks@.len(),
            m@ == m0.remove_keys(ks@.take(i as int).to_set()),
        decreases ks@.len() - i,
    {
        m.remove(&ks[i]);
        proof {
            let a = ks@.take(i as int);
            let b = ks@.take(i as int + 1);
            assert(b =~= a.push(ks@[i as int]));
            assert forall|k: K| b.to_set().contains(k) <==> a.to_set().contains(k) || k
                == ks@[i as int] by {
                if b.contains(k) {
                    let j = choose|j: int| 0 <= j < b.len() && b[j] == k;
                    if j < a.len() {
                        assert(a[j] == k);
                    }
                }
                if a.contains(k) {
                    let j = choose|j: int| 0 <= j < a.len() && a[j] == k;
                    assert(b[j] == k);
                }
                assert(b[i as int] == ks@[i as int]);
            }
            assert(m@ =~= m0.remove_keys(b.to_set()));
        }
        i = i + 1;
    }
    assert(ks@.take(i as int) =~= ks@);
}

/// The keys whose time was at least `age` before `now`.
fn keys_older<K: MapKey>(m: &KeyMap<K, u64>, now: u64, age: u64) -> (r: Vec<K>)
    ensures
        forall|k: K| #[trigger]
            r@.contains(k) <==> m@.contains_key(k) && elapsed(m@[k], now) >= age,
{
    let all = m.keys();
    let mut out: Vec<K> = Vec::new();
    let mut i: usize = 0;
    while i < all.len()
        invariant
            i <= all@.len(),
            forall|k: K| #[trigger] all@.contains(k) <==> m@.contains_key(k),
            forall|k: K| #[trigger]
                out@.contains(k) <==> all@.take(i as int).contains(k) && elapsed(m@[k], now)
                    >= age,
        decreases all@.len() - i,
    {
        let k = all[i];
        let ghost before = out@;
        let old = match m.get(&k) {
            Some(t) => ms_since(*t, now) >= age,
            None => false,
        };
        if old {
            out.push(k);
        }
        proof {
            assert(all@.contains(k));
            let a = all@.take(i as int);
            let b = all@.take(i as int + 1);
            assert forall|q: K| #[trigger] out@.contains(q) <==> b.contains(q) && elapsed(
                m@[q],
                now,
            ) >= age by {
                assert(before.contains(q) <==> a.contains(q) && elapsed(m@[q], now) >= age);
                if out@.contains(q) {
                    let j = choose|j: int| 0 <= j < out@.len() && out@[j] == q;
                    if j < before.len() {
                        assert(before[j] == q);
                        let c = choose|c: int| 0 <= c < a.len() && a[c] == q;
                        assert(b[c] == q);
                    } else {
                        assert(b[i as int] == q);
                    }
                }
                if b.contains(q) && elapsed(m@[q], now) >= age {
                    let c = choose|c: int| 0 <= c < b.len() && b[c] == q;
                    if c < i {
                        assert(a[c] == q);
                        let j = choose|j: int| 0 <= j < before.len() && before[j] == q;
                        assert(out@[j] == q);
                    } else {
                        assert(out@[out@.len() - 1] == q);
                    }
                }
            }
        }
        i = i + 1;
    }
    assert(all@.take(i as int) =~= all@);
    out
}

impl FloodProtection {
    /// Nothing counted yet, at the time `now` in milliseconds.
    pub fn new(now: u64) -> (r: FloodProtection)
        ensures
            r@ == (FloodView {
                ip: RateView { counters: Map::empty(), order: Seq::<IpAddr>::empty() },
                opcode: RateView { counters: Map::empty(), order: Seq::<IpOp>::empty() },
                outgoing: RateView { counters: Map::empty(), order: Seq::<IpAddr>::empty() },
                compressed: RateView { counters: Map::empty(), order: Seq::<IpAddr>::empty() },
                global: Window { count: 0, bytes: 0, start: now },
                requests: Map::empty(),
                budgets: Map::empty(),
                times: Map::empty(),
                recent: Map::empty(),
            }),
            r@.wf(),
    {
        FloodProtection {
            ip_counters: RateTable::new(),
            opcode_counters: RateTable::new(),
            outgoing_counters: RateTable::new(),
            compressed_counters: RateTable::new(),
            global_compressed: Window { count: 0, bytes: 0, start: now },
            outgoing_requests: KeyMap::new(),
            search_response_budgets: KeyMap::new(),
            request_times: KeyMap::new(),
            recent_ips: KeyMap::new(),
        }
    }

    /// How many kinds of requests are counted.
    pub fn opcode_entries(&self) -> (n: usize)
        ensures
            n == self@.opcode.counters.dom().len(),
    {
        self.opcode_counters.len()
    }

    fn owes_packed_answer(&self, ip: IpAddr) -> (r: bool)
        ensures
            r == self@.owes_packed(ip),
    {
        self.outgoing_requests.contains_key(&IpOp { ip, op: 0x01 })
            || self.outgoing_requests.contains_key(&IpOp { ip, op: 0x21 })
            || self.outgoing_requests.contains_key(&IpOp { ip, op: 0x33 })
            || self.outgoing_requests.contains_key(&IpOp { ip, op: 0x34 })
            || self.outgoing_requests.contains_key(&IpOp { ip, op: 0x35 })
    }

    /// Counts a compressed packet. True means that it must not be inflated.
    pub fn over_compressed_budget(&mut self, ip: IpAddr, wire_bytes: usize, now: u64) -> (over:
        bool)
        requires
            old(self)@.wf(),
        ensures
            (final(self)@, over) == old(self)@.after_compressed(ip, wire_bytes, now),
            final(self)@.wf(),
    {
        let w: Window = match self.compressed_counters.charge(
            ip,
            wire_bytes,
            now,
            SECOND_MS,
            MAX_COMPRESSED_ENTRIES,
        ) {
            Some(w) => w,
            None => {
                return true;
            },
        };
        if w.count > MAX_COMPRESSED_PER_SEC || w.bytes > MAX_COMPRESSED_BYTES_PER_SEC {
            return true;
        }
        self.global_compressed = charge_window(self.global_compressed, wire_bytes, now, SECOND_MS);
        if self.global_compressed.count <= MAX_GLOBAL_COMPRESSED_PER_SEC
            && self.global_compressed.bytes <= MAX_GLOBAL_COMPRESSED_BYTES_PER_SEC {
            return false;
        }
        !self.owes_packed_answer(ip)
    }

    /// Counts a request by its opcode. True means that it must be dropped.
    pub fn check_opcode_limit(&mut self, ip: IpAddr, known_peer: bool, opcode: u8, now: u64) -> (
    over: bool)
        requires
            old(self)@.wf(),
        ensures
            (final(self)@, over) == old(self)@.after_request(ip, known_peer, opcode, now),
            final(self)@.wf(),
    {
        if !is_request_opcode(opcode) {
            return false;
        }
        match self.opcode_counters.charge(
            IpOp { ip, op: opcode },
            0,
            now,
            OPCODE_WINDOW_MS,
            MAX_OPCODE_ENTRIES,
        ) {
            None => true,
            Some(w) => {
                let limit: u32 = opcode_limit(opcode);
                let effective: u32 = if known_peer {
                    2 * limit
                } else {
                    limit
                };
                w.count > effective
            },
        }
    }

    /// Counts a request whose opcode only decryption showed. True means that
    /// it must be dropped.
    pub fn recheck_opcode_limit_post_decrypt(
        &mut self,
        ip: IpAddr,
        known_peer: bool,
        real_opcode: u8,
        now: u64,
    ) -> (over: bool)
        requires
            old(self)@.wf(),
        ensures
            (final(self)@, over) == old(self)@.after_request(ip, known_peer, real_opcode, now),
            final(self)@.wf(),
    {
        self.check_opcode_limit(ip, known_peer, real_opcode, now)
    }

    /// Counts a packet, by its opcode where that can be seen and by its
    /// address. True means that it must be dropped.
    pub fn check_rate_limit_with_opcode(
        &mut self,
        ip: IpAddr,
        known_peer: bool,
        opcode: u8,
        now: u64,
    ) -> (over: bool)
        requires
            old(self)@.wf(),
        ensures
            (final(self)@, over) == old(self)@.after_packet(ip, known_peer, opcode, now),
            final(self)@.wf(),
    {
        if self.check_opcode_limit(ip, known_peer, opcode, now) {
            return true;
        }
        let max_packets: u32 = if known_peer {
            MAX_PACKETS_PER_SEC_KNOWN
        } else {
            MAX_PACKETS_PER_SEC_UNKNOWN
        };
        match self.ip_counters.charge(ip, 0, now, SECOND_MS, MAX_IP_ENTRIES) {
            None => true,
            Some(w) => w.count > max_packets,
        }
    }

    /// Whether a packet comes from the port of a name server.
    pub fn is_dns_port(addr: &SocketAddr) -> (r: bool)
        ensures
            r == (addr.port == 53),
    {
        addr.port == 53
    }

    /// Counts a packet of ours. True means that it must wait.
    pub fn check_outgoing_rate(&mut self, ip: IpAddr, now: u64) -> (over: bool)
        requires
            old(self)@.wf(),
        ensures
            (final(self)@, over) == old(self)@.after_outgoing(ip, now),
            final(self)@.wf(),
    {
        match self.outgoing_counters.charge(ip, 0, now, SECOND_MS, MAX_IP_ENTRIES) {
            None => true,
            Some(w) => w.count > MAX_OUTGOING_PER_IP_PER_SEC,
        }
    }

    /// Notes a request of ours, so that its answer is known for one. The port
    /// does not matter: peers may answer from another.
    pub fn track_request(&mut self, addr: SocketAddr, opcode: u8, now: u64)
        requires
            old(self)@.wf(),
        ensures
            final(self)@ == old(self)@.awaiting(addr.ip, opcode, now),
            final(self)@.wf(),
    {
        let key = IpOp { ip: addr.ip, op: opcode };
        let n: u32 = get_number(&self.outgoing_requests, &key);
        self.outgoing_requests.insert(key, n.saturating_add(1));
        if opcode == 0x33 || opcode == 0x34 || opcode == 0x35 {
            let b: u32 = get_number(&self.search_response_budgets, &key);
            self.search_response_budgets.insert(
                key,
                b.saturating_add(SEARCH_RES_BUDGET_PER_REQUEST),
            );
        }
        self.request_times.insert(key, now);
        self.recent_ips.insert(addr.ip, now);
    }

    fn drop_request(&mut self, key: &IpOp)
        ensures
            final(self)@ == old(self)@.dropped(*key),
    {
        self.outgoing_requests.remove(key);
        self.search_response_budgets.remove(key);
        self.request_times.remove(key);
    }

    fn consume_outgoing(&mut self, key: &IpOp) -> (found: bool)
        ensures
            (final(self)@, found) == old(self)@.consumed(*key),
    {
        let n: u32 = get_number(&self.outgoing_requests, key);
        if n == 0 {
            return false;
        }
        if n == 1 {
            self.drop_request(key);
        } else {
            self.outgoing_requests.insert(*key, n - 1);
        }
        true
    }

    fn spend_budget(&mut self, key: &IpOp) -> (found: bool)
        ensures
            (final(self)@, found) == old(self)@.budget_spent(*key),
    {
        let n: u32 = get_number(&self.search_response_budgets, key);
        if n == 0 {
            return false;
        }
        if n == 1 {
            self.drop_request(key);
        } else {
            self.search_response_budgets.insert(*key, n - 1);
        }
        true
    }

    fn time_of(&self, key: &IpOp) -> (r: Option<u64>)
        ensures
            match r {
                Some(t) => self@.times.contains_key(*key) && self@.times[*key] == t,
                None => !self@.times.contains_key(*key),
            },
    {
        match self.request_times.get(key) {
            Some(t) => Some(*t),
            None => None,
        }
    }

    fn find_oldest_publish(&self, ip: IpAddr) -> (r: Option<u8>)
        ensures
            r == self@.oldest_publish(ip),
    {
        let a: Option<u64> = self.time_of(&IpOp { ip, op: 0x43 });
        let b: Option<u64> = self.time_of(&IpOp { ip, op: 0x44 });
        let c: Option<u64> = self.time_of(&IpOp { ip, op: 0x45 });
        let mut best: Option<(u64, u8)> = None;
        if let Some(t) = a {
            best = Some((t, 0x43));
        }
        if let Some(t) = b {
            best =
            match best {
                Some((x, op)) => if t < x {
                    Some((t, 0x44))
                } else {
                    Some((x, op))
                },
                None => Some((t, 0x44)),
            };
        }
        if let Some(t) = c {
            best =
            match best {
                Some((x, op)) => if t < x {
                    Some((t, 0x45))
                } else {
                    Some((x, op))
                },
                None => Some((t, 0x45)),
            };
        }
        match best {
            Some((_, op)) => Some(op),
            None => None,
        }
    }

    /// Whether an answer was asked for; if so it is not any more.
    pub fn validate_response(&mut self, addr: SocketAddr, response_opcode: u8) -> (solicited: bool)
        requires
            old(self)@.wf(),
        ensures
            (final(self)@, solicited) == old(self)@.after_response(addr.ip, response_opcode),
            final(self)@.wf(),
    {
        let ip = addr.ip;
        let op: u8 = match response_opcode {
            0x09 => 0x01,
            0x19 => 0x11,
            0x22 => 0x19,
            0x29 => 0x21,
            0x3B => 0x33,
            0x4B => 0x43,
            0x4C => 0x4B,
            0x5A => 0x51,
            0x61 => 0x60,
            0x58 => 0x50,
            _ => {
                return false;
            },
        };
        if response_opcode == 0x3B {
            return self.spend_budget(&IpOp { ip, op: 0x33 }) || self.spend_budget(
                &IpOp { ip, op: 0x34 },
            ) || self.spend_budget(&IpOp { ip, op: 0x35 });
        }
        if response_opcode == 0x4B {
            return match self.find_oldest_publish(ip) {
                Some(op) => self.consume_outgoing(&IpOp { ip, op }),
                None => false,
            };
        }
        if self.consume_outgoing(&IpOp { ip, op }) {
            return true;
        }
        if response_opcode == 0x58 {
            return self.consume_outgoing(&IpOp { ip, op: 0x53 });
        }
        false
    }

    /// Whether we sent a request to an address lately.
    pub fn has_recent_ip(&self, ip: IpAddr, now: u64) -> (r: bool)
        ensures
            r == (self@.recent.contains_key(ip) && elapsed(self@.recent[ip], now) < 1000
                * TRACKER_EXPIRY_SECS),
    {
        match self.recent_ips.get(&ip) {
            Some(t) => ms_since(*t, now) < 1000 * TRACKER_EXPIRY_SECS,
            None => false,
        }
    }

    /// Forgets what is too old to matter.
    pub fn cleanup(&mut self, now: u64)
        requires
            old(self)@.wf(),
        ensures
            final(self)@ == old(self)@.cleaned(now),
            final(self)@.wf(),
    {
        let ghost v = self@;
        self.ip_counters.forget_old(now, COUNTER_MEMORY_MS);
        self.opcode_counters.forget_old(now, 2 * OPCODE_WINDOW_MS);
        self.outgoing_counters.forget_old(now, COUNTER_MEMORY_MS);
        let stale = keys_older(&self.request_times, now, 1000 * (TRACKER_EXPIRY_SECS + 1));
        proof {
            assert(stale@.to_set() =~= v.overdue(now)) by {
                assert forall|k: IpOp| stale@.to_set().contains(k) <==> v.overdue(now).contains(
                    k,
                ) by {
                    assert(stale@.contains(k) <==> v.times.contains_key(k) && elapsed(
                        v.times[k],
                        now,
                    ) >= 181000);
                }
            }
        }
        remove_all(&mut self.outgoing_requests, &stale);
        remove_all(&mut self.search_response_budgets, &stale);
        remove_all(&mut self.request_times, &stale);
        let quiet = keys_older(&self.recent_ips, now, 1000 * TRACKER_EXPIRY_SECS);
        proof {
            assert(quiet@.to_set() =~= v.long_ago(now)) by {
                assert forall|k: IpAddr| quiet@.to_set().contains(k) <==> v.long_ago(now).contains(
                    k,
                ) by {
                    assert(quiet@.contains(k) <==> v.recent.contains_key(k) && elapsed(
                        v.recent[k],
                        now,
                    ) >= 180000);
                }
            }
        }
        remove_all(&mut self.recent_ips, &quiet);
        self.compressed_counters.forget_old(now, COUNTER_MEMORY_MS);
    }
}

/// As many answers are admitted as requests were sent: one more request
/// admits one more, and each answer takes one.
pub proof fn lemma_requests_counted(v: FloodView, ip: IpAddr, op: u8, now: u64)
    requires
        number_of(v.requests, IpOp { ip, op }) < u32::MAX,
        v.requests.dom().len() < usize::MAX,
    ensures
        ({
            let k = IpOp { ip, op };
            let w = v.awaiting(ip, op, now);
            &&& number_of(w.requests, k) == number_of(v.requests, k) + 1
            &&& w.consumed(k).1
            &&& number_of(w.consumed(k).0.requests, k) == number_of(v.requests, k)
            &&& number_of(v.requests, k) == 0 ==> !w.consumed(k).0.consumed(k).1
        }),
{
}

/// A search admits its budget of result packets and no more.
pub proof fn lemma_search_budget(v: FloodView, ip: IpAddr, op: u8, now: u64)
    requires
        is_search(op),
        number_of(v.budgets, IpOp { ip, op }) <= u32::MAX - SEARCH_RES_BUDGET_PER_REQUEST,
        v.budgets.dom().len() < usize::MAX,
    ensures
        ({
            let k = IpOp { ip, op };
            let w = v.awaiting(ip, op, now);
            &&& number_of(w.budgets, k) == number_of(v.budgets, k) + SEARCH_RES_BUDGET_PER_REQUEST
            &&& w.budget_spent(k).1
            &&& number_of(w.budget_spent(k).0.budgets, k) + 1 == number_of(w.budgets, k)
        }),
{
}

/// Answers are never refused for their opcode, whatever came before.
pub proof fn lemma_responses_bypass(v: FloodView, ip: IpAddr, known: bool, opcode: u8, now: u64)
    requires
        !asks(opcode),
    ensures
        v.after_request(ip, known, opcode, now) == (v, false),
{
}

/// A request that comes within a window is refused exactly once the peer has
/// used up what its opcode allows.
pub proof fn lemma_opcode_limit(v: FloodView, ip: IpAddr, known: bool, opcode: u8, now: u64)
    requires
        asks(opcode),
        v.opcode.counters.contains_key(IpOp { ip, op: opcode }),
        elapsed(v.opcode.counters[IpOp { ip, op: opcode }].start, now) < OPCODE_WINDOW_MS,
    ensures
        v.after_request(ip, known, opcode, now).1 <==> v.opcode.counters[IpOp {
            ip,
            op: opcode,
        }].count >= if known {
            2 * limit_of(opcode)
        } else {
            limit_of(opcode) as int
        },
{
}

/// A packet that a peer's own budget refuses does not touch the budget of all.
pub proof fn lemma_refused_is_free(v: FloodView, ip: IpAddr, bytes: usize, now: u64)
    requires
        ({
            let w = v.compressed.after_packet(
                ip,
                bytes,
                now,
                SECOND_MS,
                MAX_COMPRESSED_ENTRIES,
            ).1;
            w is None || w->Some_0.count > MAX_COMPRESSED_PER_SEC || w->Some_0.bytes
                > MAX_COMPRESSED_BYTES_PER_SEC
        }),
    ensures
        v.after_compressed(ip, bytes, now).1,
        v.after_compressed(ip, bytes, now).0.global == v.global,
{
}

/// A peer that owes us an answer, and is within its own budget, gets through
/// however much the others sent.
pub proof fn lemma_solicited_survives(v: FloodView, ip: IpAddr, bytes: usize, now: u64)
    requires
        v.owes_packed(ip),
        ({
            let w = v.compressed.after_packet(
                ip,
                bytes,
                now,
                SECOND_MS,
                MAX_COMPRESSED_ENTRIES,
            ).1;
            w is Some && w->Some_0.count <= MAX_COMPRESSED_PER_SEC && w->Some_0.bytes
                <= MAX_COMPRESSED_BYTES_PER_SEC
        }),
    ensures
        !v.after_compressed(ip, bytes, now).1,
{
}

} // verus!
