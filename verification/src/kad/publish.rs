//! Publishing shared files: which file or keyword is due, and what is sent.
use vstd::prelude::*;

use crate::bytes::{put_bytes, same_16};
use crate::clock::{clock_time, sat_sub, seconds_since, utc_now};
use crate::kad::buddy::{complement, invert};
use crate::kad::keywords::{
    digest_of_id, encode_upper, extract_keywords, has_text, id_of_digest, kad_id_to_md4_bytes,
    keyword_id, keyword_to_kad_id, keywords_of, md4_bytes_to_kad_id, texts, upper_hex,
};
use crate::kad::messages::{EntryView, KadMessage, MessageView, PublishEntry};
use crate::kad::tags::{
    tag_views, KadTag, TagName, TagNameView, TagValue, TagValueView, TagView,
};
use crate::kad::types::{
    lemma_val_injective, KadId, TAG_BUDDYHASH, TAG_COMPLETE_SOURCES,
    TAG_ENCRYPTION, TAG_FILENAME, TAG_FILESIZE, TAG_FILETYPE, TAG_SERVERIP, TAG_SERVERPORT,
    TAG_SOURCEPORT, TAG_SOURCES, TAG_SOURCETYPE, TAG_SOURCEUPORT,
};
use crate::key_map::{KeyMap, MapKey};
use crate::rank::{
    above, least, least_index, lemma_least_exists, lowest, take_lowest, Ranked,
};
use crate::set_map::{set_at, with_element, without_element, SetMap};

verus! {

/// How long other nodes keep a keyword entry, in seconds.
pub const KEYWORD_TTL_SECS: i64 = 86400;

pub const REPUBLISH_KEYWORD_SECS: i64 = 72000;

pub const REPUBLISH_SOURCE_SECS: i64 = 18000;

/// How many files are published under one keyword.
pub const MAX_FILES_PER_KEYWORD_PUBLISH: usize = 150;

/// How many files one packet holds.
pub const MAX_FILES_PER_KEYWORD_PACKET: usize = 50;

/// How long before it lapses an entry has to be renewed at the latest.
pub const KEYWORD_REPUBLISH_SAFETY_MARGIN_SECS: i64 = 7200;

/// How often the interval can be doubled.
pub const MAX_BACKOFF_SHIFT: u32 = 4;

/// Tells that we can be reached through the overlay's relays.
pub const EMBER_CAP_RELAY_PUNCH_V1: u8 = 0x01;

/// The name under which our key in the overlay is published.
pub const EMBER_NOISE_PUB_TAG: &'static str = "ember_npub";

impl MapKey for KadId {
    open spec fn digest_of(self) -> u128 {
        self.val()
    }

    fn digest(&self) -> (r: u128) {
        self.to_u128()
    }

    fn same(&self, other: &Self) -> (r: bool) {
        same_16(&self.0, &other.0)
    }
}

/// Identifiers rank by their value, as four little-endian chunks.
impl Ranked for KadId {
    open spec fn rank(self) -> nat {
        self.val() as nat
    }

    proof fn lemma_rank(self, other: Self) {
        if self.rank() == other.rank() {
            lemma_val_injective(self, other);
        }
    }

    fn before(&self, other: &Self) -> (r: bool) {
        self.to_u128() < other.to_u128()
    }
}

// ---------------------------------------------------------------------------
// Intervals
// ---------------------------------------------------------------------------
pub open spec fn doubled(n: int, times: nat) -> int
    decreases times,
{
    if times == 0 {
        n
    } else {
        2 * doubled(n, (times - 1) as nat)
    }
}

/// How long to wait before a keyword is published again: longer where nodes
/// are full, but never so long that the entry lapses.
pub open spec fn keyword_interval(shift: u32) -> int {
    let n = doubled(
        REPUBLISH_KEYWORD_SECS as int,
        if shift > MAX_BACKOFF_SHIFT {
            MAX_BACKOFF_SHIFT as nat
        } else {
            shift as nat
        },
    );
    let ceiling = KEYWORD_TTL_SECS - KEYWORD_REPUBLISH_SAFETY_MARGIN_SECS;
    if n < ceiling {
        n
    } else {
        ceiling
    }
}

/// How long to wait before a keyword is published again.
pub fn keyword_republish_interval(backoff_shift: u32) -> (r: i64)
    ensures
        r == keyword_interval(backoff_shift),
{
    let shift: u32 = if backoff_shift > MAX_BACKOFF_SHIFT {
        MAX_BACKOFF_SHIFT
    } else {
        backoff_shift
    };
    let mut n: i64 = REPUBLISH_KEYWORD_SECS;
    let mut i: u32 = 0;
    while i < shift
        invariant
            i <= shift <= MAX_BACKOFF_SHIFT,
            n == doubled(REPUBLISH_KEYWORD_SECS as int, i as nat),
            0 <= n,
            i == 0 ==> n <= 72000,
            i == 1 ==> n <= 144000,
            i == 2 ==> n <= 288000,
            i == 3 ==> n <= 576000,
        decreases shift - i,
    {
        n = 2 * n;
        i = i + 1;
    }
    let ceiling: i64 = KEYWORD_TTL_SECS - KEYWORD_REPUBLISH_SAFETY_MARGIN_SECS;
    if n < ceiling {
        n
    } else {
        ceiling
    }
}

/// The interval never gets so long that an entry lapses before it is renewed,
/// and never gets shorter as nodes get fuller.
pub proof fn lemma_keyword_interval(shift: u32)
    requires
        shift < u32::MAX,
    ensures
        0 < keyword_interval(shift) <= KEYWORD_TTL_SECS - KEYWORD_REPUBLISH_SAFETY_MARGIN_SECS,
        keyword_interval(shift) <= keyword_interval((shift + 1) as u32),
{
    reveal_with_fuel(doubled, 6);
}

// ---------------------------------------------------------------------------
// Taking turns
// ---------------------------------------------------------------------------
/// Whose turn is next: the key that ranks next above the last one, and the
/// lowest one where there is none or the last one is gone.
pub open spec fn next_turn(s: Set<KadId>, cursor: Option<KadId>) -> Option<KadId> {
    if s =~= Set::empty() {
        None
    } else {
        match cursor {
            Some(c) => if s.contains(c) && !(above(s, c) =~= Set::empty()) {
                Some(least(above(s, c)))
            } else {
                Some(least(s))
            },
            None => Some(least(s)),
        }
    }
}

/// Moves on to the key whose turn is next.
pub fn round_robin_next<V>(map: &KeyMap<KadId, V>, cursor: &mut Option<KadId>) -> (r: Option<KadId>)
    ensures
        r == next_turn(map@.dom(), *old(cursor)),
        *final(cursor) == r,
        r matches Some(k) ==> map@.contains_key(k),
{
    let keys = map.keys();
    let ghost s = map@.dom();
    assert(keys@.to_set() =~= s) by {
        assert forall|k: KadId| keys@.to_set().contains(k) <==> s.contains(k) by {
            assert(keys@.contains(k) <==> map@.contains_key(k));
        }
    }
    if keys.len() == 0 {
        assert(s =~= Set::empty());
        *cursor = None;
        return None;
    }
    assert(s.contains(keys@[0])) by {
        assert(keys@.to_set().contains(keys@[0]));
    }
    if let Some(c) = *cursor {
        if map.contains_key(&c) {
            let higher = keys_above(&keys, &c);
            assert(higher@.to_set() =~= above(s, c));
            if higher.len() > 0 {
                let i: usize = least_index(&higher);
                let k = higher[i];
                assert(above(s, c).contains(k));
                *cursor = Some(k);
                return Some(k);
            }
            assert(above(s, c) =~= Set::empty());
        }
    }
    let i: usize = least_index(&keys);
    let k = keys[i];
    *cursor = Some(k);
    Some(k)
}

fn keys_above(keys: &Vec<KadId>, c: &KadId) -> (r: Vec<KadId>)
    ensures
        r@.to_set() == above(keys@.to_set(), *c),
{
    let mut out: Vec<KadId> = Vec::new();
    let mut i: usize = 0;
    while i < keys.len()
        invariant
            i <= keys@.len(),
            forall|k: KadId| #[trigger]
                out@.contains(k) <==> keys@.take(i as int).contains(k) && c.rank() < k.rank(),
        decreases keys@.len() - i,
    {
        let k = keys[i];
        let ghost before = out@;
        let ghost part = keys@.take(i as int);
        let ghost next = keys@.take(i as int + 1);
        if c.before(&k) {
            out.push(k);
        }
        proof {
            assert(next =~= part.push(k));
            lemma_push_contains(part, k);
            if c.rank() < k.rank() {
                lemma_push_contains(before, k);
            }
        }
        i = i + 1;
    }
    proof {
        assert(keys@.take(i as int) =~= keys@);
        assert(out@.to_set() =~= above(keys@.to_set(), *c));
    }
    out
}

proof fn lemma_push_contains<T>(s: Seq<T>, e: T)
    ensures
        forall|x: T| #[trigger] s.push(e).contains(x) <==> s.contains(x) || x == e,
{
    let t = s.push(e);
    assert forall|x: T| #[trigger] t.contains(x) <==> s.contains(x) || x == e by {
        if t.contains(x) {
            let j = choose|j: int| 0 <= j < t.len() && t[j] == x;
            if j < s.len() {
                assert(s[j] == x);
            }
        }
        if s.contains(x) {
            let j = choose|j: int| 0 <= j < s.len() && s[j] == x;
            assert(t[j] == x);
        }
        assert(t[s.len() as int] == e);
    }
}

/// What so many turns give, one after the other, from a cursor on.
pub open spec fn turns(s: Set<KadId>, cursor: Option<KadId>, n: nat) -> Seq<Option<KadId>>
    decreases n,
{
    if n == 0 {
        Seq::empty()
    } else {
        let t = turns(s, cursor, (n - 1) as nat);
        t.push(
            next_turn(
                s,
                if t.len() == 0 {
                    cursor
                } else {
                    t.last()
                },
            ),
        )
    }
}

/// In as many turns as there are keys, every key gets one and none gets two,
/// wherever the cursor stood, and then they come round again. Without keys
/// nobody gets a turn.
pub proof fn lemma_full_sweep(s: Set<KadId>, cursor: Option<KadId>)
    requires
        s.finite(),
    ensures
        turns(s, cursor, s.len()).len() == s.len(),
        forall|i: int| 0 <= i < s.len() ==> #[trigger] turns(s, cursor, s.len())[i] is Some,
        turns(s, cursor, s.len()).no_duplicates(),
        forall|k: KadId| #[trigger]
            s.contains(k) <==> turns(s, cursor, s.len()).contains(Some(k)),
        turns(s, cursor, s.len() + 1).len() == s.len() + 1,
        turns(s, cursor, s.len() + 1).take(s.len() as int) == turns(s, cursor, s.len()),
        turns(s, cursor, s.len() + 1).last() == turns(s, cursor, s.len() + 1).first(),
        s.len() == 0 ==> next_turn(s, cursor) is None,
{
    let n = s.len() as int;
    let t = turns(s, cursor, s.len());
    let u = turns(s, cursor, s.len() + 1);
    if n == 0 {
        assert(s =~= Set::empty());
        reveal_with_fuel(turns, 2);
        assert(u.take(n) =~= t);
    } else {
        let j = lemma_first_turn(s, cursor);
        lemma_turns(s, cursor, j, s.len());
        lemma_turns(s, cursor, j, s.len() + 1);
        assert(u.take(n) =~= t);
        assert(u[n] == u[0]);
        lemma_round_trip(s, t, j);
    }
}

/// The place that comes `i` places after the `j`-th of `n`, round and round.
spec fn round(j: int, i: int, n: int) -> int {
    if j + i < n {
        j + i
    } else {
        j + i - n
    }
}

proof fn lemma_round_trip(s: Set<KadId>, t: Seq<Option<KadId>>, j: int)
    requires
        s.finite(),
        0 <= j < s.len(),
        t.len() == s.len(),
        forall|i: int|
            0 <= i < s.len() ==> #[trigger] t[i] == Some(
                sweep(s, s.len())[round(j, i, s.len() as int)],
            ),
    ensures
        t.no_duplicates(),
        forall|k: KadId| #[trigger] s.contains(k) <==> t.contains(Some(k)),
{
    lemma_sweep_part(s, s.len());
    lemma_sweep_all(s);
    let n = s.len() as int;
    let w = sweep(s, s.len());
    assert forall|a: int, b: int| 0 <= a < n && 0 <= b < n && a != b implies t[a] != t[b] by {
        let (x, y) = (round(j, a, n), round(j, b, n));
        assert(w[x] != w[y]);
    }
    assert forall|k: KadId| #[trigger] s.contains(k) <==> t.contains(Some(k)) by {
        if s.contains(k) {
            assert(w.to_set().contains(k));
            assert(w.contains(k));
            let x = choose|x: int| 0 <= x < w.len() && w[x] == k;
            let i = if x >= j {
                x - j
            } else {
                x - j + n
            };
            assert(t[i] == Some(w[round(j, i, n)]));
        }
        if t.contains(Some(k)) {
            let i = choose|i: int| 0 <= i < t.len() && t[i] == Some(k);
            assert(w[round(j, i, n)] == k);
            assert(w.contains(k));
            assert(w.to_set().contains(k));
        }
    }
}

/// The keys in ascending order.
spec fn sweep(s: Set<KadId>, n: nat) -> Seq<KadId>
    decreases n,
{
    if n == 0 {
        Seq::empty()
    } else {
        let t = sweep(s, (n - 1) as nat);
        t.push(
            next_turn(
                s,
                if t.len() == 0 {
                    None
                } else {
                    Some(t.last())
                },
            )->Some_0,
        )
    }
}

proof fn lemma_sweep_all(s: Set<KadId>)
    requires
        s.finite(),
        s.len() > 0,
    ensures
        sweep(s, s.len()).to_set() == s,
        sweep(s, s.len())[0] == least(s),
        next_turn(s, Some(sweep(s, s.len()).last())) == Some(sweep(s, s.len())[0]),
{
    lemma_sweep_part(s, s.len());
    let t = sweep(s, s.len());
    t.unique_seq_to_set();
    assert(t.to_set().subset_of(s)) by {
        assert forall|k: KadId| t.to_set().contains(k) implies s.contains(k) by {
            assert(t.contains(k));
        }
    }
    vstd::set_lib::lemma_subset_equality(t.to_set(), s);
    assert(t.to_set() =~= s);
    let last = t.last();
    assert(above(s, last) =~= Set::empty()) by {
        assert forall|k: KadId| !above(s, last).contains(k) by {
            if above(s, last).contains(k) {
                assert(t.to_set().contains(k));
                assert(t.contains(k));
            }
        }
    }
    assert(!(s =~= Set::empty())) by {
        if s =~= Set::empty() {
            assert(s.len() == 0);
        }
    }
    lemma_sweep_prefix(s, 1, s.len());
    reveal_with_fuel(sweep, 2);
    assert(sweep(s, 1)[0] == least(s));
    assert(t.to_set().contains(last)) by {
        assert(t.contains(last));
    }
}

proof fn lemma_sweep_prefix(s: Set<KadId>, m: nat, n: nat)
    requires
        m <= n,
    ensures
        sweep(s, m).len() == m,
        sweep(s, n).len() == n,
        sweep(s, n).take(m as int) == sweep(s, m),
        forall|i: int| 0 <= i < m ==> sweep(s, n)[i] == #[trigger] sweep(s, m)[i],
    decreases n,
{
    if n == 0 {
        assert(sweep(s, n).take(0) =~= sweep(s, m));
    } else if m == n {
        lemma_sweep_prefix(s, (n - 1) as nat, (n - 1) as nat);
        assert(sweep(s, n).take(m as int) =~= sweep(s, m));
    } else {
        lemma_sweep_prefix(s, m, (n - 1) as nat);
        assert(sweep(s, n).take(m as int) =~= sweep(s, (n - 1) as nat).take(m as int));
        assert forall|i: int| 0 <= i < m implies sweep(s, n)[i] == #[trigger] sweep(s, m)[i] by {
            assert(sweep(s, n).take(m as int)[i] == sweep(s, n)[i]);
        }
    }
}

/// After each key comes the next one, and after the last the first.
proof fn lemma_after(s: Set<KadId>, i: int)
    requires
        s.finite(),
        0 <= i < s.len(),
    ensures
        next_turn(s, Some(sweep(s, s.len())[i])) == Some(
            sweep(s, s.len())[if i + 1 < s.len() {
                i + 1
            } else {
                0
            }],
        ),
{
    lemma_sweep_all(s);
    lemma_sweep_part(s, s.len());
    let w = sweep(s, s.len());
    if i + 1 < s.len() {
        lemma_sweep_prefix(s, (i + 1) as nat, s.len());
        lemma_sweep_prefix(s, (i + 2) as nat, s.len());
        let p = sweep(s, (i + 1) as nat);
        let q = sweep(s, (i + 2) as nat);
        assert(q == p.push(next_turn(s, Some(p.last()))->Some_0));
        assert(p[i] == w[i]);
        assert(q[i + 1] == w[i + 1]);
        assert(!(s =~= Set::empty())) by {
            if s =~= Set::empty() {
                assert(s.len() == 0);
            }
        }
    }
}

proof fn lemma_first_turn(s: Set<KadId>, cursor: Option<KadId>) -> (j: int)
    requires
        s.finite(),
        s.len() > 0,
    ensures
        0 <= j < s.len(),
        next_turn(s, cursor) == Some(sweep(s, s.len())[j]),
{
    lemma_sweep_all(s);
    lemma_sweep_part(s, s.len());
    let w = sweep(s, s.len());
    assert(!(s =~= Set::empty())) by {
        if s =~= Set::empty() {
            assert(s.len() == 0);
        }
    }
    match cursor {
        Some(c) => if s.contains(c) {
            assert(w.to_set().contains(c));
            assert(w.contains(c));
            let i = choose|i: int| 0 <= i < w.len() && w[i] == c;
            lemma_after(s, i);
            if i + 1 < s.len() {
                i + 1
            } else {
                0
            }
        } else {
            0
        },
        None => 0,
    }
}

proof fn lemma_turns(s: Set<KadId>, cursor: Option<KadId>, j: int, m: nat)
    requires
        s.finite(),
        0 <= j < s.len(),
        next_turn(s, cursor) == Some(sweep(s, s.len())[j]),
        m <= s.len() + 1,
    ensures
        turns(s, cursor, m).len() == m,
        forall|i: int|
            0 <= i < m ==> #[trigger] turns(s, cursor, m)[i] == Some(
                sweep(s, s.len())[round(j, i, s.len() as int)],
            ),
    decreases m,
{
    let n = s.len() as int;
    let w = sweep(s, s.len());
    if m > 0 {
        lemma_turns(s, cursor, j, (m - 1) as nat);
        let p = turns(s, cursor, (m - 1) as nat);
        let t = turns(s, cursor, m);
        if m > 1 {
            let x = round(j, m - 2, n);
            assert(p[m - 2] == Some(w[x]));
            lemma_after(s, x);
        }
        assert(t[m - 1] == Some(w[round(j, m - 1, n)]));
        assert forall|i: int| 0 <= i < m implies #[trigger] t[i] == Some(w[round(j, i, n)]) by {
            if i < m - 1 {
                assert(t[i] == p[i]);
            }
        }
    }
}

proof fn lemma_sweep_part(s: Set<KadId>, n: nat)
    requires
        s.finite(),
        0 < n <= s.len(),
    ensures
        sweep(s, n).len() == n,
        sweep(s, n).no_duplicates(),
        forall|k: KadId| #[trigger]
            sweep(s, n).contains(k) <==> s.contains(k) && k.rank() <= sweep(s, n).last().rank(),
    decreases n,
{
    let t = sweep(s, n);
    let p = sweep(s, (n - 1) as nat);
    assert(!(s =~= Set::empty())) by {
        if s =~= Set::empty() {
            assert(s.len() == 0);
        }
    }
    if n == 1 {
        assert(p.len() == 0);
        lemma_least_exists(s);
        let k = least(s);
        assert(t =~= seq![k]);
        assert forall|x: KadId| #[trigger] t.contains(x) <==> s.contains(x) && x.rank()
            <= k.rank() by {
            if s.contains(x) && x.rank() <= k.rank() {
                assert(k.rank() <= x.rank());
                x.lemma_rank(k);
                assert(t[0] == x);
            }
        }
    } else {
        lemma_sweep_part(s, (n - 1) as nat);
        let c = p.last();
        assert(p.contains(c)) by {
            assert(p[p.len() - 1] == c);
        }
        let up = above(s, c);
        p.unique_seq_to_set();
        if up =~= Set::empty() {
            assert(s.subset_of(p.to_set())) by {
                assert forall|k: KadId| s.contains(k) implies p.to_set().contains(k) by {
                    assert(!up.contains(k));
                    assert(p.contains(k));
                }
            }
            vstd::set_lib::lemma_len_subset(s, p.to_set());
            assert(false);
        }
        assert(up.len() > 0) by {
            assert(up.finite());
            if up.len() == 0 {
                assert(up =~= Set::empty());
            }
        }
        lemma_least_exists(up);
        let k = least(up);
        assert(t == p.push(k));
        lemma_push_contains(p, k);
        assert(up.contains(k));
        assert(!p.contains(k));
        assert forall|x: KadId| #[trigger] t.contains(x) <==> s.contains(x) && x.rank()
            <= k.rank() by {
            if s.contains(x) && x.rank() <= k.rank() && !p.contains(x) {
                assert(up.contains(x));
                assert(k.rank() <= x.rank());
                x.lemma_rank(k);
            }
        }
    }
}

// ---------------------------------------------------------------------------
// Files and keywords
// ---------------------------------------------------------------------------
/// A shared file.
#[derive(Debug)]
pub struct PublishableFile {
    pub file_hash: KadId,
    pub file_name: String,
    pub file_size: u64,
    pub file_type: String,
    pub complete_sources: u32,
    /// Only complete files are found by keyword.
    pub keyword_publishable: bool,
    /// When it was last published, as far as that is known from an earlier session.
    pub last_source_publish: i64,
}

pub struct FileView {
    pub hash: KadId,
    pub name: Seq<char>,
    pub size: u64,
    pub file_type: Seq<char>,
    pub complete_sources: u32,
    pub keyword_publishable: bool,
    pub last_source_publish: i64,
}

impl View for PublishableFile {
    type V = FileView;

    open spec fn view(&self) -> FileView {
        FileView {
            hash: self.file_hash,
            name: self.file_name@,
            size: self.file_size,
            file_type: self.file_type@,
            complete_sources: self.complete_sources,
            keyword_publishable: self.keyword_publishable,
            last_source_publish: self.last_source_publish,
        }
    }
}

impl PublishableFile {
    /// The same file once more.
    pub fn duplicate(&self) -> (r: PublishableFile)
        ensures
            r@ == self@,
    {
        PublishableFile {
            file_hash: self.file_hash,
            file_name: self.file_name.clone(),
            file_size: self.file_size,
            file_type: self.file_type.clone(),
            complete_sources: self.complete_sources,
            keyword_publishable: self.keyword_publishable,
            last_source_publish: self.last_source_publish,
        }
    }
}

impl Clone for PublishableFile {
    fn clone(&self) -> (r: PublishableFile)
        ensures
            r@ == self@,
    {
        self.duplicate()
    }
}

/// A shared file, and when it was last published.
#[derive(Debug)]
pub struct PublishRecord {
    pub file: PublishableFile,
    pub last_source_publish: i64,
}

pub struct RecordView {
    pub file: FileView,
    pub last_source_publish: i64,
}

impl View for PublishRecord {
    type V = RecordView;

    open spec fn view(&self) -> RecordView {
        RecordView { file: self.file@, last_source_publish: self.last_source_publish }
    }
}

/// A keyword, and when it was last published.
#[derive(Debug)]
pub struct KeywordRecord {
    pub keyword: String,
    pub last_publish: i64,
    /// How often its interval is doubled.
    pub backoff_shift: u32,
}

pub struct KeywordView {
    pub keyword: Seq<char>,
    pub last_publish: i64,
    pub backoff_shift: u32,
}

impl View for KeywordRecord {
    type V = KeywordView;

    open spec fn view(&self) -> KeywordView {
        KeywordView {
            keyword: self.keyword@,
            last_publish: self.last_publish,
            backoff_shift: self.backoff_shift,
        }
    }
}

/// What is sent to publish a keyword.
#[derive(Debug)]
pub struct KeywordPublishBatch {
    pub keyword_hash: KadId,
    pub keyword: String,
    pub messages: Vec<KadMessage>,
    pub file_hashes: Vec<KadId>,
}

pub struct BatchView {
    pub keyword_hash: KadId,
    pub keyword: Seq<char>,
    pub messages: Seq<MessageView>,
    pub file_hashes: Seq<KadId>,
}

pub open spec fn message_views(v: Seq<KadMessage>) -> Seq<MessageView> {
    v.map_values(|m: KadMessage| m@)
}

pub open spec fn entry_views(v: Seq<PublishEntry>) -> Seq<EntryView> {
    v.map_values(|e: PublishEntry| e@)
}

impl View for KeywordPublishBatch {
    type V = BatchView;

    open spec fn view(&self) -> BatchView {
        BatchView {
            keyword_hash: self.keyword_hash,
            keyword: self.keyword@,
            messages: message_views(self.messages@),
            file_hashes: self.file_hashes@,
        }
    }
}

// ---------------------------------------------------------------------------
// The state
// ---------------------------------------------------------------------------
/// The identifiers of the keywords of a file name.
pub open spec fn word_ids(name: Seq<char>) -> Seq<KadId> {
    keywords_of(name).map_values(|w: Seq<char>| keyword_id(w))
}

/// Whether a file is found under a keyword.
pub open spec fn found_under(files: Map<KadId, RecordView>, h: KadId, k: KadId) -> bool {
    files.contains_key(h) && files[h].file.keyword_publishable && word_ids(
        files[h].file.name,
    ).contains(k)
}

/// For each keyword, the files that are found under it.
pub open spec fn index_of(files: Map<KadId, RecordView>) -> Map<KadId, Set<KadId>> {
    Map::new(
        |k: KadId| exists|h: KadId| found_under(files, h, k),
        |k: KadId| Set::new(|h: KadId| found_under(files, h, k)),
    )
}

/// The keywords with those of a list, as far as they are new.
pub open spec fn words_added(m: Map<KadId, KeywordView>, words: Seq<Seq<char>>) -> Map<
    KadId,
    KeywordView,
>
    decreases words.len(),
{
    if words.len() == 0 {
        m
    } else {
        let n = words_added(m, words.drop_last());
        let k = keyword_id(words.last());
        if n.contains_key(k) {
            n
        } else {
            n.insert(k, KeywordView { keyword: words.last(), last_publish: 0, backoff_shift: 0 })
        }
    }
}

pub struct PublishView {
    pub files: Map<KadId, RecordView>,
    pub keywords: Map<KadId, KeywordView>,
    /// For each keyword, the files that are found under it.
    pub index: Map<KadId, Set<KadId>>,
    pub source_cursor: Option<KadId>,
    pub keyword_cursor: Option<KadId>,
}

impl PublishView {
    /// Files and keywords stand under their identifiers, and the index is that
    /// of the files.
    pub open spec fn wf(self) -> bool {
        &&& self.files.dom().finite() && self.keywords.dom().finite() && self.index.dom().finite()
        &&& forall|h: KadId| #[trigger]
            self.files.contains_key(h) ==> self.files[h].file.hash == h
        &&& forall|k: KadId| #[trigger]
            self.keywords.contains_key(k) ==> keyword_id(self.keywords[k].keyword) == k
                && self.keywords[k].backoff_shift <= MAX_BACKOFF_SHIFT
        &&& self.index == index_of(self.files)
    }

    /// A file registered, or what is known of it brought up to date.
    pub open spec fn with_file(self, file: FileView) -> PublishView {
        let last = if self.files.contains_key(file.hash) {
            let old = self.files[file.hash].last_source_publish;
            if file.last_source_publish > 0 && file.last_source_publish > old {
                file.last_source_publish
            } else {
                old
            }
        } else {
            file.last_source_publish
        };
        let files = self.files.insert(file.hash, RecordView { file, last_source_publish: last });
        PublishView {
            files,
            keywords: if file.keyword_publishable {
                words_added(self.keywords, keywords_of(file.name))
            } else {
                self.keywords
            },
            index: index_of(files),
            ..self
        }
    }

    pub open spec fn without_file(self, h: KadId) -> PublishView {
        PublishView {
            files: self.files.remove(h),
            index: index_of(self.files.remove(h)),
            ..self
        }
    }

    /// Whether a file that is found by keyword has this one.
    pub open spec fn is_live(files: Map<KadId, RecordView>, word: Seq<char>) -> bool {
        exists|h: KadId| #[trigger]
            files.contains_key(h) && files[h].file.keyword_publishable && keywords_of(
                files[h].file.name,
            ).contains(word)
    }

    /// Only the files of a list, and the keywords that they still have.
    pub open spec fn only(self, keep: Set<KadId>) -> PublishView {
        let files = self.files.restrict(keep);
        PublishView {
            files,
            keywords: self.keywords.restrict(
                Set::new(|k: KadId| PublishView::is_live(files, self.keywords[k].keyword)),
            ),
            index: index_of(files),
            ..self
        }
    }

    pub open spec fn source_due(self, h: KadId, now: i64) -> bool {
        self.files.contains_key(h) && sat_sub(now, self.files[h].last_source_publish)
            > REPUBLISH_SOURCE_SECS
    }

    pub open spec fn keyword_late(self, k: KadId, now: i64) -> bool {
        self.keywords.contains_key(k) && sat_sub(now, self.keywords[k].last_publish)
            > keyword_interval(self.keywords[k].backoff_shift)
    }

    /// A keyword that has to be published: its time has come, and some file is
    /// found under it.
    pub open spec fn keyword_due(self, k: KadId, now: i64) -> bool {
        self.keyword_late(k, now) && self.index.contains_key(k)
    }

    /// The files to publish under a keyword.
    pub open spec fn batch_files(self, k: KadId) -> Seq<KadId> {
        lowest(set_at(self.index, k), MAX_FILES_PER_KEYWORD_PUBLISH as nat)
    }

    /// What is sent to publish a keyword, if some file is found under it.
    pub open spec fn batch(self, k: KadId) -> Option<BatchView> {
        if !self.index.contains_key(k) {
            None
        } else {
            Some(
                BatchView {
                    keyword_hash: k,
                    keyword: self.keywords[k].keyword,
                    messages: in_packets(
                        k,
                        self.batch_files(k).map_values(
                            |h: KadId| keyword_entry(self.files[h].file),
                        ),
                    ),
                    file_hashes: self.batch_files(k),
                },
            )
        }
    }
}

/// A file as it is published under a keyword.
pub open spec fn keyword_entry(file: FileView) -> EntryView {
    let sources = if file.complete_sources > 1 {
        file.complete_sources
    } else {
        1
    };
    EntryView {
        id: file.hash,
        tags: seq![
            TagView { name: TagNameView::Id(TAG_FILENAME), value: TagValueView::String(file.name) },
            TagView { name: TagNameView::Id(TAG_FILESIZE), value: TagValueView::Uint64(file.size) },
            TagView {
                name: TagNameView::Id(TAG_FILETYPE),
                value: TagValueView::String(file.file_type),
            },
            TagView { name: TagNameView::Id(TAG_SOURCES), value: TagValueView::Uint32(sources) },
            TagView {
                name: TagNameView::Id(TAG_COMPLETE_SOURCES),
                value: TagValueView::Uint32(sources),
            },
        ],
    }
}

/// Files in packets of fifty.
pub open spec fn in_packets(target: KadId, entries: Seq<EntryView>) -> Seq<MessageView>
    decreases entries.len(),
{
    if entries.len() == 0 {
        Seq::empty()
    } else if entries.len() <= MAX_FILES_PER_KEYWORD_PACKET {
        seq![MessageView::PublishKeyReq { target, entries }]
    } else {
        seq![
            MessageView::PublishKeyReq {
                target,
                entries: entries.take(MAX_FILES_PER_KEYWORD_PACKET as int),
            },
        ] + in_packets(target, entries.skip(MAX_FILES_PER_KEYWORD_PACKET as int))
    }
}

// ---------------------------------------------------------------------------
// The index
// ---------------------------------------------------------------------------
pub open spec fn none_empty(m: Map<KadId, Set<KadId>>) -> bool {
    forall|k: KadId| #[trigger] m.contains_key(k) ==> !(m[k] =~= Set::empty())
}

/// Whether a file stands under a keyword.
pub open spec fn lists(m: Map<KadId, Set<KadId>>, k: KadId, h: KadId) -> bool {
    m.contains_key(k) && m[k].contains(h)
}

/// Without empty sets, a map is what it lists.
proof fn lemma_same_lists(a: Map<KadId, Set<KadId>>, b: Map<KadId, Set<KadId>>)
    requires
        none_empty(a),
        none_empty(b),
        forall|k: KadId, h: KadId| lists(a, k, h) == #[trigger] lists(b, k, h),
    ensures
        a == b,
{
    assert forall|k: KadId| a.contains_key(k) == b.contains_key(k) by {
        if a.contains_key(k) {
            let h = choose|h: KadId| a[k].contains(h);
            assert(!(a[k] =~= Set::empty()));
            assert(lists(b, k, h));
        }
        if b.contains_key(k) {
            let h = choose|h: KadId| b[k].contains(h);
            assert(!(b[k] =~= Set::empty()));
            assert(lists(b, k, h));
        }
    }
    assert forall|k: KadId| a.contains_key(k) implies #[trigger] a[k] == b[k] by {
        assert forall|h: KadId| a[k].contains(h) == b[k].contains(h) by {
            assert(lists(a, k, h) == lists(b, k, h));
        }
        assert(a[k] =~= b[k]);
    }
    assert(a =~= b);
}

proof fn lemma_index_of(files: Map<KadId, RecordView>)
    ensures
        none_empty(index_of(files)),
        forall|k: KadId, h: KadId| #[trigger]
            lists(index_of(files), k, h) <==> found_under(files, h, k),
{
    let m = index_of(files);
    assert forall|k: KadId| #[trigger] m.contains_key(k) implies !(m[k] =~= Set::empty()) by {
        let h = choose|h: KadId| found_under(files, h, k);
        assert(m[k].contains(h));
    }
    assert forall|k: KadId, h: KadId| #[trigger] lists(m, k, h) <==> found_under(files, h, k) by {}
}

/// The index without a file under some keywords.
spec fn unlisted(m: Map<KadId, Set<KadId>>, ids: Seq<KadId>, h: KadId) -> Map<KadId, Set<KadId>>
    decreases ids.len(),
{
    if ids.len() == 0 {
        m
    } else {
        without_element(unlisted(m, ids.drop_last(), h), ids.last(), h)
    }
}

proof fn lemma_unlisted(m: Map<KadId, Set<KadId>>, ids: Seq<KadId>, h: KadId)
    requires
        none_empty(m),
    ensures
        none_empty(unlisted(m, ids, h)),
        forall|k: KadId, x: KadId| #[trigger]
            lists(unlisted(m, ids, h), k, x) <==> lists(m, k, x) && !(x == h && ids.contains(k)),
    decreases ids.len(),
{
    if ids.len() > 0 {
        let rest = ids.drop_last();
        lemma_unlisted(m, rest, h);
        let n = unlisted(m, rest, h);
        let r = unlisted(m, ids, h);
        assert(ids =~= rest.push(ids.last()));
        lemma_push_contains(rest, ids.last());
        assert forall|k: KadId, x: KadId| #[trigger] lists(r, k, x) <==> lists(m, k, x) && !(x == h
            && ids.contains(k)) by {
            assert(lists(n, k, x) <==> lists(m, k, x) && !(x == h && rest.contains(k)));
            if k == ids.last() && n.contains_key(k) && n[k].remove(h) =~= Set::empty() {
                assert(!n[k].remove(h).contains(x));
            }
        }
    }
}

/// The index with a file under some keywords.
spec fn listed(m: Map<KadId, Set<KadId>>, ids: Seq<KadId>, h: KadId) -> Map<KadId, Set<KadId>>
    decreases ids.len(),
{
    if ids.len() == 0 {
        m
    } else {
        with_element(listed(m, ids.drop_last(), h), ids.last(), h)
    }
}

proof fn lemma_listed(m: Map<KadId, Set<KadId>>, ids: Seq<KadId>, h: KadId)
    requires
        none_empty(m),
    ensures
        none_empty(listed(m, ids, h)),
        forall|k: KadId, x: KadId| #[trigger]
            lists(listed(m, ids, h), k, x) <==> lists(m, k, x) || (x == h && ids.contains(k)),
    decreases ids.len(),
{
    if ids.len() > 0 {
        let rest = ids.drop_last();
        lemma_listed(m, rest, h);
        let n = listed(m, rest, h);
        let r = listed(m, ids, h);
        assert(ids =~= rest.push(ids.last()));
        lemma_push_contains(rest, ids.last());
        assert forall|k: KadId| #[trigger] r.contains_key(k) implies !(r[k] =~= Set::empty()) by {
            if k == ids.last() {
                assert(r[k].contains(h));
            } else {
                assert(n.contains_key(k));
            }
        }
        assert forall|k: KadId, x: KadId| #[trigger] lists(r, k, x) <==> lists(m, k, x) || (x == h
            && ids.contains(k)) by {
            assert(lists(n, k, x) <==> lists(m, k, x) || (x == h && rest.contains(k)));
        }
    }
}

/// Taking a file out from under its keywords leaves the index of the others.
proof fn lemma_index_without(files: Map<KadId, RecordView>, h: KadId)
    requires
        files.contains_key(h),
    ensures
        unlisted(index_of(files), word_ids(files[h].file.name), h) == index_of(files.remove(h)),
{
    let ids = word_ids(files[h].file.name);
    let m = index_of(files);
    let rest = files.remove(h);
    lemma_index_of(files);
    lemma_index_of(rest);
    lemma_unlisted(m, ids, h);
    let a = unlisted(m, ids, h);
    let b = index_of(rest);
    assert forall|k: KadId, x: KadId| lists(a, k, x) == #[trigger] lists(b, k, x) by {
        assert(lists(a, k, x) <==> lists(m, k, x) && !(x == h && ids.contains(k)));
        assert(lists(m, k, x) <==> found_under(files, x, k));
        assert(lists(b, k, x) <==> found_under(rest, x, k));
    }
    lemma_same_lists(a, b);
}

/// Putting a file under its keywords gives the index with it.
proof fn lemma_index_with(files: Map<KadId, RecordView>, h: KadId, r: RecordView)
    requires
        !files.contains_key(h),
    ensures
        r.file.keyword_publishable ==> listed(index_of(files), word_ids(r.file.name), h)
            == index_of(files.insert(h, r)),
        !r.file.keyword_publishable ==> index_of(files) == index_of(files.insert(h, r)),
{
    let ids = word_ids(r.file.name);
    let m = index_of(files);
    let more = files.insert(h, r);
    lemma_index_of(files);
    lemma_index_of(more);
    lemma_listed(m, ids, h);
    let b = index_of(more);
    if r.file.keyword_publishable {
        let a = listed(m, ids, h);
        assert forall|k: KadId, x: KadId| lists(a, k, x) == #[trigger] lists(b, k, x) by {
            assert(lists(a, k, x) <==> lists(m, k, x) || (x == h && ids.contains(k)));
            assert(lists(m, k, x) <==> found_under(files, x, k));
            assert(lists(b, k, x) <==> found_under(more, x, k));
        }
        lemma_same_lists(a, b);
    } else {
        assert forall|k: KadId, x: KadId| lists(m, k, x) == #[trigger] lists(b, k, x) by {
            assert(lists(m, k, x) <==> found_under(files, x, k));
            assert(lists(b, k, x) <==> found_under(more, x, k));
        }
        lemma_same_lists(m, b);
    }
}

// ---------------------------------------------------------------------------
// The manager
// ---------------------------------------------------------------------------
/// Publishes shared files.
pub struct PublishManager {
    pub local_id: KadId,
    pub user_hash: [u8; 16],
    pub tcp_port: u16,
    pub udp_port: u16,
    /// Our key in the overlay; all zeros where there is none.
    pub noise_pub: [u8; 32],
    pub firewalled: bool,
    pub use_extern_kad_port: bool,
    pub direct_udp_callback: bool,
    pub connect_options: u8,
    pub buddy_ip: u32,
    pub buddy_port: u16,
    pub buddy_id: Option<KadId>,
    pub records: KeyMap<KadId, PublishRecord>,
    pub keyword_records: KeyMap<KadId, KeywordRecord>,
    pub keyword_index: SetMap<KadId, KadId>,
    pub source_cursor: Option<KadId>,
    pub keyword_cursor: Option<KadId>,
}

pub open spec fn file_views(m: Map<KadId, PublishRecord>) -> Map<KadId, RecordView> {
    Map::new(|k: KadId| m.contains_key(k), |k: KadId| m[k]@)
}

pub open spec fn keyword_views(m: Map<KadId, KeywordRecord>) -> Map<KadId, KeywordView> {
    Map::new(|k: KadId| m.contains_key(k), |k: KadId| m[k]@)
}

impl View for PublishManager {
    type V = PublishView;

    open spec fn view(&self) -> PublishView {
        PublishView {
            files: file_views(self.records@),
            keywords: keyword_views(self.keyword_records@),
            index: self.keyword_index@,
            source_cursor: self.source_cursor,
            keyword_cursor: self.keyword_cursor,
        }
    }
}

proof fn lemma_file_views(m: Map<KadId, PublishRecord>)
    ensures
        file_views(m).dom() == m.dom(),
        forall|k: KadId, r: PublishRecord| #[trigger]
            file_views(m.insert(k, r)) == file_views(m).insert(k, r@),
        forall|k: KadId| #[trigger] file_views(m.remove(k)) == file_views(m).remove(k),
{
    assert(file_views(m).dom() =~= m.dom());
    assert forall|k: KadId, r: PublishRecord| #[trigger]
        file_views(m.insert(k, r)) == file_views(m).insert(k, r@) by {
        assert(file_views(m.insert(k, r)) =~= file_views(m).insert(k, r@));
    }
    assert forall|k: KadId| #[trigger] file_views(m.remove(k)) == file_views(m).remove(k) by {
        assert(file_views(m.remove(k)) =~= file_views(m).remove(k));
    }
}

proof fn lemma_keyword_views(m: Map<KadId, KeywordRecord>)
    ensures
        keyword_views(m).dom() == m.dom(),
        forall|k: KadId, r: KeywordRecord| #[trigger]
            keyword_views(m.insert(k, r)) == keyword_views(m).insert(k, r@),
        forall|k: KadId| #[trigger] keyword_views(m.remove(k)) == keyword_views(m).remove(k),
{
    assert(keyword_views(m).dom() =~= m.dom());
    assert forall|k: KadId, r: KeywordRecord| #[trigger]
        keyword_views(m.insert(k, r)) == keyword_views(m).insert(k, r@) by {
        assert(keyword_views(m.insert(k, r)) =~= keyword_views(m).insert(k, r@));
    }
    assert forall|k: KadId| #[trigger] keyword_views(m.remove(k)) == keyword_views(m).remove(k) by {
        assert(keyword_views(m.remove(k)) =~= keyword_views(m).remove(k));
    }
}

impl PublishManager {
    /// Whether what we tell of ourselves is the same.
    pub open spec fn same_node(&self, o: &PublishManager) -> bool {
        &&& self.local_id == o.local_id && self.user_hash == o.user_hash
        &&& self.tcp_port == o.tcp_port && self.udp_port == o.udp_port
        &&& self.noise_pub == o.noise_pub && self.firewalled == o.firewalled
        &&& self.use_extern_kad_port == o.use_extern_kad_port
        &&& self.direct_udp_callback == o.direct_udp_callback
        &&& self.connect_options == o.connect_options && self.buddy_ip == o.buddy_ip
        &&& self.buddy_port == o.buddy_port && self.buddy_id == o.buddy_id
    }

    pub fn new(local_id: KadId, user_hash: [u8; 16], tcp_port: u16, udp_port: u16) -> (r:
        PublishManager)
        ensures
            r@.wf(),
            r@.files == Map::<KadId, RecordView>::empty(),
            r@.keywords == Map::<KadId, KeywordView>::empty(),
            r@.source_cursor is None,
            r@.keyword_cursor is None,
            r.local_id == local_id,
            r.user_hash == user_hash,
            r.tcp_port == tcp_port,
            r.udp_port == udp_port,
            forall|i: int| 0 <= i < 32 ==> r.noise_pub[i] == 0,
            !r.firewalled,
            !r.use_extern_kad_port,
            !r.direct_udp_callback,
            r.connect_options == 0,
            r.buddy_ip == 0,
            r.buddy_port == 0,
            r.buddy_id is None,
    {
        let r = PublishManager {
            local_id,
            user_hash,
            tcp_port,
            udp_port,
            noise_pub: [0u8; 32],
            firewalled: false,
            use_extern_kad_port: false,
            direct_udp_callback: false,
            connect_options: 0,
            buddy_ip: 0,
            buddy_port: 0,
            buddy_id: None,
            records: KeyMap::new(),
            keyword_records: KeyMap::new(),
            keyword_index: SetMap::new(),
            source_cursor: None,
            keyword_cursor: None,
        };
        proof {
            assert(r@.files =~= Map::empty());
            assert(r@.keywords =~= Map::empty());
            assert(index_of(r@.files) =~= Map::empty());
        }
        r
    }

    /// Takes a file out from under the keywords of its name.
    fn remove_file_from_keyword_index(&mut self, file_hash: KadId, file_name: &str)
        ensures
            final(self)@ == (PublishView {
                index: unlisted(old(self)@.index, word_ids(file_name@), file_hash),
                ..old(self)@
            }),
            final(self).same_node(old(self)),
            final(self)@.index.dom().finite(),
            final(self)@.index.dom().len() <= old(self)@.index.dom().len(),
    {
        let words = extract_keywords(file_name);
        let ghost ids = word_ids(file_name@);
        let ghost m = self.keyword_index@;
        let _ = self.keyword_index.len();
        let mut i: usize = 0;
        assert(ids.take(0) =~= Seq::<KadId>::empty());
        while i < words.len()
            invariant
                i <= words@.len(),
                ids == word_ids(file_name@),
                texts(words@) == keywords_of(file_name@),
                m == old(self)@.index,
                self@ == (PublishView {
                    index: unlisted(m, ids.take(i as int), file_hash),
                    ..old(self)@
                }),
                self.same_node(old(self)),
                self.keyword_index@.dom().finite(),
                self.keyword_index@.dom().len() <= m.dom().len(),
            decreases words@.len() - i,
        {
            let k = keyword_to_kad_id(words[i].as_str());
            proof {
                assert(texts(words@)[i as int] == words@[i as int]@);
                assert(ids[i as int] == k);
                assert(ids.take(i as int + 1).drop_last() =~= ids.take(i as int));
            }
            self.keyword_index.take(&k, &file_hash);
            i = i + 1;
        }
        assert(ids.take(i as int) =~= ids);
    }

    /// Puts a file under the keywords of its name, and notes those that are new.
    fn ensure_keyword_records_for_file(&mut self, file_hash: KadId, file_name: &str)
        requires
            old(self)@.index.dom().finite(),
            old(self)@.index.dom().len() + file_name@.len() + 1 < usize::MAX,
            old(self)@.keywords.dom().len() + file_name@.len() + 1 < usize::MAX,
        ensures
            final(self)@ == (PublishView {
                index: listed(old(self)@.index, word_ids(file_name@), file_hash),
                keywords: words_added(old(self)@.keywords, keywords_of(file_name@)),
                ..old(self)@
            }),
            final(self).same_node(old(self)),
            final(self)@.index.dom().finite(),
            final(self)@.keywords.dom().finite(),
            final(self)@.index.dom().len() <= old(self)@.index.dom().len() + file_name@.len() + 1,
            final(self)@.keywords.dom().len() <= old(self)@.keywords.dom().len()
                + file_name@.len() + 1,
    {
        let words = extract_keywords(file_name);
        let ghost all = keywords_of(file_name@);
        let ghost ids = word_ids(file_name@);
        let ghost v = self@;
        proof {
            lemma_keyword_count(file_name@);
            assert(texts(words@).len() == words@.len());
            lemma_keyword_views(self.keyword_records@);
        }
        let _ = self.keyword_records.len();
        let mut i: usize = 0;
        assert(ids.take(0) =~= Seq::<KadId>::empty());
        assert(all.take(0) =~= Seq::<Seq<char>>::empty());
        while i < words.len()
            invariant
                i <= words@.len(),
                words@.len() <= file_name@.len() + 1,
                ids == word_ids(file_name@),
                all == keywords_of(file_name@),
                texts(words@) == all,
                v == old(self)@,
                v.index.dom().len() + file_name@.len() + 1 < usize::MAX,
                v.keywords.dom().len() + file_name@.len() + 1 < usize::MAX,
                self@ == (PublishView {
                    index: listed(v.index, ids.take(i as int), file_hash),
                    keywords: words_added(v.keywords, all.take(i as int)),
                    ..v
                }),
                self.same_node(old(self)),
                self@.index.dom().finite(),
                self@.index.dom().len() <= v.index.dom().len() + i,
                self@.keywords.dom().finite(),
                self@.keywords.dom().len() <= v.keywords.dom().len() + i,
            decreases words@.len() - i,
        {
            let k = keyword_to_kad_id(words[i].as_str());
            let ghost before = self@;
            proof {
                assert(texts(words@)[i as int] == words@[i as int]@);
                assert(ids[i as int] == k);
                assert(all[i as int] == words@[i as int]@);
                assert(ids.take(i as int + 1).drop_last() =~= ids.take(i as int));
                assert(all.take(i as int + 1).drop_last() =~= all.take(i as int));
                lemma_keyword_views(self.keyword_records@);
            }
            if !self.keyword_records.contains_key(&k) {
                let record = KeywordRecord {
                    keyword: words[i].clone(),
                    last_publish: 0,
                    backoff_shift: 0,
                };
                self.keyword_records.insert(k, record);
            }
            self.keyword_index.put(k, file_hash);
            proof {
                assert(self@.keywords == words_added(v.keywords, all.take(i as int + 1)));
                assert(self@.index == listed(v.index, ids.take(i as int + 1), file_hash));
            }
            i = i + 1;
        }
        assert(ids.take(i as int) =~= ids);
        assert(all.take(i as int) =~= all);
    }

    /// Registers a file, or brings what is known of it up to date.
    pub fn add_file(&mut self, file: PublishableFile)
        requires
            old(self)@.wf(),
            old(self)@.files.dom().len() < usize::MAX,
            old(self)@.index.dom().len() + file.file_name@.len() + 1 < usize::MAX,
            old(self)@.keywords.dom().len() + file.file_name@.len() + 1 < usize::MAX,
        ensures
            final(self)@ == old(self)@.with_file(file@),
            final(self).same_node(old(self)),
            final(self)@.wf(),
            final(self)@.files.dom().len() <= old(self)@.files.dom().len() + 1,
            final(self)@.index.dom().len() <= old(self)@.index.dom().len() + file.file_name@.len()
                + 1,
            final(self)@.keywords.dom().len() <= old(self)@.keywords.dom().len()
                + file.file_name@.len() + 1,
    {
        let ghost v = self@;
        let h = file.file_hash;
        let ghost f = file@;
        let mut last: i64 = file.last_source_publish;
        proof {
            lemma_file_views(self.records@);
        }
        if let Some(old) = self.records.remove(&h) {
            if old.last_source_publish > last || last <= 0 {
                last = old.last_source_publish;
            }
            proof {
                lemma_index_without(v.files, h);
            }
            self.remove_file_from_keyword_index(h, old.file.file_name.as_str());
        } else {
            assert(v.files.remove(h) =~= v.files);
        }
        let ghost rest = v.files.remove(h);
        assert(self@.index == index_of(rest));
        assert(self@.files == rest);
        if file.keyword_publishable {
            self.ensure_keyword_records_for_file(h, file.file_name.as_str());
        }
        let record = PublishRecord { last_source_publish: last, file };
        proof {
            lemma_index_with(rest, h, record@);
            lemma_file_views(self.records@);
            assert(rest.insert(h, record@) =~= v.files.insert(h, record@));
            assert(rest.dom() =~= v.files.dom().remove(h));
        }
        self.records.insert(h, record);
        proof {
            let w = v.with_file(f);
            assert(self@.files =~= w.files);
            if f.keyword_publishable {
                lemma_words_added(v.keywords, keywords_of(f.name));
            }
            assert(self@.index == index_of(self@.files));
        }
    }

    /// Forgets a file.
    pub fn remove_file(&mut self, file_hash: &KadId)
        requires
            old(self)@.wf(),
        ensures
            final(self)@ == old(self)@.without_file(*file_hash),
            final(self).same_node(old(self)),
            final(self)@.wf(),
    {
        let ghost v = self@;
        proof {
            lemma_file_views(self.records@);
        }
        if let Some(old) = self.records.remove(file_hash) {
            proof {
                lemma_index_without(v.files, *file_hash);
            }
            self.remove_file_from_keyword_index(*file_hash, old.file.file_name.as_str());
        } else {
            assert(v.files.remove(*file_hash) =~= v.files);
        }
    }
    /// Registers several files.
    pub fn add_files_batch(&mut self, files: Vec<PublishableFile>)
        requires
            old(self)@.wf(),
            old(self)@.files.dom().len() + names_len(files@) < usize::MAX,
            old(self)@.index.dom().len() + names_len(files@) < usize::MAX,
            old(self)@.keywords.dom().len() + names_len(files@) < usize::MAX,
        ensures
            final(self)@ == with_files(old(self)@, files@),
            final(self).same_node(old(self)),
            final(self)@.wf(),
    {
        let ghost v = self@;
        let mut i: usize = 0;
        assert(files@.take(0) =~= Seq::<PublishableFile>::empty());
        while i < files.len()
            invariant
                i <= files@.len(),
                v == old(self)@,
                v.files.dom().len() + names_len(files@) < usize::MAX,
                v.index.dom().len() + names_len(files@) < usize::MAX,
                v.keywords.dom().len() + names_len(files@) < usize::MAX,
                self@ == with_files(v, files@.take(i as int)),
                self.same_node(old(self)),
                self@.wf(),
                self@.files.dom().len() <= v.files.dom().len() + names_len(files@.take(i as int)),
                self@.index.dom().len() <= v.index.dom().len() + names_len(files@.take(i as int)),
                self@.keywords.dom().len() <= v.keywords.dom().len() + names_len(
                    files@.take(i as int),
                ),
            decreases files@.len() - i,
        {
            proof {
                let next = files@.take(i as int + 1);
                assert(next.drop_last() =~= files@.take(i as int));
                assert(next.last() == files@[i as int]);
                lemma_names_len(files@, i as int + 1);
            }
            let file = files[i].duplicate();
            self.add_file(file);
            i = i + 1;
        }
        assert(files@.take(i as int) =~= files@);
    }

    /// Keeps only the files of a list. What is known of those stays.
    pub fn retain_files(&mut self, keep: &[KadId])
        requires
            old(self)@.wf(),
        ensures
            final(self)@ == old(self)@.only(keep@.to_set()),
            final(self).same_node(old(self)),
            final(self)@.wf(),
    {
        let ghost v = self@;
        let ghost kept = keep@.to_set();
        let wanted = list_set(keep);
        let hashes = self.records.keys();
        let mut i: usize = 0;
        proof {
            lemma_file_views(self.records@);
        }
        while i < hashes.len()
            invariant
                i <= hashes@.len(),
                v == old(self)@,
                kept == keep@.to_set(),
                forall|h: KadId| #[trigger] hashes@.contains(h) <==> v.files.contains_key(h),
                forall|h: KadId| #[trigger] wanted@.contains_key(h) <==> kept.contains(h),
                self@.wf(),
                self.same_node(old(self)),
                self@.keywords == v.keywords,
                self@.source_cursor == v.source_cursor,
                self@.keyword_cursor == v.keyword_cursor,
                forall|h: KadId| #[trigger]
                    self@.files.contains_key(h) ==> v.files.contains_key(h) && self@.files[h]
                        == v.files[h],
                forall|h: KadId|
                    v.files.contains_key(h) && kept.contains(h)
                        ==> #[trigger] self@.files.contains_key(h),
                forall|j: int|
                    0 <= j < i && !kept.contains(#[trigger] hashes@[j])
                        ==> !self@.files.contains_key(hashes@[j]),
            decreases hashes@.len() - i,
        {
            let h = hashes[i];
            if !wanted.contains_key(&h) {
                self.remove_file(&h);
            }
            i = i + 1;
        }
        let ghost files = v.files.restrict(kept);
        proof {
            assert forall|h: KadId| self@.files.contains_key(h) <==> files.contains_key(h) by {
                if v.files.contains_key(h) && !kept.contains(h) {
                    assert(hashes@.contains(h));
                    let j = choose|j: int| 0 <= j < hashes@.len() && hashes@[j] == h;
                    assert(!self@.files.contains_key(hashes@[j]));
                }
            }
            assert forall|h: KadId| #[trigger] files.contains_key(h) implies self@.files[h]
                == files[h] by {
                assert(self@.files.contains_key(h));
            }
            assert(self@.files.dom() =~= files.dom());
            assert(self@.files =~= files);
        }
        self.prune_keywords();
    }

    /// Whether a keyword is one of some file that is found under it.
    fn keyword_is_live(&self, keyword: &str) -> (r: bool)
        requires
            self@.wf(),
        ensures
            r == PublishView::is_live(self@.files, keyword@),
    {
        let k = keyword_to_kad_id(keyword);
        let ghost files = self@.files;
        proof {
            lemma_index_of(files);
        }
        match self.keyword_index.members(&k) {
            Some(hashes) => {
                let mut i: usize = 0;
                while i < hashes.len()
                    invariant
                        i <= hashes@.len(),
                        self@.wf(),
                        files == self@.files,
                        hashes@.to_set() == self@.index[k],
                        self@.index.contains_key(k),
                        forall|k: KadId, h: KadId| #[trigger]
                            lists(index_of(files), k, h) <==> found_under(files, h, k),
                        forall|j: int|
                            0 <= j < i ==> !keywords_of(
                                files[#[trigger] hashes@[j]].file.name,
                            ).contains(keyword@),
                    decreases hashes@.len() - i,
                {
                    let h = hashes[i];
                    proof {
                        assert(hashes@.to_set().contains(hashes@[i as int]));
                        assert(lists(self@.index, k, h));
                        assert(found_under(files, h, k));
                    }
                    if let Some(record) = self.records.get(&h) {
                        let words = extract_keywords(record.file.file_name.as_str());
                        if has_text(&words, keyword) {
                            assert(files.contains_key(h));
                            return true;
                        }
                    }
                    i = i + 1;
                }
                proof {
                    assert forall|h: KadId| #[trigger] files.contains_key(h)
                        && files[h].file.keyword_publishable implies !keywords_of(
                        files[h].file.name,
                    ).contains(keyword@) by {
                        if keywords_of(files[h].file.name).contains(keyword@) {
                            lemma_word_id(files[h].file.name, keyword@);
                            assert(found_under(files, h, k));
                            assert(lists(self@.index, k, h));
                            assert(hashes@.to_set().contains(h));
                            let j = choose|j: int| 0 <= j < hashes@.len() && hashes@[j] == h;
                            assert(!keywords_of(files[hashes@[j]].file.name).contains(keyword@));
                        }
                    }
                }
                false
            },
            None => {
                proof {
                    assert forall|h: KadId| #[trigger] files.contains_key(h)
                        && files[h].file.keyword_publishable implies !keywords_of(
                        files[h].file.name,
                    ).contains(keyword@) by {
                        if keywords_of(files[h].file.name).contains(keyword@) {
                            lemma_word_id(files[h].file.name, keyword@);
                            assert(found_under(files, h, k));
                            assert(lists(self@.index, k, h));
                        }
                    }
                }
                false
            },
        }
    }

    /// Forgets the keywords that no file has any more.
    fn prune_keywords(&mut self)
        requires
            old(self)@.wf(),
        ensures
            final(self)@ == (PublishView {
                keywords: old(self)@.keywords.restrict(
                    Set::new(
                        |k: KadId|
                            PublishView::is_live(
                                old(self)@.files,
                                old(self)@.keywords[k].keyword,
                            ),
                    ),
                ),
                ..old(self)@
            }),
            final(self).same_node(old(self)),
            final(self)@.wf(),
    {
        let ghost v = self@;
        let keys = self.keyword_records.keys();
        let mut i: usize = 0;
        proof {
            lemma_keyword_views(self.keyword_records@);
        }
        while i < keys.len()
            invariant
                i <= keys@.len(),
                v == old(self)@,
                self@.wf(),
                self@ == (PublishView { keywords: self@.keywords, ..v }),
                self.same_node(old(self)),
                forall|k: KadId| #[trigger] keys@.contains(k) <==> v.keywords.contains_key(k),
                forall|k: KadId| #[trigger]
                    self@.keywords.contains_key(k) ==> v.keywords.contains_key(k)
                        && self@.keywords[k] == v.keywords[k],
                forall|k: KadId|
                    v.keywords.contains_key(k) && PublishView::is_live(
                        v.files,
                        v.keywords[k].keyword,
                    ) ==> #[trigger] self@.keywords.contains_key(k),
                forall|j: int|
                    0 <= j < i && !PublishView::is_live(
                        v.files,
                        v.keywords[#[trigger] keys@[j]].keyword,
                    ) ==> !self@.keywords.contains_key(keys@[j]),
            decreases keys@.len() - i,
        {
            let k = keys[i];
            proof {
                lemma_keyword_views(self.keyword_records@);
                assert(keys@.contains(k));
            }
            let gone = match self.keyword_records.get(&k) {
                Some(record) => !self.keyword_is_live(record.keyword.as_str()),
                None => false,
            };
            if gone {
                self.keyword_records.remove(&k);
            }
            i = i + 1;
        }
        proof {
            let want = v.keywords.restrict(
                Set::new(|k: KadId| PublishView::is_live(v.files, v.keywords[k].keyword)),
            );
            assert forall|k: KadId| self@.keywords.contains_key(k) <==> want.contains_key(k) by {
                if v.keywords.contains_key(k) {
                    assert(keys@.contains(k));
                    let j = choose|j: int| 0 <= j < keys@.len() && keys@[j] == k;
                    assert(keys@[j] == k);
                }
            }
            assert(self@.keywords =~= want);
        }
    }

    /// How many keywords have to be published now.
    pub fn keywords_needing_publish_count(&self) -> (r: usize)
        requires
            self@.wf(),
        ensures
            exists|now: i64|
                clock_time(now) && r == #[trigger] due_keywords(self@, now).len() && due_keywords(
                    self@,
                    now,
                ).finite(),
    {
        let now: i64 = utc_now();
        self.keywords_needing_publish_count_at(now)
    }

    /// How many keywords have to be published at a time.
    pub fn keywords_needing_publish_count_at(&self, now: i64) -> (r: usize)
        requires
            self@.wf(),
        ensures
            r == due_keywords(self@, now).len(),
            due_keywords(self@, now).finite(),
    {
        let keys = self.keyword_records.keys();
        let mut count: usize = 0;
        let ghost mut due = Seq::<KadId>::empty();
        let mut i: usize = 0;
        while i < keys.len()
            invariant
                i <= keys@.len(),
                self@.wf(),
                keys@.no_duplicates(),
                forall|k: KadId| #[trigger] keys@.contains(k) <==> self@.keywords.contains_key(k),
                count == due.len(),
                count <= i,
                due.no_duplicates(),
                forall|k: KadId| #[trigger]
                    due.contains(k) <==> keys@.take(i as int).contains(k) && self@.keyword_due(
                        k,
                        now,
                    ),
            decreases keys@.len() - i,
        {
            let k = keys[i];
            let ghost part = keys@.take(i as int);
            let ghost next = keys@.take(i as int + 1);
            proof {
                assert(keys@.contains(k));
                assert(next =~= part.push(k));
                lemma_push_contains(part, k);
                lemma_push_contains(due, k);
                assert(!part.contains(k)) by {
                    if part.contains(k) {
                        let j = choose|j: int| 0 <= j < part.len() && part[j] == k;
                        assert(keys@[j] == keys@[i as int]);
                    }
                }
            }
            if let Some(record) = self.keyword_records.get(&k) {
                let late = seconds_since(record.last_publish, now) > keyword_republish_interval(
                    record.backoff_shift,
                );
                if late && self.keyword_has_publishable_files(record.keyword.as_str()) {
                    count = count + 1;
                    proof {
                        lemma_push_distinct(due, k);
                        due = due.push(k);
                    }
                }
            }
            i = i + 1;
        }
        proof {
            assert(keys@.take(i as int) =~= keys@);
            assert(due.to_set() =~= due_keywords(self@, now)) by {
                assert forall|k: KadId| due.to_set().contains(k) <==> due_keywords(
                    self@,
                    now,
                ).contains(k) by {
                    assert(due.contains(k) <==> keys@.contains(k) && self@.keyword_due(k, now));
                }
            }
            due.unique_seq_to_set();
        }
        count
    }

    /// Whether some file is found under a keyword.
    fn keyword_has_publishable_files(&self, keyword: &str) -> (r: bool)
        ensures
            r == self@.index.contains_key(keyword_id(keyword@)),
    {
        let hash = keyword_to_kad_id(keyword);
        self.keyword_index.contains_key(&hash)
    }

    /// Whether any file is shared.
    pub fn has_publishable_files(&self) -> (r: bool)
        ensures
            r == (self@.files.dom().len() > 0),
    {
        proof {
            lemma_file_views(self.records@);
        }
        self.records.len() > 0
    }

    pub fn file_count(&self) -> (n: usize)
        ensures
            n == self@.files.dom().len(),
    {
        proof {
            lemma_file_views(self.records@);
        }
        self.records.len()
    }

    /// The files that have to be published now, in no particular order.
    pub fn files_needing_source_publish(&self) -> (r: Vec<&PublishableFile>)
        ensures
            exists|now: i64, order: Seq<KadId>|
                {
                    &&& order.no_duplicates()
                    &&& forall|h: KadId| #[trigger] order.contains(h) <==> self@.source_due(h, now)
                    &&& #[trigger] are_files(self@.files, order, list_views(r@))
                    &&& #[trigger] clock_time(now)
                },
    {
        let now: i64 = utc_now();
        self.files_needing_source_publish_at(now)
    }

    /// The files that have to be published at a time, in no particular order.
    pub fn files_needing_source_publish_at(&self, now: i64) -> (r: Vec<&PublishableFile>)
        ensures
            exists|order: Seq<KadId>|
                {
                    &&& order.no_duplicates()
                    &&& forall|h: KadId| #[trigger] order.contains(h) <==> self@.source_due(h, now)
                    &&& #[trigger] are_files(self@.files, order, list_views(r@))
                },
    {
        let keys = self.records.keys();
        let mut out: Vec<&PublishableFile> = Vec::new();
        let ghost mut order = Seq::<KadId>::empty();
        let mut i: usize = 0;
        while i < keys.len()
            invariant
                i <= keys@.len(),
                keys@.no_duplicates(),
                forall|k: KadId| #[trigger] keys@.contains(k) <==> self@.files.contains_key(k),
                order.no_duplicates(),
                are_files(self@.files, order, list_views(out@)),
                forall|k: KadId| #[trigger]
                    order.contains(k) <==> keys@.take(i as int).contains(k) && self@.source_due(
                        k,
                        now,
                    ),
            decreases keys@.len() - i,
        {
            let k = keys[i];
            let ghost part = keys@.take(i as int);
            let ghost next = keys@.take(i as int + 1);
            proof {
                assert(keys@.contains(k));
                assert(next =~= part.push(k));
                lemma_push_contains(part, k);
                lemma_push_contains(order, k);
                assert(!part.contains(k)) by {
                    if part.contains(k) {
                        let j = choose|j: int| 0 <= j < part.len() && part[j] == k;
                        assert(keys@[j] == keys@[i as int]);
                    }
                }
            }
            if let Some(record) = self.records.get(&k) {
                if seconds_since(record.last_source_publish, now) > REPUBLISH_SOURCE_SECS {
                    proof {
                        lemma_push_distinct(order, k);
                    }
                    let ghost before = list_views(out@);
                    out.push(&record.file);
                    proof {
                        assert(list_views(out@) =~= before.push(record.file@));
                        lemma_are_files_push(self@.files, order, before, k);
                        order = order.push(k);
                    }
                }
            }
            i = i + 1;
        }
        proof {
            assert(keys@.take(i as int) =~= keys@);
            assert forall|h: KadId| #[trigger] order.contains(h) <==> self@.source_due(h, now) by {
                assert(order.contains(h) <==> keys@.contains(h) && self@.source_due(h, now));
            }
        }
        out
    }

    /// The files that are found under a keyword, in no particular order.
    pub fn files_for_keyword(&self, keyword_hash: &KadId) -> (r: Vec<&PublishableFile>)
        requires
            self@.wf(),
        ensures
            exists|order: Seq<KadId>|
                {
                    &&& order.no_duplicates()
                    &&& order.to_set() == set_at(self@.index, *keyword_hash)
                    &&& #[trigger] are_files(self@.files, order, list_views(r@))
                },
    {
        let mut out: Vec<&PublishableFile> = Vec::new();
        proof {
            lemma_index_of(self@.files);
        }
        if let Some(hashes) = self.keyword_index.members(keyword_hash) {
            let mut i: usize = 0;
            while i < hashes.len()
                invariant
                    i <= hashes@.len(),
                    self@.wf(),
                    self@.index.contains_key(*keyword_hash),
                    hashes@.to_set() == self@.index[*keyword_hash],
                    forall|k: KadId, h: KadId| #[trigger]
                        lists(index_of(self@.files), k, h) <==> found_under(self@.files, h, k),
                    are_files(self@.files, hashes@.take(i as int), list_views(out@)),
                decreases hashes@.len() - i,
            {
                let h = hashes[i];
                proof {
                    assert(hashes@.to_set().contains(hashes@[i as int]));
                    assert(lists(self@.index, *keyword_hash, h));
                    assert(found_under(self@.files, h, *keyword_hash));
                }
                if let Some(record) = self.records.get(&h) {
                    let ghost before = list_views(out@);
                    out.push(&record.file);
                    proof {
                        assert(list_views(out@) =~= before.push(record.file@));
                        assert(hashes@.take(i as int + 1) =~= hashes@.take(i as int).push(h));
                        lemma_are_files_push(self@.files, hashes@.take(i as int), before, h);
                    }
                }
                i = i + 1;
            }
            assert(hashes@.take(i as int) =~= hashes@);
            out
        } else {
            proof {
                let none = Seq::<KadId>::empty();
                assert(none.to_set() =~= Set::empty());
                assert(are_files(self@.files, none, list_views(out@)));
            }
            out
        }
    }

    /// The digests of the files that were published at least once.
    pub fn source_published_md4_hashes(&self) -> (r: Vec<[u8; 16]>)
        ensures
            forall|d: [u8; 16]| #[trigger]
                r@.contains(d) <==> (exists|h: KadId| #[trigger]
                    self@.files.contains_key(h) && self@.files[h].last_source_publish > 0 && d
                        == digest_of_id(h)),
    {
        let keys = self.records.keys();
        let mut out: Vec<[u8; 16]> = Vec::new();
        let mut i: usize = 0;
        while i < keys.len()
            invariant
                i <= keys@.len(),
                forall|k: KadId| #[trigger] keys@.contains(k) <==> self@.files.contains_key(k),
                forall|d: [u8; 16]| #[trigger]
                    out@.contains(d) ==> (exists|h: KadId| #[trigger]
                        self@.files.contains_key(h) && self@.files[h].last_source_publish > 0 && d
                            == digest_of_id(h)),
                forall|j: int|
                    0 <= j < i && self@.files[#[trigger] keys@[j]].last_source_publish > 0
                        ==> out@.contains(digest_of_id(keys@[j])),
            decreases keys@.len() - i,
        {
            let k = keys[i];
            assert(keys@.contains(k));
            if let Some(record) = self.records.get(&k) {
                if record.last_source_publish > 0 {
                    let ghost before = out@;
                    let d = kad_id_to_md4_bytes(&k);
                    out.push(d);
                    proof {
                        lemma_push_contains(before, d);
                        assert(self@.files.contains_key(k));
                    }
                }
            }
            i = i + 1;
        }
        proof {
            assert forall|d: [u8; 16]|
                (exists|h: KadId| #[trigger]
                    self@.files.contains_key(h) && self@.files[h].last_source_publish > 0 && d
                        == digest_of_id(h)) implies #[trigger] out@.contains(d) by {
                let h = choose|h: KadId| #[trigger]
                    self@.files.contains_key(h) && self@.files[h].last_source_publish > 0 && d
                        == digest_of_id(h);
                assert(keys@.contains(h));
                let j = choose|j: int| 0 <= j < keys@.len() && keys@[j] == h;
                assert(keys@[j] == h);
            }
        }
        out
    }
    // -- Turns -------------------------------------------------------------
    /// The file whose turn it is now, if it has to be published.
    pub fn next_source_candidate(&mut self) -> (r: Option<PublishableFile>)
        requires
            old(self)@.wf(),
        ensures
            exists|now: i64|
                #![trigger old(self)@.after_source_turn(now)]
                {
                    &&& clock_time(now)
                    &&& final(self)@ == old(self)@.after_source_turn(now).0
                    &&& match r {
                        Some(f) => old(self)@.after_source_turn(now).1 == Some(f@),
                        None => old(self)@.after_source_turn(now).1 is None,
                    }
                },
            final(self).same_node(old(self)),
            final(self)@.wf(),
    {
        let now: i64 = utc_now();
        self.next_source_candidate_at(now)
    }

    /// The file whose turn it is, if it has to be published.
    pub fn next_source_candidate_at(&mut self, now: i64) -> (r: Option<PublishableFile>)
        requires
            old(self)@.wf(),
        ensures
            final(self)@ == old(self)@.after_source_turn(now).0,
            match r {
                Some(f) => old(self)@.after_source_turn(now).1 == Some(f@),
                None => old(self)@.after_source_turn(now).1 is None,
            },
            final(self).same_node(old(self)),
            final(self)@.wf(),
    {
        proof {
            lemma_file_views(self.records@);
        }
        let next = match round_robin_next(&self.records, &mut self.source_cursor) {
            Some(k) => k,
            None => {
                return None;
            },
        };
        match self.records.get(&next) {
            Some(record) => if seconds_since(record.last_source_publish, now)
                > REPUBLISH_SOURCE_SECS {
                Some(record.file.duplicate())
            } else {
                None
            },
            None => None,
        }
    }

    /// The keyword whose turn it is now, if it has to be published.
    pub fn next_keyword_candidate(&mut self) -> (r: Option<KeywordPublishBatch>)
        requires
            old(self)@.wf(),
        ensures
            exists|now: i64|
                #![trigger old(self)@.after_keyword_turn(now)]
                {
                    &&& clock_time(now)
                    &&& final(self)@ == old(self)@.after_keyword_turn(now).0
                    &&& match r {
                        Some(b) => old(self)@.after_keyword_turn(now).1 == Some(b@),
                        None => old(self)@.after_keyword_turn(now).1 is None,
                    }
                },
            final(self).same_node(old(self)),
            final(self)@.wf(),
    {
        let now: i64 = utc_now();
        self.next_keyword_candidate_at(now)
    }

    /// The keyword whose turn it is, if it has to be published.
    pub fn next_keyword_candidate_at(&mut self, now: i64) -> (r: Option<KeywordPublishBatch>)
        requires
            old(self)@.wf(),
        ensures
            final(self)@ == old(self)@.after_keyword_turn(now).0,
            match r {
                Some(b) => old(self)@.after_keyword_turn(now).1 == Some(b@),
                None => old(self)@.after_keyword_turn(now).1 is None,
            },
            final(self).same_node(old(self)),
            final(self)@.wf(),
    {
        proof {
            lemma_keyword_views(self.keyword_records@);
        }
        let ghost v = self@;
        let next = match round_robin_next(&self.keyword_records, &mut self.keyword_cursor) {
            Some(k) => k,
            None => {
                return None;
            },
        };
        match self.keyword_records.get(&next) {
            Some(record) => {
                if seconds_since(record.last_publish, now) <= keyword_republish_interval(
                    record.backoff_shift,
                ) {
                    return None;
                }
                proof {
                    let u = self@;
                    assert(u.batch(next) == v.batch(next));
                }
                self.build_batch_for_keyword(next, record)
            },
            None => None,
        }
    }

    /// What is sent to publish a keyword: the files that are found under it,
    /// lowest first, in packets of fifty.
    fn build_batch_for_keyword(&self, keyword_hash: KadId, keyword_record: &KeywordRecord) -> (r:
        Option<KeywordPublishBatch>)
        requires
            self@.wf(),
            self@.keywords.contains_key(keyword_hash),
            keyword_record@ == self@.keywords[keyword_hash],
        ensures
            match r {
                Some(b) => self@.batch(keyword_hash) == Some(b@),
                None => self@.batch(keyword_hash) is None,
            },
    {
        let listed = match self.keyword_index.members(&keyword_hash) {
            Some(v) => copy_ids(v),
            None => {
                return None;
            },
        };
        let ghost files = self@.files;
        let selected = take_lowest(listed, MAX_FILES_PER_KEYWORD_PUBLISH);
        let ghost want = selected@.map_values(|h: KadId| keyword_entry(files[h].file));
        proof {
            lemma_index_of(files);
            lemma_lowest_members(self@.index[keyword_hash], MAX_FILES_PER_KEYWORD_PUBLISH as nat);
            assert forall|j: int| 0 <= j < selected@.len() implies files.contains_key(
                #[trigger] selected@[j],
            ) by {
                assert(selected@.contains(selected@[j]));
                assert(lists(self@.index, keyword_hash, selected@[j]));
                assert(found_under(files, selected@[j], keyword_hash));
            }
        }
        let mut entries: Vec<PublishEntry> = Vec::new();
        let mut i: usize = 0;
        while i < selected.len()
            invariant
                i <= selected@.len(),
                files == self@.files,
                want == selected@.map_values(|h: KadId| keyword_entry(files[h].file)),
                forall|j: int|
                    0 <= j < selected@.len() ==> files.contains_key(#[trigger] selected@[j]),
                entry_views(entries@) == want.take(i as int),
            decreases selected@.len() - i,
        {
            let ghost before = entries@;
            if let Some(record) = self.records.get(&selected[i]) {
                let entry = PublishManager::build_keyword_entry(&record.file);
                let ghost e = entry@;
                entries.push(entry);
                proof {
                    assert(entry_views(entries@) =~= entry_views(before).push(e));
                    assert(want.take(i as int + 1) =~= want.take(i as int).push(e));
                }
            }
            i = i + 1;
        }
        assert(want.take(i as int) =~= want);
        let messages = split_entries(keyword_hash, entries);
        Some(
            KeywordPublishBatch {
                keyword_hash,
                keyword: keyword_record.keyword.clone(),
                messages,
                file_hashes: selected,
            },
        )
    }

    /// A file as it is published under a keyword.
    fn build_keyword_entry(file: &PublishableFile) -> (r: PublishEntry)
        ensures
            r@ == keyword_entry(file@),
    {
        let complete_sources: u32 = if file.complete_sources > 1 {
            file.complete_sources
        } else {
            1
        };
        let mut tags: Vec<KadTag> = Vec::new();
        tags.push(
            KadTag {
                name: TagName::Id(TAG_FILENAME),
                value: TagValue::String(file.file_name.clone()),
            },
        );
        tags.push(
            KadTag { name: TagName::Id(TAG_FILESIZE), value: TagValue::Uint64(file.file_size) },
        );
        tags.push(
            KadTag {
                name: TagName::Id(TAG_FILETYPE),
                value: TagValue::String(file.file_type.clone()),
            },
        );
        tags.push(
            KadTag { name: TagName::Id(TAG_SOURCES), value: TagValue::Uint32(complete_sources) },
        );
        tags.push(
            KadTag {
                name: TagName::Id(TAG_COMPLETE_SOURCES),
                value: TagValue::Uint32(complete_sources),
            },
        );
        assert(tag_views(tags@) =~= keyword_entry(file@).tags);
        PublishEntry { id: file.file_hash, tags }
    }

    // -- What was published ------------------------------------------------
    /// Notes that a keyword was published now.
    pub fn mark_keyword_published(&mut self, keyword_hash: &KadId)
        requires
            old(self)@.wf(),
        ensures
            exists|now: i64|
                clock_time(now) && final(self)@ == #[trigger] old(self)@.keyword_published(
                    *keyword_hash,
                    now,
                ),
            final(self).same_node(old(self)),
            final(self)@.wf(),
    {
        let now: i64 = utc_now();
        self.mark_keyword_published_at(keyword_hash, now);
    }

    /// Notes that a keyword was published at a time.
    pub fn mark_keyword_published_at(&mut self, keyword_hash: &KadId, now: i64)
        requires
            old(self)@.wf(),
        ensures
            final(self)@ == old(self)@.keyword_published(*keyword_hash, now),
            final(self).same_node(old(self)),
            final(self)@.wf(),
    {
        proof {
            lemma_keyword_views(self.keyword_records@);
        }
        let shift: Option<u32> = match self.keyword_records.get(keyword_hash) {
            Some(record) => Some(record.backoff_shift),
            None => None,
        };
        if let Some(shift) = shift {
            self.set_keyword(keyword_hash, now, shift);
        }
    }

    /// Sets when a keyword was published, and how often its interval is doubled.
    fn set_keyword(&mut self, k: &KadId, last_publish: i64, backoff_shift: u32)
        requires
            old(self)@.wf(),
            backoff_shift <= MAX_BACKOFF_SHIFT,
        ensures
            final(self)@ == old(self)@.keyword_set(*k, last_publish, backoff_shift),
            final(self).same_node(old(self)),
            final(self)@.wf(),
    {
        let ghost v = self@;
        proof {
            lemma_keyword_views(self.keyword_records@);
        }
        let _ = self.keyword_records.len();
        if let Some(record) = self.keyword_records.remove(k) {
            proof {
                lemma_keyword_views(self.keyword_records@);
            }
            let keyword = record.keyword;
            self.keyword_records.insert(*k, KeywordRecord { keyword, last_publish, backoff_shift });
            assert(self@.keywords =~= v.keyword_set(*k, last_publish, backoff_shift).keywords);
        } else {
            assert(self@.keywords =~= v.keywords);
        }
    }

    /// Notes that a file was published now.
    pub fn mark_source_published(&mut self, file_hash: &KadId)
        requires
            old(self)@.wf(),
        ensures
            exists|now: i64|
                clock_time(now) && final(self)@ == #[trigger] old(self)@.source_set(
                    *file_hash,
                    now,
                ),
            final(self).same_node(old(self)),
            final(self)@.wf(),
    {
        let now: i64 = utc_now();
        self.set_source(file_hash, now);
    }

    /// Sets when a file was published.
    pub fn set_source(&mut self, file_hash: &KadId, last_source_publish: i64)
        requires
            old(self)@.wf(),
        ensures
            final(self)@ == old(self)@.source_set(*file_hash, last_source_publish),
            final(self).same_node(old(self)),
            final(self)@.wf(),
    {
        let ghost v = self@;
        proof {
            lemma_file_views(self.records@);
        }
        let _ = self.records.len();
        if let Some(record) = self.records.remove(file_hash) {
            proof {
                lemma_file_views(self.records@);
            }
            let file = record.file;
            self.records.insert(*file_hash, PublishRecord { file, last_source_publish });
            proof {
                assert(self@.files =~= v.source_set(*file_hash, last_source_publish).files);
                lemma_same_index(v.files, self@.files);
            }
        } else {
            assert(self@.files =~= v.files);
        }
    }

    /// A file has to be published again.
    pub fn reset_source_publish(&mut self, file_hash: &KadId)
        requires
            old(self)@.wf(),
        ensures
            final(self)@ == old(self)@.source_set(*file_hash, 0),
            final(self).same_node(old(self)),
            final(self)@.wf(),
    {
        self.set_source(file_hash, 0);
    }

    /// A keyword has to be published again.
    pub fn reset_keyword_target_publish(&mut self, keyword_hash: &KadId)
        requires
            old(self)@.wf(),
        ensures
            final(self)@ == old(self)@.keyword_set(*keyword_hash, 0, 0),
            final(self).same_node(old(self)),
            final(self)@.wf(),
    {
        self.set_keyword(keyword_hash, 0, 0);
    }

    /// All keywords of a file have to be published again.
    pub fn reset_keyword_publish(&mut self, file_hash: &KadId)
        requires
            old(self)@.wf(),
        ensures
            final(self)@ == if old(self)@.files.contains_key(*file_hash) {
                old(self)@.keywords_reset(word_ids(old(self)@.files[*file_hash].file.name))
            } else {
                old(self)@
            },
            final(self).same_node(old(self)),
            final(self)@.wf(),
    {
        let ghost v = self@;
        let words: Vec<String> = match self.records.get(file_hash) {
            Some(record) => extract_keywords(record.file.file_name.as_str()),
            None => {
                return;
            },
        };
        let ghost name = v.files[*file_hash].file.name;
        let ghost ids = word_ids(name);
        let mut i: usize = 0;
        assert(ids.take(0) =~= Seq::<KadId>::empty());
        while i < words.len()
            invariant
                i <= words@.len(),
                v == old(self)@,
                ids == word_ids(name),
                texts(words@) == keywords_of(name),
                self@ == v.keywords_reset(ids.take(i as int)),
                self.same_node(old(self)),
                self@.wf(),
            decreases words@.len() - i,
        {
            let k = keyword_to_kad_id(words[i].as_str());
            proof {
                assert(texts(words@)[i as int] == words@[i as int]@);
                assert(ids[i as int] == k);
                assert(ids.take(i as int + 1).drop_last() =~= ids.take(i as int));
            }
            self.set_keyword(&k, 0, 0);
            i = i + 1;
        }
        assert(ids.take(i as int) =~= ids);
    }

    /// Takes in how full a node is that took a keyword of ours.
    pub fn record_keyword_publish_load(&mut self, keyword_hash: &KadId, load: u8)
        requires
            old(self)@.wf(),
        ensures
            final(self)@ == old(self)@.load_noted(*keyword_hash, load),
            final(self).same_node(old(self)),
            final(self)@.wf(),
    {
        let (last, shift): (i64, u32) = match self.keyword_records.get(keyword_hash) {
            Some(record) => (record.last_publish, record.backoff_shift),
            None => {
                return;
            },
        };
        let ghost v = self@;
        if load >= 90 {
            let more: u32 = if shift >= MAX_BACKOFF_SHIFT {
                MAX_BACKOFF_SHIFT
            } else {
                shift + 1
            };
            self.set_keyword(keyword_hash, last, more);
        } else if load < 50 {
            self.set_keyword(keyword_hash, last, 0);
        }
    }

    // -- Sources -----------------------------------------------------------
    /// What we tell others about ourselves as a source of a file; nothing
    /// where nobody could reach us.
    pub open spec fn source_tags(&self, size: u64) -> Option<Seq<TagView>> {
        let ports = seq![
            TagView {
                name: TagNameView::Id(TAG_SOURCEPORT),
                value: TagValueView::Uint16(self.tcp_port),
            },
            TagView {
                name: TagNameView::Id(TAG_SOURCEUPORT),
                value: TagValueView::Uint16(self.udp_port),
            },
        ];
        let large = size > u32::MAX;
        let reach: Option<Seq<TagView>> = if !self.firewalled {
            Some(
                seq![
                    source_type(
                        if large {
                            4
                        } else {
                            1
                        },
                    ),
                ],
            )
        } else if self.direct_udp_callback {
            Some(seq![source_type(6)])
        } else if self.buddy_id is Some {
            Some(
                seq![
                    source_type(
                        if large {
                            5
                        } else {
                            3
                        },
                    ),
                    TagView {
                        name: TagNameView::Id(TAG_SERVERIP),
                        value: TagValueView::Uint32(self.buddy_ip),
                    },
                    TagView {
                        name: TagNameView::Id(TAG_SERVERPORT),
                        value: TagValueView::Uint16(self.buddy_port),
                    },
                    TagView {
                        name: TagNameView::Id(TAG_BUDDYHASH),
                        value: TagValueView::String(upper_hex(complement(self.local_id).0@)),
                    },
                ],
            )
        } else {
            None
        };
        let rest = seq![
            TagView { name: TagNameView::Id(TAG_FILESIZE), value: TagValueView::Uint64(size) },
            TagView {
                name: TagNameView::Id(TAG_ENCRYPTION),
                value: TagValueView::Uint8(self.connect_options),
            },
            TagView {
                name: TagNameView::Str("ember"@),
                value: TagValueView::Uint8(EMBER_CAP_RELAY_PUNCH_V1),
            },
        ];
        let key = if is_zero(self.noise_pub@) {
            Seq::empty()
        } else {
            seq![
                TagView {
                    name: TagNameView::Str(EMBER_NOISE_PUB_TAG@),
                    value: TagValueView::Bsob(self.noise_pub@),
                },
            ]
        };
        match reach {
            Some(r) => Some(ports + r + rest + key),
            None => None,
        }
    }

    /// The message that publishes us as a source of a file; none where nobody
    /// could reach us.
    pub fn build_source_publish(&self, file: &PublishableFile) -> (r: Option<KadMessage>)
        ensures
            match r {
                Some(m) => self.source_tags(file.file_size) is Some && m@
                    == (MessageView::PublishSourceReq {
                    target: file.file_hash,
                    sender_id: id_of_digest(self.user_hash@),
                    tags: self.source_tags(file.file_size)->Some_0,
                }),
                None => self.source_tags(file.file_size) is None,
            },
    {
        let mut tags: Vec<KadTag> = Vec::new();
        tags.push(
            KadTag { name: TagName::Id(TAG_SOURCEPORT), value: TagValue::Uint16(self.tcp_port) },
        );
        tags.push(
            KadTag { name: TagName::Id(TAG_SOURCEUPORT), value: TagValue::Uint16(self.udp_port) },
        );
        let large = file.file_size > u32::MAX as u64;
        if self.firewalled {
            if self.direct_udp_callback {
                tags.push(make_source_type(6));
            } else if self.buddy_id.is_some() {
                tags.push(
                    make_source_type(
                        if large {
                            5
                        } else {
                            3
                        },
                    ),
                );
                tags.push(
                    KadTag {
                        name: TagName::Id(TAG_SERVERIP),
                        value: TagValue::Uint32(self.buddy_ip),
                    },
                );
                tags.push(
                    KadTag {
                        name: TagName::Id(TAG_SERVERPORT),
                        value: TagValue::Uint16(self.buddy_port),
                    },
                );
                let inverse = invert(&self.local_id);
                tags.push(
                    KadTag {
                        name: TagName::Id(TAG_BUDDYHASH),
                        value: TagValue::String(encode_upper(&inverse.0)),
                    },
                );
            } else {
                return None;
            }
        } else {
            tags.push(
                make_source_type(
                    if large {
                        4
                    } else {
                        1
                    },
                ),
            );
        }
        tags.push(
            KadTag { name: TagName::Id(TAG_FILESIZE), value: TagValue::Uint64(file.file_size) },
        );
        tags.push(
            KadTag {
                name: TagName::Id(TAG_ENCRYPTION),
                value: TagValue::Uint8(self.connect_options),
            },
        );
        tags.push(
            KadTag {
                name: TagName::Str("ember".to_string()),
                value: TagValue::Uint8(EMBER_CAP_RELAY_PUNCH_V1),
            },
        );
        if !all_zero(&self.noise_pub) {
            let key = copy_key(&self.noise_pub);
            tags.push(
                KadTag {
                    name: TagName::Str(EMBER_NOISE_PUB_TAG.to_string()),
                    value: TagValue::Bsob(key),
                },
            );
        }
        assert(tag_views(tags@) =~= self.source_tags(file.file_size)->Some_0);
        let sender_id = md4_bytes_to_kad_id(&self.user_hash);
        Some(KadMessage::PublishSourceReq { target: file.file_hash, sender_id, tags })
    }
}

/// A name has no more keywords than it can have parts.
proof fn lemma_keyword_count(name: Seq<char>)
    ensures
        keywords_of(name).len() <= name.len() + 1,
{
    lemma_part_count(name);
    lemma_gathered_count(crate::kad::keywords::lowered(crate::kad::keywords::parts_of(name)));
}

proof fn lemma_part_count(s: Seq<char>)
    ensures
        0 < crate::kad::keywords::parts_of(s).len() <= s.len() + 1,
    decreases s.len(),
{
    if s.len() > 0 {
        lemma_part_count(s.drop_last());
    }
}

proof fn lemma_gathered_count(parts: Seq<(Seq<char>, Seq<char>)>)
    ensures
        crate::kad::keywords::gathered(parts).0.len() <= parts.len(),
    decreases parts.len(),
{
    if parts.len() > 0 {
        lemma_gathered_count(parts.drop_last());
    }
}

proof fn lemma_words_added(m: Map<KadId, KeywordView>, words: Seq<Seq<char>>)
    requires
        forall|k: KadId| #[trigger]
            m.contains_key(k) ==> keyword_id(m[k].keyword) == k && m[k].backoff_shift
                <= MAX_BACKOFF_SHIFT,
    ensures
        forall|k: KadId| #[trigger]
            words_added(m, words).contains_key(k) ==> keyword_id(words_added(m, words)[k].keyword)
                == k && words_added(m, words)[k].backoff_shift <= MAX_BACKOFF_SHIFT,
        forall|k: KadId| #[trigger]
            m.contains_key(k) ==> words_added(m, words).contains_key(k) && words_added(m, words)[k]
                == m[k],
    decreases words.len(),
{
    if words.len() > 0 {
        lemma_words_added(m, words.drop_last());
        let n = words_added(m, words.drop_last());
        let r = words_added(m, words);
        assert forall|k: KadId| #[trigger] r.contains_key(k) implies keyword_id(r[k].keyword) == k
            && r[k].backoff_shift <= MAX_BACKOFF_SHIFT by {
            if k != keyword_id(words.last()) || n.contains_key(k) {
                assert(n.contains_key(k));
            }
        }
    }
}

/// How many files and how many characters in their names, and one more for each.
pub open spec fn names_len(files: Seq<PublishableFile>) -> nat
    decreases files.len(),
{
    if files.len() == 0 {
        0
    } else {
        names_len(files.drop_last()) + files.last().file_name@.len() + 2
    }
}

proof fn lemma_names_len(files: Seq<PublishableFile>, n: int)
    requires
        0 <= n <= files.len(),
    ensures
        names_len(files.take(n)) <= names_len(files),
    decreases files.len(),
{
    if n == files.len() {
        assert(files.take(n) =~= files);
    } else {
        lemma_names_len(files.drop_last(), n);
        assert(files.drop_last().take(n) =~= files.take(n));
    }
}

/// Several files registered.
pub open spec fn with_files(v: PublishView, files: Seq<PublishableFile>) -> PublishView
    decreases files.len(),
{
    if files.len() == 0 {
        v
    } else {
        with_files(v, files.drop_last()).with_file(files.last()@)
    }
}

/// The keywords that have to be published at a time.
pub open spec fn due_keywords(v: PublishView, now: i64) -> Set<KadId> {
    Set::new(|k: KadId| v.keyword_due(k, now))
}

pub open spec fn list_views(list: Seq<&PublishableFile>) -> Seq<FileView> {
    list.map_values(|f: &PublishableFile| f@)
}

/// Whether a list holds the files of some identifiers, in their order.
pub open spec fn are_files(
    files: Map<KadId, RecordView>,
    order: Seq<KadId>,
    list: Seq<FileView>,
) -> bool {
    &&& list.len() == order.len()
    &&& forall|i: int| 0 <= i < order.len() ==> files.contains_key(#[trigger] order[i])
    &&& forall|i: int| 0 <= i < list.len() ==> #[trigger] list[i] == files[order[i]].file
}

proof fn lemma_are_files_push(
    files: Map<KadId, RecordView>,
    order: Seq<KadId>,
    list: Seq<FileView>,
    k: KadId,
)
    requires
        are_files(files, order, list),
        files.contains_key(k),
    ensures
        are_files(files, order.push(k), list.push(files[k].file)),
{
}

proof fn lemma_push_distinct<T>(s: Seq<T>, e: T)
    requires
        s.no_duplicates(),
        !s.contains(e),
    ensures
        s.push(e).no_duplicates(),
{
}

fn list_set(keep: &[KadId]) -> (r: KeyMap<KadId, ()>)
    ensures
        forall|h: KadId| #[trigger] r@.contains_key(h) <==> keep@.to_set().contains(h),
{
    let mut out: KeyMap<KadId, ()> = KeyMap::new();
    let mut i: usize = 0;
    assert(out@.dom() =~= Set::empty());
    while i < keep.len()
        invariant
            i <= keep@.len(),
            out@.dom().finite(),
            out@.dom().len() <= i,
            forall|h: KadId| #[trigger] out@.contains_key(h) <==> keep@.take(i as int).contains(h),
        decreases keep@.len() - i,
    {
        let h = keep[i];
        proof {
            assert(keep@.take(i as int + 1) =~= keep@.take(i as int).push(h));
            lemma_push_contains(keep@.take(i as int), h);
        }
        out.insert(h, ());
        i = i + 1;
    }
    assert(keep@.take(i as int) =~= keep@);
    out
}

proof fn lemma_word_id(name: Seq<char>, word: Seq<char>)
    requires
        keywords_of(name).contains(word),
    ensures
        word_ids(name).contains(keyword_id(word)),
{
    let j = choose|j: int| 0 <= j < keywords_of(name).len() && keywords_of(name)[j] == word;
    assert(word_ids(name)[j] == keyword_id(word));
}

impl PublishView {
    /// The turn of a file, and the file if it has to be published.
    pub open spec fn after_source_turn(self, now: i64) -> (PublishView, Option<FileView>) {
        let next = next_turn(self.files.dom(), self.source_cursor);
        (
            PublishView { source_cursor: next, ..self },
            match next {
                Some(h) => if self.source_due(h, now) {
                    Some(self.files[h].file)
                } else {
                    None
                },
                None => None,
            },
        )
    }

    /// The turn of a keyword, and what is sent if it has to be published.
    pub open spec fn after_keyword_turn(self, now: i64) -> (PublishView, Option<BatchView>) {
        let next = next_turn(self.keywords.dom(), self.keyword_cursor);
        (
            PublishView { keyword_cursor: next, ..self },
            match next {
                Some(k) => if self.keyword_late(k, now) {
                    self.batch(k)
                } else {
                    None
                },
                None => None,
            },
        )
    }

    pub open spec fn keyword_set(self, k: KadId, last_publish: i64, backoff_shift: u32) -> PublishView {
        if self.keywords.contains_key(k) {
            PublishView {
                keywords: self.keywords.insert(
                    k,
                    KeywordView { last_publish, backoff_shift, ..self.keywords[k] },
                ),
                ..self
            }
        } else {
            self
        }
    }

    pub open spec fn keyword_published(self, k: KadId, now: i64) -> PublishView {
        self.keyword_set(k, now, self.keywords[k].backoff_shift)
    }

    pub open spec fn keywords_reset(self, ids: Seq<KadId>) -> PublishView
        decreases ids.len(),
    {
        if ids.len() == 0 {
            self
        } else {
            self.keywords_reset(ids.drop_last()).keyword_set(ids.last(), 0, 0)
        }
    }

    /// A node that is nearly full doubles the interval, one with room to spare
    /// sets it back.
    pub open spec fn load_noted(self, k: KadId, load: u8) -> PublishView {
        let r = self.keywords[k];
        if load >= 90 {
            self.keyword_set(
                k,
                r.last_publish,
                if r.backoff_shift >= MAX_BACKOFF_SHIFT {
                    MAX_BACKOFF_SHIFT
                } else {
                    (r.backoff_shift + 1) as u32
                },
            )
        } else if load < 50 {
            self.keyword_set(k, r.last_publish, 0)
        } else {
            self
        }
    }

    pub open spec fn source_set(self, h: KadId, last_source_publish: i64) -> PublishView {
        if self.files.contains_key(h) {
            PublishView {
                files: self.files.insert(h, RecordView { last_source_publish, ..self.files[h] }),
                ..self
            }
        } else {
            self
        }
    }
}

pub open spec fn source_type(t: u8) -> TagView {
    TagView { name: TagNameView::Id(TAG_SOURCETYPE), value: TagValueView::Uint8(t) }
}

fn make_source_type(t: u8) -> (r: KadTag)
    ensures
        r@ == source_type(t),
{
    KadTag { name: TagName::Id(TAG_SOURCETYPE), value: TagValue::Uint8(t) }
}

pub open spec fn is_zero(s: Seq<u8>) -> bool {
    forall|i: int| 0 <= i < s.len() ==> s[i] == 0
}

fn all_zero(a: &[u8; 32]) -> (r: bool)
    ensures
        r == is_zero(a@),
{
    let mut i: usize = 0;
    while i < 32
        invariant
            i <= 32,
            forall|j: int| 0 <= j < i ==> a@[j] == 0,
        decreases 32 - i,
    {
        if a[i] != 0 {
            assert(a@[i as int] != 0);
            return false;
        }
        i = i + 1;
    }
    true
}

fn copy_key(a: &[u8; 32]) -> (r: Vec<u8>)
    ensures
        r@ == a@,
{
    let mut out: Vec<u8> = Vec::new();
    put_bytes(&mut out, a);
    assert(out@ =~= a@);
    out
}

fn copy_ids(v: &Vec<KadId>) -> (r: Vec<KadId>)
    ensures
        r@ == v@,
{
    let mut out: Vec<KadId> = Vec::new();
    let mut i: usize = 0;
    while i < v.len()
        invariant
            i <= v@.len(),
            out@ == v@.take(i as int),
        decreases v@.len() - i,
    {
        out.push(v[i]);
        assert(out@ =~= v@.take(i as int + 1));
        i = i + 1;
    }
    assert(out@ =~= v@);
    out
}

/// Files in packets of fifty.
fn split_entries(target: KadId, entries: Vec<PublishEntry>) -> (r: Vec<KadMessage>)
    ensures
        message_views(r@) == in_packets(target, entry_views(entries@)),
    decreases entries@.len(),
{
    let ghost all = entry_views(entries@);
    if entries.len() == 0 {
        let r: Vec<KadMessage> = Vec::new();
        assert(message_views(r@) =~= Seq::empty());
        return r;
    }
    let mut first = entries;
    if first.len() <= MAX_FILES_PER_KEYWORD_PACKET {
        let mut r: Vec<KadMessage> = Vec::new();
        r.push(KadMessage::PublishKeyReq { target, entries: first });
        proof {
            let m = r@[0];
            lemma_key_message(m, target, first@);
            assert(message_views(r@) =~= in_packets(target, all));
        }
        return r;
    }
    let ghost whole = first@;
    let rest = first.split_off(MAX_FILES_PER_KEYWORD_PACKET);
    proof {
        assert(entry_views(first@) =~= all.take(MAX_FILES_PER_KEYWORD_PACKET as int));
        assert(entry_views(rest@) =~= all.skip(MAX_FILES_PER_KEYWORD_PACKET as int));
    }
    let mut tail = split_entries(target, rest);
    let mut r: Vec<KadMessage> = Vec::new();
    r.push(KadMessage::PublishKeyReq { target, entries: first });
    let ghost t = tail@;
    let ghost head = r@;
    r.append(&mut tail);
    proof {
        lemma_key_message(head[0], target, first@);
        assert(message_views(r@) =~= message_views(head) + message_views(t));
        assert(message_views(head) =~= seq![head[0]@]);
    }
    r
}

proof fn lemma_key_message(m: KadMessage, target: KadId, entries: Seq<PublishEntry>)
    requires
        m matches KadMessage::PublishKeyReq { target: t, entries: e } && t == target && e@
            == entries,
    ensures
        m@ == (MessageView::PublishKeyReq { target, entries: entry_views(entries) }),
{
    assert(m@->PublishKeyReq_entries =~= entry_views(entries));
}

proof fn lemma_lowest_members(s: Set<KadId>, n: nat)
    requires
        s.finite(),
    ensures
        forall|k: KadId| #[trigger] lowest(s, n).contains(k) ==> s.contains(k),
    decreases n,
{
    if n > 0 && !(s =~= Set::empty()) {
        assert(s.len() > 0) by {
            if s.len() == 0 {
                assert(s =~= Set::empty());
            }
        }
        lemma_least_exists(s);
        let m = least(s);
        lemma_lowest_members(s.remove(m), (n - 1) as nat);
        let rest = lowest(s.remove(m), (n - 1) as nat);
        assert forall|k: KadId| #[trigger] lowest(s, n).contains(k) implies s.contains(k) by {
            let l = lowest(s, n);
            assert(l == seq![m] + rest);
            let j = choose|j: int| 0 <= j < l.len() && l[j] == k;
            if j > 0 {
                assert(rest[j - 1] == k);
                assert(rest.contains(k));
            }
        }
    }
}

/// The index depends on names and on what is found by keyword alone.
proof fn lemma_same_index(a: Map<KadId, RecordView>, b: Map<KadId, RecordView>)
    requires
        forall|h: KadId| #[trigger] a.contains_key(h) == b.contains_key(h),
        forall|h: KadId| #[trigger] a.contains_key(h) ==> a[h].file == b[h].file,
    ensures
        index_of(a) == index_of(b),
{
    lemma_index_of(a);
    lemma_index_of(b);
    let (x, y) = (index_of(a), index_of(b));
    assert forall|k: KadId, h: KadId| lists(x, k, h) == #[trigger] lists(y, k, h) by {
        assert(lists(x, k, h) <==> found_under(a, h, k));
        assert(lists(y, k, h) <==> found_under(b, h, k));
        assert(a.contains_key(h) == b.contains_key(h));
    }
    lemma_same_lists(x, y);
}

// ---------------------------------------------------------------------------
// Laws
// ---------------------------------------------------------------------------
/// A file is found under a keyword exactly if it is complete and its name has
/// the keyword; after a change of its name it is not found under the old one.
pub proof fn lemma_found_by_name(v: PublishView, file: FileView, k: KadId)
    requires
        v.wf(),
    ensures
        set_at(v.with_file(file).index, k).contains(file.hash) <==> file.keyword_publishable
            && word_ids(file.name).contains(k),
{
    let files = v.with_file(file).files;
    lemma_index_of(files);
    assert(lists(index_of(files), k, file.hash) <==> found_under(files, file.hash, k));
}

/// A file that was removed is found under no keyword, and a keyword that only
/// it had is not listed any more.
pub proof fn lemma_removed_not_found(v: PublishView, h: KadId, k: KadId)
    requires
        v.wf(),
    ensures
        !set_at(v.without_file(h).index, k).contains(h),
        (forall|o: KadId| o != h ==> !found_under(v.files, o, k)) ==> !v.without_file(
            h,
        ).index.contains_key(k),
{
    let files = v.files.remove(h);
    lemma_index_of(files);
    assert(lists(index_of(files), k, h) <==> found_under(files, h, k));
    if forall|o: KadId| o != h ==> !found_under(v.files, o, k) {
        assert forall|o: KadId| !found_under(files, o, k) by {
            if found_under(files, o, k) {
                assert(found_under(v.files, o, k));
            }
        }
    }
}

/// Keeping only some files keeps what is known of them and of their keywords,
/// and forgets the keywords of the others.
pub proof fn lemma_retained(v: PublishView, keep: Set<KadId>, h: KadId, k: KadId)
    requires
        v.wf(),
    ensures
        v.files.contains_key(h) && keep.contains(h) ==> v.only(keep).files.contains_key(h)
            && v.only(keep).files[h] == v.files[h],
        !keep.contains(h) ==> !v.only(keep).files.contains_key(h),
        v.only(keep).keywords.contains_key(k) ==> v.only(keep).keywords[k] == v.keywords[k],
        v.only(keep).keywords.contains_key(k) <==> v.keywords.contains_key(k)
            && PublishView::is_live(v.only(keep).files, v.keywords[k].keyword),
{
}

/// Registering a file again keeps when its keywords were published.
pub proof fn lemma_readd_keeps_times(v: PublishView, file: FileView, k: KadId)
    requires
        v.wf(),
        v.keywords.contains_key(k),
    ensures
        v.with_file(file).keywords.contains_key(k),
        v.with_file(file).keywords[k] == v.keywords[k],
{
    lemma_words_added(v.keywords, keywords_of(file.name));
}

/// No packet holds more than fifty files, and no file is lost or doubled on
/// the way into packets.
pub proof fn lemma_packets_whole(target: KadId, entries: Seq<EntryView>)
    ensures
        unpacked(in_packets(target, entries)) == entries,
        forall|i: int|
            0 <= i < in_packets(target, entries).len() ==> {
                let m = #[trigger] in_packets(target, entries)[i];
                m is PublishKeyReq && 0 < m->PublishKeyReq_entries.len()
                    <= MAX_FILES_PER_KEYWORD_PACKET
            },
    decreases entries.len(),
{
    let p = in_packets(target, entries);
    if entries.len() == 0 {
        assert(unpacked(p) =~= entries);
    } else if entries.len() <= MAX_FILES_PER_KEYWORD_PACKET {
        reveal_with_fuel(unpacked, 2);
        assert(p.skip(1) =~= Seq::empty());
        assert(unpacked(p) =~= entries);
    } else {
        let n = MAX_FILES_PER_KEYWORD_PACKET as int;
        lemma_packets_whole(target, entries.skip(n));
        let q = in_packets(target, entries.skip(n));
        assert(p.skip(1) =~= q);
        assert(unpacked(p) == p[0]->PublishKeyReq_entries + unpacked(p.skip(1)));
        assert(entries.take(n) + entries.skip(n) =~= entries);
        assert forall|i: int| 0 <= i < p.len() implies {
            let m = #[trigger] p[i];
            m is PublishKeyReq && 0 < m->PublishKeyReq_entries.len()
                <= MAX_FILES_PER_KEYWORD_PACKET
        } by {
            if i > 0 {
                assert(p[i] == q[i - 1]);
            }
        }
    }
}

/// The files of some packets, in order.
pub open spec fn unpacked(packets: Seq<MessageView>) -> Seq<EntryView>
    decreases packets.len(),
{
    if packets.len() == 0 {
        Seq::empty()
    } else {
        packets[0]->PublishKeyReq_entries + unpacked(packets.skip(1))
    }
}

} // verus!
