//! Challenges for peers that are too old for a handshake: one request with a
//! random target, or one ping, per address; a matching answer proves the address.
use vstd::prelude::*;

use std::collections::{HashMap, VecDeque};

use super::messages::{KADEMLIA2_PING, KADEMLIA2_REQ};
use super::types::KadId;
use crate::net::Ipv4Addr;

verus! {

/// How long a challenge stands, in milliseconds.
pub const CHALLENGE_TTL_MS: u64 = 180000;

/// Challenges that stand at most.
pub const MAX_CHALLENGES: usize = 256;

/// A challenge that was sent and not answered yet.
#[derive(Clone, Copy, Debug)]
pub struct TrackChallenge {
    /// When it was sent, in milliseconds of a clock that never goes back.
    pub inserted_at: u64,
    /// Tells which record of the order belongs to it.
    pub seq: u64,
    pub contact_id: KadId,
    /// Zero for a ping, which any answer meets.
    pub challenge: KadId,
    pub opcode: u8,
}

/// The challenges that stand: one per address, and the order in which they were sent.
#[derive(Debug)]
pub struct LegacyChallengeTracker {
    challenges: HashMap<u32, TrackChallenge>,
    order: VecDeque<(u32, u64)>,
    next_seq: u64,
}

pub struct TrackerView {
    pub challenges: Map<u32, TrackChallenge>,
    pub order: Seq<(u32, u64)>,
    pub next_seq: u64,
}

impl View for LegacyChallengeTracker {
    type V = TrackerView;

    closed spec fn view(&self) -> TrackerView {
        TrackerView {
            challenges: self.challenges@,
            order: self.order@,
            next_seq: self.next_seq,
        }
    }
}

/// Whether a record of the order belongs to a challenge that still stands.
pub open spec fn is_current(m: Map<u32, TrackChallenge>, r: (u32, u64)) -> bool {
    m.contains_key(r.0) && m[r.0].seq == r.1
}

/// Whether a challenge is still within its time.
pub open spec fn is_fresh(c: TrackChallenge, now: u64) -> bool {
    now - c.inserted_at < CHALLENGE_TTL_MS
}

/// The number that was given out `d` records before the next one.
pub open spec fn nth_seq(next: u64, d: int) -> int {
    (next - d) % 0x1_0000_0000_0000_0000
}

impl TrackerView {
    /// What holds at a time `now`: there are no more records than allowed,
    /// each challenge has one, and they stand in the order in which the
    /// challenges were sent, none of them in the future, under numbers that
    /// were given out one after the other.
    pub open spec fn wf(self, now: u64) -> bool {
        &&& self.order.len() <= MAX_CHALLENGES
        &&& forall|k: u32| #[trigger]
            self.challenges.contains_key(k) ==> self.order.contains((k, self.challenges[k].seq))
                && self.challenges[k].inserted_at <= now
        &&& forall|i: int, j: int|
            #![trigger self.order[i], self.order[j]]
            0 <= i < j < self.order.len() && is_current(self.challenges, self.order[i])
                && is_current(self.challenges, self.order[j])
                ==> self.challenges[self.order[i].0].inserted_at
                <= self.challenges[self.order[j].0].inserted_at
        &&& forall|k: int|
            0 <= k < self.order.len() ==> (#[trigger] self.order[k]).1 == nth_seq(
                self.next_seq,
                self.order.len() - k,
            )
    }

    /// The challenges that still stand at `now`.
    pub open spec fn standing(self, now: u64) -> Map<u32, TrackChallenge> {
        Map::new(
            |k: u32| self.challenges.contains_key(k) && is_fresh(self.challenges[k], now),
            |k: u32| self.challenges[k],
        )
    }

    /// Without the records at the front whose challenges are answered,
    /// replaced or over.
    pub open spec fn expired(self, now: u64) -> TrackerView
        decreases self.order.len(),
    {
        if self.order.len() == 0 {
            self
        } else {
            let r = self.order[0];
            if !is_current(self.challenges, r) {
                (TrackerView { order: self.order.skip(1), ..self }).expired(now)
            } else if !is_fresh(self.challenges[r.0], now) {
                (TrackerView {
                    order: self.order.skip(1),
                    challenges: self.challenges.remove(r.0),
                    ..self
                }).expired(now)
            } else {
                self
            }
        }
    }

    /// With room for one more record: the oldest give way.
    pub open spec fn with_room(self) -> TrackerView
        decreases self.order.len(),
    {
        if self.order.len() < MAX_CHALLENGES {
            self
        } else {
            let r = self.order[0];
            (TrackerView {
                order: self.order.skip(1),
                challenges: if is_current(self.challenges, r) {
                    self.challenges.remove(r.0)
                } else {
                    self.challenges
                },
                ..self
            }).with_room()
        }
    }

    /// With one more challenge.
    pub open spec fn with_challenge(
        self,
        contact_id: KadId,
        challenge: KadId,
        ip: Ipv4Addr,
        opcode: u8,
        now: u64,
    ) -> TrackerView {
        TrackerView {
            order: self.order.push((ip.bits, self.next_seq)),
            challenges: self.challenges.insert(
                ip.bits,
                TrackChallenge {
                    inserted_at: now,
                    seq: self.next_seq,
                    contact_id,
                    challenge,
                    opcode,
                },
            ),
            next_seq: self.next_seq.wrapping_add(1),
        }
    }

    /// Whether an answer meets the challenge of an address.
    pub open spec fn answers(self, answer: KadId, ip: Ipv4Addr, opcode: u8) -> bool {
        &&& self.challenges.contains_key(ip.bits)
        &&& self.challenges[ip.bits].opcode == opcode
        &&& self.challenges[ip.bits].challenge == KadId::zero_spec()
            || self.challenges[ip.bits].challenge == answer
    }
}

/// Taking the first record off, with its challenge if it has one, keeps the order.
proof fn lemma_pop_wf(v: TrackerView, w: TrackerView, now: u64)
    requires
        v.wf(now),
        v.order.len() > 0,
        w.order == v.order.skip(1),
        w.next_seq == v.next_seq,
        w.challenges == (if is_current(v.challenges, v.order[0]) {
            v.challenges.remove(v.order[0].0)
        } else {
            v.challenges
        }),
    ensures
        w.wf(now),
{
    let r = v.order[0];
    assert forall|k: u32| #[trigger] w.challenges.contains_key(k) implies w.order.contains(
        (k, w.challenges[k].seq),
    ) && w.challenges[k].inserted_at <= now by {
        assert(v.challenges.contains_key(k));
        let x = (k, v.challenges[k].seq);
        let i = choose|i: int| 0 <= i < v.order.len() && v.order[i] == x;
        assert(i != 0) by {
            if i == 0 {
                assert(is_current(v.challenges, r));
            }
        }
        assert(w.order[i - 1] == x);
    }
    assert forall|i: int, j: int|
        #![trigger w.order[i], w.order[j]]
        0 <= i < j < w.order.len() && is_current(w.challenges, w.order[i]) && is_current(
            w.challenges,
            w.order[j],
        ) implies w.challenges[w.order[i].0].inserted_at
        <= w.challenges[w.order[j].0].inserted_at by {
        assert(w.order[i] == v.order[i + 1] && w.order[j] == v.order[j + 1]);
    }
    assert forall|k: int| 0 <= k < w.order.len() implies (#[trigger] w.order[k]).1 == nth_seq(
        w.next_seq,
        w.order.len() - k,
    ) by {
        assert(w.order[k] == v.order[k + 1]);
    }
}

/// Once what is over is gone, exactly the challenges within their time stand.
proof fn lemma_expired(v: TrackerView, now: u64)
    requires
        v.wf(now),
    ensures
        v.expired(now).wf(now),
        v.expired(now).challenges == v.standing(now),
        v.expired(now).next_seq == v.next_seq,
    decreases v.order.len(),
{
    if v.order.len() == 0 {
        assert forall|k: u32| !#[trigger] v.challenges.contains_key(k) by {
            if v.challenges.contains_key(k) {
                assert(v.order.contains((k, v.challenges[k].seq)));
            }
        }
        assert(v.challenges =~= v.standing(now));
    } else {
        let r = v.order[0];
        if !is_current(v.challenges, r) {
            let w = TrackerView { order: v.order.skip(1), ..v };
            lemma_pop_wf(v, w, now);
            lemma_expired(w, now);
        } else if !is_fresh(v.challenges[r.0], now) {
            let w = TrackerView {
                order: v.order.skip(1),
                challenges: v.challenges.remove(r.0),
                ..v
            };
            lemma_pop_wf(v, w, now);
            lemma_expired(w, now);
            assert(w.standing(now) =~= v.standing(now));
        } else {
            assert forall|k: u32| #[trigger] v.challenges.contains_key(k) implies is_fresh(
                v.challenges[k],
                now,
            ) by {
                let x = (k, v.challenges[k].seq);
                assert(v.order.contains(x));
                let i = choose|i: int| 0 <= i < v.order.len() && v.order[i] == x;
                if i > 0 {
                    assert(is_current(v.challenges, v.order[0]) && is_current(
                        v.challenges,
                        v.order[i],
                    ));
                }
            }
            assert(v.challenges =~= v.standing(now));
        }
    }
}

proof fn lemma_with_room(v: TrackerView, now: u64)
    requires
        v.wf(now),
    ensures
        v.with_room().wf(now),
        v.with_room().order.len() < MAX_CHALLENGES,
        v.with_room().challenges.submap_of(v.challenges),
        v.with_room().next_seq == v.next_seq,
    decreases v.order.len(),
{
    if v.order.len() >= MAX_CHALLENGES {
        let r = v.order[0];
        let w = TrackerView {
            order: v.order.skip(1),
            challenges: if is_current(v.challenges, r) {
                v.challenges.remove(r.0)
            } else {
                v.challenges
            },
            ..v
        };
        lemma_pop_wf(v, w, now);
        lemma_with_room(w, now);
    }
}

/// A challenge more keeps the order, and stands at the end of it.
proof fn lemma_with_challenge(
    v: TrackerView,
    contact_id: KadId,
    challenge: KadId,
    ip: Ipv4Addr,
    opcode: u8,
    now: u64,
)
    requires
        v.wf(now),
        v.order.len() < MAX_CHALLENGES,
    ensures
        v.with_challenge(contact_id, challenge, ip, opcode, now).wf(now),
{
    let w = v.with_challenge(contact_id, challenge, ip, opcode, now);
    let last = (ip.bits, v.next_seq);
    assert forall|k: u32| #[trigger] w.challenges.contains_key(k) implies w.order.contains(
        (k, w.challenges[k].seq),
    ) && w.challenges[k].inserted_at <= now by {
        if k == ip.bits {
            assert(w.order[w.order.len() - 1] == last);
        } else {
            assert(v.challenges.contains_key(k));
            let x = (k, v.challenges[k].seq);
            let i = choose|i: int| 0 <= i < v.order.len() && v.order[i] == x;
            assert(w.order[i] == x);
        }
    }
    assert forall|i: int, j: int|
        #![trigger w.order[i], w.order[j]]
        0 <= i < j < w.order.len() && is_current(w.challenges, w.order[i]) && is_current(
            w.challenges,
            w.order[j],
        ) implies w.challenges[w.order[i].0].inserted_at
        <= w.challenges[w.order[j].0].inserted_at by {
        if w.order[j].0 != ip.bits {
            assert(w.order[j] == v.order[j] && w.order[i] == v.order[i]);
            assert(v.order[i].1 == nth_seq(v.next_seq, v.order.len() - i));
            assert(v.order[i].1 != v.next_seq);
        } else {
            assert(w.challenges[w.order[i].0].inserted_at <= now);
        }
    }
    assert forall|k: int| 0 <= k < w.order.len() implies (#[trigger] w.order[k]).1 == nth_seq(
        w.next_seq,
        w.order.len() - k,
    ) by {
        if k < v.order.len() {
            assert(w.order[k] == v.order[k]);
            assert(v.order[k].1 == nth_seq(v.next_seq, v.order.len() - k));
        }
    }
}

proof fn lemma_removed_wf(v: TrackerView, ip: u32, now: u64)
    requires
        v.wf(now),
    ensures
        (TrackerView { challenges: v.challenges.remove(ip), ..v }).wf(now),
{
    let w = TrackerView { challenges: v.challenges.remove(ip), ..v };
    assert forall|i: int, j: int|
        #![trigger w.order[i], w.order[j]]
        0 <= i < j < w.order.len() && is_current(w.challenges, w.order[i]) && is_current(
            w.challenges,
            w.order[j],
        ) implies w.challenges[w.order[i].0].inserted_at
        <= w.challenges[w.order[j].0].inserted_at by {
        assert(is_current(v.challenges, v.order[i]) && is_current(v.challenges, v.order[j]));
    }
}

/// There are never more challenges than records, and so never more than allowed.
pub proof fn lemma_capped(v: TrackerView, now: u64)
    requires
        v.wf(now),
    ensures
        v.challenges.dom().finite(),
        v.challenges.dom().len() <= v.order.len() <= MAX_CHALLENGES,
{
    let ips = v.order.map_values(|r: (u32, u64)| r.0);
    assert forall|k: u32| v.challenges.dom().contains(k) implies #[trigger] ips.to_set().contains(
        k,
    ) by {
        assert(v.challenges.contains_key(k));
        let x = (k, v.challenges[k].seq);
        let i = choose|i: int| 0 <= i < v.order.len() && v.order[i] == x;
        assert(ips[i] == k);
    }
    assert(v.challenges.dom().subset_of(ips.to_set()));
    ips.lemma_cardinality_of_set();
    vstd::set_lib::lemma_len_subset(v.challenges.dom(), ips.to_set());
}

/// Time passing keeps a tracker in order.
pub proof fn lemma_later(v: TrackerView, now: u64, later: u64)
    requires
        v.wf(now),
        now <= later,
    ensures
        v.wf(later),
{
}

impl LegacyChallengeTracker {
    pub const OPCODE_REQ: u8 = KADEMLIA2_REQ;

    pub const OPCODE_PING: u8 = KADEMLIA2_PING;

    pub fn new() -> (r: LegacyChallengeTracker)
        ensures
            r@ == (TrackerView { challenges: Map::empty(), order: Seq::empty(), next_seq: 0 }),
            forall|now: u64| r@.wf(now),
    {
        broadcast use vstd::std_specs::hash::group_hash_axioms;

        let r = LegacyChallengeTracker {
            challenges: HashMap::new(),
            order: VecDeque::new(),
            next_seq: 0,
        };
        assert(r@.challenges =~= Map::empty());
        assert(r@.order =~= Seq::empty());
        r
    }

    /// How many challenges stand.
    pub fn len(&self) -> (n: usize)
        ensures
            n == self@.challenges.dom().len(),
    {
        broadcast use vstd::std_specs::hash::group_hash_axioms;

        self.challenges.len()
    }

    /// How many records the order has, those of answered challenges included.
    pub fn order_len(&self) -> (n: usize)
        ensures
            n == self@.order.len(),
    {
        self.order.len()
    }

    fn pop(&mut self) -> (r: (u32, u64))
        requires
            old(self)@.order.len() > 0,
        ensures
            r == old(self)@.order[0],
            final(self)@ == (TrackerView { order: old(self)@.order.skip(1), ..old(self)@ }),
    {
        let ghost o = self.order@;
        let r = self.order.pop_front().unwrap();
        assert(self.order@ =~= o.skip(1));
        r
    }

    fn expire(&mut self, now: u64)
        requires
            old(self)@.wf(now),
        ensures
            final(self)@ == old(self)@.expired(now),
            final(self)@.wf(now),
            final(self)@.challenges == old(self)@.standing(now),
    {
        broadcast use vstd::std_specs::hash::group_hash_axioms;

        let ghost v = self@;
        proof {
            lemma_expired(v, now);
        }
        while self.order.len() > 0
            invariant
                self@.wf(now),
                self@.expired(now) == v.expired(now),
            ensures
                self@ == v.expired(now),
            decreases self@.order.len(),
        {
            broadcast use vstd::std_specs::hash::group_hash_axioms;

            let ghost w = self@;
            let (ip, seq) = self.order[0];
            let found: Option<TrackChallenge> = match self.challenges.get(&ip) {
                Some(c) => Some(*c),
                None => None,
            };
            if let Some(c) = found {
                if c.seq == seq {
                    assert(w.challenges.contains_key(ip));
                    if now - c.inserted_at < CHALLENGE_TTL_MS {
                        break ;
                    }
                    self.challenges.remove(&ip);
                }
            }
            self.pop();
            proof {
                lemma_pop_wf(w, self@, now);
            }
        }
    }

    /// Whether a challenge stands for an address.
    pub fn has_active(&mut self, ip: Ipv4Addr, now: u64) -> (r: bool)
        requires
            old(self)@.wf(now),
        ensures
            r == (old(self)@.challenges.contains_key(ip.bits) && is_fresh(
                old(self)@.challenges[ip.bits],
                now,
            )),
            final(self)@ == old(self)@.expired(now),
            final(self)@.wf(now),
            final(self)@.challenges == old(self)@.standing(now),
    {
        broadcast use vstd::std_specs::hash::group_hash_axioms;

        self.expire(now);
        self.challenges.contains_key(&ip.bits)
    }

    /// Notes a challenge. One that stood for the address is replaced, and the
    /// oldest give way where there are too many.
    pub fn add(
        &mut self,
        contact_id: KadId,
        challenge: KadId,
        ip: Ipv4Addr,
        opcode: u8,
        now: u64,
    )
        requires
            old(self)@.wf(now),
        ensures
            final(self)@ == old(self)@.expired(now).with_room().with_challenge(
                contact_id,
                challenge,
                ip,
                opcode,
                now,
            ),
            final(self)@.wf(now),
    {
        broadcast use vstd::std_specs::hash::group_hash_axioms;

        self.expire(now);
        let ghost v = self@;
        proof {
            lemma_with_room(v, now);
        }
        while self.order.len() >= MAX_CHALLENGES
            invariant
                self@.wf(now),
                self@.with_room() == v.with_room(),
            decreases self@.order.len(),
        {
            broadcast use vstd::std_specs::hash::group_hash_axioms;

            let ghost w = self@;
            let (old_ip, old_seq) = self.pop();
            let current = match self.challenges.get(&old_ip) {
                Some(c) => c.seq == old_seq,
                None => false,
            };
            if current {
                self.challenges.remove(&old_ip);
            }
            proof {
                lemma_pop_wf(w, self@, now);
            }
        }
        proof {
            lemma_with_challenge(self@, contact_id, challenge, ip, opcode, now);
        }
        let seq: u64 = self.next_seq;
        self.next_seq = seq.wrapping_add(1);
        self.order.push_back((ip.bits, seq));
        self.challenges.insert(
            ip.bits,
            TrackChallenge { inserted_at: now, seq, contact_id, challenge, opcode },
        );
    }

    /// Takes an answer. If it meets the challenge of the address, the
    /// challenge is gone and the contact that it proves is returned; else the
    /// challenge stands.
    pub fn take_match(&mut self, challenge_id: &KadId, ip: Ipv4Addr, opcode: u8, now: u64) -> (r:
        Option<KadId>)
        requires
            old(self)@.wf(now),
        ensures
            final(self)@.wf(now),
            ({
                let v = old(self)@.expired(now);
                if v.answers(*challenge_id, ip, opcode) {
                    &&& r == Some(v.challenges[ip.bits].contact_id)
                    &&& final(self)@ == (TrackerView {
                        challenges: v.challenges.remove(ip.bits),
                        ..v
                    })
                } else {
                    r is None && final(self)@ == v
                }
            }),
            old(self)@.expired(now).challenges == old(self)@.standing(now),
    {
        broadcast use vstd::std_specs::hash::group_hash_axioms;

        self.expire(now);
        let ghost v = self@;
        let entry: TrackChallenge = match self.challenges.get(&ip.bits) {
            Some(c) => *c,
            None => {
                return None;
            },
        };
        if entry.opcode != opcode {
            return None;
        }
        if entry.challenge != KadId::zero() && entry.challenge != *challenge_id {
            return None;
        }
        self.challenges.remove(&ip.bits);
        proof {
            lemma_removed_wf(v, ip.bits, now);
        }
        Some(entry.contact_id)
    }
}

impl Default for LegacyChallengeTracker {
    fn default() -> (r: LegacyChallengeTracker)
        ensures
            r@ == (TrackerView { challenges: Map::empty(), order: Seq::empty(), next_seq: 0 }),
    {
        LegacyChallengeTracker::new()
    }
}

/// A challenge that was just noted stands, for that address alone with that
/// target; the right answer is taken once and never again.
pub proof fn lemma_challenge_once(
    v: TrackerView,
    contact_id: KadId,
    challenge: KadId,
    ip: Ipv4Addr,
    opcode: u8,
    now: u64,
    answer: KadId,
)
    requires
        v.wf(now),
    ensures
        ({
            let w = v.expired(now).with_room().with_challenge(
                contact_id,
                challenge,
                ip,
                opcode,
                now,
            );
            let x = w.expired(now);
            let y = TrackerView { challenges: x.challenges.remove(ip.bits), ..x };
            &&& x.challenges.contains_key(ip.bits)
            &&& x.challenges[ip.bits].contact_id == contact_id
            &&& x.answers(answer, ip, opcode) <==> challenge == KadId::zero_spec() || challenge
                == answer
            &&& !y.expired(now).answers(answer, ip, opcode)
        }),
{
    lemma_expired(v, now);
    let e = v.expired(now);
    lemma_with_room(e, now);
    let r = e.with_room();
    lemma_with_challenge(r, contact_id, challenge, ip, opcode, now);
    let w = r.with_challenge(contact_id, challenge, ip, opcode, now);
    lemma_expired(w, now);
    let x = w.expired(now);
    assert(x.challenges == w.standing(now));
    let y = TrackerView { challenges: x.challenges.remove(ip.bits), ..x };
    lemma_removed_wf(x, ip.bits, now);
    lemma_expired(y, now);
}

/// A challenge stands for three minutes after it was sent.
pub proof fn lemma_challenge_time(v: TrackerView, now: u64, ip: u32)
    requires
        v.wf(now),
    ensures
        v.expired(now).challenges.contains_key(ip) <==> v.challenges.contains_key(ip) && now
            - v.challenges[ip].inserted_at < 180000,
        v.expired(now).challenges.contains_key(ip) ==> v.expired(now).challenges[ip]
            == v.challenges[ip],
{
    lemma_expired(v, now);
}

/// A new challenge is noted with whom it was sent to, what it asks and when. Those
/// of other addresses stand as before, while there are fewer than 256; else the one
/// that was sent first gives way.
pub proof fn lemma_challenge_noted(
    v: TrackerView,
    contact_id: KadId,
    challenge: KadId,
    ip: Ipv4Addr,
    opcode: u8,
    now: u64,
    other: u32,
)
    requires
        v.wf(now),
    ensures
        ({
            let e = v.expired(now);
            let w = e.with_room().with_challenge(contact_id, challenge, ip, opcode, now);
            &&& w.order.len() <= 256
            &&& w.challenges.contains_key(ip.bits)
            &&& w.challenges[ip.bits].contact_id == contact_id
            &&& w.challenges[ip.bits].challenge == challenge
            &&& w.challenges[ip.bits].opcode == opcode
            &&& w.challenges[ip.bits].inserted_at == now
            &&& other != ip.bits && w.challenges.contains_key(other) ==> e.challenges.contains_key(
                other,
            ) && w.challenges[other] == e.challenges[other]
            &&& other != ip.bits && e.challenges.contains_key(other) && (e.order.len() < 256 || other
                != e.order[0].0) ==> w.challenges.contains_key(other)
        }),
{
    lemma_expired(v, now);
    let e = v.expired(now);
    lemma_with_room(e, now);
    if e.order.len() >= 256 {
        reveal_with_fuel(TrackerView::with_room, 2);
    }
}

/// An answer is that of a challenge if it comes from the address that was asked and
/// is of the same kind, and names the same target unless the challenge names none.
pub proof fn lemma_challenge_met(v: TrackerView, answer: KadId, ip: Ipv4Addr, opcode: u8)
    ensures
        v.answers(answer, ip, opcode) ==> v.challenges.contains_key(ip.bits),
        v.challenges.contains_key(ip.bits) ==> ({
            let c = v.challenges[ip.bits];
            &&& c.opcode != opcode ==> !v.answers(answer, ip, opcode)
            &&& c.opcode == opcode && c.challenge == answer ==> v.answers(answer, ip, opcode)
            &&& c.opcode == opcode && c.challenge == KadId::zero_spec() ==> v.answers(
                answer,
                ip,
                opcode,
            )
            &&& c.challenge != KadId::zero_spec() && c.challenge != answer ==> !v.answers(
                answer,
                ip,
                opcode,
            )
        }),
{
}

} // verus!
