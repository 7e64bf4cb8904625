//! An established session: sealed frames with explicit nonces, and the window
//! that keeps a frame from being taken twice.
//!
//! Datagrams get lost, reordered and repeated. Every frame carries its own
//! nonce, so a lost one harms no other; and a nonce counts as used only once
//! its frame has opened.
use vstd::prelude::*;

use crate::bytes::{le64, put_bytes, put_u64};
use crate::ember::eviction::Stamped;
use crate::ember::noise::{
    can_seal, open_message, opened_by, paired, seal_message, sealed, sending_key,
    MAX_NOISE_MESSAGE, TAG_LEN,
};

verus! {

/// The first two bytes of every packet of the overlay.
pub const EMBER_MAGIC: [u8; 2] = [0xEB, 0x3E];

pub const PKT_TRANSPORT: u8 = 0x10;

/// How many nonces behind the highest one are still told apart.
pub const REPLAY_WINDOW_BITS: u64 = 64;

/// A session with a peer.
pub struct NoiseSession {
    pub transport: snow::StatelessTransportState,
    pub remote_noise_pub: [u8; 32],
    pub last_activity: u64,
    pub ik_authenticated: bool,
    /// Whether the peer has shown that it receives at its address.
    pub addr_validated: bool,
    /// The nonce of a probe whose answer has not come yet.
    pub probe_nonce: Option<u64>,
    /// The nonce of the next frame that we send.
    pub send_nonce: u64,
    /// The highest nonce that was taken.
    pub recv_high: u64,
    /// Bit `i` tells whether the nonce `recv_high - i` was taken.
    pub recv_window: u64,
}

impl Stamped for NoiseSession {
    open spec fn stamp(self) -> u64 {
        self.last_activity
    }

    fn get_stamp(&self) -> (r: u64) {
        self.last_activity
    }
}

pub open spec fn bit_at(w: u64, i: u64) -> bool {
    w & (1u64 << i) != 0
}

/// The three bytes in front of a packet, and what follows.
pub open spec fn packet(kind: u8, body: Seq<u8>) -> Seq<u8> {
    seq![EMBER_MAGIC[0], EMBER_MAGIC[1], kind] + body
}

pub(crate) fn make_packet(kind: u8, body: &[u8]) -> (r: Vec<u8>)
    ensures
        r@ == packet(kind, body@),
{
    let mut out: Vec<u8> = Vec::new();
    out.push(EMBER_MAGIC[0]);
    out.push(EMBER_MAGIC[1]);
    out.push(kind);
    put_bytes(&mut out, body);
    assert(out@ =~= packet(kind, body@));
    out
}

impl NoiseSession {
    pub open spec fn fresh(
        transport: snow::StatelessTransportState,
        key: [u8; 32],
        ik_authenticated: bool,
        addr_validated: bool,
        now: u64,
    ) -> NoiseSession {
        NoiseSession {
            transport,
            remote_noise_pub: key,
            last_activity: now,
            ik_authenticated,
            addr_validated,
            probe_nonce: None,
            send_nonce: 0,
            recv_high: 0,
            recv_window: 0,
        }
    }

    /// A session whose peer has not shown yet that it receives at its address.
    pub fn new(
        transport: snow::StatelessTransportState,
        remote_noise_pub: [u8; 32],
        ik_authenticated: bool,
        now: u64,
    ) -> (r: NoiseSession)
        ensures
            r == NoiseSession::fresh(transport, remote_noise_pub, ik_authenticated, false, now),
    {
        NoiseSession {
            transport,
            remote_noise_pub,
            last_activity: now,
            ik_authenticated,
            addr_validated: false,
            probe_nonce: None,
            send_nonce: 0,
            recv_high: 0,
            recv_window: 0,
        }
    }

    /// The session with its peer's address proven.
    pub fn validated(self) -> (r: NoiseSession)
        ensures
            r == (NoiseSession { addr_validated: true, ..self }),
    {
        let mut s = self;
        s.addr_validated = true;
        s
    }

    // -- Sending -----------------------------------------------------------
    pub open spec fn can_send(self, len: nat) -> bool {
        can_seal(self.transport, self.send_nonce, len)
    }

    /// The frame that carries a message.
    pub open spec fn frame(self, message: Seq<u8>) -> Seq<u8> {
        packet(
            PKT_TRANSPORT,
            le64(self.send_nonce) + sealed(
                sending_key(self.transport)->Some_0,
                self.send_nonce,
                message,
            ),
        )
    }

    pub open spec fn after_frame(self) -> NoiseSession {
        NoiseSession { send_nonce: (self.send_nonce + 1) as u64, ..self }
    }

    /// What sending a message does, and the frame where one could be made.
    pub open spec fn sent(self, message: Seq<u8>) -> (NoiseSession, Option<Seq<u8>>) {
        if self.can_send(message.len()) {
            (self.after_frame(), Some(self.frame(message)))
        } else {
            (self, None)
        }
    }

    /// Seals a message into a frame.
    pub fn seal(&mut self, message: &[u8]) -> (r: Option<Vec<u8>>)
        ensures
            *final(self) == old(self).sent(message@).0,
            match r {
                Some(p) => old(self).sent(message@).1 == Some(p@),
                None => old(self).sent(message@).1 is None,
            },
            r is Some ==> old(self).round_trips(message@),
            r is Some ==> r->Some_0@.len() == message@.len() + 11 + TAG_LEN,
    {
        let nonce: u64 = self.send_nonce;
        let len: usize = if message.len() > MAX_NOISE_MESSAGE {
            MAX_NOISE_MESSAGE
        } else {
            message.len()
        };
        match seal_message(&self.transport, nonce, message, len + TAG_LEN) {
            Ok(sealed) => {
                let mut body: Vec<u8> = Vec::new();
                put_u64(&mut body, nonce);
                put_bytes(&mut body, sealed.as_slice());
                let out = make_packet(PKT_TRANSPORT, body.as_slice());
                assert(out@ =~= self.frame(message@));
                self.send_nonce = nonce + 1;
                Some(out)
            },
            Err(_) => None,
        }
    }

    /// Whether a session that receives under our sending key reads the frame
    /// of a message as that message.
    pub open spec fn round_trips(self, message: Seq<u8>) -> bool {
        forall|peer: snow::StatelessTransportState| #[trigger]
            paired(self.transport, peer) ==> opened_by(
                peer,
                self.send_nonce,
                sealed(sending_key(self.transport)->Some_0, self.send_nonce, message),
            ) == Some(message)
    }

    /// The session and its frames after a queue of messages; those that cannot
    /// be sealed are left out.
    pub open spec fn sent_all(self, queue: Seq<Seq<u8>>) -> (NoiseSession, Seq<Seq<u8>>)
        decreases queue.len(),
    {
        if queue.len() == 0 {
            (self, Seq::empty())
        } else {
            let (s, frames) = self.sent_all(queue.drop_last());
            let (t, frame) = s.sent(queue.last());
            (
                t,
                match frame {
                    Some(f) => frames.push(f),
                    None => frames,
                },
            )
        }
    }

    // -- Receiving ---------------------------------------------------------
    /// Whether a nonce was not taken and is not too old to tell.
    pub open spec fn accepts(self, nonce: u64) -> bool {
        nonce > self.recv_high || (self.recv_high - nonce < REPLAY_WINDOW_BITS && !bit_at(
            self.recv_window,
            (self.recv_high - nonce) as u64,
        ))
    }

    pub open spec fn noted(self, nonce: u64) -> NoiseSession {
        if nonce > self.recv_high {
            NoiseSession {
                recv_high: nonce,
                recv_window: if nonce - self.recv_high >= REPLAY_WINDOW_BITS {
                    1
                } else {
                    (self.recv_window << ((nonce - self.recv_high) as u64)) | 1
                },
                ..self
            }
        } else if self.recv_high - nonce < REPLAY_WINDOW_BITS {
            NoiseSession {
                recv_window: self.recv_window | (1u64 << ((self.recv_high - nonce) as u64)),
                ..self
            }
        } else {
            self
        }
    }

    /// Whether a nonce was not taken and is not too old to tell.
    pub fn replay_precheck(&self, nonce: u64) -> (r: bool)
        ensures
            r == self.accepts(nonce),
    {
        if nonce > self.recv_high {
            return true;
        }
        let diff: u64 = self.recv_high - nonce;
        if diff >= REPLAY_WINDOW_BITS {
            return false;
        }
        self.recv_window & (1u64 << diff) == 0
    }

    /// Takes a nonce. Afterwards it is not accepted any more; every other one
    /// is if it was before and has not fallen out of the window.
    pub fn replay_commit(&mut self, nonce: u64)
        ensures
            *final(self) == old(self).noted(nonce),
            forall|n: u64| #[trigger]
                final(self).accepts(n) <==> old(self).accepts(n) && n != nonce && n
                    + REPLAY_WINDOW_BITS > nonce,
    {
        proof {
            lemma_noted(*self, nonce);
        }
        if nonce > self.recv_high {
            let shift: u64 = nonce - self.recv_high;
            if shift >= REPLAY_WINDOW_BITS {
                self.recv_window = 1;
            } else {
                self.recv_window = (self.recv_window << shift) | 1;
            }
            self.recv_high = nonce;
        } else {
            let diff: u64 = self.recv_high - nonce;
            if diff < REPLAY_WINDOW_BITS {
                self.recv_window = self.recv_window | (1u64 << diff);
            }
        }
    }

    /// What a frame holds, if it is accepted and opens.
    pub open spec fn opens(self, nonce: u64, bytes: Seq<u8>) -> Option<Seq<u8>> {
        if self.accepts(nonce) {
            opened_by(self.transport, nonce, bytes)
        } else {
            None
        }
    }

    /// The session after a frame that opened. Only a peer that has read our
    /// answer at its address has the keys, so the address is proven.
    pub open spec fn after_opened(self, nonce: u64, now: u64) -> NoiseSession {
        NoiseSession { last_activity: now, addr_validated: true, ..self.noted(nonce) }
    }

    /// What a frame holds, if it is accepted and opens.
    pub fn open(&self, nonce: u64, bytes: &[u8]) -> (r: Option<Vec<u8>>)
        ensures
            match r {
                Some(m) => self.opens(nonce, bytes@) == Some(m@),
                None => self.opens(nonce, bytes@) is None,
            },
    {
        if !self.replay_precheck(nonce) {
            return None;
        }
        match open_message(&self.transport, nonce, bytes) {
            Ok(m) => Some(m),
            Err(_) => None,
        }
    }

    /// Notes that a frame has opened.
    pub fn note_opened(&mut self, nonce: u64, now: u64)
        ensures
            *final(self) == old(self).after_opened(nonce, now),
    {
        self.replay_commit(nonce);
        self.last_activity = now;
        self.addr_validated = true;
    }
}

proof fn lemma_shifted(w: u64, s: u64, i: u64)
    requires
        0 < s < 64,
        i < 64,
    ensures
        bit_at((w << s) | 1, i) == (i == 0 || (i >= s && bit_at(w, (i - s) as u64))),
{
    if i < s {
        assert((((w << s) | 1) & (1u64 << i) != 0) == (i == 0)) by (bit_vector)
            requires
                0 < s < 64,
                i < s,
        ;
    } else {
        let j: u64 = (i - s) as u64;
        assert((((w << s) | 1) & (1u64 << i) != 0) == (w & (1u64 << j) != 0)) by (bit_vector)
            requires
                0 < s < 64,
                s <= i < 64,
                j == i - s,
        ;
    }
}

proof fn lemma_set(w: u64, d: u64, i: u64)
    requires
        d < 64,
        i < 64,
    ensures
        bit_at(w | (1u64 << d), i) == (i == d || bit_at(w, i)),
{
    assert(((w | (1u64 << d)) & (1u64 << i) != 0) == (i == d || w & (1u64 << i) != 0))
        by (bit_vector)
        requires
            d < 64,
            i < 64,
    ;
}

/// A nonce that was taken is refused from then on; every other one is accepted
/// as before, unless the window has left it behind.
pub proof fn lemma_noted(s: NoiseSession, nonce: u64)
    ensures
        forall|n: u64| #[trigger]
            s.noted(nonce).accepts(n) <==> s.accepts(n) && n != nonce && n + REPLAY_WINDOW_BITS
                > nonce,
{
    let t = s.noted(nonce);
    assert forall|n: u64| #[trigger] t.accepts(n) <==> s.accepts(n) && n != nonce && n
        + REPLAY_WINDOW_BITS > nonce by {
        if n <= t.recv_high && t.recv_high - n < 64 {
            let i: u64 = (t.recv_high - n) as u64;
            if nonce > s.recv_high {
                let d: u64 = (nonce - s.recv_high) as u64;
                if d < 64 {
                    lemma_shifted(s.recv_window, d, i);
                } else {
                    assert((1u64 & (1u64 << i) != 0) == (i == 0)) by (bit_vector)
                        requires
                            i < 64,
                    ;
                }
            } else if s.recv_high - nonce < 64 {
                lemma_set(s.recv_window, (s.recv_high - nonce) as u64, i);
            }
        }
    }
}

/// A frame is taken once: having opened, it does not open again.
pub proof fn lemma_frame_once(s: NoiseSession, nonce: u64, bytes: Seq<u8>, now: u64)
    ensures
        s.after_opened(nonce, now).opens(nonce, bytes) is None,
{
    lemma_noted(s, nonce);
    assert(s.noted(nonce).accepts(nonce) == s.after_opened(nonce, now).accepts(nonce));
}

/// Frames may overtake one another: taking one leaves those within the window
/// that were not taken as they were.
pub proof fn lemma_frames_reorder(s: NoiseSession, a: u64, b: u64, bytes: Seq<u8>, now: u64)
    requires
        a != b,
        b + REPLAY_WINDOW_BITS > a,
    ensures
        s.after_opened(a, now).opens(b, bytes) == s.opens(b, bytes),
{
    lemma_noted(s, a);
    assert(s.noted(a).accepts(b) == s.after_opened(a, now).accepts(b));
}

/// A frame that does not open changes nothing, so the true one still opens.
pub fn open_and_note(s: &mut NoiseSession, nonce: u64, bytes: &[u8], now: u64) -> (r: Option<
    Vec<u8>,
>)
    ensures
        match r {
            Some(m) => old(s).opens(nonce, bytes@) == Some(m@) && *final(s) == old(s).after_opened(
                nonce,
                now,
            ),
            None => old(s).opens(nonce, bytes@) is None && *final(s) == *old(s),
        },
{
    let r = s.open(nonce, bytes);
    if r.is_some() {
        s.note_opened(nonce, now);
    }
    r
}

/// Seals a queue of messages, the first one left out where it was sent before.
pub(crate) fn seal_queue(s: &mut NoiseSession, queue: &Vec<Vec<u8>>, from: usize) -> (r: Vec<
    Vec<u8>,
>)
    requires
        from <= queue@.len(),
    ensures
        (*final(s), bodies(r@)) == old(s).sent_all(bodies(queue@).skip(from as int)),
{
    let mut out: Vec<Vec<u8>> = Vec::new();
    let mut i: usize = from;
    let ghost q = bodies(queue@);
    assert(q.subrange(from as int, from as int) =~= Seq::<Seq<u8>>::empty());
    assert(bodies(out@) =~= Seq::<Seq<u8>>::empty());
    while i < queue.len()
        invariant
            from <= i <= queue@.len(),
            q == bodies(queue@),
            (*s, bodies(out@)) == old(s).sent_all(q.subrange(from as int, i as int)),
        decreases queue@.len() - i,
    {
        let ghost part = q.subrange(from as int, i as int + 1);
        let ghost before = out@;
        proof {
            assert(part.drop_last() =~= q.subrange(from as int, i as int));
            assert(part.last() == queue@[i as int]@);
        }
        match s.seal(queue[i].as_slice()) {
            Some(p) => {
                out.push(p);
                assert(bodies(out@) =~= bodies(before).push(p@));
            },
            None => {},
        }
        i = i + 1;
    }
    assert(q.subrange(from as int, i as int) =~= q.skip(from as int));
    out
}

/// The number of bytes of several packets.
pub open spec fn total_len(v: Seq<Seq<u8>>) -> nat
    decreases v.len(),
{
    if v.len() == 0 {
        0
    } else {
        total_len(v.drop_last()) + v.last().len()
    }
}

/// The bytes of several packets.
pub open spec fn bodies(v: Seq<Vec<u8>>) -> Seq<Seq<u8>> {
    v.map_values(|p: Vec<u8>| p@)
}

} // verus!
