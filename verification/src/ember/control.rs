//! The small control frames that ride inside encrypted sessions.
use vstd::prelude::*;

use crate::bytes::{from_le64, le64, lemma_le64_round_trip, put_bytes, put_u64};

verus! {

/// The first byte of a control frame. Frames of the distributed table count
/// their version up from one, so this tells the two apart.
pub const CONTROL_VERSION: u8 = 0xC1;

pub const CONTROL_KIND_PING: u8 = 1;

pub const CONTROL_KIND_PONG: u8 = 2;

/// Asks for the peer's sources and peers.
pub const CONTROL_KIND_EXCHANGE_REQUEST: u8 = 3;

/// Carries sources and peers.
pub const CONTROL_KIND_EXCHANGE_DATA: u8 = 4;

/// A control message.
#[derive(Debug, Clone, PartialEq, Eq)]
pub enum EmberControlMessage {
    Ping { nonce: u64 },
    Pong { nonce: u64 },
    /// Asks the peer for its sources and peers.
    ExchangeRequest,
    /// Sources and peers, in a format of their own.
    ExchangeData { payload: Vec<u8> },
}

pub enum ControlView {
    Ping { nonce: u64 },
    Pong { nonce: u64 },
    ExchangeRequest,
    ExchangeData { payload: Seq<u8> },
}

impl View for EmberControlMessage {
    type V = ControlView;

    open spec fn view(&self) -> ControlView {
        match self {
            EmberControlMessage::Ping { nonce } => ControlView::Ping { nonce: *nonce },
            EmberControlMessage::Pong { nonce } => ControlView::Pong { nonce: *nonce },
            EmberControlMessage::ExchangeRequest => ControlView::ExchangeRequest,
            EmberControlMessage::ExchangeData { payload } => ControlView::ExchangeData {
                payload: payload@,
            },
        }
    }
}

/// A control message as bytes: version, kind, body.
pub open spec fn enc_control(m: ControlView) -> Seq<u8> {
    match m {
        ControlView::Ping { nonce } => seq![CONTROL_VERSION, CONTROL_KIND_PING] + le64(nonce),
        ControlView::Pong { nonce } => seq![CONTROL_VERSION, CONTROL_KIND_PONG] + le64(nonce),
        ControlView::ExchangeRequest => seq![CONTROL_VERSION, CONTROL_KIND_EXCHANGE_REQUEST],
        ControlView::ExchangeData { payload } => seq![CONTROL_VERSION, CONTROL_KIND_EXCHANGE_DATA]
            + payload,
    }
}

/// The control message that some bytes are.
pub open spec fn dec_control(s: Seq<u8>) -> Option<ControlView> {
    if s.len() < 2 || s[0] != CONTROL_VERSION {
        None
    } else if s[1] == CONTROL_KIND_PING && s.len() == 10 {
        Some(ControlView::Ping { nonce: from_le64(s.skip(2)) })
    } else if s[1] == CONTROL_KIND_PONG && s.len() == 10 {
        Some(ControlView::Pong { nonce: from_le64(s.skip(2)) })
    } else if s[1] == CONTROL_KIND_EXCHANGE_REQUEST && s.len() == 2 {
        Some(ControlView::ExchangeRequest)
    } else if s[1] == CONTROL_KIND_EXCHANGE_DATA {
        Some(ControlView::ExchangeData { payload: s.skip(2) })
    } else {
        None
    }
}

impl EmberControlMessage {
    /// The message as bytes.
    pub fn encode(&self) -> (r: Vec<u8>)
        ensures
            r@ == enc_control(self@),
    {
        let mut out: Vec<u8> = Vec::new();
        out.push(CONTROL_VERSION);
        match self {
            EmberControlMessage::Ping { nonce } => {
                out.push(CONTROL_KIND_PING);
                put_u64(&mut out, *nonce);
            },
            EmberControlMessage::Pong { nonce } => {
                out.push(CONTROL_KIND_PONG);
                put_u64(&mut out, *nonce);
            },
            EmberControlMessage::ExchangeRequest => {
                out.push(CONTROL_KIND_EXCHANGE_REQUEST);
            },
            EmberControlMessage::ExchangeData { payload } => {
                out.push(CONTROL_KIND_EXCHANGE_DATA);
                put_bytes(&mut out, payload.as_slice());
            },
        }
        assert(out@ =~= enc_control(self@));
        out
    }

    /// The message that some bytes are.
    pub fn decode(data: &[u8]) -> (r: Option<EmberControlMessage>)
        ensures
            match r {
                Some(m) => dec_control(data@) == Some(m@),
                None => dec_control(data@) is None,
            },
    {
        let n: usize = data.len();
        if n < 2 || data[0] != CONTROL_VERSION {
            return None;
        }
        let kind: u8 = data[1];
        if kind == CONTROL_KIND_PING || kind == CONTROL_KIND_PONG {
            if n != 10 {
                return None;
            }
            let nonce: u64 = read_u64(data, 2);
            return if kind == CONTROL_KIND_PING {
                Some(EmberControlMessage::Ping { nonce })
            } else {
                Some(EmberControlMessage::Pong { nonce })
            };
        }
        if kind == CONTROL_KIND_EXCHANGE_REQUEST {
            return if n == 2 {
                Some(EmberControlMessage::ExchangeRequest)
            } else {
                None
            };
        }
        if kind == CONTROL_KIND_EXCHANGE_DATA {
            let payload = copy_from(data, 2);
            return Some(EmberControlMessage::ExchangeData { payload });
        }
        None
    }
}

/// The little-endian number at a place.
pub(crate) fn read_u64(data: &[u8], at: usize) -> (r: u64)
    requires
        at + 8 <= data@.len(),
    ensures
        r == from_le64(data@.skip(at as int)),
{
    proof {
        let s = data@.skip(at as int);
        assert(s[0] == data@[at as int]);
        assert(s.skip(2)[0] == data@[at + 2] && s.skip(2)[1] == data@[at + 3]);
        let t = s.skip(4);
        assert(t[0] == data@[at + 4] && t[1] == data@[at + 5]);
        assert(t.skip(2)[0] == data@[at + 6] && t.skip(2)[1] == data@[at + 7]);
    }
    let low: u64 = data[at] as u64 + 0x100 * data[at + 1] as u64 + 0x1_0000 * data[at + 2] as u64
        + 0x100_0000 * data[at + 3] as u64;
    let high: u64 = data[at + 4] as u64 + 0x100 * data[at + 5] as u64 + 0x1_0000 * data[at
        + 6] as u64 + 0x100_0000 * data[at + 7] as u64;
    low + 0x1_0000_0000 * high
}

/// The bytes from a place on.
pub(crate) fn copy_from(data: &[u8], at: usize) -> (r: Vec<u8>)
    requires
        at <= data@.len(),
    ensures
        r@ == data@.skip(at as int),
{
    let mut out: Vec<u8> = Vec::new();
    let mut i: usize = at;
    while i < data.len()
        invariant
            at <= i <= data@.len(),
            out@ == data@.subrange(at as int, i as int),
        decreases data@.len() - i,
    {
        out.push(data[i]);
        assert(out@ =~= data@.subrange(at as int, i as int + 1));
        i = i + 1;
    }
    assert(out@ =~= data@.skip(at as int));
    out
}

/// Every control message is read back from its bytes.
pub proof fn lemma_control_round_trip(m: ControlView)
    ensures
        dec_control(enc_control(m)) == Some(m),
{
    let s = enc_control(m);
    match m {
        ControlView::Ping { nonce } | ControlView::Pong { nonce } => {
            lemma_le64_round_trip(nonce, Seq::<u8>::empty());
            assert(s.skip(2) =~= le64(nonce));
            assert(le64(nonce) + Seq::<u8>::empty() =~= le64(nonce));
        },
        ControlView::ExchangeRequest => {},
        ControlView::ExchangeData { payload } => {
            assert(s.skip(2) =~= payload);
        },
    }
}

/// Frames that start with another version are never control frames.
pub proof fn lemma_control_version(s: Seq<u8>)
    requires
        s.len() == 0 || s[0] != CONTROL_VERSION,
    ensures
        dec_control(s) is None,
{
}

/// A control message starts with 0xC1 and its kind: 1 for a ping and 2 for its
/// answer, each with eight bytes of nonce and no more; 3, alone, asks for sources and
/// peers; behind 4 these follow. Nothing else is a control message.
pub proof fn lemma_control_bytes(s: Seq<u8>)
    ensures
        s.len() < 2 || s[0] != 0xC1 ==> dec_control(s) is None,
        s.len() >= 2 && s[0] == 0xC1 ==> ({
            let nonce = s[2] + 0x100 * s[3] + 0x1_0000 * s[4] + 0x100_0000 * s[5] + 0x1_0000_0000
                * s[6] + 0x100_0000_0000 * s[7] + 0x1_0000_0000_0000 * s[8] + 0x100_0000_0000_0000
                * s[9];
            &&& s[1] == 1 && s.len() == 10 ==> dec_control(s) == Some(
                ControlView::Ping { nonce: nonce as u64 },
            )
            &&& s[1] == 2 && s.len() == 10 ==> dec_control(s) == Some(
                ControlView::Pong { nonce: nonce as u64 },
            )
            &&& (s[1] == 1 || s[1] == 2) && s.len() != 10 ==> dec_control(s) is None
            &&& s[1] == 3 ==> dec_control(s) == if s.len() == 2 {
                Some(ControlView::ExchangeRequest)
            } else {
                None
            }
            &&& s[1] == 4 ==> dec_control(s) == Some(
                ControlView::ExchangeData { payload: s.skip(2) },
            )
            &&& s[1] == 0 || s[1] > 4 ==> dec_control(s) is None
        }),
{
    if s.len() == 10 {
        let t = s.skip(2);
        let u = t.skip(4);
        assert(t[0] == s[2] && t[1] == s[3] && t.skip(2)[0] == s[4] && t.skip(2)[1] == s[5]);
        assert(u[0] == s[6] && u[1] == s[7] && u.skip(2)[0] == s[8] && u.skip(2)[1] == s[9]);
    }
}

} // verus!
