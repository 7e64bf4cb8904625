//! The Noise protocol as the overlay uses it: two handshake patterns, and the
//! sealed frames that follow them.
//!
//! The cryptography is that of the crates `snow` and `blake3`. What is said of
//! their functions here is taken from them, not proved.
use vstd::prelude::*;

use snow::{HandshakeState, StatelessTransportState};

verus! {

/// A handshake in progress.
#[verifier::external_type_specification]
#[verifier::external_body]
pub struct ExHandshakeState(snow::HandshakeState);

/// The keys of a finished handshake.
#[verifier::external_type_specification]
#[verifier::external_body]
pub struct ExStatelessTransportState(snow::StatelessTransportState);

/// Why a call of the protocol's library failed.
#[verifier::external_type_specification]
#[verifier::external_body]
pub struct ExNoiseError(snow::Error);

/// The most bytes that a message of the protocol can have.
pub const MAX_NOISE_MESSAGE: usize = 65535;

/// The bytes by which a sealed message is longer than what it holds.
pub const TAG_LEN: usize = 16;

// ---------------------------------------------------------------------------
// Patterns
// ---------------------------------------------------------------------------
/// The pattern for a peer whose static key is known.
pub open spec fn ik() -> Seq<char> {
    "Noise_IK_25519_ChaChaPoly_BLAKE2s"@
}

/// The pattern for a peer whose static key is not known.
pub open spec fn xx() -> Seq<char> {
    "Noise_XX_25519_ChaChaPoly_BLAKE2s"@
}

pub fn ik_name() -> (r: &'static str)
    ensures
        r@ == ik(),
{
    "Noise_IK_25519_ChaChaPoly_BLAKE2s"
}

pub fn xx_name() -> (r: &'static str)
    ensures
        r@ == xx(),
{
    "Noise_XX_25519_ChaChaPoly_BLAKE2s"
}

pub proof fn lemma_patterns_differ()
    ensures
        ik() != xx(),
{
    reveal_strlit("Noise_IK_25519_ChaChaPoly_BLAKE2s");
    reveal_strlit("Noise_XX_25519_ChaChaPoly_BLAKE2s");
    assert(ik()[6] != xx()[6]);
}

pub open spec fn known(pattern: Seq<char>) -> bool {
    pattern == ik() || pattern == xx()
}

/// How many messages a handshake has.
pub open spec fn messages(pattern: Seq<char>) -> nat {
    if pattern == ik() {
        2
    } else if pattern == xx() {
        3
    } else {
        0
    }
}

/// By how many bytes a message is longer than its payload.
pub open spec fn overhead(pattern: Seq<char>, done: nat) -> nat {
    if pattern == ik() {
        if done == 0 {
            96
        } else {
            48
        }
    } else if done == 0 {
        32
    } else if done == 1 {
        96
    } else {
        64
    }
}

/// Whether a message tells the writer's static key.
pub open spec fn tells_static(pattern: Seq<char>, done: nat) -> bool {
    (pattern == ik() && done == 0) || (pattern == xx() && (done == 1 || done == 2))
}

/// Whether a side knows the other's static key after so many messages.
pub open spec fn knows_remote(pattern: Seq<char>, initiator: bool, done: nat) -> bool {
    if pattern == ik() {
        initiator || done >= 1
    } else {
        pattern == xx() && done >= if initiator {
            2nat
        } else {
            3nat
        }
    }
}

// ---------------------------------------------------------------------------
// Handshakes
// ---------------------------------------------------------------------------
/// How far a handshake is: its pattern, whether we began it, and how many
/// messages have been written or read.
pub uninterp spec fn handshake_stage(h: HandshakeState) -> (Seq<char>, bool, nat);

/// The static key of the other side, where it is known.
pub uninterp spec fn remote_static(h: HandshakeState) -> Option<Seq<u8>>;

/// Our own public static key in a handshake.
pub uninterp spec fn own_static(h: HandshakeState) -> Seq<u8>;

/// The public key of a private one.
pub uninterp spec fn public_key(key: Seq<u8>) -> Seq<u8>;

/// A handshake that we begin with a peer whose static key is not known.
pub uninterp spec fn begun(pattern: Seq<char>, key: Seq<u8>) -> HandshakeState;

/// A handshake that we begin with a peer of a known static key.
pub uninterp spec fn begun_with(
    pattern: Seq<char>,
    key: Seq<u8>,
    remote: Seq<u8>,
) -> HandshakeState;

/// A handshake that the other side begins.
pub uninterp spec fn awaited(pattern: Seq<char>, key: Seq<u8>) -> HandshakeState;

/// What reading a message does to a handshake, and the payload of the message
/// where it could be read.
pub uninterp spec fn heard(h: HandshakeState, data: Seq<u8>) -> (HandshakeState, Option<Seq<u8>>);

/// Whether two handshakes are the two ends of one run, and the first writes next.
pub uninterp spec fn in_step(writer: HandshakeState, reader: HandshakeState) -> bool;

/// The keys that a finished handshake gives.
pub uninterp spec fn transport_of(h: HandshakeState) -> Option<StatelessTransportState>;

/// Whether it is our turn to write.
pub open spec fn to_write(h: HandshakeState) -> bool {
    let (pattern, initiator, done) = handshake_stage(h);
    done < messages(pattern) && initiator == (done % 2 == 0)
}

/// Whether a payload of so many bytes can be written now.
pub open spec fn can_write(h: HandshakeState, len: nat) -> bool {
    to_write(h) && len + overhead(handshake_stage(h).0, handshake_stage(h).2) <= MAX_NOISE_MESSAGE
}

/// Whether the other end `reader` reads a message as `payload`, and both ends
/// are in step afterwards, with the same keys should that have been the last message.
pub open spec fn understood(
    h: HandshakeState,
    payload: Seq<u8>,
    after: HandshakeState,
    reader: HandshakeState,
    bytes: Seq<u8>,
) -> bool {
    let (pattern, _, done) = handshake_stage(h);
    &&& heard(reader, bytes).1 == Some(payload)
    &&& in_step(heard(reader, bytes).0, after)
    &&& tells_static(pattern, done) ==> remote_static(heard(reader, bytes).0) == Some(own_static(h))
    &&& transport_of(heard(reader, bytes).0) is Some && transport_of(after) is Some ==> paired(
        transport_of(heard(reader, bytes).0)->Some_0,
        transport_of(after)->Some_0,
    )
}

/// Whether writing `payload` can turn `h` into `after` and give `bytes`.
pub open spec fn wrote(
    h: HandshakeState,
    payload: Seq<u8>,
    after: HandshakeState,
    bytes: Seq<u8>,
) -> bool {
    let (pattern, initiator, done) = handshake_stage(h);
    &&& handshake_stage(after) == (pattern, initiator, done + 1)
    &&& remote_static(after) == remote_static(h)
    &&& own_static(after) == own_static(h)
    &&& known(pattern) ==> bytes.len() == payload.len() + overhead(pattern, done)
    &&& pattern == xx() && done == 0 ==> bytes.skip(32) == payload
    &&& forall|reader: HandshakeState| #[trigger]
        in_step(h, reader) ==> understood(h, payload, after, reader, bytes)
}

/// Whether a message that could not be read leaves a handshake able to read
/// whatever it could read before.
pub open spec fn unharmed(h: HandshakeState, data: Seq<u8>) -> bool {
    heard(h, data).1 is None ==> forall|d: Seq<u8>| #[trigger]
        heard(h, d).1 is Some ==> heard(heard(h, data).0, d) == heard(h, d)
}

pub open spec fn bytes_of(r: Result<Vec<u8>, snow::Error>) -> Option<Seq<u8>> {
    match r {
        Ok(b) => Some(b@),
        Err(_) => None,
    }
}

/// Calls `snow::Builder::build_initiator` for a pattern with our private key.
/// Only the pattern that asks for no key of the peer succeeds, and then any
/// peer can follow.
#[verifier::external_body]
pub(crate) fn begin(pattern: &str, key: &[u8; 32]) -> (r: Result<HandshakeState, snow::Error>)
    requires
        known(pattern@),
    ensures
        r is Ok <==> pattern@ == xx(),
        r is Ok ==> r->Ok_0 == begun(pattern@, key@),
        r is Ok ==> handshake_stage(r->Ok_0) == (pattern@, true, 0nat),
        r is Ok ==> own_static(r->Ok_0) == public_key(key@),
        r is Ok ==> (forall|k: Seq<u8>|
            k.len() == 32 ==> in_step(r->Ok_0, #[trigger] awaited(pattern@, k))),
{
    snow::Builder::new(pattern.parse()?).local_private_key(key).build_initiator()
}

/// Calls `snow::Builder::build_initiator` for a pattern with our private key
/// and the peer's public one. The peer can follow where that is its key.
#[verifier::external_body]
pub(crate) fn begin_with(pattern: &str, key: &[u8; 32], remote: &[u8; 32]) -> (r: Result<
    HandshakeState,
    snow::Error,
>)
    requires
        pattern@ == ik(),
    ensures
        r is Ok,
        r->Ok_0 == begun_with(pattern@, key@, remote@),
        handshake_stage(r->Ok_0) == (pattern@, true, 0nat),
        own_static(r->Ok_0) == public_key(key@),
        remote_static(r->Ok_0) == Some(remote@),
        forall|k: Seq<u8>|
            k.len() == 32 && remote@ == public_key(k) ==> in_step(
                r->Ok_0,
                #[trigger] awaited(pattern@, k),
            ),
{
    snow::Builder::new(pattern.parse()?).local_private_key(key).remote_public_key(remote)
        .build_initiator()
}

/// Calls `snow::Builder::build_responder` for a pattern with our private key.
#[verifier::external_body]
pub(crate) fn await_peer(pattern: &str, key: &[u8; 32]) -> (r: Result<HandshakeState, snow::Error>)
    requires
        known(pattern@),
    ensures
        r is Ok,
        r->Ok_0 == awaited(pattern@, key@),
        handshake_stage(r->Ok_0) == (pattern@, false, 0nat),
        own_static(r->Ok_0) == public_key(key@),
{
    snow::Builder::new(pattern.parse()?).local_private_key(key).build_responder()
}

/// Calls `snow::HandshakeState::read_message`. What comes of it is a function
/// of the handshake and the message. A message that can be read moves the
/// handshake on; another leaves its stage. The first message of the pattern
/// for unknown peers is an ephemeral key with the payload in the clear behind
/// it. The second message of either pattern sets every key that reading it
/// uses, so one that cannot be read spoils nothing for the true one; of the
/// third message that is not said.
#[verifier::external_body]
pub(crate) fn read_handshake(h: &mut HandshakeState, data: &[u8]) -> (r: Result<
    Vec<u8>,
    snow::Error,
>)
    ensures
        (*final(h), bytes_of(r)) == heard(*old(h), data@),
        handshake_stage(*final(h)).0 == handshake_stage(*old(h)).0,
        handshake_stage(*final(h)).1 == handshake_stage(*old(h)).1,
        handshake_stage(*final(h)).2 == handshake_stage(*old(h)).2 + if r is Ok {
            1nat
        } else {
            0nat
        },
        own_static(*final(h)) == own_static(*old(h)),
        known(handshake_stage(*old(h)).0) && handshake_stage(*old(h)).1 && handshake_stage(
            *old(h),
        ).2 == 1 ==> (heard(*old(h), data@) == (*final(h), bytes_of(r)) && unharmed(
            *old(h),
            data@,
        )),
        r is Ok ==> !to_write(*old(h)) && data@.len() <= MAX_NOISE_MESSAGE,
        r is Ok && known(handshake_stage(*old(h)).0) ==> data@.len() == r->Ok_0@.len() + overhead(
            handshake_stage(*old(h)).0,
            handshake_stage(*old(h)).2,
        ),
        handshake_stage(*old(h)) == (xx(), false, 0nat) ==> bytes_of(r) == if 32 <= data@.len()
            <= MAX_NOISE_MESSAGE {
            Some(data@.skip(32))
        } else {
            None
        },
{
    let mut payload = vec![0u8; data.len()];
    let n = h.read_message(data, &mut payload)?;
    payload.truncate(n);
    Ok(payload)
}

/// Calls `snow::HandshakeState::write_message` with a buffer of `room` bytes.
/// The message holds a fresh ephemeral key, so the bytes are left to chance;
/// the other end of the run reads the payload from them.
#[verifier::external_body]
pub(crate) fn write_handshake(h: &mut HandshakeState, payload: &[u8], room: usize) -> (r: Result<
    Vec<u8>,
    snow::Error,
>)
    requires
        256 <= room <= 0x1_0000_0000,
        payload@.len() <= MAX_NOISE_MESSAGE ==> room >= payload@.len() + 256,
    ensures
        known(handshake_stage(*old(h)).0) ==> (r is Ok <==> can_write(*old(h), payload@.len())),
        r is Ok ==> wrote(*old(h), payload@, *final(h), r->Ok_0@),
        r is Ok ==> r->Ok_0@.len() <= MAX_NOISE_MESSAGE,
{
    let mut bytes = vec![0u8; room];
    let n = h.write_message(payload, &mut bytes)?;
    bytes.truncate(n);
    Ok(bytes)
}

/// Calls `snow::HandshakeState::get_remote_static`. In the two patterns a key
/// has 32 bytes, and is known once the other side has told it.
#[verifier::external_body]
pub(crate) fn get_remote_static(h: &HandshakeState) -> (r: Option<Vec<u8>>)
    ensures
        match r {
            Some(k) => remote_static(*h) == Some(k@) && (known(handshake_stage(*h).0) ==> k@.len()
                == 32),
            None => remote_static(*h) is None,
        },
        knows_remote(
            handshake_stage(*h).0,
            handshake_stage(*h).1,
            handshake_stage(*h).2,
        ) ==> r is Some,
{
    h.get_remote_static().map(|k| k.to_vec())
}

/// Calls `snow::HandshakeState::into_stateless_transport_mode`. It succeeds
/// once all messages are done, and gives a key for each direction.
#[verifier::external_body]
pub(crate) fn finish_handshake(h: HandshakeState) -> (r: Result<
    StatelessTransportState,
    snow::Error,
>)
    ensures
        match r {
            Ok(t) => transport_of(h) == Some(t) && (known(handshake_stage(h).0) ==> sending_key(
                t,
            ) is Some && receiving_key(t) is Some),
            Err(_) => transport_of(h) is None,
        },
        known(handshake_stage(h).0) ==> (r is Ok <==> handshake_stage(h).2 == messages(
            handshake_stage(h).0,
        )),
{
    h.into_stateless_transport_mode()
}

// ---------------------------------------------------------------------------
// Sealed frames
// ---------------------------------------------------------------------------
/// The key under which frames are sent.
pub uninterp spec fn sending_key(t: StatelessTransportState) -> Option<Seq<u8>>;

/// The key under which frames are received.
pub uninterp spec fn receiving_key(t: StatelessTransportState) -> Option<Seq<u8>>;

/// A message sealed under a key and a nonce.
pub uninterp spec fn sealed(key: Seq<u8>, nonce: u64, message: Seq<u8>) -> Seq<u8>;

/// What a sealed message holds, if the key and the nonce open it.
pub uninterp spec fn opened(key: Seq<u8>, nonce: u64, bytes: Seq<u8>) -> Option<Seq<u8>>;

/// Whether each side receives under the key under which the other sends.
pub open spec fn paired(a: StatelessTransportState, b: StatelessTransportState) -> bool {
    sending_key(a) == receiving_key(b) && receiving_key(a) == sending_key(b)
}

/// Whether a message can be sealed.
pub open spec fn can_seal(t: StatelessTransportState, nonce: u64, len: nat) -> bool {
    sending_key(t) is Some && nonce < u64::MAX && len + TAG_LEN <= MAX_NOISE_MESSAGE
}

/// What is inside a frame, if it opens.
pub open spec fn opened_by(t: StatelessTransportState, nonce: u64, bytes: Seq<u8>) -> Option<
    Seq<u8>,
> {
    match receiving_key(t) {
        Some(k) => opened(k, nonce, bytes),
        None => None,
    }
}

/// Calls `snow::StatelessTransportState::write_message` with a buffer of
/// `room` bytes. The key and the nonce open what comes out, and give the
/// message back.
#[verifier::external_body]
pub(crate) fn seal_message(
    t: &StatelessTransportState,
    nonce: u64,
    message: &[u8],
    room: usize,
) -> (r: Result<Vec<u8>, snow::Error>)
    requires
        room <= 0x1_0000_0000,
        message@.len() <= MAX_NOISE_MESSAGE ==> room >= message@.len() + TAG_LEN,
    ensures
        r is Ok <==> can_seal(*t, nonce, message@.len()),
        r is Ok ==> r->Ok_0@ == sealed(sending_key(*t)->Some_0, nonce, message@),
        r is Ok ==> r->Ok_0@.len() == message@.len() + TAG_LEN,
        r is Ok ==> opened(sending_key(*t)->Some_0, nonce, r->Ok_0@) == Some(message@),
{
    let mut bytes = vec![0u8; room];
    let n = t.write_message(nonce, message, &mut bytes)?;
    bytes.truncate(n);
    Ok(bytes)
}

/// Calls `snow::StatelessTransportState::read_message`.
#[verifier::external_body]
pub(crate) fn open_message(t: &StatelessTransportState, nonce: u64, bytes: &[u8]) -> (r: Result<
    Vec<u8>,
    snow::Error,
>)
    ensures
        bytes_of(r) == opened_by(*t, nonce, bytes@),
        r is Ok ==> r->Ok_0@.len() + TAG_LEN == bytes@.len(),
{
    let mut message = vec![0u8; bytes.len()];
    let n = t.read_message(nonce, bytes, &mut message)?;
    message.truncate(n);
    Ok(message)
}

// ---------------------------------------------------------------------------
// Digests
// ---------------------------------------------------------------------------
/// The BLAKE3 digest of some bytes.
pub uninterp spec fn blake3_digest(data: Seq<u8>) -> Seq<u8>;

/// The BLAKE3 digest of some bytes under a key.
pub uninterp spec fn blake3_keyed(key: Seq<u8>, data: Seq<u8>) -> Seq<u8>;

/// Calls `blake3::hash`. The digest has 32 bytes and is a function of the data.
#[verifier::external_body]
pub(crate) fn blake3_hash(data: &[u8]) -> (r: [u8; 32])
    ensures
        r@ == blake3_digest(data@),
{
    blake3::hash(data).into()
}

/// Calls `blake3::keyed_hash`. The digest has 32 bytes and is a function of
/// the key and the data.
#[verifier::external_body]
pub(crate) fn blake3_keyed_hash(key: &[u8; 32], data: &[u8]) -> (r: [u8; 32])
    ensures
        r@ == blake3_keyed(key@, data@),
{
    blake3::keyed_hash(key, data).into()
}

/// Calls `rand::random`. Nothing is promised of the number.
#[verifier::external_body]
pub(crate) fn random_u64() -> (r: u64)
{
    rand::random::<u64>()
}

} // verus!
