//! Little-endian fields, and a cursor that reads them off a byte slice.
use vstd::prelude::*;

verus! {

/// What stops a Kad wire record from being read or written.
#[derive(Clone, Copy, Debug, PartialEq, Eq, Structural)]
pub enum WireError {
    /// The bytes end before the record does.
    UnexpectedEof,
    /// A tag carries a value type that is not known.
    UnknownTagType(u8),
    /// The packet holds no byte at all.
    EmptyPacket,
    /// A compressed packet has no room for an opcode and a body.
    CompressedTooShort,
    /// A compressed body inflates past the size limit.
    DecompressedTooLarge,
    /// A compressed body is not a zlib or deflate stream.
    CorruptStream,
    /// The first byte names no known protocol.
    UnknownHeader(u8),
    /// The packet ends before its opcode.
    EmptyPayload,
    /// The opcode is not known.
    UnknownOpcode(u8),
    /// A string, blob or list is too long for its length field.
    FieldTooLong,
    /// The message has no wire form.
    NotEncodable,
    /// The packet does not fit in one UDP fragment even when compressed.
    FragmentTooLarge,
    /// The compressor failed.
    CompressFailed,
}

/// What a reader makes of the bytes before it: the value it read and the bytes
/// that are left.
pub type Parsed<T> = Result<(T, Seq<u8>), WireError>;

pub open spec fn le16(x: u16) -> Seq<u8> {
    seq![(x % 256) as u8, (x / 256) as u8]
}

pub open spec fn le32(x: u32) -> Seq<u8> {
    le16((x % 0x1_0000) as u16) + le16((x / 0x1_0000) as u16)
}

pub open spec fn le64(x: u64) -> Seq<u8> {
    le32((x % 0x1_0000_0000) as u32) + le32((x / 0x1_0000_0000) as u32)
}

pub open spec fn from_le16(s: Seq<u8>) -> u16 {
    (s[0] + 256 * s[1]) as u16
}

pub open spec fn from_le32(s: Seq<u8>) -> u32 {
    (from_le16(s) + 0x1_0000 * from_le16(s.skip(2))) as u32
}

pub open spec fn from_le64(s: Seq<u8>) -> u64 {
    (from_le32(s) + 0x1_0000_0000 * from_le32(s.skip(4))) as u64
}

pub open spec fn dec_u8(s: Seq<u8>) -> Parsed<u8> {
    if s.len() < 1 {
        Err(WireError::UnexpectedEof)
    } else {
        Ok((s[0], s.skip(1)))
    }
}

pub open spec fn dec_u16(s: Seq<u8>) -> Parsed<u16> {
    if s.len() < 2 {
        Err(WireError::UnexpectedEof)
    } else {
        Ok((from_le16(s), s.skip(2)))
    }
}

pub open spec fn dec_u32(s: Seq<u8>) -> Parsed<u32> {
    if s.len() < 4 {
        Err(WireError::UnexpectedEof)
    } else {
        Ok((from_le32(s), s.skip(4)))
    }
}

pub open spec fn dec_u64(s: Seq<u8>) -> Parsed<u64> {
    if s.len() < 8 {
        Err(WireError::UnexpectedEof)
    } else {
        Ok((from_le64(s), s.skip(8)))
    }
}

/// The next `n` bytes as they stand.
pub open spec fn dec_bytes(s: Seq<u8>, n: nat) -> Parsed<Seq<u8>> {
    if s.len() < n {
        Err(WireError::UnexpectedEof)
    } else {
        Ok((s.take(n as int), s.skip(n as int)))
    }
}

/// Reading back a little-endian field of two bytes gives the number that was
/// written, and leaves what follows it.
pub proof fn lemma_le16_round_trip(x: u16, rest: Seq<u8>)
    ensures
        dec_u16(le16(x) + rest) == Ok::<(u16, Seq<u8>), WireError>((x, rest)),
        le16(x).len() == 2,
{
    assert((le16(x) + rest).skip(2) =~= rest);
}

/// Reading back a little-endian field of four bytes gives the number that was
/// written, and leaves what follows it.
pub proof fn lemma_le32_round_trip(x: u32, rest: Seq<u8>)
    ensures
        dec_u32(le32(x) + rest) == Ok::<(u32, Seq<u8>), WireError>((x, rest)),
        le32(x).len() == 4,
{
    let lo = (x % 0x1_0000) as u16;
    let hi = (x / 0x1_0000) as u16;
    let s = le32(x) + rest;
    assert(s =~= le16(lo) + (le16(hi) + rest));
    lemma_le16_round_trip(lo, le16(hi) + rest);
    lemma_le16_round_trip(hi, rest);
    assert(s.skip(2) =~= le16(hi) + rest);
    assert(s.skip(4) =~= rest);
}

/// Reading back a little-endian field of eight bytes gives the number that was
/// written, and leaves what follows it.
pub proof fn lemma_le64_round_trip(x: u64, rest: Seq<u8>)
    ensures
        dec_u64(le64(x) + rest) == Ok::<(u64, Seq<u8>), WireError>((x, rest)),
        le64(x).len() == 8,
{
    let lo = (x % 0x1_0000_0000) as u32;
    let hi = (x / 0x1_0000_0000) as u32;
    let s = le64(x) + rest;
    assert(s =~= le32(lo) + (le32(hi) + rest));
    lemma_le32_round_trip(lo, le32(hi) + rest);
    lemma_le32_round_trip(hi, rest);
    assert(s.skip(4) =~= le32(hi) + rest);
    assert(s.skip(8) =~= rest);
}

/// Reading one byte off a sequence that starts with it.
pub proof fn lemma_u8_round_trip(a: u8, rest: Seq<u8>)
    ensures
        dec_u8(seq![a] + rest) == Ok::<(u8, Seq<u8>), WireError>((a, rest)),
{
    assert((seq![a] + rest).skip(1) =~= rest);
}

/// Reading bytes off a sequence that starts with them.
pub proof fn lemma_bytes_round_trip(b: Seq<u8>, rest: Seq<u8>)
    ensures
        dec_bytes(b + rest, b.len()) == Ok::<(Seq<u8>, Seq<u8>), WireError>((b, rest)),
{
    assert((b + rest).take(b.len() as int) =~= b);
    assert((b + rest).skip(b.len() as int) =~= rest);
}

/// `n` records that `p` reads, one after the other.
pub open spec fn dec_many<T>(p: spec_fn(Seq<u8>) -> Parsed<T>, n: nat, s: Seq<u8>) -> Parsed<Seq<T>>
    decreases n,
{
    if n == 0 {
        Ok((Seq::empty(), s))
    } else {
        match dec_many(p, (n - 1) as nat, s) {
            Err(e) => Err(e),
            Ok((xs, s)) => match p(s) {
                Err(e) => Err(e),
                Ok((x, s)) => Ok((xs.push(x), s)),
            },
        }
    }
}

/// Where the first `m` records cannot be read, neither can more.
pub proof fn lemma_dec_many_err<T>(p: spec_fn(Seq<u8>) -> Parsed<T>, m: nat, n: nat, s: Seq<u8>)
    requires
        m <= n,
        dec_many(p, m, s) is Err,
    ensures
        dec_many(p, n, s) == dec_many(p, m, s),
    decreases n,
{
    if m < n {
        lemma_dec_many_err(p, m, (n - 1) as nat, s);
    }
}

/// As many of the next `n` records as can be read: up to the first that cannot.
pub open spec fn dec_prefix<T>(p: spec_fn(Seq<u8>) -> Parsed<T>, n: nat, s: Seq<u8>) -> Seq<T>
    decreases n,
{
    if n == 0 {
        Seq::empty()
    } else {
        match p(s) {
            Err(_) => Seq::empty(),
            Ok((x, s)) => seq![x] + dec_prefix(p, (n - 1) as nat, s),
        }
    }
}

/// Where all `n` records can be read, that is all of them.
pub proof fn lemma_dec_prefix_all<T>(p: spec_fn(Seq<u8>) -> Parsed<T>, n: nat, s: Seq<u8>)
    requires
        dec_many(p, n, s) is Ok,
    ensures
        dec_prefix(p, n, s) == dec_many(p, n, s)->Ok_0.0,
{
    lemma_dec_prefix_split(p, n, 0, s);
    let xs = dec_many(p, n, s)->Ok_0.0;
    assert(xs + Seq::<T>::empty() =~= xs);
}

/// Reading `m` records and then a prefix of `k` more is reading a prefix of `m + k`.
pub proof fn lemma_dec_prefix_split<T>(
    p: spec_fn(Seq<u8>) -> Parsed<T>,
    m: nat,
    k: nat,
    s: Seq<u8>,
)
    requires
        dec_many(p, m, s) is Ok,
    ensures
        dec_prefix(p, m + k, s) == dec_many(p, m, s)->Ok_0.0 + dec_prefix(
            p,
            k,
            dec_many(p, m, s)->Ok_0.1,
        ),
    decreases m,
{
    if m == 0 {
        assert(Seq::<T>::empty() + dec_prefix(p, k, s) =~= dec_prefix(p, k, s));
    } else {
        let m1 = (m - 1) as nat;
        lemma_dec_prefix_split(p, m1, k + 1, s);
        let (xs, s1) = dec_many(p, m1, s)->Ok_0;
        let (x, s2) = p(s1)->Ok_0;
        assert(dec_prefix(p, k + 1, s1) == seq![x] + dec_prefix(p, k, s2));
        assert(xs + (seq![x] + dec_prefix(p, k, s2)) =~= xs.push(x) + dec_prefix(p, k, s2));
        assert(m1 + (k + 1) == m + k);
    }
}

/// The records `xs`, written by `f`, one after the other.
pub open spec fn enc_many<T>(f: spec_fn(T) -> Seq<u8>, xs: Seq<T>) -> Seq<u8>
    decreases xs.len(),
{
    if xs.len() == 0 {
        Seq::empty()
    } else {
        enc_many(f, xs.drop_last()) + f(xs.last())
    }
}

/// Where each record is read back as the matching one of `ys`, so is the list.
pub proof fn lemma_many_round_trip<A, B>(
    f: spec_fn(A) -> Seq<u8>,
    p: spec_fn(Seq<u8>) -> Parsed<B>,
    xs: Seq<A>,
    ys: Seq<B>,
    rest: Seq<u8>,
)
    requires
        xs.len() == ys.len(),
        forall|i: int, t: Seq<u8>|
            0 <= i < xs.len() ==> #[trigger] p(f(xs[i]) + t) == Ok::<(B, Seq<u8>), WireError>(
                (ys[i], t),
            ),
    ensures
        dec_many(p, xs.len(), enc_many(f, xs) + rest) == Ok::<(Seq<B>, Seq<u8>), WireError>(
            (ys, rest),
        ),
    decreases xs.len(),
{
    if xs.len() == 0 {
        assert(enc_many(f, xs) + rest =~= rest);
        assert(ys =~= Seq::<B>::empty());
    } else {
        let n = xs.len() - 1;
        let fx = xs.drop_last();
        let fy = ys.drop_last();
        let last = f(xs.last());
        assert(enc_many(f, xs) + rest =~= enc_many(f, fx) + (last + rest));
        assert forall|i: int, t: Seq<u8>| 0 <= i < fx.len() implies #[trigger] p(f(fx[i]) + t)
            == Ok::<(B, Seq<u8>), WireError>((fy[i], t)) by {
            assert(fx[i] == xs[i] && fy[i] == ys[i]);
            assert(p(f(xs[i]) + t) == Ok::<(B, Seq<u8>), WireError>((ys[i], t)));
        }
        lemma_many_round_trip(f, p, fx, fy, last + rest);
        assert(p(f(xs[n]) + rest) == Ok::<(B, Seq<u8>), WireError>((ys[n], rest)));
        assert(fy.push(ys.last()) =~= ys);
    }
}

pub fn put_u16(out: &mut Vec<u8>, x: u16)
    ensures
        final(out)@ == old(out)@ + le16(x),
{
    out.push((x % 256) as u8);
    out.push((x / 256) as u8);
    assert(out@ =~= old(out)@ + le16(x));
}

pub fn put_u32(out: &mut Vec<u8>, x: u32)
    ensures
        final(out)@ == old(out)@ + le32(x),
{
    put_u16(out, (x % 0x1_0000) as u16);
    put_u16(out, (x / 0x1_0000) as u16);
    assert(out@ =~= old(out)@ + le32(x));
}

pub fn put_u64(out: &mut Vec<u8>, x: u64)
    ensures
        final(out)@ == old(out)@ + le64(x),
{
    put_u32(out, (x % 0x1_0000_0000) as u32);
    put_u32(out, (x / 0x1_0000_0000) as u32);
    assert(out@ =~= old(out)@ + le64(x));
}

pub fn put_bytes(out: &mut Vec<u8>, b: &[u8])
    ensures
        final(out)@ == old(out)@ + b@,
{
    let ghost before = out@;
    out.extend_from_slice(b);
    assert(out@ =~= before + b@);
}

/// A position in a byte slice.
pub struct Reader<'a> {
    data: &'a [u8],
    pos: usize,
}

impl<'a> Reader<'a> {
    /// The bytes not yet read.
    pub closed spec fn rest(&self) -> Seq<u8> {
        self.data@.skip(self.pos as int)
    }

    #[verifier::type_invariant]
    closed spec fn in_bounds(&self) -> bool {
        self.pos <= self.data@.len()
    }

    pub fn new(data: &'a [u8]) -> (r: Reader<'a>)
        ensures
            r.rest() == data@,
    {
        let r = Reader { data, pos: 0 };
        assert(r.rest() =~= data@);
        r
    }

    /// How many bytes are left.
    pub fn remaining(&self) -> (n: usize)
        ensures
            n == self.rest().len(),
    {
        proof {
            use_type_invariant(self);
        }
        self.data.len() - self.pos
    }

    pub fn u8(&mut self) -> (r: Result<u8, WireError>)
        ensures
            match dec_u8(old(self).rest()) {
                Ok((v, rest)) => r == Ok::<u8, WireError>(v) && final(self).rest() == rest,
                Err(e) => r == Err::<u8, WireError>(e),
            },
    {
        proof {
            use_type_invariant(&*self);
        }
        if self.data.len() - self.pos < 1 {
            return Err(WireError::UnexpectedEof);
        }
        let v: u8 = self.data[self.pos];
        self.pos = self.pos + 1;
        assert(self.rest() =~= old(self).rest().skip(1));
        Ok(v)
    }

    pub fn u16(&mut self) -> (r: Result<u16, WireError>)
        ensures
            match dec_u16(old(self).rest()) {
                Ok((v, rest)) => r == Ok::<u16, WireError>(v) && final(self).rest() == rest,
                Err(e) => r == Err::<u16, WireError>(e) && final(self).rest() == old(self).rest(),
            },
    {
        proof {
            use_type_invariant(&*self);
        }
        if self.data.len() - self.pos < 2 {
            return Err(WireError::UnexpectedEof);
        }
        let v: u16 = self.data[self.pos] as u16 + 256 * (self.data[self.pos + 1] as u16);
        self.pos = self.pos + 2;
        assert(self.rest() =~= old(self).rest().skip(2));
        Ok(v)
    }

    pub fn u32(&mut self) -> (r: Result<u32, WireError>)
        ensures
            match dec_u32(old(self).rest()) {
                Ok((v, rest)) => r == Ok::<u32, WireError>(v) && final(self).rest() == rest,
                Err(e) => r == Err::<u32, WireError>(e) && final(self).rest() == old(self).rest(),
            },
    {
        if self.remaining() < 4 {
            return Err(WireError::UnexpectedEof);
        }
        let ghost s = self.rest();
        let lo: u16 = self.u16()?;
        let hi: u16 = self.u16()?;
        assert(self.rest() =~= s.skip(4));
        Ok(lo as u32 + 0x1_0000 * (hi as u32))
    }

    pub fn u64(&mut self) -> (r: Result<u64, WireError>)
        ensures
            match dec_u64(old(self).rest()) {
                Ok((v, rest)) => r == Ok::<u64, WireError>(v) && final(self).rest() == rest,
                Err(e) => r == Err::<u64, WireError>(e) && final(self).rest() == old(self).rest(),
            },
    {
        if self.remaining() < 8 {
            return Err(WireError::UnexpectedEof);
        }
        let ghost s = self.rest();
        let lo: u32 = self.u32()?;
        let hi: u32 = self.u32()?;
        assert(self.rest() =~= s.skip(8));
        Ok(lo as u64 + 0x1_0000_0000 * (hi as u64))
    }

    /// The next `n` bytes.
    pub fn bytes(&mut self, n: usize) -> (r: Result<Vec<u8>, WireError>)
        ensures
            match dec_bytes(old(self).rest(), n as nat) {
                Ok((v, rest)) => r is Ok && r->Ok_0@ == v && final(self).rest() == rest,
                Err(e) => r is Err && r->Err_0 == e,
            },
    {
        proof {
            use_type_invariant(&*self);
        }
        if self.data.len() - self.pos < n {
            return Err(WireError::UnexpectedEof);
        }
        let mut v: Vec<u8> = Vec::new();
        let end: usize = self.pos + n;
        let part = vstd::slice::slice_subrange(self.data, self.pos, end);
        put_bytes(&mut v, part);
        self.pos = end;
        assert(self.rest() =~= old(self).rest().skip(n as int));
        assert(v@ =~= old(self).rest().take(n as int));
        Ok(v)
    }

    /// Everything that is left.
    pub fn to_end(&mut self) -> (v: Vec<u8>)
        ensures
            v@ == old(self).rest(),
            final(self).rest().len() == 0,
    {
        proof {
            use_type_invariant(&*self);
        }
        let mut v: Vec<u8> = Vec::new();
        let part = vstd::slice::slice_subrange(self.data, self.pos, self.data.len());
        put_bytes(&mut v, part);
        self.pos = self.data.len();
        assert(v@ =~= old(self).rest());
        v
    }
}

/// Whether two identifiers hold the same bytes.
pub fn same_16(a: &[u8; 16], b: &[u8; 16]) -> (r: bool)
    ensures
        r == (*a == *b),
{
    let mut i: usize = 0;
    while i < 16
        invariant
            i <= 16,
            forall|j: int| 0 <= j < i ==> a@[j] == b@[j],
        decreases 16 - i,
    {
        if a[i] != b[i] {
            assert(a@ != b@);
            return false;
        }
        i = i + 1;
    }
    assert(*a =~= *b);
    true
}

} // verus!
