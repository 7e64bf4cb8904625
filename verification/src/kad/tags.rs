//! Tags: named values attached to files, sources and hellos.
use vstd::prelude::*;
use vstd::utf8::*;

use super::types::{
    vec_to_16, TAGTYPE_BLOB, TAGTYPE_BOOL, TAGTYPE_BSOB, TAGTYPE_FLOAT32, TAGTYPE_HASH,
    TAGTYPE_STRING, TAGTYPE_UINT16, TAGTYPE_UINT32, TAGTYPE_UINT64, TAGTYPE_UINT8,
};
use crate::bytes::{
    dec_bytes, dec_u16, dec_u32, dec_u64, dec_u8, le16, le32, le64, put_bytes, put_u16, put_u32,
    put_u64, Parsed, Reader, WireError,
};
use crate::bytes::{
    lemma_bytes_round_trip, lemma_le16_round_trip, lemma_le32_round_trip, lemma_le64_round_trip,
    lemma_u8_round_trip,
};
use crate::text::{lemma_utf8_round_trip, string_from_utf8_lossy, text_of};

verus! {

/// A tag's name: one byte for the well-known ones, text for the others.
#[derive(Clone, Debug)]
pub enum TagName {
    Id(u8),
    Str(String),
}

/// A tag's value. A floating-point value is kept as its 32 bits.
#[derive(Clone, Debug)]
pub enum TagValue {
    Hash([u8; 16]),
    String(String),
    Uint64(u64),
    Uint32(u32),
    Uint16(u16),
    Uint8(u8),
    Float(u32),
    Bool(u8),
    Blob(Vec<u8>),
    Bsob(Vec<u8>),
}

#[derive(Clone, Debug)]
pub struct KadTag {
    pub name: TagName,
    pub value: TagValue,
}

/// A tag's name as a mathematical value.
pub enum TagNameView {
    Id(u8),
    Str(Seq<char>),
}

/// A tag's value as a mathematical value.
pub enum TagValueView {
    Hash(Seq<u8>),
    String(Seq<char>),
    Uint64(u64),
    Uint32(u32),
    Uint16(u16),
    Uint8(u8),
    Float(u32),
    Bool(u8),
    Blob(Seq<u8>),
    Bsob(Seq<u8>),
}

/// A tag as a mathematical value.
pub struct TagView {
    pub name: TagNameView,
    pub value: TagValueView,
}

impl View for TagName {
    type V = TagNameView;

    open spec fn view(&self) -> TagNameView {
        match *self {
            TagName::Id(b) => TagNameView::Id(b),
            TagName::Str(s) => TagNameView::Str(s@),
        }
    }
}

impl View for TagValue {
    type V = TagValueView;

    open spec fn view(&self) -> TagValueView {
        match *self {
            TagValue::Hash(h) => TagValueView::Hash(h@),
            TagValue::String(s) => TagValueView::String(s@),
            TagValue::Uint64(x) => TagValueView::Uint64(x),
            TagValue::Uint32(x) => TagValueView::Uint32(x),
            TagValue::Uint16(x) => TagValueView::Uint16(x),
            TagValue::Uint8(x) => TagValueView::Uint8(x),
            TagValue::Float(x) => TagValueView::Float(x),
            TagValue::Bool(x) => TagValueView::Bool(x),
            TagValue::Blob(b) => TagValueView::Blob(b@),
            TagValue::Bsob(b) => TagValueView::Bsob(b@),
        }
    }
}

impl View for KadTag {
    type V = TagView;

    open spec fn view(&self) -> TagView {
        TagView { name: self.name@, value: self.value@ }
    }
}

/// The tags of a list, in order.
pub open spec fn tag_views(tags: Seq<KadTag>) -> Seq<TagView> {
    tags.map_values(|t: KadTag| t@)
}

fn copy_bytes(b: &Vec<u8>) -> (r: Vec<u8>)
    ensures
        r@ == b@,
{
    let mut v: Vec<u8> = Vec::new();
    put_bytes(&mut v, b.as_slice());
    v
}

impl KadTag {
    /// The same tag again.
    pub fn duplicate(&self) -> (r: KadTag)
        ensures
            r@ == self@,
    {
        let name = match &self.name {
            TagName::Id(b) => TagName::Id(*b),
            TagName::Str(s) => TagName::Str(s.clone()),
        };
        let value = match &self.value {
            TagValue::Hash(h) => TagValue::Hash(*h),
            TagValue::String(s) => TagValue::String(s.clone()),
            TagValue::Uint64(x) => TagValue::Uint64(*x),
            TagValue::Uint32(x) => TagValue::Uint32(*x),
            TagValue::Uint16(x) => TagValue::Uint16(*x),
            TagValue::Uint8(x) => TagValue::Uint8(*x),
            TagValue::Float(x) => TagValue::Float(*x),
            TagValue::Bool(x) => TagValue::Bool(*x),
            TagValue::Blob(b) => TagValue::Blob(copy_bytes(b)),
            TagValue::Bsob(b) => TagValue::Bsob(copy_bytes(b)),
        };
        KadTag { name, value }
    }
}

/// The same tags again, in the same order.
pub fn duplicate_tags(tags: &[KadTag]) -> (r: Vec<KadTag>)
    ensures
        tag_views(r@) == tag_views(tags@),
{
    let mut out: Vec<KadTag> = Vec::new();
    let mut i: usize = 0;
    while i < tags.len()
        invariant
            i <= tags.len(),
            out@.len() == i,
            forall|j: int| 0 <= j < i ==> (#[trigger] out@[j])@ == tags@[j]@,
        decreases tags.len() - i,
    {
        out.push(tags[i].duplicate());
        i = i + 1;
    }
    assert(tag_views(out@) =~= tag_views(tags@));
    out
}

pub open spec fn dec_tag_name(s: Seq<u8>) -> Parsed<TagNameView> {
    match dec_u16(s) {
        Err(e) => Err(e),
        Ok((len, s)) => match dec_bytes(s, len as nat) {
            Err(e) => Err(e),
            Ok((b, s)) => if len == 1 {
                Ok((TagNameView::Id(b[0]), s))
            } else {
                Ok((TagNameView::Str(text_of(b)), s))
            },
        },
    }
}

pub open spec fn dec_tag_value(t: u8, s: Seq<u8>) -> Parsed<TagValueView> {
    if t == TAGTYPE_HASH {
        match dec_bytes(s, 16) {
            Err(e) => Err(e),
            Ok((b, s)) => Ok((TagValueView::Hash(b), s)),
        }
    } else if t == TAGTYPE_STRING {
        match dec_u16(s) {
            Err(e) => Err(e),
            Ok((len, s)) => match dec_bytes(s, len as nat) {
                Err(e) => Err(e),
                Ok((b, s)) => Ok((TagValueView::String(text_of(b)), s)),
            },
        }
    } else if t == TAGTYPE_UINT64 {
        match dec_u64(s) {
            Err(e) => Err(e),
            Ok((x, s)) => Ok((TagValueView::Uint64(x), s)),
        }
    } else if t == TAGTYPE_UINT32 {
        match dec_u32(s) {
            Err(e) => Err(e),
            Ok((x, s)) => Ok((TagValueView::Uint32(x), s)),
        }
    } else if t == TAGTYPE_UINT16 {
        match dec_u16(s) {
            Err(e) => Err(e),
            Ok((x, s)) => Ok((TagValueView::Uint16(x), s)),
        }
    } else if t == TAGTYPE_UINT8 {
        match dec_u8(s) {
            Err(e) => Err(e),
            Ok((x, s)) => Ok((TagValueView::Uint8(x), s)),
        }
    } else if t == TAGTYPE_FLOAT32 {
        match dec_u32(s) {
            Err(e) => Err(e),
            Ok((x, s)) => Ok((TagValueView::Float(x), s)),
        }
    } else if t == TAGTYPE_BOOL {
        match dec_u8(s) {
            Err(e) => Err(e),
            Ok((x, s)) => Ok((TagValueView::Bool(x), s)),
        }
    } else if t == TAGTYPE_BLOB {
        match dec_u32(s) {
            Err(e) => Err(e),
            Ok((len, s)) => match dec_bytes(s, len as nat) {
                Err(e) => Err(e),
                Ok((b, s)) => Ok((TagValueView::Blob(b), s)),
            },
        }
    } else if t == TAGTYPE_BSOB {
        match dec_u8(s) {
            Err(e) => Err(e),
            Ok((len, s)) => match dec_bytes(s, len as nat) {
                Err(e) => Err(e),
                Ok((b, s)) => Ok((TagValueView::Bsob(b), s)),
            },
        }
    } else {
        Err(WireError::UnknownTagType(t))
    }
}

/// One tag: a type byte, the name, the value.
pub open spec fn dec_tag(s: Seq<u8>) -> Parsed<TagView> {
    match dec_u8(s) {
        Err(e) => Err(e),
        Ok((t, s)) => match dec_tag_name(s) {
            Err(e) => Err(e),
            Ok((name, s)) => match dec_tag_value(t, s) {
                Err(e) => Err(e),
                Ok((value, s)) => Ok((TagView { name, value }, s)),
            },
        },
    }
}

/// `n` tags, one after the other.
pub open spec fn dec_tags(n: nat, s: Seq<u8>) -> Parsed<Seq<TagView>>
    decreases n,
{
    if n == 0 {
        Ok((Seq::empty(), s))
    } else {
        match dec_tag(s) {
            Err(e) => Err(e),
            Ok((t, s)) => match dec_tags((n - 1) as nat, s) {
                Err(e) => Err(e),
                Ok((ts, s)) => Ok((seq![t] + ts, s)),
            },
        }
    }
}

/// A tag list: a count byte, then that many tags.
pub open spec fn dec_tag_list(s: Seq<u8>) -> Parsed<Seq<TagView>> {
    match dec_u8(s) {
        Err(e) => Err(e),
        Ok((n, s)) => dec_tags(n as nat, s),
    }
}

pub open spec fn name_bytes(n: TagNameView) -> Seq<u8> {
    match n {
        TagNameView::Id(b) => seq![b],
        TagNameView::Str(s) => encode_utf8(s),
    }
}

/// Whether every part of the tag fits its length field.
pub open spec fn tag_fits(t: TagView) -> bool {
    &&& name_bytes(t.name).len() <= 0xFFFF
    &&& match t.value {
        TagValueView::String(s) => encode_utf8(s).len() <= 0xFFFF,
        TagValueView::Blob(b) => b.len() <= 0xFFFF_FFFF,
        TagValueView::Bsob(b) => b.len() <= 0xFF,
        _ => true,
    }
}

pub open spec fn tag_type(v: TagValueView) -> u8 {
    match v {
        TagValueView::Hash(_) => TAGTYPE_HASH,
        TagValueView::String(_) => TAGTYPE_STRING,
        TagValueView::Uint64(_) => TAGTYPE_UINT64,
        TagValueView::Uint32(_) => TAGTYPE_UINT32,
        TagValueView::Uint16(_) => TAGTYPE_UINT16,
        TagValueView::Uint8(_) => TAGTYPE_UINT8,
        TagValueView::Float(_) => TAGTYPE_FLOAT32,
        TagValueView::Bool(_) => TAGTYPE_BOOL,
        TagValueView::Blob(_) => TAGTYPE_BLOB,
        TagValueView::Bsob(_) => TAGTYPE_BSOB,
    }
}

pub open spec fn enc_tag_value(v: TagValueView) -> Seq<u8> {
    match v {
        TagValueView::Hash(h) => h,
        TagValueView::String(s) => le16(encode_utf8(s).len() as u16) + encode_utf8(s),
        TagValueView::Uint64(x) => le64(x),
        TagValueView::Uint32(x) => le32(x),
        TagValueView::Uint16(x) => le16(x),
        TagValueView::Uint8(x) => seq![x],
        TagValueView::Float(x) => le32(x),
        TagValueView::Bool(x) => seq![x],
        TagValueView::Blob(b) => le32(b.len() as u32) + b,
        TagValueView::Bsob(b) => seq![b.len() as u8] + b,
    }
}

pub open spec fn enc_tag(t: TagView) -> Seq<u8> {
    seq![tag_type(t.value)] + le16(name_bytes(t.name).len() as u16) + name_bytes(t.name)
        + enc_tag_value(t.value)
}

pub open spec fn enc_tags(ts: Seq<TagView>) -> Seq<u8>
    decreases ts.len(),
{
    if ts.len() == 0 {
        Seq::empty()
    } else {
        enc_tags(ts.drop_last()) + enc_tag(ts.last())
    }
}

/// Whether a tag list has a wire form.
pub open spec fn tag_list_fits(ts: Seq<TagView>) -> bool {
    &&& ts.len() <= 0xFF
    &&& forall|i: int| 0 <= i < ts.len() ==> #[trigger] tag_fits(ts[i])
}

pub open spec fn enc_tag_list(ts: Seq<TagView>) -> Seq<u8> {
    seq![ts.len() as u8] + enc_tags(ts)
}

/// A tag that survives the wire as it is: a hash has 16 bytes, and a name of
/// one byte is a number, never text.
pub open spec fn tag_canonical(t: TagView) -> bool {
    &&& (t.name matches TagNameView::Str(s) ==> encode_utf8(s).len() != 1)
    &&& (t.value matches TagValueView::Hash(h) ==> h.len() == 16)
}

proof fn lemma_tag_name_round_trip(n: TagNameView, rest: Seq<u8>)
    requires
        name_bytes(n).len() <= 0xFFFF,
        n matches TagNameView::Str(s) ==> encode_utf8(s).len() != 1,
    ensures
        dec_tag_name(le16(name_bytes(n).len() as u16) + name_bytes(n) + rest) == Ok::<
            (TagNameView, Seq<u8>),
            WireError,
        >((n, rest)),
{
    let b = name_bytes(n);
    assert(le16(b.len() as u16) + b + rest =~= le16(b.len() as u16) + (b + rest));
    lemma_le16_round_trip(b.len() as u16, b + rest);
    lemma_bytes_round_trip(b, rest);
    if let TagNameView::Str(s) = n {
        lemma_utf8_round_trip(s);
    }
}

proof fn lemma_tag_value_round_trip(v: TagValueView, rest: Seq<u8>)
    requires
        v matches TagValueView::Hash(h) ==> h.len() == 16,
        v matches TagValueView::String(s) ==> encode_utf8(s).len() <= 0xFFFF,
        v matches TagValueView::Blob(b) ==> b.len() <= 0xFFFF_FFFF,
        v matches TagValueView::Bsob(b) ==> b.len() <= 0xFF,
    ensures
        dec_tag_value(tag_type(v), enc_tag_value(v) + rest) == Ok::<
            (TagValueView, Seq<u8>),
            WireError,
        >((v, rest)),
{
    match v {
        TagValueView::Hash(h) => {
            lemma_bytes_round_trip(h, rest);
        },
        TagValueView::String(s) => {
            let b = encode_utf8(s);
            assert(enc_tag_value(v) + rest =~= le16(b.len() as u16) + (b + rest));
            lemma_le16_round_trip(b.len() as u16, b + rest);
            lemma_bytes_round_trip(b, rest);
            lemma_utf8_round_trip(s);
        },
        TagValueView::Uint64(x) => {
            lemma_le64_round_trip(x, rest);
        },
        TagValueView::Uint32(x) => {
            lemma_le32_round_trip(x, rest);
        },
        TagValueView::Uint16(x) => {
            lemma_le16_round_trip(x, rest);
        },
        TagValueView::Uint8(x) => {
            lemma_u8_round_trip(x, rest);
        },
        TagValueView::Float(x) => {
            lemma_le32_round_trip(x, rest);
        },
        TagValueView::Bool(x) => {
            lemma_u8_round_trip(x, rest);
        },
        TagValueView::Blob(b) => {
            assert(enc_tag_value(v) + rest =~= le32(b.len() as u32) + (b + rest));
            lemma_le32_round_trip(b.len() as u32, b + rest);
            lemma_bytes_round_trip(b, rest);
        },
        TagValueView::Bsob(b) => {
            assert(enc_tag_value(v) + rest =~= seq![b.len() as u8] + (b + rest));
            lemma_u8_round_trip(b.len() as u8, b + rest);
            lemma_bytes_round_trip(b, rest);
        },
    }
}

/// Reading back a written tag gives that tag.
pub proof fn lemma_tag_round_trip(t: TagView, rest: Seq<u8>)
    requires
        tag_fits(t),
        tag_canonical(t),
    ensures
        dec_tag(enc_tag(t) + rest) == Ok::<(TagView, Seq<u8>), WireError>((t, rest)),
{
    let n = le16(name_bytes(t.name).len() as u16) + name_bytes(t.name);
    let v = enc_tag_value(t.value);
    assert(enc_tag(t) + rest =~= seq![tag_type(t.value)] + (n + (v + rest)));
    lemma_u8_round_trip(tag_type(t.value), n + (v + rest));
    lemma_tag_name_round_trip(t.name, v + rest);
    lemma_tag_value_round_trip(t.value, rest);
}

/// Reading `a + b` tags is reading `a` tags and then `b` tags.
proof fn lemma_dec_tags_split(a: nat, b: nat, s: Seq<u8>)
    ensures
        dec_tags(a + b, s) == (match dec_tags(a, s) {
            Err(e) => Err::<(Seq<TagView>, Seq<u8>), WireError>(e),
            Ok((xs, s1)) => match dec_tags(b, s1) {
                Err(e) => Err(e),
                Ok((ys, s2)) => Ok((xs + ys, s2)),
            },
        }),
    decreases a,
{
    if a == 0 {
        if let Ok((ys, s2)) = dec_tags(b, s) {
            assert(Seq::<TagView>::empty() + ys =~= ys);
        }
    } else {
        if let Ok((t, s0)) = dec_tag(s) {
            lemma_dec_tags_split((a - 1) as nat, b, s0);
            if let Ok((xs, s1)) = dec_tags((a - 1) as nat, s0) {
                if let Ok((ys, s2)) = dec_tags(b, s1) {
                    assert(seq![t] + (xs + ys) =~= (seq![t] + xs) + ys);
                }
            }
        }
        assert((a - 1) as nat + b == (a + b - 1) as nat);
    }
}

/// Reading one tag more.
proof fn lemma_dec_tags_snoc(n: nat, s: Seq<u8>)
    ensures
        dec_tags(n + 1, s) == (match dec_tags(n, s) {
            Err(e) => Err::<(Seq<TagView>, Seq<u8>), WireError>(e),
            Ok((xs, s1)) => match dec_tag(s1) {
                Err(e) => Err(e),
                Ok((t, s2)) => Ok((xs.push(t), s2)),
            },
        }),
{
    lemma_dec_tags_split(n, 1, s);
    if let Ok((xs, s1)) = dec_tags(n, s) {
        assert(dec_tags(1, s1) == (match dec_tag(s1) {
            Err(e) => Err::<(Seq<TagView>, Seq<u8>), WireError>(e),
            Ok((t, s2)) => Ok((seq![t] + Seq::<TagView>::empty(), s2)),
        })) by {
            reveal_with_fuel(dec_tags, 2);
        }
        if let Ok((t, s2)) = dec_tag(s1) {
            assert(xs + (seq![t] + Seq::<TagView>::empty()) =~= xs.push(t));
        }
    }
}

proof fn lemma_tags_round_trip(ts: Seq<TagView>, rest: Seq<u8>)
    requires
        forall|i: int| 0 <= i < ts.len() ==> #[trigger] tag_fits(ts[i]),
        forall|i: int| 0 <= i < ts.len() ==> #[trigger] tag_canonical(ts[i]),
    ensures
        dec_tags(ts.len(), enc_tags(ts) + rest) == Ok::<(Seq<TagView>, Seq<u8>), WireError>(
            (ts, rest),
        ),
    decreases ts.len(),
{
    reveal_with_fuel(enc_tags, 1);
    if ts.len() == 0 {
        assert(enc_tags(ts) + rest =~= rest);
        assert(ts =~= Seq::<TagView>::empty());
    } else {
        let front = ts.drop_last();
        let t = ts.last();
        let n = front.len();
        let e = enc_tag(t);
        assert(enc_tags(ts) == enc_tags(front) + e);
        assert(enc_tags(ts) + rest =~= enc_tags(front) + (e + rest));
        assert forall|i: int| 0 <= i < front.len() implies #[trigger] tag_fits(front[i]) by {
            assert(front[i] == ts[i]);
            assert(tag_fits(ts[i]));
        }
        assert forall|i: int| 0 <= i < front.len() implies #[trigger] tag_canonical(front[i]) by {
            assert(front[i] == ts[i]);
            assert(tag_canonical(ts[i]));
        }
        lemma_tags_round_trip(front, e + rest);
        assert(tag_fits(ts[n as int]) && tag_canonical(ts[n as int]));
        lemma_tag_round_trip(t, rest);
        lemma_dec_tags_snoc(n, enc_tags(ts) + rest);
        assert(front.push(t) =~= ts);
        assert(n + 1 == ts.len());
    }
}

/// Reading back a written tag list gives those tags.
pub proof fn lemma_tag_list_round_trip(ts: Seq<TagView>, rest: Seq<u8>)
    requires
        tag_list_fits(ts),
        forall|i: int| 0 <= i < ts.len() ==> #[trigger] tag_canonical(ts[i]),
    ensures
        dec_tag_list(enc_tag_list(ts) + rest) == Ok::<(Seq<TagView>, Seq<u8>), WireError>(
            (ts, rest),
        ),
{
    assert(enc_tag_list(ts) + rest =~= seq![ts.len() as u8] + (enc_tags(ts) + rest));
    lemma_u8_round_trip(ts.len() as u8, enc_tags(ts) + rest);
    lemma_tags_round_trip(ts, rest);
}

fn read_tag_name(r: &mut Reader) -> (res: Result<TagName, WireError>)
    ensures
        match dec_tag_name(old(r).rest()) {
            Ok((v, rest)) => res is Ok && res->Ok_0@ == v && final(r).rest() == rest,
            Err(e) => res is Err && res->Err_0 == e,
        },
{
    let len: u16 = r.u16()?;
    let b = r.bytes(len as usize)?;
    if len == 1 {
        Ok(TagName::Id(b[0]))
    } else {
        Ok(TagName::Str(string_from_utf8_lossy(b.as_slice())))
    }
}

fn read_tag_value(t: u8, r: &mut Reader) -> (res: Result<TagValue, WireError>)
    ensures
        match dec_tag_value(t, old(r).rest()) {
            Ok((v, rest)) => res is Ok && res->Ok_0@ == v && final(r).rest() == rest,
            Err(e) => res is Err && res->Err_0 == e,
        },
{
    if t == TAGTYPE_HASH {
        let b = r.bytes(16)?;
        Ok(TagValue::Hash(vec_to_16(&b)))
    } else if t == TAGTYPE_STRING {
        let len: u16 = r.u16()?;
        let b = r.bytes(len as usize)?;
        Ok(TagValue::String(string_from_utf8_lossy(b.as_slice())))
    } else if t == TAGTYPE_UINT64 {
        Ok(TagValue::Uint64(r.u64()?))
    } else if t == TAGTYPE_UINT32 {
        Ok(TagValue::Uint32(r.u32()?))
    } else if t == TAGTYPE_UINT16 {
        Ok(TagValue::Uint16(r.u16()?))
    } else if t == TAGTYPE_UINT8 {
        Ok(TagValue::Uint8(r.u8()?))
    } else if t == TAGTYPE_FLOAT32 {
        Ok(TagValue::Float(r.u32()?))
    } else if t == TAGTYPE_BOOL {
        Ok(TagValue::Bool(r.u8()?))
    } else if t == TAGTYPE_BLOB {
        let len: u32 = r.u32()?;
        let b = r.bytes(len as usize)?;
        Ok(TagValue::Blob(b))
    } else if t == TAGTYPE_BSOB {
        let len: u8 = r.u8()?;
        let b = r.bytes(len as usize)?;
        Ok(TagValue::Bsob(b))
    } else {
        Err(WireError::UnknownTagType(t))
    }
}

fn read_tag(r: &mut Reader) -> (res: Result<KadTag, WireError>)
    ensures
        match dec_tag(old(r).rest()) {
            Ok((v, rest)) => res is Ok && res->Ok_0@ == v && final(r).rest() == rest,
            Err(e) => res is Err && res->Err_0 == e,
        },
{
    let t: u8 = r.u8()?;
    let name = read_tag_name(r)?;
    let value = read_tag_value(t, r)?;
    Ok(KadTag { name, value })
}

/// Reads a count byte and that many tags.
pub fn read_tag_list(r: &mut Reader) -> (res: Result<Vec<KadTag>, WireError>)
    ensures
        match dec_tag_list(old(r).rest()) {
            Ok((v, rest)) => res is Ok && tag_views(res->Ok_0@) == v && final(r).rest() == rest,
            Err(e) => res is Err && res->Err_0 == e,
        },
{
    let n: u8 = r.u8()?;
    let mut out: Vec<KadTag> = Vec::new();
    let mut i: u8 = 0;
    let ghost s0 = r.rest();
    assert(tag_views(out@) =~= Seq::<TagView>::empty());
    while i < n
        invariant
            i <= n,
            dec_tags(i as nat, s0) == Ok::<(Seq<TagView>, Seq<u8>), WireError>(
                (tag_views(out@), r.rest()),
            ),
            dec_tag_list(old(r).rest()) == dec_tags(n as nat, s0),
        decreases n - i,
    {
        let ghost before = out@;
        proof {
            lemma_dec_tags_split(i as nat + 1, (n - i - 1) as nat, s0);
            lemma_dec_tags_snoc(i as nat, s0);
        }
        let t = read_tag(r)?;
        out.push(t);
        assert(tag_views(out@) =~= tag_views(before).push(t@));
        i = i + 1;
    }
    Ok(out)
}

fn write_tag(out: &mut Vec<u8>, t: &KadTag) -> (res: Result<(), WireError>)
    ensures
        tag_fits(t@) ==> res is Ok && final(out)@ == old(out)@ + enc_tag(t@),
        !tag_fits(t@) ==> res == Err::<(), WireError>(WireError::FieldTooLong),
{
    let ghost before = out@;
    let ty: u8 = match &t.value {
        TagValue::Hash(_) => TAGTYPE_HASH,
        TagValue::String(_) => TAGTYPE_STRING,
        TagValue::Uint64(_) => TAGTYPE_UINT64,
        TagValue::Uint32(_) => TAGTYPE_UINT32,
        TagValue::Uint16(_) => TAGTYPE_UINT16,
        TagValue::Uint8(_) => TAGTYPE_UINT8,
        TagValue::Float(_) => TAGTYPE_FLOAT32,
        TagValue::Bool(_) => TAGTYPE_BOOL,
        TagValue::Blob(_) => TAGTYPE_BLOB,
        TagValue::Bsob(_) => TAGTYPE_BSOB,
    };
    out.push(ty);
    match &t.name {
        TagName::Id(b) => {
            put_u16(out, 1);
            out.push(*b);
        },
        TagName::Str(s) => {
            let b = s.as_str().as_bytes();
            if b.len() > 0xFFFF {
                return Err(WireError::FieldTooLong);
            }
            put_u16(out, b.len() as u16);
            put_bytes(out, b);
        },
    }
    let ghost named = out@;
    assert(named =~= before + (seq![tag_type(t@.value)] + le16(name_bytes(t@.name).len() as u16)
        + name_bytes(t@.name)));
    match &t.value {
        TagValue::Hash(h) => {
            put_bytes(out, h.as_slice());
        },
        TagValue::String(s) => {
            let b = s.as_str().as_bytes();
            if b.len() > 0xFFFF {
                return Err(WireError::FieldTooLong);
            }
            put_u16(out, b.len() as u16);
            put_bytes(out, b);
        },
        TagValue::Uint64(x) => {
            put_u64(out, *x);
        },
        TagValue::Uint32(x) => {
            put_u32(out, *x);
        },
        TagValue::Uint16(x) => {
            put_u16(out, *x);
        },
        TagValue::Uint8(x) => {
            out.push(*x);
        },
        TagValue::Float(x) => {
            put_u32(out, *x);
        },
        TagValue::Bool(x) => {
            out.push(*x);
        },
        TagValue::Blob(b) => {
            if b.len() as u64 > 0xFFFF_FFFF {
                return Err(WireError::FieldTooLong);
            }
            put_u32(out, b.len() as u32);
            put_bytes(out, b.as_slice());
        },
        TagValue::Bsob(b) => {
            if b.len() > 0xFF {
                return Err(WireError::FieldTooLong);
            }
            out.push(b.len() as u8);
            put_bytes(out, b.as_slice());
        },
    }
    assert(out@ =~= named + enc_tag_value(t@.value));
    assert(out@ =~= before + enc_tag(t@));
    Ok(())
}

/// Writes a count byte and the tags. Fails exactly if the list or a part of
/// one of its tags is too long for its length field.
pub fn write_tag_list(out: &mut Vec<u8>, tags: &Vec<KadTag>) -> (res: Result<(), WireError>)
    ensures
        tag_list_fits(tag_views(tags@)) ==> res is Ok && final(out)@ == old(out)@ + enc_tag_list(
            tag_views(tags@),
        ),
        !tag_list_fits(tag_views(tags@)) ==> res == Err::<(), WireError>(WireError::FieldTooLong),
{
    let ghost before = out@;
    let ghost ts = tag_views(tags@);
    if tags.len() > 0xFF {
        return Err(WireError::FieldTooLong);
    }
    out.push(tags.len() as u8);
    let mut i: usize = 0;
    assert(out@ =~= before + (seq![ts.len() as u8] + enc_tags(ts.take(0))));
    while i < tags.len()
        invariant
            i <= tags.len() <= 0xFF,
            ts == tag_views(tags@),
            forall|j: int| 0 <= j < i ==> #[trigger] tag_fits(ts[j]),
            out@ == before + (seq![ts.len() as u8] + enc_tags(ts.take(i as int))),
        decreases tags.len() - i,
    {
        assert(ts[i as int] == tags@[i as int]@);
        let ghost mid = out@;
        match write_tag(out, &tags[i]) {
            Ok(_) => {},
            Err(e) => {
                return Err(e);
            },
        }
        assert(ts.take(i as int + 1).drop_last() =~= ts.take(i as int));
        assert(out@ =~= before + (seq![ts.len() as u8] + enc_tags(ts.take(i as int + 1))));
        i = i + 1;
    }
    assert(ts.take(i as int) =~= ts);
    Ok(())
}

} // verus!
