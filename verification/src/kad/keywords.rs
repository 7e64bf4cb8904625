//! The keywords of a file name, and the identifiers that they are found under.
use vstd::prelude::*;

use vstd::utf8::*;

use crate::kad::types::{lemma_16_exists, lemma_seq_to_16, seq_to_16, KadId};
use crate::text::{chars_of, is_space, is_whitespace};

verus! {

/// The fewest bytes that a keyword has.
pub const MIN_KEYWORD_BYTES: usize = 3;

// ---------------------------------------------------------------------------
// Outside functions
// ---------------------------------------------------------------------------
/// A text in lower case.
pub uninterp spec fn lowercase(s: Seq<char>) -> Seq<char>;

/// Calls `str::to_lowercase`. The result is a function of the text.
#[verifier::external_body]
pub(crate) fn to_lowercase(s: &str) -> (r: String)
    ensures
        r@ == lowercase(s@),
{
    s.to_lowercase()
}

/// The MD4 digest of some bytes.
pub uninterp spec fn md4_digest(data: Seq<u8>) -> Seq<u8>;

/// Calls `md4::Md4::digest`. The digest has 16 bytes and is a function of the data.
#[verifier::external_body]
pub(crate) fn md4(data: &[u8]) -> (r: [u8; 16])
    ensures
        r@ == md4_digest(data@),
{
    <md4::Md4 as digest::Digest>::digest(data).into()
}

/// A digit of the hexadecimal system, in upper case.
pub open spec fn upper_digit(n: int) -> char {
    if n < 10 {
        (48 + n) as u8 as char
    } else {
        (55 + n) as u8 as char
    }
}

/// Bytes as pairs of hexadecimal digits, in upper case.
pub open spec fn upper_hex(b: Seq<u8>) -> Seq<char> {
    Seq::new(
        2 * b.len(),
        |i: int|
            if i % 2 == 0 {
                upper_digit(b[i / 2] as int / 16)
            } else {
                upper_digit(b[i / 2] as int % 16)
            },
    )
}

/// Calls `hex::encode_upper`: two digits for each byte, the high one first.
#[verifier::external_body]
pub(crate) fn encode_upper(b: &[u8]) -> (r: String)
    ensures
        r@ == upper_hex(b@),
{
    hex::encode_upper(b)
}

// ---------------------------------------------------------------------------
// Words
// ---------------------------------------------------------------------------
/// Whether a character parts words.
pub open spec fn is_separator(c: char) -> bool {
    c == '(' || c == ')' || c == '[' || c == ']' || c == '{' || c == '}' || c == '<' || c == '>'
        || c == ',' || c == '.' || c == '_' || c == '-' || c == '!' || c == '?' || c == ':' || c
        == ';' || c == '\\' || c == '/' || c == '"' || is_space(c)
}

fn separates(c: char) -> (r: bool)
    ensures
        r == is_separator(c),
{
    c == '(' || c == ')' || c == '[' || c == ']' || c == '{' || c == '}' || c == '<' || c == '>'
        || c == ',' || c == '.' || c == '_' || c == '-' || c == '!' || c == '?' || c == ':' || c
        == ';' || c == '\\' || c == '/' || c == '"' || is_whitespace(c)
}

/// The parts of a text between its separators, empty ones too.
pub open spec fn parts_of(s: Seq<char>) -> Seq<Seq<char>>
    decreases s.len(),
{
    if s.len() == 0 {
        seq![Seq::empty()]
    } else {
        let before = parts_of(s.drop_last());
        if is_separator(s.last()) {
            before.push(Seq::empty())
        } else {
            before.drop_last().push(before.last().push(s.last()))
        }
    }
}

/// The keywords of some parts, each of which comes with its lower case: the
/// long ones in lower case, each once, and the last part that gave one.
pub open spec fn gathered(parts: Seq<(Seq<char>, Seq<char>)>) -> (Seq<Seq<char>>, Seq<char>)
    decreases parts.len(),
{
    if parts.len() == 0 {
        (Seq::empty(), Seq::empty())
    } else {
        let (words, last) = gathered(parts.drop_last());
        let (w, lower) = parts.last();
        if encode_utf8(w).len() >= MIN_KEYWORD_BYTES && !words.contains(lower) {
            (words.push(lower), w)
        } else {
            (words, last)
        }
    }
}

/// The keywords of some parts, each of which comes with its lower case. A last
/// one of three characters and three bytes that is not alone is left out: it is
/// the extension.
pub open spec fn chosen(parts: Seq<(Seq<char>, Seq<char>)>) -> Seq<Seq<char>> {
    let (words, last) = gathered(parts);
    if words.len() > 1 && last.len() == 3 && encode_utf8(last).len() == 3 {
        words.drop_last()
    } else {
        words
    }
}

/// Some parts, each with its lower case.
pub open spec fn lowered(parts: Seq<Seq<char>>) -> Seq<(Seq<char>, Seq<char>)> {
    parts.map_values(|w: Seq<char>| (w, lowercase(w)))
}

/// The keywords of a file name.
pub open spec fn keywords_of(name: Seq<char>) -> Seq<Seq<char>> {
    chosen(lowered(parts_of(name)))
}

/// The texts of some strings.
pub open spec fn texts(v: Seq<String>) -> Seq<Seq<char>> {
    v.map_values(|s: String| s@)
}

/// The texts of some pairs of strings.
pub open spec fn text_pairs(v: Seq<(String, String)>) -> Seq<(Seq<char>, Seq<char>)> {
    v.map_values(|p: (String, String)| (p.0@, p.1@))
}

fn split_parts(name: &str) -> (r: Vec<String>)
    ensures
        texts(r@) == parts_of(name@),
{
    let chars = chars_of(name);
    let mut done: Vec<String> = Vec::new();
    let mut current = String::new();
    let mut i: usize = 0;
    assert(chars@.take(0) =~= Seq::<char>::empty());
    assert(texts(done@).push(current@) =~= seq![Seq::<char>::empty()]);
    while i < chars.len()
        invariant
            i <= chars@.len(),
            texts(done@).push(current@) == parts_of(chars@.take(i as int)),
        decreases chars@.len() - i,
    {
        let c: char = chars[i];
        let ghost next = chars@.take(i as int + 1);
        let ghost before = texts(done@).push(current@);
        proof {
            assert(next.drop_last() =~= chars@.take(i as int));
            assert(next.last() == c);
            assert(before.drop_last() =~= texts(done@));
            assert(before.last() == current@);
        }
        if separates(c) {
            let ghost old_done = done@;
            let ghost word = current@;
            done.push(current);
            current = String::new();
            assert(texts(done@) =~= texts(old_done).push(word));
            assert(current@ =~= Seq::<char>::empty());
        } else {
            current.push(c);
        }
        assert(texts(done@).push(current@) =~= parts_of(next));
        i = i + 1;
    }
    assert(chars@.take(i as int) =~= chars@);
    let ghost old_done = done@;
    let ghost word = current@;
    done.push(current);
    assert(texts(done@) =~= texts(old_done).push(word));
    done
}

fn same_text(a: &str, b: &str) -> (r: bool)
    ensures
        r == (a@ == b@),
{
    let (x, y) = (chars_of(a), chars_of(b));
    if x.len() != y.len() {
        return false;
    }
    let mut i: usize = 0;
    while i < x.len()
        invariant
            i <= x@.len(),
            x@ == a@,
            y@ == b@,
            x@.len() == y@.len(),
            forall|j: int| 0 <= j < i ==> x@[j] == y@[j],
        decreases x@.len() - i,
    {
        if x[i] != y[i] {
            return false;
        }
        i = i + 1;
    }
    assert(x@ =~= y@);
    true
}

pub(crate) fn has_text(v: &Vec<String>, s: &str) -> (r: bool)
    ensures
        r == texts(v@).contains(s@),
{
    let mut i: usize = 0;
    while i < v.len()
        invariant
            i <= v@.len(),
            forall|j: int| 0 <= j < i ==> texts(v@)[j] != s@,
        decreases v@.len() - i,
    {
        if same_text(v[i].as_str(), s) {
            assert(texts(v@)[i as int] == s@);
            return true;
        }
        i = i + 1;
    }
    false
}

/// Chooses the keywords among some parts of a file name, each of which comes
/// with its lower case.
pub fn choose_keywords(parts: &[(String, String)]) -> (r: Vec<String>)
    ensures
        texts(r@) == chosen(text_pairs(parts@)),
{
    let ghost all = text_pairs(parts@);
    let mut result: Vec<String> = Vec::new();
    let mut last_chars: usize = 0;
    let mut last_bytes: usize = 0;
    let ghost mut last = Seq::<char>::empty();
    let mut i: usize = 0;
    proof {
        assert(all.take(0) =~= Seq::<(Seq<char>, Seq<char>)>::empty());
        assert(texts(result@) =~= Seq::<Seq<char>>::empty());
        assert(encode_utf8(Seq::<char>::empty()).len() == 0);
    }
    while i < parts.len()
        invariant
            i <= parts@.len(),
            all == text_pairs(parts@),
            gathered(all.take(i as int)) == (texts(result@), last),
            last_chars == last.len(),
            last_bytes == encode_utf8(last).len(),
        decreases parts@.len() - i,
    {
        let word = parts[i].0.as_str();
        let lower = parts[i].1.as_str();
        let ghost next = all.take(i as int + 1);
        proof {
            assert(next.drop_last() =~= all.take(i as int));
            assert(next.last() == (word@, lower@));
        }
        let bytes: usize = word.as_bytes().len();
        if bytes >= MIN_KEYWORD_BYTES && !has_text(&result, lower) {
            last_chars = chars_of(word).len();
            last_bytes = bytes;
            let ghost before = result@;
            result.push(parts[i].1.clone());
            proof {
                assert(texts(result@) =~= texts(before).push(lower@));
                last = word@;
            }
        }
        i = i + 1;
    }
    assert(all.take(i as int) =~= all);
    if result.len() > 1 && last_chars == 3 && last_bytes == 3 {
        let ghost before = result@;
        let _ = result.pop();
        assert(texts(result@) =~= texts(before).drop_last());
    }
    result
}

/// The keywords of a file name.
pub fn extract_keywords(filename: &str) -> (r: Vec<String>)
    ensures
        texts(r@) == keywords_of(filename@),
{
    let parts = split_parts(filename);
    let ghost all = texts(parts@);
    let mut pairs: Vec<(String, String)> = Vec::new();
    let mut i: usize = 0;
    assert(text_pairs(pairs@) =~= lowered(all.take(0)));
    while i < parts.len()
        invariant
            i <= parts@.len(),
            all == texts(parts@),
            text_pairs(pairs@) == lowered(all.take(i as int)),
        decreases parts@.len() - i,
    {
        let lower = to_lowercase(parts[i].as_str());
        let ghost before = pairs@;
        let ghost pair = (parts@[i as int]@, lower@);
        pairs.push((parts[i].clone(), lower));
        proof {
            assert(text_pairs(pairs@) =~= text_pairs(before).push(pair));
            assert(all.take(i as int + 1) =~= all.take(i as int).push(parts@[i as int]@));
            assert(lowered(all.take(i as int + 1)) =~= lowered(all.take(i as int)).push(pair));
        }
        i = i + 1;
    }
    assert(all.take(i as int) =~= all);
    choose_keywords(pairs.as_slice())
}

/// No keyword comes twice.
pub proof fn lemma_keywords_distinct(name: Seq<char>)
    ensures
        keywords_of(name).no_duplicates(),
{
    lemma_gathered_distinct(lowered(parts_of(name)));
}

proof fn lemma_gathered_distinct(parts: Seq<(Seq<char>, Seq<char>)>)
    ensures
        gathered(parts).0.no_duplicates(),
    decreases parts.len(),
{
    if parts.len() > 0 {
        lemma_gathered_distinct(parts.drop_last());
    }
}

// ---------------------------------------------------------------------------
// Identifiers
// ---------------------------------------------------------------------------
/// The identifier of a digest: in each group of four bytes the order is
/// reversed. A group that is not complete is left zero.
pub open spec fn id_of_digest(h: Seq<u8>) -> KadId {
    KadId(
        seq_to_16(
            Seq::new(
                16,
                |i: int|
                    if (i / 4) * 4 + 3 < h.len() {
                        h[(i / 4) * 4 + 3 - i % 4]
                    } else {
                        0u8
                    },
            ),
        ),
    )
}

/// The digest of an identifier.
pub open spec fn digest_of_id(id: KadId) -> [u8; 16] {
    seq_to_16(Seq::new(16, |i: int| id.0[(i / 4) * 4 + 3 - i % 4]))
}

/// The identifier that a keyword is found under.
pub open spec fn keyword_id(keyword: Seq<char>) -> KadId {
    id_of_digest(md4_digest(encode_utf8(lowercase(keyword))))
}

/// The identifier of a digest.
pub fn md4_bytes_to_kad_id(hash: &[u8]) -> (r: KadId)
    ensures
        r == id_of_digest(hash@),
{
    let mut id: [u8; 16] = [0u8; 16];
    let mut i: usize = 0;
    while i < 16
        invariant
            i <= 16,
            forall|j: int|
                0 <= j < i ==> id[j] == if (j / 4) * 4 + 3 < hash@.len() {
                    hash@[(j / 4) * 4 + 3 - j % 4]
                } else {
                    0u8
                },
        decreases 16 - i,
    {
        let last: usize = (i / 4) * 4 + 3;
        id[i] = if last < hash.len() {
            hash[last - i % 4]
        } else {
            0
        };
        i = i + 1;
    }
    proof {
        assert(id@ =~= Seq::new(
            16,
            |i: int|
                if (i / 4) * 4 + 3 < hash@.len() {
                    hash@[(i / 4) * 4 + 3 - i % 4]
                } else {
                    0u8
                },
        ));
        lemma_seq_to_16(id);
    }
    KadId(id)
}

/// The digest of an identifier.
pub fn kad_id_to_md4_bytes(id: &KadId) -> (r: [u8; 16])
    ensures
        r == digest_of_id(*id),
{
    let mut raw: [u8; 16] = [0u8; 16];
    let mut i: usize = 0;
    while i < 16
        invariant
            i <= 16,
            forall|j: int| 0 <= j < i ==> raw[j] == id.0[(j / 4) * 4 + 3 - j % 4],
        decreases 16 - i,
    {
        raw[i] = id.0[(i / 4) * 4 + 3 - i % 4];
        i = i + 1;
    }
    proof {
        assert(raw@ =~= Seq::new(16, |i: int| id.0[(i / 4) * 4 + 3 - i % 4]));
        lemma_seq_to_16(raw);
    }
    raw
}

/// The identifier that a keyword is found under. Case does not matter.
pub fn keyword_to_kad_id(keyword: &str) -> (r: KadId)
    ensures
        r == keyword_id(keyword@),
{
    let lower = to_lowercase(keyword);
    let digest = md4(lower.as_str().as_bytes());
    md4_bytes_to_kad_id(&digest)
}

/// What the overlay's nodes make themselves known under.
pub open spec fn rendezvous_seed() -> Seq<char> {
    "ember-dht-rendezvous-v1"@
}

/// The identifier that the overlay's nodes make themselves known under, so
/// that one that knows none can find some.
pub fn ember_rendezvous_key() -> (r: KadId)
    ensures
        r == id_of_digest(md4_digest(encode_utf8(rendezvous_seed()))),
{
    let digest = md4("ember-dht-rendezvous-v1".as_bytes());
    md4_bytes_to_kad_id(&digest)
}

/// A digest is found again from its identifier.
pub proof fn lemma_digest_round_trip(h: [u8; 16])
    ensures
        digest_of_id(id_of_digest(h@)) == h,
{
    let s = Seq::new(
        16,
        |i: int|
            if (i / 4) * 4 + 3 < h@.len() {
                h@[(i / 4) * 4 + 3 - i % 4]
            } else {
                0u8
            },
    );
    let a: [u8; 16] = [
        s[0], s[1], s[2], s[3], s[4], s[5], s[6], s[7], s[8], s[9], s[10], s[11], s[12], s[13],
        s[14], s[15],
    ];
    assert(a@ =~= s);
    lemma_seq_to_16(a);
    let id = id_of_digest(h@);
    assert(id.0 == a);
    assert(Seq::new(16, |i: int| id.0[(i / 4) * 4 + 3 - i % 4]) =~= h@);
    lemma_seq_to_16(h);
}

/// An identifier is found again from its digest.
pub proof fn lemma_identifier_round_trip(id: KadId)
    ensures
        id_of_digest(digest_of_id(id)@) == id,
{
    let s = Seq::new(16, |i: int| id.0[(i / 4) * 4 + 3 - i % 4]);
    lemma_16_exists(s);
    let h = digest_of_id(id);
    assert(h@ == s);
    assert(Seq::new(
        16,
        |i: int|
            if (i / 4) * 4 + 3 < h@.len() {
                h@[(i / 4) * 4 + 3 - i % 4]
            } else {
                0u8
            },
    ) =~= id.0@);
    lemma_seq_to_16(id.0);
}

/// An identifier holds the four words of a digest with their bytes turned round.
pub proof fn lemma_digest_words(h: Seq<u8>)
    requires
        h.len() == 16,
    ensures
        ({
            let b = id_of_digest(h).0@;
            &&& b[0] == h[3] && b[1] == h[2] && b[2] == h[1] && b[3] == h[0]
            &&& b[4] == h[7] && b[5] == h[6] && b[6] == h[5] && b[7] == h[4]
            &&& b[8] == h[11] && b[9] == h[10] && b[10] == h[9] && b[11] == h[8]
            &&& b[12] == h[15] && b[13] == h[14] && b[14] == h[13] && b[15] == h[12]
        }),
{
    let s = Seq::new(
        16,
        |i: int|
            if (i / 4) * 4 + 3 < h.len() {
                h[(i / 4) * 4 + 3 - i % 4]
            } else {
                0u8
            },
    );
    lemma_16_exists(s);
    assert(id_of_digest(h).0@ == s);
}

/// A text without separators is one part, and a separator parts what stands before
/// it from what stands behind it.
pub proof fn lemma_parts(a: Seq<char>, c: char, b: Seq<char>)
    requires
        is_separator(c),
    ensures
        (forall|i: int| 0 <= i < a.len() ==> !is_separator(#[trigger] a[i])) ==> parts_of(a)
            == seq![a],
        parts_of(a.push(c) + b) == parts_of(a) + parts_of(b),
    decreases a.len() + b.len(),
{
    if forall|i: int| 0 <= i < a.len() ==> !is_separator(#[trigger] a[i]) {
        lemma_one_part(a);
    }
    lemma_parts_joined(a, c, b);
}

proof fn lemma_one_part(a: Seq<char>)
    requires
        forall|i: int| 0 <= i < a.len() ==> !is_separator(#[trigger] a[i]),
    ensures
        parts_of(a) == seq![a],
    decreases a.len(),
{
    if a.len() == 0 {
        assert(a =~= Seq::empty());
    } else {
        let f = a.drop_last();
        assert forall|i: int| 0 <= i < f.len() implies !is_separator(#[trigger] f[i]) by {
            assert(f[i] == a[i]);
        }
        lemma_one_part(f);
        assert(!is_separator(a[a.len() - 1]));
        assert(f.push(a.last()) =~= a);
        assert(seq![f].drop_last().push(a) =~= seq![a]);
    }
}

proof fn lemma_parts_joined(a: Seq<char>, c: char, b: Seq<char>)
    requires
        is_separator(c),
    ensures
        parts_of(a.push(c) + b) == parts_of(a) + parts_of(b),
        parts_of(b).len() > 0,
    decreases b.len(),
{
    let s = a.push(c) + b;
    if b.len() == 0 {
        assert(s =~= a.push(c));
        assert(s.drop_last() =~= a);
        assert(parts_of(a).push(Seq::empty()) =~= parts_of(a) + seq![Seq::<char>::empty()]);
    } else {
        let f = b.drop_last();
        lemma_parts_joined(a, c, f);
        assert(s.drop_last() =~= a.push(c) + f);
        assert(s.last() == b.last());
        let p = parts_of(a);
        let q = parts_of(f);
        if is_separator(b.last()) {
            assert((p + q).push(Seq::empty()) =~= p + q.push(Seq::empty()));
        } else {
            assert((p + q).last() == q.last());
            assert((p + q).drop_last().push(q.last().push(b.last())) =~= p + q.drop_last().push(
                q.last().push(b.last()),
            ));
        }
    }
}

/// The characters that part words: brackets, the marks of punctuation, the dash and
/// the underscore, the slashes, and white space.
pub proof fn lemma_separators(c: char)
    ensures
        is_separator(c) <==> is_space(c) || seq![
            '(',
            ')',
            '[',
            ']',
            '{',
            '}',
            '<',
            '>',
            ',',
            '.',
            '_',
            '-',
            '!',
            '?',
            ':',
            ';',
            '\\',
            '/',
            '"',
        ].contains(c),
{
    let s = seq![
        '(',
        ')',
        '[',
        ']',
        '{',
        '}',
        '<',
        '>',
        ',',
        '.',
        '_',
        '-',
        '!',
        '?',
        ':',
        ';',
        '\\',
        '/',
        '"',
    ];
    assert(s[0] == '(' && s[1] == ')' && s[2] == '[' && s[3] == ']' && s[4] == '{' && s[5] == '}'
        && s[6] == '<' && s[7] == '>' && s[8] == ',' && s[9] == '.' && s[10] == '_' && s[11] == '-'
        && s[12] == '!' && s[13] == '?' && s[14] == ':' && s[15] == ';' && s[16] == '\\' && s[17]
        == '/' && s[18] == '"');
}

/// The keywords of some parts are the lower cases of those parts that have three
/// bytes or more. But for the last of several, if the part that it comes from has
/// three characters of one byte each, all of them are chosen.
pub proof fn lemma_keywords_chosen(parts: Seq<(Seq<char>, Seq<char>)>, w: Seq<char>)
    ensures
        gathered(parts).0.contains(w) <==> exists|i: int|
            0 <= i < parts.len() && (#[trigger] parts[i]).1 == w && encode_utf8(parts[i].0).len()
                >= 3,
        chosen(parts).contains(w) ==> gathered(parts).0.contains(w),
        gathered(parts).0.len() <= 1 ==> chosen(parts) == gathered(parts).0,
        gathered(parts).1.len() != 3 || encode_utf8(gathered(parts).1).len() != 3 ==> chosen(parts)
            == gathered(parts).0,
        gathered(parts).0.len() > 1 && gathered(parts).1.len() == 3 && encode_utf8(
            gathered(parts).1,
        ).len() == 3 ==> chosen(parts) == gathered(parts).0.drop_last(),
        gathered(parts).0.len() > 0 ==> exists|i: int|
            0 <= i < parts.len() && (#[trigger] parts[i]).0 == gathered(parts).1 && parts[i].1
                == gathered(parts).0.last(),
{
    lemma_gathered(parts, w);
    let g = gathered(parts).0;
    if chosen(parts).contains(w) {
        let k = choose|k: int| 0 <= k < chosen(parts).len() && chosen(parts)[k] == w;
        assert(g[k] == w);
    }
}

proof fn lemma_gathered(parts: Seq<(Seq<char>, Seq<char>)>, w: Seq<char>)
    ensures
        gathered(parts).0.contains(w) <==> exists|i: int|
            0 <= i < parts.len() && (#[trigger] parts[i]).1 == w && encode_utf8(parts[i].0).len()
                >= 3,
        gathered(parts).0.len() > 0 ==> exists|i: int|
            0 <= i < parts.len() && (#[trigger] parts[i]).0 == gathered(parts).1 && parts[i].1
                == gathered(parts).0.last(),
    decreases parts.len(),
{
    if parts.len() > 0 {
        let f = parts.drop_last();
        let n = parts.len() - 1;
        lemma_gathered(f, w);
        lemma_gathered(f, parts[n].1);
        let (g, h) = (gathered(f).0, gathered(parts).0);
        let (x, lower) = parts.last();
        let added = encode_utf8(x).len() >= 3 && !g.contains(lower);
        if g.contains(w) {
            let k = choose|k: int| 0 <= k < g.len() && g[k] == w;
            assert(h[k] == w);
            let i = choose|i: int|
                0 <= i < f.len() && (#[trigger] f[i]).1 == w && encode_utf8(f[i].0).len() >= 3;
            assert(parts[i].1 == w);
        }
        if added {
            assert(h[h.len() - 1] == lower);
            assert(parts[n].0 == gathered(parts).1);
        } else if g.len() > 0 {
            let i = choose|i: int|
                0 <= i < f.len() && (#[trigger] f[i]).0 == gathered(f).1 && f[i].1 == g.last();
            assert(parts[i].0 == gathered(parts).1);
        }
        if h.contains(w) && !g.contains(w) {
            let k = choose|k: int| 0 <= k < h.len() && h[k] == w;
            if k < g.len() {
                assert(g[k] == w);
            }
            assert(parts[n].1 == w);
        }
        if exists|i: int|
            0 <= i < parts.len() && (#[trigger] parts[i]).1 == w && encode_utf8(parts[i].0).len()
                >= 3 {
            let i = choose|i: int|
                0 <= i < parts.len() && (#[trigger] parts[i]).1 == w && encode_utf8(
                    parts[i].0,
                ).len() >= 3;
            if i < n {
                assert(f[i].1 == w);
            }
        }
    }
}

} // verus!
