//! Text on the wire: UTF-8 in both directions.
use vstd::prelude::*;
use vstd::utf8::*;

verus! {

/// What `String::from_utf8_lossy` makes of the bytes `b` where they are not UTF-8.
pub uninterp spec fn utf8_lossy(b: Seq<u8>) -> Seq<char>;

/// The text that stands for the bytes `b`: the one that they encode, or where
/// they are not UTF-8 the one that lossy conversion gives.
pub open spec fn text_of(b: Seq<u8>) -> Seq<char> {
    if valid_utf8(b) {
        decode_utf8(b)
    } else {
        utf8_lossy(b)
    }
}

/// Calls `String::from_utf8_lossy`. Bytes that are UTF-8 come out as the text
/// that they encode; for the others the standard library fixes what replaces
/// them, and the result is a function of the bytes alone.
#[verifier::external_body]
pub(crate) fn string_from_utf8_lossy(b: &[u8]) -> (r: String)
    ensures
        valid_utf8(b@) ==> r@ == decode_utf8(b@),
        !valid_utf8(b@) ==> r@ == utf8_lossy(b@),
{
    String::from_utf8_lossy(b).into_owned()
}

/// The UTF-8 bytes of a text, read back, are that text.
pub proof fn lemma_utf8_round_trip(chars: Seq<char>)
    ensures
        valid_utf8(encode_utf8(chars)),
        text_of(encode_utf8(chars)) == chars,
{
    encode_utf8_valid_utf8(chars);
    encode_utf8_decode_utf8(chars);
}

/// White space: the characters with the Unicode property of that name.
pub open spec fn is_space(c: char) -> bool {
    let n = c as u32;
    9 <= n <= 13 || n == 0x20 || n == 0x85 || n == 0xA0 || n == 0x1680 || 0x2000 <= n <= 0x200A || n
        == 0x2028 || n == 0x2029 || n == 0x202F || n == 0x205F || n == 0x3000
}

/// Calls `char::is_whitespace`. It holds of the characters that have the Unicode
/// property `White_Space`, and these are the ones listed.
#[verifier::external_body]
pub(crate) fn is_whitespace(c: char) -> (r: bool)
    ensures
        r == is_space(c),
{
    c.is_whitespace()
}

/// `String::push` appends one character.
pub assume_specification[ std::string::String::push ](s: &mut std::string::String, c: char)
    ensures
        final(s)@ == old(s)@.push(c),
;

/// The characters of a text.
pub fn chars_of(s: &str) -> (r: Vec<char>)
    ensures
        r@ == s@,
{
    let mut out: Vec<char> = Vec::new();
    for c in it: s.chars()
        invariant
            out@ == it.seq().take(it.index() as int),
            it.seq() == s@,
    {
        out.push(c);
        assert(out@ =~= it.seq().take(it.index() as int + 1));
    }
    assert(out@ =~= s@);
    out
}

/// The text of some characters.
pub fn string_of(chars: &[char]) -> (r: String)
    ensures
        r@ == chars@,
{
    let mut out = String::new();
    let mut i: usize = 0;
    while i < chars.len()
        invariant
            i <= chars.len(),
            out@ == chars@.take(i as int),
        decreases chars.len() - i,
    {
        out.push(chars[i]);
        i = i + 1;
        assert(out@ =~= chars@.take(i as int));
    }
    assert(chars@.take(i as int) =~= chars@);
    out
}

/// A text without the white space at its front.
pub open spec fn trim_start(s: Seq<char>) -> Seq<char>
    decreases s.len(),
{
    if s.len() > 0 && is_space(s[0]) {
        trim_start(s.skip(1))
    } else {
        s
    }
}

/// A text without the white space at its end.
pub open spec fn trim_end(s: Seq<char>) -> Seq<char>
    decreases s.len(),
{
    if s.len() > 0 && is_space(s.last()) {
        trim_end(s.drop_last())
    } else {
        s
    }
}

/// A text without the white space at both ends.
pub open spec fn trimmed(s: Seq<char>) -> Seq<char> {
    trim_end(trim_start(s))
}

/// A text without the characters `c` at its front.
pub open spec fn strip_front(s: Seq<char>, c: char) -> Seq<char>
    decreases s.len(),
{
    if s.len() > 0 && s[0] == c {
        strip_front(s.skip(1), c)
    } else {
        s
    }
}

/// The bounds of the trimmed part of `chars`.
pub fn trim_bounds(chars: &[char]) -> (r: (usize, usize))
    ensures
        r.0 <= r.1 <= chars@.len(),
        chars@.subrange(r.0 as int, r.1 as int) == trimmed(chars@),
{
    let mut a: usize = 0;
    let n: usize = chars.len();
    assert(chars@.skip(0) =~= chars@);
    while a < n && is_whitespace(chars[a])
        invariant
            a <= n == chars@.len(),
            trim_start(chars@.skip(a as int)) == trim_start(chars@),
        decreases n - a,
    {
        assert(chars@.skip(a as int).skip(1) =~= chars@.skip(a as int + 1));
        a = a + 1;
    }
    let mut b: usize = n;
    let ghost front = chars@.skip(a as int);
    assert(trim_start(chars@) == front);
    assert(chars@.subrange(a as int, b as int) =~= front);
    while b > a && is_whitespace(chars[b - 1])
        invariant
            a <= b <= n == chars@.len(),
            front == chars@.skip(a as int),
            trim_end(chars@.subrange(a as int, b as int)) == trim_end(front),
        decreases b,
    {
        assert(chars@.subrange(a as int, b as int).drop_last() =~= chars@.subrange(
            a as int,
            b - 1,
        ));
        b = b - 1;
    }
    (a, b)
}

/// The index of the first `c`.
pub open spec fn find_first<T>(s: Seq<T>, c: T) -> Option<nat>
    decreases s.len(),
{
    if s.len() == 0 {
        None
    } else if s[0] == c {
        Some(0)
    } else {
        match find_first(s.skip(1), c) {
            None => None,
            Some(i) => Some(i + 1),
        }
    }
}

/// The index of the last `c`.
pub open spec fn find_last(s: Seq<char>, c: char) -> Option<nat>
    decreases s.len(),
{
    if s.len() == 0 {
        None
    } else if s.last() == c {
        Some((s.len() - 1) as nat)
    } else {
        find_last(s.drop_last(), c)
    }
}

/// What [`find_first`] finds is the first.
pub proof fn lemma_find_first<T>(s: Seq<T>, c: T, i: nat)
    requires
        i < s.len(),
        s[i as int] == c,
        forall|j: int| 0 <= j < i ==> s[j] != c,
    ensures
        find_first(s, c) == Some(i),
    decreases i,
{
    if i > 0 {
        let t = s.skip(1);
        assert(s[0] != c);
        assert(t[i - 1] == c);
        assert forall|j: int| 0 <= j < i - 1 implies t[j] != c by {
            assert(t[j] == s[j + 1]);
        }
        lemma_find_first(t, c, (i - 1) as nat);
    }
}

pub proof fn lemma_find_first_none<T>(s: Seq<T>, c: T)
    requires
        forall|j: int| 0 <= j < s.len() ==> s[j] != c,
    ensures
        find_first(s, c) is None,
    decreases s.len(),
{
    if s.len() > 0 {
        assert forall|j: int| 0 <= j < s.skip(1).len() implies s.skip(1)[j] != c by {
            assert(s.skip(1)[j] == s[j + 1]);
        }
        lemma_find_first_none(s.skip(1), c);
    }
}

pub proof fn lemma_find_last(s: Seq<char>, c: char, i: nat)
    requires
        i < s.len(),
        s[i as int] == c,
        forall|j: int| i < j < s.len() ==> s[j] != c,
    ensures
        find_last(s, c) == Some(i),
    decreases s.len(),
{
    if i < s.len() - 1 {
        lemma_find_last(s.drop_last(), c, i);
    }
}

pub proof fn lemma_find_last_none(s: Seq<char>, c: char)
    requires
        forall|j: int| 0 <= j < s.len() ==> s[j] != c,
    ensures
        find_last(s, c) is None,
    decreases s.len(),
{
    if s.len() > 0 {
        lemma_find_last_none(s.drop_last(), c);
    }
}

/// The index of the first `c`.
pub fn find_char(s: &[char], c: char) -> (r: Option<usize>)
    ensures
        match r {
            Some(i) => i < s@.len() && find_first(s@, c) == Some(i as nat),
            None => find_first(s@, c) is None,
        },
{
    let mut i: usize = 0;
    while i < s.len()
        invariant
            i <= s@.len(),
            forall|j: int| 0 <= j < i ==> s@[j] != c,
        decreases s@.len() - i,
    {
        if s[i] == c {
            proof {
                lemma_find_first(s@, c, i as nat);
            }
            return Some(i);
        }
        i = i + 1;
    }
    proof {
        lemma_find_first_none(s@, c);
    }
    None
}

/// The index of the first byte `b` at or after `from`, counted from there.
pub fn find_byte(s: &[u8], from: usize, b: u8) -> (r: Option<usize>)
    requires
        from <= s@.len(),
    ensures
        match r {
            Some(i) => from + i < s@.len() && find_first(s@.skip(from as int), b) == Some(i as nat),
            None => find_first(s@.skip(from as int), b) is None,
        },
{
    let ghost t = s@.skip(from as int);
    let mut i: usize = from;
    while i < s.len()
        invariant
            from <= i <= s@.len(),
            t == s@.skip(from as int),
            forall|j: int| 0 <= j < i - from ==> t[j] != b,
        decreases s@.len() - i,
    {
        if s[i] == b {
            proof {
                lemma_find_first(t, b, (i - from) as nat);
            }
            return Some(i - from);
        }
        i = i + 1;
    }
    proof {
        lemma_find_first_none(t, b);
    }
    None
}

/// The index of the last `c`.
pub fn rfind_char(s: &[char], c: char) -> (r: Option<usize>)
    ensures
        match r {
            Some(i) => i < s@.len() && find_last(s@, c) == Some(i as nat),
            None => find_last(s@, c) is None,
        },
{
    let mut i: usize = s.len();
    while i > 0
        invariant
            i <= s@.len(),
            forall|j: int| i <= j < s@.len() ==> s@[j] != c,
        decreases i,
    {
        i = i - 1;
        if s[i] == c {
            proof {
                lemma_find_last(s@, c, i as nat);
            }
            return Some(i);
        }
    }
    proof {
        lemma_find_last_none(s@, c);
    }
    None
}

/// The part of `chars` that is left when the white space at both ends is gone.
pub fn trim_slice(chars: &[char]) -> (r: &[char])
    ensures
        r@ == trimmed(chars@),
{
    let (a, b) = trim_bounds(chars);
    vstd::slice::slice_subrange(chars, a, b)
}

/// A text without the white space at both ends.
pub fn trim(s: &str) -> (r: String)
    ensures
        r@ == trimmed(s@),
{
    let chars = chars_of(s);
    let (a, b) = trim_bounds(chars.as_slice());
    string_of(vstd::slice::slice_subrange(chars.as_slice(), a, b))
}

/// A text without the characters `c` at its front.
pub fn trim_start_matches(s: &str, c: char) -> (r: String)
    ensures
        r@ == strip_front(s@, c),
{
    let chars = chars_of(s);
    let mut a: usize = 0;
    let n: usize = chars.len();
    assert(chars@.skip(0) =~= chars@);
    while a < n && chars[a] == c
        invariant
            a <= n == chars@.len(),
            strip_front(chars@.skip(a as int), c) == strip_front(chars@, c),
        decreases n - a,
    {
        assert(chars@.skip(a as int).skip(1) =~= chars@.skip(a as int + 1));
        a = a + 1;
    }
    assert(chars@.subrange(a as int, n as int) =~= chars@.skip(a as int));
    string_of(vstd::slice::slice_subrange(chars.as_slice(), a, n))
}

} // verus!
