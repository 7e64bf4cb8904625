//! Addresses and numbers as text.
use vstd::prelude::*;

use crate::net::Ipv4Addr;
use crate::text::{find_char, find_first, string_of, strip_front, trim_slice, trimmed};

verus! {

pub open spec fn is_digit(c: char) -> bool {
    '0' <= c <= '9'
}

pub open spec fn all_digits(s: Seq<char>) -> bool {
    forall|i: int| 0 <= i < s.len() ==> is_digit(#[trigger] s[i])
}

/// The number that some decimal digits stand for.
pub open spec fn digits_value(s: Seq<char>) -> nat
    decreases s.len(),
{
    if s.len() == 0 {
        0
    } else {
        digits_value(s.drop_last()) * 10 + ((s.last() as u32 - '0' as u32) as nat)
    }
}

/// A decimal number below 2^32: an optional plus sign and at least one digit.
pub open spec fn u32_text(s: Seq<char>) -> Option<nat> {
    let d = if s.len() > 0 && s[0] == '+' {
        s.skip(1)
    } else {
        s
    };
    if d.len() > 0 && all_digits(d) && digits_value(d) <= u32::MAX {
        Some(digits_value(d))
    } else {
        None
    }
}

/// One number of a dotted address, without leading zeros.
pub open spec fn plain_octet(s: Seq<char>) -> Option<nat> {
    if 1 <= s.len() <= 3 && all_digits(s) && (s.len() > 1 ==> s[0] != '0') && digits_value(s)
        <= 255 {
        Some(digits_value(s))
    } else {
        None
    }
}

/// One number of a dotted address; leading zeros count for nothing, and where
/// nothing else is left the number is zero.
pub open spec fn padded_octet(s: Seq<char>) -> Option<nat> {
    let d = strip_front(s, '0');
    if d.len() == 0 {
        Some(0)
    } else {
        plain_octet(d)
    }
}

pub open spec fn octet_text(s: Seq<char>, lenient: bool) -> Option<nat> {
    if lenient {
        padded_octet(s)
    } else {
        plain_octet(s)
    }
}

pub open spec fn pow256(n: nat) -> nat
    decreases n,
{
    if n == 0 {
        1
    } else {
        256 * pow256((n - 1) as nat)
    }
}

/// `n` numbers with dots between them, as one number to the base 256.
pub open spec fn dotted(s: Seq<char>, n: nat, lenient: bool) -> Option<nat>
    decreases n,
{
    if n <= 1 {
        octet_text(s, lenient)
    } else {
        match find_first(s, '.') {
            None => None,
            Some(i) => match octet_text(s.take(i as int), lenient) {
                None => None,
                Some(a) => match dotted(s.skip(i as int + 1), (n - 1) as nat, lenient) {
                    None => None,
                    Some(b) => Some(a * pow256((n - 1) as nat) + b),
                },
            },
        }
    }
}

/// A dotted address as the standard library reads it: no leading zeros.
pub open spec fn strict_ip(s: Seq<char>) -> Option<nat> {
    dotted(s, 4, false)
}

/// A dotted address with white space around it and leading zeros in it.
pub open spec fn lenient_ip(s: Seq<char>) -> Option<nat> {
    dotted(trimmed(s), 4, true)
}

proof fn lemma_digits_value_mono(s: Seq<char>, i: int)
    requires
        all_digits(s),
        0 <= i <= s.len(),
    ensures
        digits_value(s.take(i)) <= digits_value(s),
    decreases s.len(),
{
    if i == s.len() {
        assert(s.take(i) =~= s);
    } else {
        let t = s.drop_last();
        assert(t.take(i) =~= s.take(i));
        assert forall|j: int| 0 <= j < t.len() implies is_digit(#[trigger] t[j]) by {
            assert(t[j] == s[j]);
        }
        assert(is_digit(s[s.len() - 1]));
        lemma_digits_value_mono(t, i);
    }
}

/// A dotted address stays below its power of 256.
pub proof fn lemma_dotted_fits(s: Seq<char>, n: nat, lenient: bool)
    ensures
        dotted(s, n, lenient) matches Some(v) ==> v < pow256(if n == 0 {
            1
        } else {
            n
        }),
        n == 4 ==> pow256(n) == 0x1_0000_0000,
    decreases n,
{
    reveal_with_fuel(pow256, 5);
    if n > 1 {
        if let Some(i) = find_first(s, '.') {
            lemma_dotted_fits(s.skip(i as int + 1), (n - 1) as nat, lenient);
            if let Some(a) = octet_text(s.take(i as int), lenient) {
                if let Some(b) = dotted(s.skip(i as int + 1), (n - 1) as nat, lenient) {
                    let w = pow256((n - 1) as nat);
                    assert(a * w + b < 256 * w) by (nonlinear_arith)
                        requires
                            a <= 255,
                            b < w,
                    ;
                }
            }
        }
    }
}

/// The value of some digits, as long as it is below 2^32.
fn parse_digits(s: &[char]) -> (r: Option<u32>)
    ensures
        match r {
            Some(v) => s@.len() > 0 && all_digits(s@) && v == digits_value(s@),
            None => !(s@.len() > 0 && all_digits(s@) && digits_value(s@) <= u32::MAX),
        },
{
    if s.len() == 0 {
        return None;
    }
    let mut v: u64 = 0;
    let mut i: usize = 0;
    while i < s.len()
        invariant
            i <= s@.len(),
            v <= u32::MAX,
            forall|j: int| 0 <= j < i ==> is_digit(#[trigger] s@[j]),
            v == digits_value(s@.take(i as int)),
        decreases s@.len() - i,
    {
        let c: char = s[i];
        if !('0' <= c && c <= '9') {
            assert(!is_digit(s@[i as int]));
            return None;
        }
        let ghost t = s@.take(i as int + 1);
        assert(t.drop_last() =~= s@.take(i as int));
        v = v * 10 + (c as u32 - '0' as u32) as u64;
        if v > u32::MAX as u64 {
            proof {
                if all_digits(s@) {
                    lemma_digits_value_mono(s@, i as int + 1);
                }
            }
            return None;
        }
        i = i + 1;
    }
    assert(s@.take(i as int) =~= s@);
    Some(v as u32)
}

/// A decimal number below 2^32.
pub fn parse_u32(s: &[char]) -> (r: Option<u32>)
    ensures
        match r {
            Some(v) => u32_text(s@) == Some(v as nat),
            None => u32_text(s@) is None,
        },
{
    if s.len() > 0 && s[0] == '+' {
        let d = vstd::slice::slice_subrange(s, 1, s.len());
        assert(d@ =~= s@.skip(1));
        parse_digits(d)
    } else {
        parse_digits(s)
    }
}

fn parse_plain_octet(s: &[char]) -> (r: Option<u32>)
    ensures
        match r {
            Some(v) => plain_octet(s@) == Some(v as nat),
            None => plain_octet(s@) is None,
        },
{
    if s.len() == 0 || s.len() > 3 || (s.len() > 1 && s[0] == '0') {
        return None;
    }
    match parse_digits(s) {
        Some(v) => if v <= 255 {
            Some(v)
        } else {
            None
        },
        None => None,
    }
}

fn parse_octet(s: &[char], lenient: bool) -> (r: Option<u32>)
    ensures
        match r {
            Some(v) => octet_text(s@, lenient) == Some(v as nat) && v <= 255,
            None => octet_text(s@, lenient) is None,
        },
{
    if !lenient {
        return parse_plain_octet(s);
    }
    let mut a: usize = 0;
    assert(s@.skip(0) =~= s@);
    while a < s.len() && s[a] == '0'
        invariant
            a <= s@.len(),
            strip_front(s@.skip(a as int), '0') == strip_front(s@, '0'),
        decreases s@.len() - a,
    {
        assert(s@.skip(a as int).skip(1) =~= s@.skip(a as int + 1));
        a = a + 1;
    }
    if a == s.len() {
        return Some(0);
    }
    let d = vstd::slice::slice_subrange(s, a, s.len());
    assert(d@ =~= s@.skip(a as int));
    parse_plain_octet(d)
}

fn parse_dotted(s: &[char], n: u32, lenient: bool) -> (r: Option<u32>)
    requires
        1 <= n <= 4,
    ensures
        match r {
            Some(v) => dotted(s@, n as nat, lenient) == Some(v as nat) && v < pow256(n as nat),
            None => dotted(s@, n as nat, lenient) is None,
        },
    decreases n,
{
    assert(pow256(1) == 256 && pow256(2) == 65536 && pow256(3) == 16777216 && pow256(4)
        == 4294967296) by {
        reveal_with_fuel(pow256, 5);
    }
    if n == 1 {
        return parse_octet(s, lenient);
    }
    let len: usize = s.len();
    let i: usize = match find_char(s, '.') {
        Some(i) => i,
        None => {
            return None;
        },
    };
    let head = vstd::slice::slice_subrange(s, 0, i);
    let tail = vstd::slice::slice_subrange(s, i + 1, len);
    assert(head@ =~= s@.take(i as int));
    assert(tail@ =~= s@.skip(i + 1));
    let a: u32 = match parse_octet(head, lenient) {
        Some(v) => v,
        None => {
            return None;
        },
    };
    let b: u32 = match parse_dotted(tail, n - 1, lenient) {
        Some(v) => v,
        None => {
            return None;
        },
    };
    let weight: u32 = if n == 4 {
        0x100_0000
    } else if n == 3 {
        0x1_0000
    } else {
        0x100
    };
    assert(a * weight + b < pow256(n as nat)) by (nonlinear_arith)
        requires
            a <= 255,
            b < weight,
            pow256(n as nat) == 256 * weight,
    ;
    Some(a * weight + b)
}

/// Reads a dotted address without leading zeros.
pub fn parse_ip_strict(s: &[char]) -> (r: Option<Ipv4Addr>)
    ensures
        match r {
            Some(ip) => strict_ip(s@) == Some(ip.bits as nat),
            None => strict_ip(s@) is None,
        },
{
    match parse_dotted(s, 4, false) {
        Some(bits) => Some(Ipv4Addr { bits }),
        None => None,
    }
}

/// Reads a dotted address that may have white space around it and leading
/// zeros in it, as filter lists write them.
pub fn parse_ip_lenient(s: &[char]) -> (r: Option<Ipv4Addr>)
    ensures
        match r {
            Some(ip) => lenient_ip(s@) == Some(ip.bits as nat),
            None => lenient_ip(s@) is None,
        },
{
    match parse_dotted(trim_slice(s), 4, true) {
        Some(bits) => Some(Ipv4Addr { bits }),
        None => None,
    }
}


/// The decimal digits of a number below 1000.
pub open spec fn octet_digits(n: nat) -> Seq<char> {
    if n < 10 {
        seq![digit_char(n)]
    } else if n < 100 {
        seq![digit_char(n / 10), digit_char(n % 10)]
    } else {
        seq![digit_char(n / 100), digit_char((n / 10) % 10), digit_char(n % 10)]
    }
}

/// The character of one decimal digit.
pub open spec fn digit_char(d: nat) -> char {
    if d == 0 {
        '0'
    } else if d == 1 {
        '1'
    } else if d == 2 {
        '2'
    } else if d == 3 {
        '3'
    } else if d == 4 {
        '4'
    } else if d == 5 {
        '5'
    } else if d == 6 {
        '6'
    } else if d == 7 {
        '7'
    } else if d == 8 {
        '8'
    } else {
        '9'
    }
}

/// An address as dotted text.
pub open spec fn ip_text(ip: Ipv4Addr) -> Seq<char> {
    octet_digits(ip.octet(0) as nat) + seq!['.'] + octet_digits(ip.octet(1) as nat) + seq!['.']
        + octet_digits(ip.octet(2) as nat) + seq!['.'] + octet_digits(ip.octet(3) as nat)
}

fn digit_of(d: u8) -> (c: char)
    requires
        d < 10,
    ensures
        c == digit_char(d as nat),
{
    match d {
        0 => '0',
        1 => '1',
        2 => '2',
        3 => '3',
        4 => '4',
        5 => '5',
        6 => '6',
        7 => '7',
        8 => '8',
        _ => '9',
    }
}

fn push_octet(out: &mut Vec<char>, n: u8)
    ensures
        final(out)@ == old(out)@ + octet_digits(n as nat),
{
    let ghost before = out@;
    if n >= 100 {
        out.push(digit_of(n / 100));
    }
    if n >= 10 {
        out.push(digit_of((n / 10) % 10));
    }
    out.push(digit_of(n % 10));
    assert(out@ =~= before + octet_digits(n as nat));
}

/// Appends an address as dotted text.
pub fn push_ip(out: &mut Vec<char>, ip: Ipv4Addr)
    ensures
        final(out)@ == old(out)@ + ip_text(ip),
{
    let ghost before = out@;
    let o = ip.octets();
    push_octet(out, o[0]);
    out.push('.');
    push_octet(out, o[1]);
    out.push('.');
    push_octet(out, o[2]);
    out.push('.');
    push_octet(out, o[3]);
    assert(out@ =~= before + ip_text(ip));
}

/// An address as dotted text.
pub fn ip_to_string(ip: Ipv4Addr) -> (r: String)
    ensures
        r@ == ip_text(ip),
{
    let mut out: Vec<char> = Vec::new();
    push_ip(&mut out, ip);
    assert(out@ =~= ip_text(ip));
    string_of(out.as_slice())
}

// ---------------------------------------------------------------------------
// Reading back what was written
// ---------------------------------------------------------------------------
proof fn lemma_octet_digits(n: nat)
    requires
        n <= 255,
    ensures
        plain_octet(octet_digits(n)) == Some(n),
        padded_octet(octet_digits(n)) == Some(n),
        all_digits(octet_digits(n)),
{
    let s = octet_digits(n);
    reveal_with_fuel(digits_value, 4);
    reveal_with_fuel(strip_front, 2);
    if n < 10 {
        assert(s.drop_last() =~= Seq::<char>::empty());
        if n == 0 {
            assert(s.skip(1) =~= Seq::<char>::empty());
        }
    } else if n < 100 {
        assert(s.drop_last() =~= seq![digit_char(n / 10)]);
        assert(s.drop_last().drop_last() =~= Seq::<char>::empty());
    } else {
        assert(s.drop_last() =~= seq![digit_char(n / 100), digit_char((n / 10) % 10)]);
        assert(s.drop_last().drop_last() =~= seq![digit_char(n / 100)]);
        assert(s.drop_last().drop_last().drop_last() =~= Seq::<char>::empty());
        let a = n / 100;
        let b = (n / 10) % 10;
        let c = n % 10;
        assert(n == a * 100 + b * 10 + c);
    }
}

proof fn lemma_dotted_step(a: Seq<char>, rest: Seq<char>, n: nat, lenient: bool)
    requires
        n > 1,
        all_digits(a),
    ensures
        dotted(a + seq!['.'] + rest, n, lenient) == (match octet_text(a, lenient) {
            None => None,
            Some(x) => match dotted(rest, (n - 1) as nat, lenient) {
                None => None::<nat>,
                Some(y) => Some(x * pow256((n - 1) as nat) + y),
            },
        }),
{
    let s = a + seq!['.'] + rest;
    assert(s[a.len() as int] == '.');
    assert forall|j: int| 0 <= j < a.len() implies s[j] != '.' by {
        assert(s[j] == a[j]);
        assert(is_digit(a[j]));
    }
    crate::text::lemma_find_first(s, '.', a.len());
    assert(s.take(a.len() as int) =~= a);
    assert(s.skip(a.len() as int + 1) =~= rest);
}

/// The dotted text of an address, read strictly or leniently, is that address.
pub proof fn lemma_ip_text_round_trip(ip: Ipv4Addr)
    ensures
        strict_ip(ip_text(ip)) == Some(ip.bits as nat),
        dotted(ip_text(ip), 4, true) == Some(ip.bits as nat),
{
    let a = ip.octet(0) as nat;
    let b = ip.octet(1) as nat;
    let c = ip.octet(2) as nat;
    let d = ip.octet(3) as nat;
    lemma_octet_digits(a);
    lemma_octet_digits(b);
    lemma_octet_digits(c);
    lemma_octet_digits(d);
    let t3 = octet_digits(d);
    let t2 = octet_digits(c) + seq!['.'] + t3;
    let t1 = octet_digits(b) + seq!['.'] + t2;
    assert(ip_text(ip) =~= octet_digits(a) + seq!['.'] + t1);
    lemma_dotted_step(octet_digits(a), t1, 4, true);
    lemma_dotted_step(octet_digits(b), t2, 3, true);
    lemma_dotted_step(octet_digits(c), t3, 2, true);
    lemma_dotted_step(octet_digits(a), t1, 4, false);
    lemma_dotted_step(octet_digits(b), t2, 3, false);
    lemma_dotted_step(octet_digits(c), t3, 2, false);
    reveal_with_fuel(pow256, 4);
    let x = ip.bits;
    assert(a * 16777216 + (b * 65536 + (c * 256 + d)) == x) by {
        assert(x == (x / 256) * 256 + x % 256);
        let y = x / 256;
        assert(y == (y / 256) * 256 + y % 256);
        assert(x / 65536 == y / 256) by (bit_vector)
            requires
                y == x / 256,
        ;
        let z = y / 256;
        assert(z == (z / 256) * 256 + z % 256);
        assert(x / 16777216 == z / 256) by (bit_vector)
            requires
                y == x / 256,
                z == y / 256,
        ;
    }
}

} // verus!
