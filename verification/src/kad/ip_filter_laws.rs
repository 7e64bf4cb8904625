//! What a filter written as text and read again keeps: every range.
use vstd::prelude::*;
use vstd::utf8::*;

use super::ip_filter::{
    as_seq, be32, bounds, committed, covers, dat_line, dat_text, file_ranges, format_of, holds,
    in_some, ipfilter_line, join, lemma_blocked_iff, lemma_committed, lemma_normalised_normal,
    line_bounds, line_range, lines_ranges, new_range, normal, normalised, p2b_records, p2p_line,
    proper, same_bounds, split_lines, text_ranges, with_saved, within, without, Decision,
    FilterFormat, FilterView, RangeView, MAX_TEXT_FILTER_LINES,
};
use super::ip_text::{
    digits_value, ip_text, is_digit, lemma_ip_text_round_trip, lenient_ip, octet_digits, u32_text,
};
use crate::net::Ipv4Addr;
use crate::security::{bogus_v4, lan_or_cgnat_v4, special_use_v4};
use crate::text::{
    find_first, is_space, lemma_find_first, lemma_find_last, lemma_utf8_round_trip, text_of,
    trim_end, trim_start, trimmed,
};

verus! {

pub open spec fn all_spaces(s: Seq<char>) -> bool {
    forall|i: int| 0 <= i < s.len() ==> is_space(#[trigger] s[i])
}

proof fn lemma_trim_start_pad(pre: Seq<char>, s: Seq<char>)
    requires
        all_spaces(pre),
        s.len() > 0,
        !is_space(s[0]),
    ensures
        trim_start(pre + s) == s,
    decreases pre.len(),
{
    if pre.len() == 0 {
        assert(pre + s =~= s);
    } else {
        let t = pre + s;
        assert(is_space(pre[0]));
        assert(t[0] == pre[0]);
        let p = pre.skip(1);
        assert(t.skip(1) =~= p + s);
        assert forall|i: int| 0 <= i < p.len() implies is_space(#[trigger] p[i]) by {
            assert(p[i] == pre[i + 1]);
        }
        lemma_trim_start_pad(p, s);
    }
}

proof fn lemma_trim_end_pad(s: Seq<char>, post: Seq<char>)
    requires
        all_spaces(post),
        s.len() > 0,
        !is_space(s.last()),
    ensures
        trim_end(s + post) == s,
    decreases post.len(),
{
    if post.len() == 0 {
        assert(s + post =~= s);
    } else {
        let t = s + post;
        assert(is_space(post[post.len() - 1]));
        assert(t.last() == post.last());
        let p = post.drop_last();
        assert(t.drop_last() =~= s + p);
        assert forall|i: int| 0 <= i < p.len() implies is_space(#[trigger] p[i]) by {
            assert(p[i] == post[i]);
        }
        lemma_trim_end_pad(s, p);
    }
}

/// White space around a text that neither starts nor ends with any is what
/// trimming takes away.
proof fn lemma_trim_padded(pre: Seq<char>, s: Seq<char>, post: Seq<char>)
    requires
        all_spaces(pre),
        all_spaces(post),
        s.len() > 0,
        !is_space(s[0]),
        !is_space(s.last()),
    ensures
        trimmed(pre + s + post) == s,
{
    assert(pre + s + post =~= pre + (s + post));
    assert((s + post)[0] == s[0]);
    lemma_trim_start_pad(pre, s + post);
    lemma_trim_end_pad(s, post);
}

/// A character of a dotted address.
pub open spec fn ip_char(c: char) -> bool {
    is_digit(c) || c == '.'
}

proof fn lemma_ip_text_chars(ip: Ipv4Addr)
    ensures
        ip_text(ip).len() > 0,
        ip_text(ip).len() <= 15,
        forall|i: int| 0 <= i < ip_text(ip).len() ==> ip_char(#[trigger] ip_text(ip)[i]),
        is_digit(ip_text(ip)[0]),
        is_digit(ip_text(ip).last()),
{
    let a = octet_digits(ip.octet(0) as nat);
    let b = octet_digits(ip.octet(1) as nat);
    let c = octet_digits(ip.octet(2) as nat);
    let d = octet_digits(ip.octet(3) as nat);
    lemma_octet_chars(ip.octet(0) as nat);
    lemma_octet_chars(ip.octet(1) as nat);
    lemma_octet_chars(ip.octet(2) as nat);
    lemma_octet_chars(ip.octet(3) as nat);
    let dot = seq!['.'];
    let t = ip_text(ip);
    assert(t =~= a + (dot + (b + (dot + (c + (dot + d))))));
    assert(t[0] == a[0]);
    assert(t.last() == d.last());
    let n1 = a.len();
    let n2 = n1 + 1 + b.len();
    let n3 = n2 + 1 + c.len();
    assert forall|i: int| 0 <= i < t.len() implies ip_char(#[trigger] t[i]) by {
        if i < n1 {
            assert(t[i] == a[i]);
        } else if i == n1 {
            assert(t[i] == '.');
        } else if i < n2 {
            assert(t[i] == b[i - n1 - 1]);
        } else if i == n2 {
            assert(t[i] == '.');
        } else if i < n3 {
            assert(t[i] == c[i - n2 - 1]);
        } else if i == n3 {
            assert(t[i] == '.');
        } else {
            assert(t[i] == d[i - n3 - 1]);
        }
    }
}

proof fn lemma_octet_chars(n: nat)
    ensures
        1 <= octet_digits(n).len() <= 3,
        forall|i: int| 0 <= i < octet_digits(n).len() ==> is_digit(#[trigger] octet_digits(n)[i]),
        is_digit(octet_digits(n).last()),
{
    let s = octet_digits(n);
    assert(s.last() == s[s.len() - 1]);
}

/// The canonical line without its end of line.
spec fn bare_line(start: u32, end: u32) -> Seq<char> {
    ip_text(Ipv4Addr { bits: start }) + " - "@ + ip_text(Ipv4Addr { bits: end }) + seq![' ']
        + seq![','] + (" 000 "@ + seq![','] + " Ember imported range"@)
}

/// The description that canonical lines carry.
pub open spec fn canonical_description() -> Seq<char> {
    "Ember imported range"@
}

proof fn lemma_tail()
    ensures
        " , 000 , Ember imported range\n"@ == seq![' '] + seq![','] + (" 000 "@ + seq![',']
            + " Ember imported range"@) + seq!['\n'],
        " - "@ == seq![' ', '-', ' '],
{
    reveal_strlit(" , 000 , Ember imported range\n");
    reveal_strlit(" 000 ");
    reveal_strlit(" Ember imported range");
    reveal_strlit(" - ");
    assert(" , 000 , Ember imported range\n"@ =~= seq![' '] + seq![','] + (" 000 "@ + seq![',']
        + " Ember imported range"@) + seq!['\n']);
    assert(" - "@ =~= seq![' ', '-', ' ']);
}

proof fn lemma_level()
    ensures
        u32_text(trimmed(" 000 "@)) == Some(0nat),
        trimmed(" Ember imported range"@) == canonical_description(),
        find_first(" 000 "@ + seq![','] + " Ember imported range"@, ',') == Some(5nat),
        (" 000 "@ + seq![','] + " Ember imported range"@).take(5) == " 000 "@,
        (" 000 "@ + seq![','] + " Ember imported range"@).skip(6) == " Ember imported range"@,
{
    reveal_strlit(" 000 ");
    reveal_strlit(" Ember imported range");
    reveal_strlit("Ember imported range");
    let z = seq!['0', '0', '0'];
    assert(" 000 "@ =~= seq![' '] + z + seq![' ']);
    lemma_trim_padded(seq![' '], z, seq![' ']);
    reveal_with_fuel(digits_value, 4);
    assert(z.drop_last() =~= seq!['0', '0']);
    assert(z.drop_last().drop_last() =~= seq!['0']);
    assert(z.drop_last().drop_last().drop_last() =~= Seq::empty());
    let d = canonical_description();
    assert(" Ember imported range"@ =~= seq![' '] + d + Seq::empty());
    lemma_trim_padded(seq![' '], d, Seq::empty());
    let r = " 000 "@ + seq![','] + " Ember imported range"@;
    lemma_find_first(r, ',', 5);
    assert(r.take(5) =~= " 000 "@);
    assert(r.skip(6) =~= " Ember imported range"@);
}

proof fn lemma_field(start: u32, end: u32)
    ensures
        line_bounds(
            ip_text(Ipv4Addr { bits: start }) + " - "@ + ip_text(Ipv4Addr { bits: end }),
        ) == Some((start as nat, end as nat)),
{
    let a = ip_text(Ipv4Addr { bits: start });
    let b = ip_text(Ipv4Addr { bits: end });
    lemma_ip_text_chars(Ipv4Addr { bits: start });
    lemma_ip_text_chars(Ipv4Addr { bits: end });
    lemma_tail();
    let f = a + " - "@ + b;
    let sp = seq![' '];
    let none = Seq::<char>::empty();
    assert(f[a.len() as int + 1] == '-');
    assert forall|j: int| 0 <= j < a.len() + 1 implies f[j] != '-' by {
        if j < a.len() {
            assert(f[j] == a[j]);
            assert(ip_char(a[j]));
        } else {
            assert(f[j] == ' ');
        }
    }
    lemma_find_first(f, '-', a.len() + 1);
    assert(f.take(a.len() as int + 1) =~= none + a + sp);
    assert(f.skip(a.len() as int + 2) =~= sp + b + none);
    lemma_trim_padded(none, a, sp);
    lemma_trim_padded(sp, b, none);
    lemma_ip_text_round_trip(Ipv4Addr { bits: start });
    lemma_ip_text_round_trip(Ipv4Addr { bits: end });
}

proof fn lemma_bare_line(start: u32, end: u32)
    requires
        start <= end,
    ensures
        ipfilter_line(bare_line(start, end)) == Some(
            new_range(start, end, canonical_description()),
        ),
{
    let a = ip_text(Ipv4Addr { bits: start });
    let b = ip_text(Ipv4Addr { bits: end });
    lemma_ip_text_chars(Ipv4Addr { bits: start });
    lemma_ip_text_chars(Ipv4Addr { bits: end });
    lemma_tail();
    lemma_level();
    lemma_field(start, end);
    let l = bare_line(start, end);
    let f = a + " - "@ + b;
    let rest = " 000 "@ + seq![','] + " Ember imported range"@;
    let sp = seq![' '];
    let n = f.len() + 1;
    assert(l =~= (f + sp) + (seq![','] + rest));
    assert(l[n as int] == ',');
    assert forall|j: int| 0 <= j < n implies l[j] != ',' by {
        if j < a.len() {
            assert(l[j] == a[j]);
            assert(ip_char(a[j]));
        } else if j < a.len() + 3 {
            assert(l[j] == " - "@[j - a.len()]);
        } else if j < f.len() {
            assert(l[j] == b[j - a.len() - 3]);
            assert(ip_char(b[j - a.len() - 3]));
        } else {
            assert(l[j] == ' ');
        }
    }
    lemma_find_first(l, ',', n);
    assert(l.skip(n as int + 1) =~= rest);
    assert(l.take(n as int) =~= Seq::<char>::empty() + f + sp);
    assert(f[0] == a[0]);
    assert(f.last() == b.last());
    lemma_trim_padded(Seq::empty(), f, sp);
}

proof fn lemma_dat_line_shape(start: u32, end: u32)
    ensures
        dat_line(start, end) == bare_line(start, end) + seq!['\n'],
        is_ascii_chars(dat_line(start, end)),
        dat_line(start, end).len() <= 100,
        forall|i: int|
            0 <= i < bare_line(start, end).len() ==> #[trigger] bare_line(start, end)[i] != '\n',
        bare_line(start, end).len() > 0,
        is_digit(bare_line(start, end)[0]),
        bare_line(start, end).last() == 'e',
{
    let a = ip_text(Ipv4Addr { bits: start });
    let b = ip_text(Ipv4Addr { bits: end });
    lemma_ip_text_chars(Ipv4Addr { bits: start });
    lemma_ip_text_chars(Ipv4Addr { bits: end });
    lemma_tail();
    reveal_strlit(" 000 ");
    reveal_strlit(" Ember imported range");
    let l = bare_line(start, end);
    let d = dat_line(start, end);
    let t = seq![' '] + seq![','] + (" 000 "@ + seq![','] + " Ember imported range"@);
    assert(l =~= a + " - "@ + b + t);
    assert(d =~= l + seq!['\n']);
    assert(t.len() == 29);
    assert forall|i: int| 0 <= i < t.len() implies #[trigger] t[i] != '\n' && (t[i] as u32)
        < 128 by {}
    assert forall|i: int| 0 <= i < l.len() implies #[trigger] l[i] != '\n' && (l[i] as u32)
        < 128 by {
        let n = a.len() + 3 + b.len();
        if i < a.len() {
            assert(l[i] == a[i]);
            assert(ip_char(a[i]));
        } else if i < a.len() + 3 {
            assert(l[i] == " - "@[i - a.len()]);
        } else if i < n {
            assert(l[i] == b[i - a.len() - 3]);
            assert(ip_char(b[i - a.len() - 3]));
        } else {
            assert(l[i] == t[i - n]);
        }
    }
    assert(l[0] == a[0]);
    assert(l.last() == t.last());
    assert forall|i: int| 0 <= i < d.len() implies (#[trigger] d[i] as u32) < 128 by {
        if i < l.len() {
            assert(d[i] == l[i]);
        } else {
            assert(d[i] == '\n');
        }
    }
}

/// The bytes of a canonical line, read as a line of a filter, give its range.
pub proof fn lemma_canonical_line(start: u32, end: u32)
    requires
        start <= end,
    ensures
        line_range(encode_utf8(dat_line(start, end)), true) == Some(
            new_range(start, end, canonical_description()),
        ),
{
    let d = dat_line(start, end);
    let l = bare_line(start, end);
    lemma_dat_line_shape(start, end);
    lemma_utf8_round_trip(d);
    is_ascii_chars_encode_utf8(d);
    let none = Seq::<char>::empty();
    assert(d =~= none + l + seq!['\n']);
    lemma_trim_padded(none, l, seq!['\n']);
    lemma_bare_line(start, end);
}

/// Bytes that are empty or end with a line feed.
spec fn complete(a: Seq<u8>) -> bool {
    a.len() == 0 || a.last() == 10
}

proof fn lemma_find_first_some(s: Seq<u8>, k: int)
    requires
        0 <= k < s.len(),
        s[k] == 10,
    ensures
        find_first(s, 10u8) is Some,
        find_first(s, 10u8)->Some_0 <= k,
        s[find_first(s, 10u8)->Some_0 as int] == 10,
        forall|j: int| 0 <= j < find_first(s, 10u8)->Some_0 ==> s[j] != 10,
    decreases k,
{
    if s[0] != 10 {
        let t = s.skip(1);
        assert(t[k - 1] == s[k]);
        lemma_find_first_some(t, k - 1);
        let i = find_first(t, 10u8)->Some_0;
        assert(s[i as int + 1] == t[i as int]);
        assert forall|j: int| 0 <= j < i + 1 implies s[j] != 10 by {
            if j > 0 {
                assert(s[j] == t[j - 1]);
            }
        }
    }
}

proof fn lemma_split_lines_add(a: Seq<u8>, b: Seq<u8>)
    requires
        complete(a),
    ensures
        split_lines(a + b) == split_lines(a) + split_lines(b),
    decreases a.len(),
{
    if a.len() == 0 {
        assert(a + b =~= b);
        assert(split_lines(a) + split_lines(b) =~= split_lines(b));
    } else {
        lemma_find_first_some(a, a.len() - 1);
        let i = find_first(a, 10u8)->Some_0;
        let ab = a + b;
        assert forall|j: int| 0 <= j < i implies ab[j] != 10 by {
            assert(ab[j] == a[j]);
        }
        assert(ab[i as int] == a[i as int]);
        lemma_find_first(ab, 10u8, i);
        let a2 = a.skip(i as int + 1);
        assert(ab.take(i as int + 1) =~= a.take(i as int + 1));
        assert(ab.skip(i as int + 1) =~= a2 + b);
        assert(a2.len() > 0 ==> a2.last() == a.last());
        lemma_split_lines_add(a2, b);
        let l = seq![a.take(i as int + 1)];
        assert(l + (split_lines(a2) + split_lines(b)) =~= (l + split_lines(a2)) + split_lines(b));
    }
}

proof fn lemma_split_one(start: u32, end: u32)
    ensures
        split_lines(encode_utf8(dat_line(start, end))) == seq![encode_utf8(dat_line(start, end))],
        complete(encode_utf8(dat_line(start, end))),
{
    let d = dat_line(start, end);
    let l = bare_line(start, end);
    lemma_dat_line_shape(start, end);
    is_ascii_chars_encode_utf8(d);
    let e = encode_utf8(d);
    let n = l.len();
    assert(e.len() == n + 1);
    assert forall|j: int| 0 <= j < n implies e[j] != 10 by {
        assert(d[j] == l[j]);
        assert(l[j] != '\n');
        assert((d[j] as u32) < 128);
    }
    assert(d[n as int] == '\n');
    assert(e[n as int] == 10);
    lemma_find_first(e, 10u8, n);
    assert(e.take(n as int + 1) =~= e);
    assert(e.skip(n as int + 1) =~= Seq::<u8>::empty());
    assert(seq![e] + split_lines(Seq::<u8>::empty()) =~= seq![e]);
}

proof fn lemma_dat_text_ascii(rs: Seq<RangeView>)
    ensures
        is_ascii_chars(dat_text(rs)),
    decreases rs.len(),
{
    if rs.len() > 0 {
        lemma_dat_text_ascii(rs.drop_last());
        let a = dat_text(rs.drop_last());
        let b = dat_line(rs.last().start, rs.last().end);
        lemma_dat_line_shape(rs.last().start, rs.last().end);
        assert forall|i: int| 0 <= i < (a + b).len() implies (#[trigger] (a + b)[i] as u32)
            < 128 by {
            if i < a.len() {
                assert((a + b)[i] == a[i]);
            } else {
                assert((a + b)[i] == b[i - a.len()]);
            }
        }
    }
}

proof fn lemma_encode_add(a: Seq<char>, b: Seq<char>)
    requires
        is_ascii_chars(a),
        is_ascii_chars(b),
        is_ascii_chars(a + b),
    ensures
        encode_utf8(a + b) == encode_utf8(a) + encode_utf8(b),
{
    is_ascii_chars_encode_utf8(a);
    is_ascii_chars_encode_utf8(b);
    is_ascii_chars_encode_utf8(a + b);
    assert(encode_utf8(a + b) =~= encode_utf8(a) + encode_utf8(b));
}

/// The ranges of the canonical lines.
pub open spec fn canonical(rs: Seq<RangeView>) -> Seq<RangeView> {
    rs.map_values(|r: RangeView| new_range(r.start, r.end, canonical_description()))
}

proof fn lemma_canonical_lines(rs: Seq<RangeView>)
    requires
        proper(rs),
    ensures
        complete(encode_utf8(dat_text(rs))),
        split_lines(encode_utf8(dat_text(rs))).len() == rs.len(),
        lines_ranges(split_lines(encode_utf8(dat_text(rs))), true) == canonical(rs),
    decreases rs.len(),
{
    if rs.len() == 0 {
        is_ascii_chars_encode_utf8(dat_text(rs));
        assert(encode_utf8(dat_text(rs)) =~= Seq::<u8>::empty());
        assert(canonical(rs) =~= Seq::empty());
    } else {
        let front = rs.drop_last();
        let x = rs.last();
        assert(x == rs[rs.len() - 1]);
        assert forall|i: int| 0 <= i < front.len() implies (#[trigger] front[i]).start
            <= front[i].end by {
            assert(front[i] == rs[i]);
        }
        lemma_canonical_lines(front);
        lemma_dat_text_ascii(front);
        lemma_dat_text_ascii(rs);
        lemma_dat_line_shape(x.start, x.end);
        let a = encode_utf8(dat_text(front));
        let b = encode_utf8(dat_line(x.start, x.end));
        lemma_encode_add(dat_text(front), dat_line(x.start, x.end));
        lemma_split_one(x.start, x.end);
        lemma_split_lines_add(a, b);
        let ls = split_lines(a) + seq![b];
        assert(ls.drop_last() =~= split_lines(a));
        lemma_canonical_line(x.start, x.end);
        assert((a + b).last() == b.last());
        assert(canonical(rs) =~= canonical(front) + seq![
            new_range(x.start, x.end, canonical_description()),
        ]);
    }
}

/// The canonical text of some ranges, read as an `ipfilter.dat`, gives each of
/// them back, under the canonical description.
pub proof fn lemma_canonical_round_trip(rs: Seq<RangeView>)
    requires
        proper(rs),
        rs.len() <= MAX_TEXT_FILTER_LINES,
    ensures
        text_ranges(encode_utf8(dat_text(rs)), true) == canonical(rs),
{
    lemma_canonical_lines(rs);
}

/// A filter that loads the canonical text of another has exactly its ranges, in
/// the same order: as many, with the same ends, under the canonical description,
/// and with the hits that it had for them itself.
pub proof fn lemma_canonical_reload(rs: Seq<RangeView>, old: FilterView, out: FilterView)
    requires
        normal(rs),
        rs.len() <= MAX_TEXT_FILTER_LINES,
        committed(old, text_ranges(encode_utf8(dat_text(rs)), true), out),
    ensures
        out == (FilterView {
            ranges: with_saved(old.ranges, canonical(rs)),
            ranges_ready: true,
            ..old
        }),
        bounds(out.ranges) == bounds(rs),
        out.ranges.len() == rs.len(),
{
    let cs = canonical(rs);
    lemma_canonical_round_trip(rs);
    assert(normal(cs)) by {
        assert forall|i: int| 0 <= i < cs.len() implies (#[trigger] cs[i]).start <= cs[i].end by {
            assert(rs[i].start <= rs[i].end);
        }
        assert forall|i: int, j: int|
            #![trigger cs[i], cs[j]]
            0 <= i < j < cs.len() implies cs[i].end + 1 < cs[j].start by {
            assert(rs[i].end + 1 < rs[j].start);
        }
    }
    let m = choose|m: Seq<RangeView>|
        #[trigger] normalised(cs, m) && out == (FilterView {
            ranges: with_saved(old.ranges, m),
            ranges_ready: true,
            ..old
        });
    lemma_normalised_normal(cs, m);
    assert(bounds(out.ranges) =~= bounds(rs));
}

// ---------------------------------------------------------------------------
// Lines
// ---------------------------------------------------------------------------
/// A range in dotted form: `1.0.0.0-1.0.0.255`.
pub open spec fn dotted_range(start: u32, end: u32) -> Seq<char> {
    ip_text(Ipv4Addr { bits: start }) + seq!['-'] + ip_text(Ipv4Addr { bits: end })
}

/// A PeerGuardian line without its end of line.
pub open spec fn guardian_line(d: Seq<char>, start: u32, end: u32) -> Seq<char> {
    d + seq![':'] + dotted_range(start, end)
}

/// Whether a range holds the addresses from one to another, and no others.
pub open spec fn holds_exactly(r: RangeView, start: u32, end: u32) -> bool {
    r.start == start && r.end == end && forall|x: u32| #[trigger]
        holds(r, x) <==> start <= x <= end
}

proof fn lemma_dotted_shape(start: u32, end: u32)
    ensures
        ({
            let a = ip_text(Ipv4Addr { bits: start });
            let f = dotted_range(start, end);
            &&& f.len() > 0 && is_digit(f[0]) && is_digit(f.last())
            &&& f.len() <= 31
            &&& f[a.len() as int] == '-'
            &&& forall|j: int| 0 <= j < a.len() ==> f[j] != '-'
            &&& f.take(a.len() as int) == a
            &&& f.skip(a.len() as int + 1) == ip_text(Ipv4Addr { bits: end })
            &&& forall|i: int| 0 <= i < f.len() ==> #[trigger] f[i] == '-' || ip_char(f[i])
        }),
{
    let a = ip_text(Ipv4Addr { bits: start });
    let b = ip_text(Ipv4Addr { bits: end });
    let f = dotted_range(start, end);
    lemma_ip_text_chars(Ipv4Addr { bits: start });
    lemma_ip_text_chars(Ipv4Addr { bits: end });
    assert(f[0] == a[0]);
    assert(f.last() == b.last());
    assert forall|j: int| 0 <= j < f.len() implies #[trigger] f[j] == '-' || ip_char(f[j]) by {
        if j < a.len() {
            assert(f[j] == a[j]);
        } else if j > a.len() {
            assert(f[j] == b[j - a.len() - 1]);
        }
    }
    assert forall|j: int| 0 <= j < a.len() implies f[j] != '-' by {
        assert(f[j] == a[j]);
        assert(ip_char(a[j]));
    }
    assert(f.take(a.len() as int) =~= a);
    assert(f.skip(a.len() as int + 1) =~= b);
}

/// The text of an address is read as that address.
proof fn lemma_dotted_read(ip: u32)
    ensures
        lenient_ip(ip_text(Ipv4Addr { bits: ip })) == Some(ip as nat),
{
    let a = ip_text(Ipv4Addr { bits: ip });
    let none = Seq::<char>::empty();
    lemma_ip_text_chars(Ipv4Addr { bits: ip });
    assert(none + a + none =~= a);
    lemma_trim_padded(none, a, none);
    lemma_ip_text_round_trip(Ipv4Addr { bits: ip });
}

#[verifier::spinoff_prover]
#[verifier::rlimit(40)]
proof fn lemma_dotted_range(start: u32, end: u32)
    ensures
        ({
            let a = ip_text(Ipv4Addr { bits: start });
            let f = dotted_range(start, end);
            &&& f.len() > 0 && is_digit(f[0]) && is_digit(f.last())
            &&& f.len() <= 31
            &&& find_first(f, '-') == Some(a.len())
            &&& f.take(a.len() as int) == a
            &&& f.skip(a.len() as int + 1) == ip_text(Ipv4Addr { bits: end })
            &&& forall|i: int| 0 <= i < f.len() ==> #[trigger] f[i] == '-' || ip_char(f[i])
        }),
        lenient_ip(ip_text(Ipv4Addr { bits: start })) == Some(start as nat),
        lenient_ip(ip_text(Ipv4Addr { bits: end })) == Some(end as nat),
        trimmed(dotted_range(start, end)) == dotted_range(start, end),
{
    let a = ip_text(Ipv4Addr { bits: start });
    let f = dotted_range(start, end);
    let none = Seq::<char>::empty();
    lemma_dotted_shape(start, end);
    lemma_find_first(f, '-', a.len());
    assert(none + f + none =~= f);
    lemma_trim_padded(none, f, none);
    lemma_dotted_read(start);
    lemma_dotted_read(end);
}

/// A PeerGuardian line, whatever its description, gives the range that stands
/// behind its last colon: every address of it and no other. One whose ends are
/// swapped gives none.
pub proof fn lemma_guardian_line(d: Seq<char>, start: u32, end: u32)
    ensures
        start <= end ==> (p2p_line(guardian_line(d, start, end)) matches Some(r) && holds_exactly(
            r,
            start,
            end,
        ) && r.description == trimmed(d) && r.hits == 0),
        start > end ==> p2p_line(guardian_line(d, start, end)) is None,
{
    let f = dotted_range(start, end);
    let l = guardian_line(d, start, end);
    lemma_dotted_range(start, end);
    assert(l[d.len() as int] == ':');
    assert forall|j: int| d.len() < j < l.len() implies l[j] != ':' by {
        assert(l[j] == f[j - d.len() - 1]);
    }
    lemma_find_last(l, ':', d.len());
    assert(l.skip(d.len() as int + 1) =~= f);
    assert(l.take(d.len() as int) =~= d);
}

/// The bytes of a PeerGuardian line, with its end of line, give its range in a
/// PeerGuardian list. The description must not make a comment of the line.
pub proof fn lemma_guardian_bytes(d: Seq<char>, start: u32, end: u32)
    requires
        start <= end,
        d.len() > 0,
        !is_space(d[0]) && d[0] != '#' && d[0] != '/',
        encode_utf8(guardian_line(d, start, end) + seq!['\n']).len() <= 8192,
    ensures
        line_range(encode_utf8(guardian_line(d, start, end) + seq!['\n']), false) matches Some(r)
            && holds_exactly(r, start, end) && r.description == trimmed(d) && r.hits == 0,
{
    let l = guardian_line(d, start, end);
    let none = Seq::<char>::empty();
    let f = dotted_range(start, end);
    lemma_dotted_range(start, end);
    lemma_utf8_round_trip(l + seq!['\n']);
    assert(l[0] == d[0]);
    assert(l.last() == f.last());
    assert(l + seq!['\n'] =~= none + l + seq!['\n']);
    lemma_trim_padded(none, l, seq!['\n']);
    lemma_guardian_line(d, start, end);
}

/// A line of an `ipfilter.dat` without its end of line: a range, an access level
/// and a description.
pub open spec fn level_line(start: u32, end: u32, level: u8, d: Seq<char>) -> Seq<char> {
    ip_text(Ipv4Addr { bits: start }) + seq![' ', '-', ' '] + ip_text(Ipv4Addr { bits: end }) + seq![
        ' ',
    ] + seq![','] + (seq![' '] + octet_digits(level as nat) + seq![' '] + seq![','] + d)
}

/// A line of an `ipfilter.dat` gives its range if its access level is below 127,
/// and none otherwise.
#[verifier::rlimit(40)]
pub proof fn lemma_level_line(start: u32, end: u32, level: u8, d: Seq<char>)
    requires
        start <= end,
    ensures
        level < 127 ==> (ipfilter_line(level_line(start, end, level, d)) matches Some(r)
            && holds_exactly(r, start, end) && r.description == trimmed(d) && r.hits == 0),
        level >= 127 ==> ipfilter_line(level_line(start, end, level, d)) is None,
{
    let a = ip_text(Ipv4Addr { bits: start });
    let b = ip_text(Ipv4Addr { bits: end });
    let g = octet_digits(level as nat);
    let sp = seq![' '];
    let none = Seq::<char>::empty();
    lemma_ip_text_chars(Ipv4Addr { bits: start });
    lemma_ip_text_chars(Ipv4Addr { bits: end });
    lemma_octet_chars(level as nat);
    lemma_tail();
    lemma_field(start, end);
    let l = level_line(start, end, level, d);
    let f = a + " - "@ + b;
    let rest = sp + g + sp + seq![','] + d;
    let n = f.len() + 1;
    assert(l =~= (f + sp) + (seq![','] + rest));
    assert(l[n as int] == ',');
    assert forall|j: int| 0 <= j < n implies l[j] != ',' by {
        if j < a.len() {
            assert(l[j] == a[j]);
            assert(ip_char(a[j]));
        } else if j < a.len() + 3 {
            assert(l[j] == " - "@[j - a.len()]);
        } else if j < f.len() {
            assert(l[j] == b[j - a.len() - 3]);
            assert(ip_char(b[j - a.len() - 3]));
        } else {
            assert(l[j] == ' ');
        }
    }
    lemma_find_first(l, ',', n);
    assert(l.skip(n as int + 1) =~= rest);
    assert(l.take(n as int) =~= none + f + sp);
    assert(f[0] == a[0]);
    assert(f.last() == b.last());
    lemma_trim_padded(none, f, sp);
    let m = g.len() + 2;
    assert(rest[m as int] == ',');
    assert forall|j: int| 0 <= j < m implies rest[j] != ',' by {
        if 0 < j <= g.len() {
            assert(rest[j] == g[j - 1]);
            assert(is_digit(g[j - 1]));
        }
    }
    lemma_find_first(rest, ',', m);
    assert(rest.take(m as int) =~= sp + g + sp);
    assert(rest.skip(m as int + 1) =~= d);
    assert(is_digit(g[0]));
    lemma_trim_padded(sp, g, sp);
    lemma_octet_value(level as nat);
}

proof fn lemma_octet_value(n: nat)
    requires
        n <= 255,
    ensures
        u32_text(octet_digits(n)) == Some(n),
{
    let s = octet_digits(n);
    lemma_octet_chars(n);
    assert(is_digit(s[0]));
    reveal_with_fuel(digits_value, 4);
    assert(s.drop_last().len() == s.len() - 1);
    if n < 10 {
        assert(s.drop_last() =~= Seq::<char>::empty());
    } else if n < 100 {
        assert(s.drop_last() =~= seq![s[0]]);
        assert(s.drop_last().drop_last() =~= Seq::<char>::empty());
    } else {
        assert(s.drop_last() =~= seq![s[0], s[1]]);
        assert(s.drop_last().drop_last() =~= seq![s[0]]);
        assert(s.drop_last().drop_last().drop_last() =~= Seq::<char>::empty());
    }
}

// ---------------------------------------------------------------------------
// Files
// ---------------------------------------------------------------------------
/// Some lines, one after the other.
pub open spec fn joined_lines(ls: Seq<Seq<u8>>) -> Seq<u8>
    decreases ls.len(),
{
    if ls.len() == 0 {
        Seq::empty()
    } else {
        joined_lines(ls.drop_last()) + ls.last()
    }
}

/// Bytes that end with the first line feed in them.
pub open spec fn one_line(l: Seq<u8>) -> bool {
    &&& l.len() > 0
    &&& l.last() == 10
    &&& forall|j: int| 0 <= j < l.len() - 1 ==> l[j] != 10
}

proof fn lemma_joined_lines(ls: Seq<Seq<u8>>)
    requires
        forall|i: int| 0 <= i < ls.len() ==> one_line(#[trigger] ls[i]),
    ensures
        split_lines(joined_lines(ls)) == ls,
        complete(joined_lines(ls)),
    decreases ls.len(),
{
    if ls.len() == 0 {
        assert(split_lines(joined_lines(ls)) =~= ls);
    } else {
        let l = ls.last();
        let front = ls.drop_last();
        assert(one_line(ls[ls.len() - 1]));
        assert forall|i: int| 0 <= i < front.len() implies one_line(#[trigger] front[i]) by {
            assert(front[i] == ls[i]);
        }
        lemma_joined_lines(front);
        lemma_split_lines_add(joined_lines(front), l);
        lemma_find_first(l, 10u8, (l.len() - 1) as nat);
        assert(l.take(l.len() as int) =~= l);
        assert(l.skip(l.len() as int) =~= Seq::<u8>::empty());
        assert(seq![l] + split_lines(Seq::<u8>::empty()) =~= seq![l]);
        assert(split_lines(l) == seq![l]);
        assert(joined_lines(ls).last() == 10);
        assert(front + seq![l] =~= ls);
    }
}

/// A text filter blocks what some line of it blocks, and nothing else: loaded
/// into a filter that is on, an address that a peer can have is blocked exactly
/// if a line gives a range that holds it.
pub proof fn lemma_text_filter_blocks(
    ls: Seq<Seq<u8>>,
    dat: bool,
    old: FilterView,
    out: FilterView,
    ip: Ipv4Addr,
)
    requires
        forall|i: int| 0 <= i < ls.len() ==> one_line(#[trigger] ls[i]),
        ls.len() <= 5000000,
        old.enabled,
        committed(old, text_ranges(joined_lines(ls), dat), out),
        !special_use_v4(ip),
    ensures
        !(out.decision(ip, true) is Pass) <==> exists|i: int|
            0 <= i < ls.len() && (line_range(#[trigger] ls[i], dat) matches Some(r) && r.start
                <= ip.bits <= r.end),
        out.decision(ip, true) is Pass <==> out.decision(ip, false) is Pass,
{
    lemma_joined_lines(ls);
    let rs = lines_ranges(ls, dat);
    super::ip_filter::lemma_lines_proper(ls, dat);
    lemma_committed(old, rs, out);
    lemma_blocked_iff(out, ip, true);
    lemma_blocked_iff(out, ip, false);
    lemma_lines_cover(ls, dat, ip.bits);
    assert(covers(out.ranges, ip.bits) <==> covers(rs, ip.bits));
}

proof fn lemma_lines_cover(ls: Seq<Seq<u8>>, dat: bool, x: u32)
    ensures
        covers(lines_ranges(ls, dat), x) <==> exists|i: int|
            0 <= i < ls.len() && (line_range(#[trigger] ls[i], dat) matches Some(r) && r.start <= x
                <= r.end),
    decreases ls.len(),
{
    let rs = lines_ranges(ls, dat);
    if ls.len() > 0 {
        let front = ls.drop_last();
        let n = ls.len() - 1;
        lemma_lines_cover(front, dat, x);
        let a = lines_ranges(front, dat);
        let b = as_seq(line_range(ls.last(), dat));
        assert(rs == a + b);
        if covers(rs, x) {
            let i = choose|i: int| 0 <= i < rs.len() && #[trigger] holds(rs[i], x);
            if i < a.len() {
                assert(holds(a[i], x));
                assert(covers(a, x));
                let k = choose|k: int|
                    0 <= k < front.len() && (line_range(#[trigger] front[k], dat) matches Some(r)
                        && r.start <= x <= r.end);
                assert(ls[k] == front[k]);
            } else {
                assert(ls[n] == ls.last());
            }
        }
        if exists|i: int|
            0 <= i < ls.len() && (line_range(#[trigger] ls[i], dat) matches Some(r) && r.start <= x
                <= r.end) {
            let k = choose|k: int|
                0 <= k < ls.len() && (line_range(#[trigger] ls[k], dat) matches Some(r) && r.start
                    <= x <= r.end);
            if k < n {
                assert(front[k] == ls[k]);
                assert(covers(a, x));
                let i = choose|i: int| 0 <= i < a.len() && #[trigger] holds(a[i], x);
                assert(holds(rs[i], x));
            } else {
                assert(holds(rs[a.len() as int], x));
            }
        }
    }
}

/// A record of a binary filter: a name, a zero byte, and the two ends of a range
/// with their high bytes first.
pub open spec fn binary_record(name: Seq<u8>, start: u32, end: u32) -> Seq<u8> {
    name + seq![
        0u8,
        (start / 0x100_0000) as u8,
        ((start / 0x1_0000) % 0x100) as u8,
        ((start / 0x100) % 0x100) as u8,
        (start % 0x100) as u8,
        (end / 0x100_0000) as u8,
        ((end / 0x1_0000) % 0x100) as u8,
        ((end / 0x100) % 0x100) as u8,
        (end % 0x100) as u8,
    ]
}

/// A record of a binary filter gives its range, and what follows is read as if it
/// stood alone. One whose ends are swapped is left out.
pub proof fn lemma_binary_record(name: Seq<u8>, start: u32, end: u32, rest: Seq<u8>)
    requires
        forall|j: int| 0 <= j < name.len() ==> name[j] != 0,
    ensures
        start <= end ==> (p2b_records(binary_record(name, start, end) + rest).len() == 1
            + p2b_records(rest).len() && holds_exactly(
            p2b_records(binary_record(name, start, end) + rest)[0],
            start,
            end,
        ) && p2b_records(binary_record(name, start, end) + rest)[0].description == text_of(name)
            && p2b_records(binary_record(name, start, end) + rest).skip(1) == p2b_records(rest)),
        start > end ==> p2b_records(binary_record(name, start, end) + rest) == p2b_records(rest),
        p2b_records(Seq::empty()) == Seq::<RangeView>::empty(),
{
    let s = binary_record(name, start, end) + rest;
    let i = name.len() as int;
    assert forall|j: int| 0 <= j < i implies s[j] != 0 by {
        assert(s[j] == name[j]);
    }
    assert(s[i] == 0);
    lemma_find_first(s, 0u8, i as nat);
    let t = s.skip(i + 1);
    assert(t[0] == s[i + 1] && t[1] == s[i + 2] && t[2] == s[i + 3] && t[3] == s[i + 4]);
    assert(t.skip(4)[0] == s[i + 5] && t.skip(4)[1] == s[i + 6] && t.skip(4)[2] == s[i + 7]
        && t.skip(4)[3] == s[i + 8]);
    assert(be32(t) == start);
    assert(be32(t.skip(4)) == end);
    assert(s.skip(i + 9) =~= rest);
    assert(s.take(i) =~= name);
    let tail = p2b_records(rest);
    if start <= end {
        assert(p2b_records(s).skip(1) =~= tail);
    } else {
        assert(Seq::<RangeView>::empty() + tail =~= tail);
    }
}

/// A binary filter is read if it begins with its mark and one of two versions, and
/// then as its records. Otherwise it is refused.
pub proof fn lemma_binary_file(version: u8, records: Seq<u8>)
    requires
        8 + records.len() <= 268435456,
    ensures
        file_ranges(
            seq![0xFFu8, 0xFF, 0xFF, 0xFF, 0x50, 0x32, 0x42, version] + records,
            FilterFormat::P2b,
        ) == (if version == 1 || version == 2 {
            Some(p2b_records(records))
        } else {
            None
        }),
{
    let data = seq![0xFFu8, 0xFF, 0xFF, 0xFF, 0x50, 0x32, 0x42, version] + records;
    assert(data.skip(8) =~= records);
}

/// Taking a range out of a filter frees its addresses, and no other range changes.
pub proof fn lemma_range_removed(rs: Seq<RangeView>, s: u32, e: u32, r: RangeView)
    ensures
        without(rs, s, e).contains(r) <==> rs.contains(r) && !(r.start == s && r.end == e),
{
    let keep = |r: RangeView| !same_bounds(r, s, e);
    lemma_filtered(rs, keep, r);
}

proof fn lemma_filtered(rs: Seq<RangeView>, keep: spec_fn(RangeView) -> bool, r: RangeView)
    ensures
        rs.filter(keep).contains(r) <==> rs.contains(r) && keep(r),
    decreases rs.len(),
{
    reveal(Seq::filter);
    if rs.len() > 0 {
        let front = rs.drop_last();
        let x = rs.last();
        lemma_filtered(front, keep, r);
        assert(rs =~= front.push(x));
        assert(rs.contains(r) <==> front.contains(r) || r == x) by {
            if rs.contains(r) {
                let i = choose|i: int| 0 <= i < rs.len() && rs[i] == r;
                if i < front.len() {
                    assert(front[i] == r);
                }
            }
            if front.contains(r) {
                let i = choose|i: int| 0 <= i < front.len() && front[i] == r;
                assert(rs[i] == r);
            }
            assert(rs[rs.len() - 1] == x);
        }
        let f = front.filter(keep);
        if keep(x) {
            let g = f.push(x);
            assert(rs.filter(keep) == g);
            if g.contains(r) {
                let i = choose|i: int| 0 <= i < g.len() && g[i] == r;
                if i < f.len() {
                    assert(f[i] == r);
                }
            }
            if f.contains(r) {
                let i = choose|i: int| 0 <= i < f.len() && f[i] == r;
                assert(g[i] == r);
            }
            assert(g[f.len() as int] == x);
        }
    }
}

// ---------------------------------------------------------------------------
// Decisions and counters
// ---------------------------------------------------------------------------
/// Addresses that can be no peer's are blocked by any filter, and local ones by one
/// that is set to. A filter that is off blocks nothing else. One that waits for its
/// ranges blocks everything where in doubt it is to block, and else nothing more.
pub proof fn lemma_decisions(f: FilterView, ip: Ipv4Addr, closed: bool)
    ensures
        bogus_v4(ip) ==> f.decision(ip, closed) is Special,
        f.block_private && lan_or_cgnat_v4(ip) ==> f.decision(ip, closed) is Special,
        !bogus_v4(ip) && (!f.block_private || !lan_or_cgnat_v4(ip)) ==> {
            &&& !f.enabled ==> f.decision(ip, closed) is Pass
            &&& f.enabled && !f.ranges_ready && closed ==> f.decision(ip, closed) is NotReady
            &&& f.enabled && !f.ranges_ready && !closed ==> f.decision(ip, closed) is Pass
        },
{
}

/// The range that blocks an address is one that holds it.
pub proof fn lemma_range_named(f: FilterView, ip: Ipv4Addr, closed: bool)
    ensures
        f.decision(ip, closed) matches Decision::Range(i) ==> 0 <= i < f.ranges.len()
            && f.ranges[i].start <= ip.bits <= f.ranges[i].end && f.enabled && f.ranges_ready,
{
    let bs = bounds(f.ranges);
    if in_some(bs, ip.bits) {
        let i = choose|i: int| 0 <= i < bs.len() && #[trigger] within(bs[i], ip.bits);
        assert(within(bs[i], ip.bits));
        assert(bs[i] == (f.ranges[i].start, f.ranges[i].end));
    }
}

/// An address that a range blocks counts for that range and for all ranges together;
/// one that can be no peer's counts apart; one that passes does not count.
pub proof fn lemma_hits_counted(f: FilterView, d: Decision, j: int)
    requires
        f.range_hits < u64::MAX,
        f.special_hits < u64::MAX,
        d matches Decision::Range(i) ==> 0 <= i < f.ranges.len() && f.ranges[i].hits < u64::MAX,
        0 <= j < f.ranges.len(),
    ensures
        ({
            let r = f.counted(d);
            &&& r.range_hits == f.range_hits + if d is Range || d is NotReady {
                1int
            } else {
                0
            }
            &&& r.special_hits == f.special_hits + if d is Special {
                1int
            } else {
                0
            }
            &&& r.ranges.len() == f.ranges.len()
            &&& r.ranges[j].hits == f.ranges[j].hits + if d == Decision::Range(j) {
                1int
            } else {
                0
            }
            &&& r.ranges[j].start == f.ranges[j].start && r.ranges[j].end == f.ranges[j].end
            &&& r.ranges[j].description == f.ranges[j].description
            &&& r.enabled == f.enabled && r.block_private == f.block_private && r.ranges_ready
                == f.ranges_ready
        }),
{
}

/// The total shown is no less than what all ranges had together, and counts what can
/// be no peer's on top.
pub proof fn lemma_total_shown(f: FilterView)
    ensures
        f.total_hits() >= f.range_hits + f.special_hits,
        f.total_hits() >= f.hits_sum() + f.special_hits,
        f.total_hits() == f.range_hits + f.special_hits || f.total_hits() == f.hits_sum()
            + f.special_hits,
{
}

/// Two ranges become one that starts where the first does and ends where the one that
/// reaches further does, with the matches of both and the first description there is.
pub proof fn lemma_joined(a: RangeView, b: RangeView)
    requires
        a.start <= b.start,
        a.hits + b.hits <= u64::MAX,
    ensures
        ({
            let r = join(a, b);
            &&& r.start == a.start
            &&& r.end >= a.end && r.end >= b.end && (r.end == a.end || r.end == b.end)
            &&& r.hits == a.hits + b.hits
            &&& a.description.len() > 0 ==> r.description == a.description
            &&& a.description.len() == 0 ==> r.description == b.description
        }),
{
}

/// A range that is loaded again keeps the matches that it had; a new one has none.
pub proof fn lemma_hits_survive_reload(old: Seq<RangeView>, new: Seq<RangeView>, i: int, j: int)
    requires
        normal(old),
        0 <= i < old.len(),
        0 <= j < new.len(),
        old[i].start == new[j].start,
        old[i].end == new[j].end,
        new[j].hits == 0,
    ensures
        with_saved(old, new).len() == new.len(),
        with_saved(old, new)[j].hits == old[i].hits,
        with_saved(old, new)[j].start == new[j].start && with_saved(old, new)[j].end == new[j].end,
        with_saved(old, new)[j].description == new[j].description,
{
    let (s, e) = (new[j].start, new[j].end);
    if old[i].hits > 0 {
        assert(same_bounds(old[i], s, e));
    }
    if exists|k: int| 0 <= k < old.len() && #[trigger] same_bounds(old[k], s, e) && old[k].hits > 0 {
        let k = choose|k: int|
            0 <= k < old.len() && #[trigger] same_bounds(old[k], s, e) && old[k].hits > 0;
        assert(same_bounds(old[k], s, e));
        if k < i {
            assert(old[k].end + 1 < old[i].start);
        }
        if i < k {
            assert(old[i].end + 1 < old[k].start);
        }
    }
}

/// The form of a filter file follows from its extension, in whatever case: `p2b` is
/// binary, `p2p` has a range a line behind its description, and anything else starts
/// its lines with the range.
pub proof fn lemma_forms(ext: Seq<char>)
    ensures
        ext.len() != 3 ==> format_of(ext) is Dat,
        format_of(seq!['p', '2', 'b']) is P2b && format_of(seq!['P', '2', 'B']) is P2b,
        format_of(seq!['p', '2', 'p']) is P2p && format_of(seq!['P', '2', 'P']) is P2p,
        ext.len() == 3 && ext[1] != '2' ==> format_of(ext) is Dat,
        ext.len() == 3 && ext[0] != 'p' && ext[0] != 'P' ==> format_of(ext) is Dat,
{
}

} // verus!
