//! IP addresses as plain integers, with their textual grammars.
//!
//! An IPv4 address is a `u32`, an IPv6 address a `u128`. The dotted-quad
//! and colon-hex grammars are specified over byte sequences; parsing and
//! formatting are verified against them, and formatting is proved to
//! round-trip through parsing.

use crate::bytes::{
    dec_value, digit_val, find_byte, hex_digit_of, hex_digit_val, hex_value, is_dec_digits,
    is_digit, is_hex_digit, is_hex_digits, join_bytes, lemma_dec_value_monotone,
    lemma_dec_value_nonneg, lemma_dec_value_take, lemma_hex_value_monotone, lemma_hex_value_take,
    lemma_split_join, split_bytes, split_bytes_exec,
};
use vstd::arithmetic::div_mod::{lemma_div_denominator, lemma_fundamental_div_mod};
use vstd::prelude::*;

verus! {

/// One octet of a dotted quad: one to three digits, no leading zero,
/// value at most 255.
pub open spec fn is_valid_octet(t: Seq<u8>) -> bool {
    is_dec_digits(t) && 1 <= t.len() <= 3 && (t.len() > 1 ==> t[0] != 48) && dec_value(t) <= 255
}

/// The numeric value of four octet tokens, most significant first.
pub open spec fn v4_tokens_value(ts: Seq<Seq<u8>>) -> int {
    ((dec_value(ts[0]) * 256 + dec_value(ts[1])) * 256 + dec_value(ts[2])) * 256 + dec_value(ts[3])
}

/// The dotted-quad grammar: four valid octets joined by dots.
pub open spec fn spec_parse_ipv4(s: Seq<u8>) -> Option<int> {
    let ts = split_bytes(s, 46);
    if ts.len() == 4 && (forall|i: int| 0 <= i < 4 ==> is_valid_octet(#[trigger] ts[i])) {
        Some(v4_tokens_value(ts))
    } else {
        None
    }
}

/// The canonical decimal form of a value below one thousand: no leading
/// zeros, `"0"` for zero.
pub open spec fn canon_dec(v: int) -> Seq<u8> {
    if v < 10 {
        seq![(48 + v) as u8]
    } else if v < 100 {
        seq![(48 + v / 10) as u8, (48 + v % 10) as u8]
    } else {
        seq![(48 + v / 10 / 10) as u8, (48 + v / 10 % 10) as u8, (48 + v % 10) as u8]
    }
}

/// The canonical decimal form is a valid octet spelling its value.
pub proof fn lemma_canon_dec(v: int)
    requires
        0 <= v <= 255,
    ensures
        is_dec_digits(canon_dec(v)),
        1 <= canon_dec(v).len() <= 3,
        canon_dec(v).len() > 1 ==> canon_dec(v)[0] != 48,
        dec_value(canon_dec(v)) == v,
        forall|i: int| 0 <= i < canon_dec(v).len() ==> is_digit(#[trigger] canon_dec(v)[i]),
{
    lemma_fundamental_div_mod(v, 10);
    if v >= 10 {
        lemma_fundamental_div_mod(v / 10, 10);
        lemma_div_denominator(v, 10, 10);
        assert(1 <= v / 10 <= 25) by (nonlinear_arith)
            requires
                10 <= v <= 255,
        ;
        assert(0 <= v % 10 <= 9) by (nonlinear_arith)
            requires
                v >= 0,
        ;
    }
    if v >= 100 {
        assert(1 <= v / 10 / 10 <= 2) by (nonlinear_arith)
            requires
                10 <= v / 10 <= 25,
        ;
        assert(0 <= v / 10 % 10 <= 9) by (nonlinear_arith)
            requires
                v / 10 >= 0,
        ;
    }
    let t = canon_dec(v);
    if v < 10 {
        assert(t.drop_last() =~= Seq::<u8>::empty());
        assert(dec_value(Seq::<u8>::empty()) == 0);
        assert(dec_value(t) == digit_val(t[0]));
    } else if v < 100 {
        assert(t.drop_last() =~= seq![(48 + v / 10) as u8]);
        assert(seq![(48 + v / 10) as u8].drop_last() =~= Seq::<u8>::empty());
        assert(dec_value(Seq::<u8>::empty()) == 0);
        assert(dec_value(seq![(48 + v / 10) as u8]) == v / 10);
        assert(dec_value(t) == dec_value(t.drop_last()) * 10 + digit_val(t.last()));
    } else {
        assert(t.drop_last() =~= seq![(48 + v / 10 / 10) as u8, (48 + v / 10 % 10) as u8]);
        assert(seq![(48 + v / 10 / 10) as u8, (48 + v / 10 % 10) as u8].drop_last() =~= seq![
            (48 + v / 10 / 10) as u8,
        ]);
        assert(seq![(48 + v / 10 / 10) as u8].drop_last() =~= Seq::<u8>::empty());
        assert(dec_value(Seq::<u8>::empty()) == 0);
        assert(dec_value(seq![(48 + v / 10 / 10) as u8]) == v / 10 / 10);
        assert(dec_value(seq![(48 + v / 10 / 10) as u8, (48 + v / 10 % 10) as u8]) == v / 10);
        assert(dec_value(t) == v);
    }
}

/// The four octet values of an IPv4 address, most significant first.
pub open spec fn v4_octets_of(v: int) -> Seq<int> {
    seq![v / 256 / 256 / 256 % 256, v / 256 / 256 % 256, v / 256 % 256, v % 256]
}

/// The canonical dotted-quad text of an IPv4 address.
pub open spec fn canon_ipv4(v: int) -> Seq<u8> {
    join_bytes(
        seq![
            canon_dec(v4_octets_of(v)[0]),
            canon_dec(v4_octets_of(v)[1]),
            canon_dec(v4_octets_of(v)[2]),
            canon_dec(v4_octets_of(v)[3]),
        ],
        46,
    )
}

/// Octet values are in range, and reassembling them gives the address
/// back.
pub proof fn lemma_v4_octets(v: int)
    requires
        0 <= v < 0x100000000,
    ensures
        forall|i: int| 0 <= i < 4 ==> 0 <= #[trigger] v4_octets_of(v)[i] <= 255,
        ((v4_octets_of(v)[0] * 256 + v4_octets_of(v)[1]) * 256 + v4_octets_of(v)[2]) * 256
            + v4_octets_of(v)[3] == v,
{
    let x1 = v / 256;
    let x2 = x1 / 256;
    let x3 = x2 / 256;
    lemma_fundamental_div_mod(v, 256);
    lemma_fundamental_div_mod(x1, 256);
    lemma_fundamental_div_mod(x2, 256);
    lemma_fundamental_div_mod(x3, 256);
    assert(0 <= v % 256 < 256 && 0 <= x1 % 256 < 256 && 0 <= x2 % 256 < 256) by {
        lemma_fundamental_div_mod(v, 256);
    }
    assert(x3 < 256) by {
        lemma_div_denominator(v, 256, 256);
        lemma_div_denominator(v, 65536, 256);
    }
    assert(x3 % 256 == x3);
    assert(v4_octets_of(v)[0] == x3 && v4_octets_of(v)[1] == x2 % 256 && v4_octets_of(v)[2] == x1
        % 256 && v4_octets_of(v)[3] == v % 256);
    assert(x2 == x3 * 256 + x2 % 256);
    assert(x1 == x2 * 256 + x1 % 256);
    assert(v == x1 * 256 + v % 256);
}

/// The record round-trip law for the IPv4 address part: parsing the
/// canonical dotted quad of any address gives the address back.
pub proof fn lemma_ipv4_round_trip(v: int)
    requires
        0 <= v < 0x100000000,
    ensures
        spec_parse_ipv4(canon_ipv4(v)) == Some(v),
{
    lemma_v4_octets(v);
    let os = v4_octets_of(v);
    let ts = seq![canon_dec(os[0]), canon_dec(os[1]), canon_dec(os[2]), canon_dec(os[3])];
    lemma_canon_dec(os[0]);
    lemma_canon_dec(os[1]);
    lemma_canon_dec(os[2]);
    lemma_canon_dec(os[3]);
    assert forall|t: int, i: int|
        0 <= t < ts.len() && 0 <= i < ts[t].len() implies (#[trigger] ts[t][i]) != 46 by {
        assert(is_digit(ts[t][i]));
    }
    lemma_split_join(ts, 46);
    assert(spec_parse_ipv4(canon_ipv4(v)) == Some(v4_tokens_value(ts)));
}

/// Parse a decimal token worth at most `bound`, rejecting non-digit
/// bytes and larger values.
pub fn parse_dec_bounded(t: &[u8], bound: u32) -> (r: Option<u32>)
    ensures
        match r {
            Some(v) => is_dec_digits(t@) && dec_value(t@) == v && v <= bound,
            None => !(is_dec_digits(t@) && dec_value(t@) <= bound),
        },
{
    if t.len() == 0 {
        return None;
    }
    let bound64 = bound as u64;
    let mut acc: u64 = 0;
    let mut i: usize = 0;
    while i < t.len()
        invariant
            0 <= i <= t@.len(),
            t@.len() >= 1,
            bound64 == bound,
            acc == dec_value(t@.take(i as int)),
            acc <= bound64,
            forall|j: int| 0 <= j < i ==> is_digit(#[trigger] t@[j]),
        decreases t@.len() - i,
    {
        let b = t[i];
        if !(48 <= b && b <= 57) {
            return None;
        }
        proof {
            lemma_dec_value_take(t@, i as int);
        }
        acc = acc * 10 + ((b - 48) as u64);
        if acc > bound64 {
            proof {
                if is_dec_digits(t@) {
                    lemma_dec_value_monotone(t@, i as int + 1, t@.len() as int);
                    assert(t@.take(t@.len() as int) =~= t@);
                }
            }
            return None;
        }
        i += 1;
    }
    proof {
        assert(t@.take(t@.len() as int) =~= t@);
    }
    Some(acc as u32)
}

/// Parse one dotted-quad octet.
fn parse_octet(t: &[u8]) -> (r: Option<u8>)
    ensures
        match r {
            Some(v) => is_valid_octet(t@) && dec_value(t@) == v,
            None => !is_valid_octet(t@),
        },
{
    if t.len() == 0 || t.len() > 3 {
        return None;
    }
    if t.len() > 1 && t[0] == 48 {
        return None;
    }
    match parse_dec_bounded(t, 255) {
        Some(v) => Some(v as u8),
        None => None,
    }
}

/// Parse a dotted-quad IPv4 address.
pub fn parse_ipv4(s: &[u8]) -> (r: Option<u32>)
    ensures
        match r {
            Some(v) => spec_parse_ipv4(s@) == Some(v as int),
            None => spec_parse_ipv4(s@) is None,
        },
{
    let ts = split_bytes_exec(s, 46);
    let ghost sts = split_bytes(s@, 46);
    proof {
        assert forall|k: int| 0 <= k < sts.len() implies sts[k] == ts@[k]@ by {
            assert(sts[k] =~= ts@[k]@);
        }
    }
    if ts.len() != 4 {
        return None;
    }
    let o0 = match parse_octet(ts[0].as_slice()) {
        Some(v) => v,
        None => {
            return None;
        },
    };
    let o1 = match parse_octet(ts[1].as_slice()) {
        Some(v) => v,
        None => {
            return None;
        },
    };
    let o2 = match parse_octet(ts[2].as_slice()) {
        Some(v) => v,
        None => {
            return None;
        },
    };
    let o3 = match parse_octet(ts[3].as_slice()) {
        Some(v) => v,
        None => {
            return None;
        },
    };
    let v = ((o0 as u32) * 256 + (o1 as u32)) * 256 * 256 + (o2 as u32) * 256 + (o3 as u32);
    proof {
        assert(forall|i: int| 0 <= i < 4 ==> is_valid_octet(#[trigger] sts[i]));
        assert(v == v4_tokens_value(sts));
    }
    Some(v)
}

/// Append a byte slice to a vector.
pub fn push_all(out: &mut Vec<u8>, t: &[u8])
    ensures
        final(out)@ == old(out)@ + t@,
{
    let mut i: usize = 0;
    while i < t.len()
        invariant
            0 <= i <= t@.len(),
            out@ == old(out)@ + t@.take(i as int),
        decreases t@.len() - i,
    {
        out.push(t[i]);
        proof {
            assert(old(out)@ + t@.take(i as int + 1) =~= (old(out)@ + t@.take(i as int)).push(
                t@[i as int],
            ));
        }
        i += 1;
    }
    proof {
        assert(t@.take(t@.len() as int) =~= t@);
    }
}

/// Format a value below one thousand in canonical decimal.
pub(crate) fn format_dec(v: u32) -> (r: Vec<u8>)
    requires
        v <= 999,
    ensures
        r@ == canon_dec(v as int),
{
    let mut out: Vec<u8> = Vec::new();
    if v < 10 {
        out.push((48 + v) as u8);
    } else if v < 100 {
        out.push((48 + v / 10) as u8);
        out.push((48 + v % 10) as u8);
    } else {
        out.push((48 + v / 10 / 10) as u8);
        out.push((48 + v / 10 % 10) as u8);
        out.push((48 + v % 10) as u8);
    }
    proof {
        assert(out@ =~= canon_dec(v as int));
    }
    out
}

/// Format an IPv4 address as its canonical dotted quad.
pub fn format_ipv4(v: u32) -> (r: Vec<u8>)
    ensures
        r@ == canon_ipv4(v as int),
        spec_parse_ipv4(r@) == Some(v as int),
{
    let o0 = format_dec(v / 256 / 256 / 256 % 256);
    let o1 = format_dec(v / 256 / 256 % 256);
    let o2 = format_dec(v / 256 % 256);
    let o3 = format_dec(v % 256);
    let mut out: Vec<u8> = Vec::new();
    push_all(&mut out, o0.as_slice());
    out.push(46);
    push_all(&mut out, o1.as_slice());
    out.push(46);
    push_all(&mut out, o2.as_slice());
    out.push(46);
    push_all(&mut out, o3.as_slice());
    proof {
        let ts = seq![o0@, o1@, o2@, o3@];
        assert(ts =~= seq![
            canon_dec(v4_octets_of(v as int)[0]),
            canon_dec(v4_octets_of(v as int)[1]),
            canon_dec(v4_octets_of(v as int)[2]),
            canon_dec(v4_octets_of(v as int)[3]),
        ]);
        let t3 = seq![o3@];
        let t23 = seq![o2@, o3@];
        let t123 = seq![o1@, o2@, o3@];
        assert(join_bytes(t3, 46) == o3@);
        assert(t23.drop_first() =~= t3);
        assert(join_bytes(t23, 46) == o2@ + seq![46u8] + join_bytes(t3, 46));
        assert(t123.drop_first() =~= t23);
        assert(join_bytes(t123, 46) == o1@ + seq![46u8] + join_bytes(t23, 46));
        assert(ts.drop_first() =~= t123);
        assert(join_bytes(ts, 46) == o0@ + seq![46u8] + join_bytes(t123, 46));
        assert(out@ =~= join_bytes(ts, 46));
        lemma_ipv4_round_trip(v as int);
    }
    out
}

/// One group of colon-hex text: one to four hex digits. Leading zeros
/// are accepted on parse; the canonical form never emits them.
pub open spec fn is_valid_group(t: Seq<u8>) -> bool {
    is_hex_digits(t) && 1 <= t.len() <= 4
}

pub open spec fn all_valid_groups(ts: Seq<Seq<u8>>) -> bool {
    forall|i: int| 0 <= i < ts.len() ==> is_valid_group(#[trigger] ts[i])
}

/// The group values of a token range.
pub open spec fn group_values(ts: Seq<Seq<u8>>) -> Seq<int> {
    ts.map_values(|t: Seq<u8>| hex_value(t))
}

pub open spec fn zero_groups(n: int) -> Seq<int> {
    Seq::new(n as nat, |i: int| 0)
}

/// The index of the first empty token, or minus one.
pub open spec fn find_empty(ts: Seq<Seq<u8>>) -> int
    decreases ts.len(),
{
    if ts.len() == 0 {
        -1
    } else if ts[0].len() == 0 {
        0
    } else if find_empty(ts.drop_first()) == -1 {
        -1
    } else {
        find_empty(ts.drop_first()) + 1
    }
}

pub proof fn lemma_find_empty(ts: Seq<Seq<u8>>)
    ensures
        find_empty(ts) == -1 ==> forall|i: int| 0 <= i < ts.len() ==> (#[trigger] ts[i]).len() != 0,
        find_empty(ts) != -1 ==> 0 <= find_empty(ts) < ts.len() && ts[find_empty(ts)].len() == 0
            && forall|i: int| 0 <= i < find_empty(ts) ==> (#[trigger] ts[i]).len() != 0,
    decreases ts.len(),
{
    if ts.len() == 0 {
    } else if ts[0].len() == 0 {
    } else {
        lemma_find_empty(ts.drop_first());
        let r = find_empty(ts.drop_first());
        if r == -1 {
            assert forall|i: int| 0 <= i < ts.len() implies (#[trigger] ts[i]).len() != 0 by {
                if i >= 1 {
                    assert(ts.drop_first()[i - 1] == ts[i]);
                }
            }
        } else {
            assert(ts[r + 1] == ts.drop_first()[r]);
            assert forall|i: int| 0 <= i < r + 1 implies (#[trigger] ts[i]).len() != 0 by {
                if i >= 1 {
                    assert(ts.drop_first()[i - 1] == ts[i]);
                }
            }
        }
    }
}

pub proof fn lemma_find_empty_unique(ts: Seq<Seq<u8>>, p: int)
    requires
        0 <= p < ts.len(),
        ts[p].len() == 0,
        forall|i: int| 0 <= i < p ==> (#[trigger] ts[i]).len() != 0,
    ensures
        find_empty(ts) == p,
    decreases ts.len(),
{
    if p == 0 {
    } else {
        assert(ts.drop_first()[p - 1] == ts[p]);
        assert forall|i: int| 0 <= i < p - 1 implies (#[trigger] ts.drop_first()[i]).len() != 0 by {
            assert(ts.drop_first()[i] == ts[i + 1]);
        }
        lemma_find_empty_unique(ts.drop_first(), p - 1);
    }
}

pub proof fn lemma_find_empty_absent(ts: Seq<Seq<u8>>)
    requires
        forall|i: int| 0 <= i < ts.len() ==> (#[trigger] ts[i]).len() != 0,
    ensures
        find_empty(ts) == -1,
{
    lemma_find_empty(ts);
    if find_empty(ts) != -1 {
        assert(ts[find_empty(ts)].len() == 0);
    }
}

/// The two group values an embedded dotted quad contributes: its high
/// and low sixteen bits.
pub open spec fn quad_groups(t: Seq<u8>) -> Seq<int> {
    let v = spec_parse_ipv4(t)->0;
    seq![v / 65536, v % 65536]
}

/// The group values of a run of tokens: hexadecimal groups, with an
/// embedded dotted quad allowed as the last token only, counting as
/// two groups.
pub open spec fn tokens_groups(ts: Seq<Seq<u8>>) -> Option<Seq<int>> {
    if ts.len() == 0 {
        Some(Seq::empty())
    } else if all_valid_groups(ts) {
        Some(group_values(ts))
    } else if all_valid_groups(ts.drop_last()) && spec_parse_ipv4(ts.last()) is Some {
        Some(group_values(ts.drop_last()) + quad_groups(ts.last()))
    } else {
        None
    }
}

/// The colon-hex grammar at the token level. An empty token marks the
/// `::` compression: two leading empties, two trailing empties, one
/// interior empty, or three empties for `::` alone. The final run of
/// tokens may end in an embedded dotted quad.
pub open spec fn parse_v6_tokens(ts: Seq<Seq<u8>>) -> Option<Seq<int>> {
    let p = find_empty(ts);
    if p == -1 {
        match tokens_groups(ts) {
            Some(gs) => if gs.len() == 8 {
                Some(gs)
            } else {
                None
            },
            None => None,
        }
    } else if ts.len() == 3 && ts[0].len() == 0 && ts[1].len() == 0 && ts[2].len() == 0 {
        Some(zero_groups(8))
    } else if p == 0 {
        if ts.len() >= 3 && ts[1].len() == 0 {
            match tokens_groups(ts.skip(2)) {
                Some(gs) => if 1 <= gs.len() <= 7 {
                    Some(zero_groups(8 - gs.len()) + gs)
                } else {
                    None
                },
                None => None,
            }
        } else {
            None
        }
    } else if p == ts.len() - 2 && ts[ts.len() - 1].len() == 0 {
        if all_valid_groups(ts.take(p)) && p <= 7 {
            Some(group_values(ts.take(p)) + zero_groups(8 - p))
        } else {
            None
        }
    } else if p < ts.len() - 1 {
        match tokens_groups(ts.skip(p + 1)) {
            Some(back) => if all_valid_groups(ts.take(p)) && p + back.len() <= 7 {
                Some(group_values(ts.take(p)) + zero_groups(8 - p - back.len()) + back)
            } else {
                None
            },
            None => None,
        }
    } else {
        None
    }
}

/// The address value of eight group values, most significant first.
pub open spec fn groups_value(gs: Seq<int>) -> int {
    ((((((gs[0] * 65536 + gs[1]) * 65536 + gs[2]) * 65536 + gs[3]) * 65536 + gs[4]) * 65536
        + gs[5]) * 65536 + gs[6]) * 65536 + gs[7]
}

/// The colon-hex grammar: tokens on colons, parsed as groups.
pub open spec fn spec_parse_ipv6(s: Seq<u8>) -> Option<int> {
    match parse_v6_tokens(split_bytes(s, 58)) {
        Some(gs) => Some(groups_value(gs)),
        None => None,
    }
}

/// The eight group values of an IPv6 address, most significant first.
pub open spec fn v6_groups_of(v: int) -> Seq<int> {
    let q1 = v / 65536;
    let q2 = q1 / 65536;
    let q3 = q2 / 65536;
    let q4 = q3 / 65536;
    let q5 = q4 / 65536;
    let q6 = q5 / 65536;
    let q7 = q6 / 65536;
    seq![
        q7 % 65536,
        q6 % 65536,
        q5 % 65536,
        q4 % 65536,
        q3 % 65536,
        q2 % 65536,
        q1 % 65536,
        v % 65536,
    ]
}

/// Group values are in range, and reassembling them gives the address
/// back.
pub proof fn lemma_v6_groups(v: int)
    requires
        0 <= v < 0x100000000000000000000000000000000,
    ensures
        v6_groups_of(v).len() == 8,
        forall|i: int| 0 <= i < 8 ==> 0 <= #[trigger] v6_groups_of(v)[i] <= 65535,
        groups_value(v6_groups_of(v)) == v,
{
    let q1 = v / 65536;
    let q2 = q1 / 65536;
    let q3 = q2 / 65536;
    let q4 = q3 / 65536;
    let q5 = q4 / 65536;
    let q6 = q5 / 65536;
    let q7 = q6 / 65536;
    lemma_fundamental_div_mod(v, 65536);
    lemma_fundamental_div_mod(q1, 65536);
    lemma_fundamental_div_mod(q2, 65536);
    lemma_fundamental_div_mod(q3, 65536);
    lemma_fundamental_div_mod(q4, 65536);
    lemma_fundamental_div_mod(q5, 65536);
    lemma_fundamental_div_mod(q6, 65536);
    lemma_fundamental_div_mod(q7, 65536);
    assert(q7 < 65536) by {
        lemma_div_denominator(v, 65536, 65536);
        lemma_div_denominator(v, 0x100000000, 65536);
        lemma_div_denominator(v, 0x1000000000000, 65536);
        lemma_div_denominator(v, 0x10000000000000000, 65536);
        lemma_div_denominator(v, 0x100000000000000000000, 65536);
        lemma_div_denominator(v, 0x1000000000000000000000000, 65536);
    }
    assert(q7 % 65536 == q7);
}

/// The length of the zero run starting at index `i`.
pub open spec fn run_len(gs: Seq<int>, i: int) -> nat
    decreases gs.len() - i,
{
    if i < 0 || i >= gs.len() {
        0
    } else if gs[i] == 0 {
        1 + run_len(gs, i + 1)
    } else {
        0
    }
}

/// A run is made of zeros and stays in bounds.
pub proof fn lemma_run_len(gs: Seq<int>, i: int)
    requires
        0 <= i <= gs.len(),
    ensures
        i + run_len(gs, i) <= gs.len(),
        forall|k: int| i <= k < i + run_len(gs, i) ==> gs[k] == 0,
    decreases gs.len() - i,
{
    if i < gs.len() && gs[i] == 0 {
        lemma_run_len(gs, i + 1);
    }
}

/// The longest zero run at an index at least `i`; the leftmost wins a
/// tie. Returns its start and length, length zero when there is none.
pub open spec fn best_run_from(gs: Seq<int>, i: int) -> (int, nat)
    decreases gs.len() - i,
{
    if i < 0 || i >= gs.len() {
        (0, 0)
    } else {
        let l = run_len(gs, i);
        if i + l >= gs.len() {
            (i, l)
        } else {
            let rest = best_run_from(gs, i + l + 1);
            if l >= rest.1 {
                (i, l)
            } else {
                rest
            }
        }
    }
}

/// A non-trivial best run starts in bounds and is a zero run.
pub proof fn lemma_best_run(gs: Seq<int>, i: int)
    requires
        0 <= i,
    ensures
        best_run_from(gs, i).1 > 0 ==> i <= best_run_from(gs, i).0 && best_run_from(gs, i).0
            + best_run_from(gs, i).1 <= gs.len() && run_len(gs, best_run_from(gs, i).0)
            == best_run_from(gs, i).1,
    decreases gs.len() - i,
{
    if 0 <= i < gs.len() {
        let l = run_len(gs, i);
        lemma_run_len(gs, i);
        if i + l < gs.len() {
            lemma_best_run(gs, i + l + 1);
        }
    }
}

/// The canonical lowercase hex form of a group value: no leading zeros.
pub open spec fn canon_hex(g: int) -> Seq<u8> {
    if g < 16 {
        seq![hex_digit_of(g)]
    } else if g < 256 {
        seq![hex_digit_of(g / 16), hex_digit_of(g % 16)]
    } else if g < 4096 {
        seq![hex_digit_of(g / 16 / 16), hex_digit_of(g / 16 % 16), hex_digit_of(g % 16)]
    } else {
        seq![
            hex_digit_of(g / 16 / 16 / 16),
            hex_digit_of(g / 16 / 16 % 16),
            hex_digit_of(g / 16 % 16),
            hex_digit_of(g % 16),
        ]
    }
}

/// The canonical hex form is a valid group spelling its value, with no
/// colon byte in it.
pub proof fn lemma_canon_hex(g: int)
    requires
        0 <= g <= 65535,
    ensures
        is_valid_group(canon_hex(g)),
        hex_value(canon_hex(g)) == g,
        forall|i: int| 0 <= i < canon_hex(g).len() ==> is_hex_digit(#[trigger] canon_hex(g)[i])
            && #[trigger] canon_hex(g)[i] != 58,
{
    lemma_fundamental_div_mod(g, 16);
    let x1 = g / 16;
    let x2 = x1 / 16;
    let x3 = x2 / 16;
    lemma_fundamental_div_mod(x1, 16);
    lemma_fundamental_div_mod(x2, 16);
    lemma_fundamental_div_mod(x3, 16);
    assert(x3 < 16) by {
        lemma_div_denominator(g, 16, 16);
        lemma_div_denominator(g, 256, 16);
        lemma_div_denominator(g, 4096, 16);
    }
    let t = canon_hex(g);
    if g < 16 {
        assert(t.drop_last() =~= Seq::<u8>::empty());
        assert(hex_value(Seq::<u8>::empty()) == 0);
    } else if g < 256 {
        assert(t.drop_last() =~= seq![hex_digit_of(x1)]);
        assert(seq![hex_digit_of(x1)].drop_last() =~= Seq::<u8>::empty());
        assert(hex_value(Seq::<u8>::empty()) == 0);
        assert(hex_value(seq![hex_digit_of(x1)]) == x1);
    } else if g < 4096 {
        assert(t.drop_last() =~= seq![hex_digit_of(x2), hex_digit_of(x1 % 16)]);
        assert(seq![hex_digit_of(x2), hex_digit_of(x1 % 16)].drop_last() =~= seq![
            hex_digit_of(x2),
        ]);
        assert(seq![hex_digit_of(x2)].drop_last() =~= Seq::<u8>::empty());
        assert(hex_value(Seq::<u8>::empty()) == 0);
        assert(hex_value(seq![hex_digit_of(x2)]) == x2);
        assert(hex_value(seq![hex_digit_of(x2), hex_digit_of(x1 % 16)]) == x1);
    } else {
        assert(t.drop_last() =~= seq![hex_digit_of(x3), hex_digit_of(x2 % 16), hex_digit_of(
            x1 % 16,
        )]);
        assert(seq![hex_digit_of(x3), hex_digit_of(x2 % 16), hex_digit_of(x1 % 16)].drop_last()
            =~= seq![hex_digit_of(x3), hex_digit_of(x2 % 16)]);
        assert(seq![hex_digit_of(x3), hex_digit_of(x2 % 16)].drop_last() =~= seq![
            hex_digit_of(x3),
        ]);
        assert(seq![hex_digit_of(x3)].drop_last() =~= Seq::<u8>::empty());
        assert(hex_value(Seq::<u8>::empty()) == 0);
        assert(hex_value(seq![hex_digit_of(x3)]) == x3);
        assert(hex_value(seq![hex_digit_of(x3), hex_digit_of(x2 % 16)]) == x2);
        assert(hex_value(t.drop_last()) == x1);
    }
}

/// The canonical token list of eight group values: the longest leftmost
/// zero run of length at least two is compressed to empty tokens.
pub open spec fn canon_v6_tokens(gs: Seq<int>) -> Seq<Seq<u8>> {
    let br = best_run_from(gs, 0);
    let i = br.0;
    let l = br.1 as int;
    if l < 2 {
        gs.map_values(|g: int| canon_hex(g))
    } else if i == 0 && l == 8 {
        seq![Seq::<u8>::empty(), Seq::<u8>::empty(), Seq::<u8>::empty()]
    } else if i == 0 {
        seq![Seq::<u8>::empty(), Seq::<u8>::empty()] + gs.skip(l).map_values(
            |g: int| canon_hex(g),
        )
    } else if i + l == 8 {
        gs.take(i).map_values(|g: int| canon_hex(g)) + seq![Seq::<u8>::empty(), Seq::<u8>::empty()]
    } else {
        gs.take(i).map_values(|g: int| canon_hex(g)) + seq![Seq::<u8>::empty()] + gs.skip(
            i + l,
        ).map_values(|g: int| canon_hex(g))
    }
}

/// The canonical colon-hex text of an IPv6 address.
pub open spec fn canon_ipv6(v: int) -> Seq<u8> {
    join_bytes(canon_v6_tokens(v6_groups_of(v)), 58)
}

/// The record round-trip law for the IPv6 address part: parsing the
/// canonical colon-hex text of any address gives the address back.
pub proof fn lemma_ipv6_round_trip(v: int)
    requires
        0 <= v < 0x100000000000000000000000000000000,
    ensures
        spec_parse_ipv6(canon_ipv6(v)) == Some(v),
{
    lemma_v6_groups(v);
    let gs = v6_groups_of(v);
    let ts = canon_v6_tokens(gs);
    // Every token is free of colons, so splitting the join recovers
    // the tokens.
    assert forall|t: int, k: int|
        0 <= t < ts.len() && 0 <= k < ts[t].len() implies (#[trigger] ts[t][k]) != 58 by {
        lemma_canon_hex_token(gs, ts, t, k);
    }
    assert(ts.len() >= 1);
    lemma_split_join(ts, 58);
    lemma_v6_tokens_parse(gs);
    assert(groups_value(gs) == v);
}

/// The canonical token list of any eight in-range group values parses
/// back to exactly those values.
pub proof fn lemma_v6_tokens_parse(gs: Seq<int>)
    requires
        gs.len() == 8,
        forall|j: int| 0 <= j < 8 ==> 0 <= #[trigger] gs[j] <= 65535,
    ensures
        parse_v6_tokens(canon_v6_tokens(gs)) == Some(gs),
{
    let ts = canon_v6_tokens(gs);
    let br = best_run_from(gs, 0);
    let i = br.0;
    let l = br.1 as int;
    lemma_best_run(gs, 0);
    if l >= 2 {
        lemma_run_len(gs, i);
    }
    assert forall|k: int| 0 <= k < 8 implies #[trigger] is_valid_group(canon_hex(gs[k]))
        && hex_value(canon_hex(gs[k])) == gs[k] by {
        lemma_canon_hex(gs[k]);
    }
    if l < 2 {
        assert forall|k: int| 0 <= k < ts.len() implies (#[trigger] ts[k]).len() != 0 by {
            assert(ts[k] == canon_hex(gs[k]));
        }
        lemma_find_empty_absent(ts);
        assert(all_valid_groups(ts));
        assert(group_values(ts) =~= gs);
        assert(parse_v6_tokens(ts) == Some(group_values(ts)));
    } else if i == 0 && l == 8 {
        assert(find_empty(ts) == 0);
        assert(parse_v6_tokens(ts) == Some(zero_groups(8)));
        assert(zero_groups(8) =~= gs);
    } else if i == 0 {
        lemma_v6_tokens_parse_leading(gs);
    } else if i + l == 8 {
        lemma_v6_tokens_parse_trailing(gs);
    } else {
        lemma_v6_tokens_parse_middle(gs);
    }
}

/// The leading-compression case: the zero run starts at group zero.
proof fn lemma_v6_tokens_parse_leading(gs: Seq<int>)
    requires
        gs.len() == 8,
        forall|j: int| 0 <= j < 8 ==> 0 <= #[trigger] gs[j] <= 65535,
        best_run_from(gs, 0).0 == 0,
        2 <= best_run_from(gs, 0).1 <= 7,
    ensures
        parse_v6_tokens(canon_v6_tokens(gs)) == Some(gs),
{
    let ts = canon_v6_tokens(gs);
    let l = best_run_from(gs, 0).1 as int;
    lemma_best_run(gs, 0);
    lemma_run_len(gs, 0);
    assert forall|k: int| 0 <= k < 8 implies #[trigger] is_valid_group(canon_hex(gs[k]))
        && hex_value(canon_hex(gs[k])) == gs[k] by {
        lemma_canon_hex(gs[k]);
    }
    let back = gs.skip(l).map_values(|g: int| canon_hex(g));
    assert(ts == seq![Seq::<u8>::empty(), Seq::<u8>::empty()] + back);
    lemma_find_empty_unique(ts, 0);
    assert(ts.skip(2) =~= back);
    assert forall|k: int| 0 <= k < ts.skip(2).len() implies is_valid_group(
        #[trigger] ts.skip(2)[k],
    ) by {
        assert(ts.skip(2)[k] == canon_hex(gs[k + l]));
    }
    assert(ts.len() - 2 == 8 - l && 1 <= 8 - l <= 6);
    assert(parse_v6_tokens(ts) == Some(
        zero_groups(8 - (ts.len() - 2)) + group_values(ts.skip(2)),
    ));
    assert(zero_groups(l) + group_values(ts.skip(2)) =~= gs);
}

/// The trailing-compression case: the zero run ends at group eight.
proof fn lemma_v6_tokens_parse_trailing(gs: Seq<int>)
    requires
        gs.len() == 8,
        forall|j: int| 0 <= j < 8 ==> 0 <= #[trigger] gs[j] <= 65535,
        best_run_from(gs, 0).0 >= 1,
        best_run_from(gs, 0).1 >= 2,
        best_run_from(gs, 0).0 + best_run_from(gs, 0).1 == 8,
    ensures
        parse_v6_tokens(canon_v6_tokens(gs)) == Some(gs),
{
    let ts = canon_v6_tokens(gs);
    let i = best_run_from(gs, 0).0;
    let l = best_run_from(gs, 0).1 as int;
    lemma_best_run(gs, 0);
    lemma_run_len(gs, i);
    assert forall|k: int| 0 <= k < 8 implies #[trigger] is_valid_group(canon_hex(gs[k]))
        && hex_value(canon_hex(gs[k])) == gs[k] by {
        lemma_canon_hex(gs[k]);
    }
    let front = gs.take(i).map_values(|g: int| canon_hex(g));
    assert(ts == front + seq![Seq::<u8>::empty(), Seq::<u8>::empty()]);
    assert forall|k: int| 0 <= k < i implies (#[trigger] ts[k]).len() != 0 by {
        assert(ts[k] == canon_hex(gs[k]));
    }
    assert(ts[i as int].len() == 0);
    lemma_find_empty_unique(ts, i);
    assert(ts.len() == i + 2 && ts[ts.len() - 1].len() == 0);
    assert(ts.take(i) =~= front);
    assert forall|k: int| 0 <= k < ts.take(i).len() implies is_valid_group(
        #[trigger] ts.take(i)[k],
    ) by {
        assert(ts.take(i)[k] == canon_hex(gs[k]));
    }
    assert(parse_v6_tokens(ts) == Some(group_values(ts.take(i)) + zero_groups(8 - i)));
    assert(group_values(ts.take(i)) + zero_groups(8 - i) =~= gs);
}

/// The interior-compression case: groups stand on both sides of the run.
proof fn lemma_v6_tokens_parse_middle(gs: Seq<int>)
    requires
        gs.len() == 8,
        forall|j: int| 0 <= j < 8 ==> 0 <= #[trigger] gs[j] <= 65535,
        best_run_from(gs, 0).0 >= 1,
        best_run_from(gs, 0).1 >= 2,
        best_run_from(gs, 0).0 + best_run_from(gs, 0).1 <= 7,
    ensures
        parse_v6_tokens(canon_v6_tokens(gs)) == Some(gs),
{
    let ts = canon_v6_tokens(gs);
    let i = best_run_from(gs, 0).0;
    let l = best_run_from(gs, 0).1 as int;
    lemma_best_run(gs, 0);
    lemma_run_len(gs, i);
    assert forall|k: int| 0 <= k < 8 implies #[trigger] is_valid_group(canon_hex(gs[k]))
        && hex_value(canon_hex(gs[k])) == gs[k] by {
        lemma_canon_hex(gs[k]);
    }
    let front = gs.take(i).map_values(|g: int| canon_hex(g));
    let back = gs.skip(i + l).map_values(|g: int| canon_hex(g));
    assert(ts == front + seq![Seq::<u8>::empty()] + back);
    assert forall|k: int| 0 <= k < i implies (#[trigger] ts[k]).len() != 0 by {
        assert(ts[k] == canon_hex(gs[k]));
    }
    assert(ts[i as int].len() == 0);
    lemma_find_empty_unique(ts, i);
    assert(ts.len() == i + 1 + (8 - i - l));
    assert(ts[ts.len() - 1] == canon_hex(gs[7]));
    assert(ts[ts.len() - 1].len() != 0);
    assert(i < ts.len() - 1);
    assert(ts.take(i) =~= front);
    assert(ts.skip(i + 1) =~= back);
    assert forall|k: int| 0 <= k < ts.take(i).len() implies is_valid_group(
        #[trigger] ts.take(i)[k],
    ) by {
        assert(ts.take(i)[k] == canon_hex(gs[k]));
    }
    assert forall|k: int| 0 <= k < ts.skip(i + 1).len() implies is_valid_group(
        #[trigger] ts.skip(i + 1)[k],
    ) by {
        assert(ts.skip(i + 1)[k] == canon_hex(gs[k + i + l]));
    }
    assert(ts.len() - 1 == 8 - l <= 7);
    assert(parse_v6_tokens(ts) == Some(
        group_values(ts.take(i)) + zero_groups(8 - (ts.len() - 1)) + group_values(
            ts.skip(i + 1),
        ),
    ));
    assert(group_values(ts.take(i)) + zero_groups(l) + group_values(ts.skip(i + 1)) =~= gs);
}

/// Helper for the round-trip proof: every byte of every canonical token
/// is a hex digit, never a colon.
#[verifier::rlimit(60)]
#[verifier::spinoff_prover]
pub proof fn lemma_canon_hex_token(gs: Seq<int>, ts: Seq<Seq<u8>>, t: int, k: int)
    requires
        gs.len() == 8,
        forall|j: int| 0 <= j < 8 ==> 0 <= #[trigger] gs[j] <= 65535,
        ts == canon_v6_tokens(gs),
        0 <= t < ts.len(),
        0 <= k < ts[t].len(),
    ensures
        ts[t][k] != 58,
        is_hex_digit(ts[t][k]),
{
    let br = best_run_from(gs, 0);
    let i = br.0;
    let l = br.1 as int;
    lemma_best_run(gs, 0);
    assert forall|j: int| 0 <= j < 8 implies (forall|m: int|
        0 <= m < canon_hex(#[trigger] gs[j]).len() ==> #[trigger] canon_hex(gs[j])[m] != 58) by {
        lemma_canon_hex(gs[j]);
    }
    if l < 2 {
        assert(ts[t] == canon_hex(gs[t]));
    } else if i == 0 && l == 8 {
    } else if i == 0 {
        if t >= 2 {
            assert(ts[t] == canon_hex(gs[t - 2 + l]));
        }
    } else if i + l == 8 {
        if t < i {
            assert(ts[t] == canon_hex(gs[t]));
        }
    } else {
        if t < i {
            assert(ts[t] == canon_hex(gs[t]));
        } else if t > i {
            assert(ts[t] == canon_hex(gs[t - i - 1 + i + l]));
        }
    }
}

/// Parse one colon-hex group.
fn parse_hex_group(t: &[u8]) -> (r: Option<u16>)
    ensures
        match r {
            Some(v) => is_valid_group(t@) && hex_value(t@) == v,
            None => !is_valid_group(t@),
        },
{
    if t.len() == 0 || t.len() > 4 {
        return None;
    }
    let mut acc: u32 = 0;
    let mut i: usize = 0;
    while i < t.len()
        invariant
            0 <= i <= t@.len(),
            1 <= t@.len() <= 4,
            acc == hex_value(t@.take(i as int)),
            i == 0 ==> acc == 0,
            i == 1 ==> acc < 16,
            i == 2 ==> acc < 256,
            i == 3 ==> acc < 4096,
            i == 4 ==> acc < 65536,
            forall|j: int| 0 <= j < i ==> is_hex_digit(#[trigger] t@[j]),
        decreases t@.len() - i,
    {
        let b = t[i];
        let d: u32 = if 48 <= b && b <= 57 {
            (b - 48) as u32
        } else if 97 <= b && b <= 102 {
            (b - 87) as u32
        } else if 65 <= b && b <= 70 {
            (b - 55) as u32
        } else {
            return None;
        };
        proof {
            lemma_hex_value_take(t@, i as int);
        }
        acc = acc * 16 + d;
        i += 1;
    }
    proof {
        assert(t@.take(t@.len() as int) =~= t@);
    }
    Some(acc as u16)
}

/// The group values of a vector of sixteen-bit groups.
pub open spec fn groups_int(s: Seq<u16>) -> Seq<int> {
    s.map_values(|g: u16| g as int)
}

/// Combine eight groups into the address value.
fn groups_to_u128(gs: &Vec<u16>) -> (r: u128)
    requires
        gs@.len() == 8,
    ensures
        r as int == groups_value(groups_int(gs@)),
{
    let mut v: u128 = gs[0] as u128;
    v = v * 65536 + (gs[1] as u128);
    v = v * 65536 + (gs[2] as u128);
    v = v * 65536 + (gs[3] as u128);
    v = v * 65536 + (gs[4] as u128);
    v = v * 65536 + (gs[5] as u128);
    v = v * 65536 + (gs[6] as u128);
    v = v * 65536 + (gs[7] as u128);
    v
}

/// Parse a range of tokens as hex groups.
fn parse_group_range(ts: &Vec<Vec<u8>>, from: usize, to: usize) -> (r: Option<Vec<u16>>)
    requires
        from <= to <= ts@.len(),
    ensures
        match r {
            Some(gs) => gs@.len() == to - from && (forall|k: int|
                from <= k < to ==> is_valid_group(#[trigger] ts.deep_view()[k])) && (forall|k: int|
                0 <= k < gs@.len() ==> #[trigger] gs@[k] as int == hex_value(
                    ts.deep_view()[from + k],
                )),
            None => !(forall|k: int| from <= k < to ==> is_valid_group(#[trigger] ts.deep_view()[k])),
        },
{
    let mut gs: Vec<u16> = Vec::new();
    let mut k: usize = from;
    while k < to
        invariant
            from <= k <= to <= ts@.len(),
            gs@.len() == k - from,
            forall|j: int| from <= j < k ==> is_valid_group(#[trigger] ts.deep_view()[j]),
            forall|j: int|
                0 <= j < gs@.len() ==> #[trigger] gs@[j] as int == hex_value(
                    ts.deep_view()[from + j],
                ),
        decreases to - k,
    {
        proof {
            assert(ts.deep_view()[k as int] =~= ts@[k as int]@);
        }
        match parse_hex_group(ts[k].as_slice()) {
            Some(g) => {
                gs.push(g);
            },
            None => {
                return None;
            },
        }
        k += 1;
    }
    Some(gs)
}

/// Parse a run of tokens as groups: hexadecimal groups, with an
/// embedded dotted quad allowed as the last token, counting as two.
#[verifier::rlimit(60)]
fn parse_group_run(ts: &Vec<Vec<u8>>, from: usize, to: usize) -> (r: Option<Vec<u16>>)
    requires
        from <= to <= ts@.len(),
    ensures
        ({
            let sub = ts.deep_view().subrange(from as int, to as int);
            match r {
                Some(gs) => tokens_groups(sub) matches Some(sg) && groups_int(gs@) == sg
                    && gs@.len() <= (to - from) + 1,
                None => tokens_groups(sub) is None,
            }
        }),
{
    let ghost dv = ts.deep_view();
    let ghost sub = dv.subrange(from as int, to as int);
    proof {
        assert(forall|i: int| 0 <= i < sub.len() ==> #[trigger] sub[i] == dv[from + i]);
    }
    if from == to {
        proof {
            assert(sub =~= Seq::<Seq<u8>>::empty());
            assert(groups_int(Seq::<u16>::empty()) =~= Seq::<int>::empty());
        }
        return Some(Vec::new());
    }
    let front = match parse_group_range(ts, from, to - 1) {
        Some(f) => f,
        None => {
            proof {
                let k = choose|k: int|
                    from <= k < to - 1 && !is_valid_group(#[trigger] ts.deep_view()[k]);
                assert(!is_valid_group(sub[k - from]));
                assert(!is_valid_group(sub.drop_last()[k - from]));
            }
            return None;
        },
    };
    let mut gs = front;
    proof {
        assert(dv[to - 1] =~= ts@[to - 1 as int]@);
    }
    match parse_hex_group(ts[to - 1].as_slice()) {
        Some(g) => {
            gs.push(g);
            proof {
                assert(is_valid_group(sub.last()));
                assert forall|i: int| 0 <= i < sub.len() implies is_valid_group(
                    #[trigger] sub[i],
                ) by {
                    if i < sub.len() - 1 {
                        assert(is_valid_group(dv[from + i]));
                    }
                }
                assert forall|i: int| 0 <= i < sub.len() implies groups_int(gs@)[i]
                    == group_values(sub)[i] by {
                    if i < sub.len() - 1 {
                        assert(gs@[i] as int == hex_value(dv[from + i]));
                    } else {
                        assert(gs@[i] == g);
                    }
                }
                assert(groups_int(gs@) =~= group_values(sub));
            }
            Some(gs)
        },
        None => {
            match parse_ipv4(ts[to - 1].as_slice()) {
                Some(v) => {
                    gs.push((v / 65536) as u16);
                    gs.push((v % 65536) as u16);
                    proof {
                        assert(!is_valid_group(sub.last()));
                        assert(!all_valid_groups(sub));
                        assert forall|i: int| 0 <= i < sub.drop_last().len() implies
                            is_valid_group(#[trigger] sub.drop_last()[i]) by {
                            assert(sub.drop_last()[i] == dv[from + i]);
                            assert(is_valid_group(dv[from + i]));
                        }
                        assert(spec_parse_ipv4(sub.last()) == Some(v as int));
                        assert forall|i: int| 0 <= i < gs@.len() implies groups_int(gs@)[i] == (
                        group_values(sub.drop_last()) + quad_groups(sub.last()))[i] by {
                            if i < gs@.len() - 2 {
                                assert(gs@[i] as int == hex_value(dv[from + i]));
                                assert(sub.drop_last()[i] == dv[from + i]);
                            }
                        }
                        assert(groups_int(gs@) =~= group_values(sub.drop_last()) + quad_groups(
                            sub.last(),
                        ));
                    }
                    Some(gs)
                },
                None => {
                    proof {
                        assert(!is_valid_group(sub.last()));
                        assert(!all_valid_groups(sub));
                        assert(spec_parse_ipv4(sub.last()) is None);
                    }
                    None
                },
            }
        },
    }
}

/// Parse the full colon-hex form: eight groups, no compression.
fn parse_v6_full(ts: &Vec<Vec<u8>>) -> (r: Option<u128>)
    requires
        find_empty(ts.deep_view()) == -1,
    ensures
        match r {
            Some(v) => parse_v6_tokens(ts.deep_view()) matches Some(gs) && groups_value(gs) == v
                as int,
            None => parse_v6_tokens(ts.deep_view()) is None,
        },
{
    let ghost dv = ts.deep_view();
    let n = ts.len();
    proof {
        assert(dv.subrange(0, n as int) =~= dv);
    }
    match parse_group_run(ts, 0, n) {
        Some(gs) => {
            if gs.len() != 8 {
                return None;
            }
            Some(groups_to_u128(&gs))
        },
        None => None,
    }
}

/// Parse the leading-compression form: the text begins with `::` and
/// is not `::` alone.
fn parse_v6_leading(ts: &Vec<Vec<u8>>) -> (r: Option<u128>)
    requires
        find_empty(ts.deep_view()) == 0,
        ts.deep_view().len() >= 1,
        !(ts.deep_view().len() == 3 && ts.deep_view()[0].len() == 0 && ts.deep_view()[1].len() == 0
            && ts.deep_view()[2].len() == 0),
    ensures
        match r {
            Some(v) => parse_v6_tokens(ts.deep_view()) matches Some(gs) && groups_value(gs) == v
                as int,
            None => parse_v6_tokens(ts.deep_view()) is None,
        },
{
    let ghost dv = ts.deep_view();
    proof {
        lemma_find_empty(dv);
        assert forall|k: int| 0 <= k < dv.len() implies dv[k] == ts@[k]@ by {
            assert(dv[k] =~= ts@[k]@);
        }
    }
    let n = ts.len();
    if !(n >= 3 && ts[1].len() == 0) {
        return None;
    }
    proof {
        assert(dv.subrange(2, n as int) =~= dv.skip(2));
    }
    match parse_group_run(ts, 2, n) {
        Some(back) => {
            let bn = back.len();
            if bn < 1 || bn > 7 {
                return None;
            }
            let mut gs: Vec<u16> = Vec::new();
            let zn = 8 - bn;
            let mut z: usize = 0;
            while z < zn
                invariant
                    0 <= z <= zn,
                    gs@.len() == z,
                    forall|j: int| 0 <= j < z ==> #[trigger] gs@[j] == 0u16,
                decreases zn - z,
            {
                gs.push(0);
                z += 1;
            }
            let mut k: usize = 0;
            while k < bn
                invariant
                    0 <= k <= bn,
                    bn == back@.len(),
                    zn == 8 - bn,
                    gs@.len() == zn + k,
                    forall|j: int| 0 <= j < zn ==> #[trigger] gs@[j] == 0u16,
                    forall|j: int| 0 <= j < k ==> #[trigger] gs@[zn + j] == back@[j],
                decreases bn - k,
            {
                gs.push(back[k]);
                k += 1;
            }
            proof {
                let sgs = tokens_groups(dv.skip(2))->Some_0;
                let rhs = zero_groups(8 - sgs.len()) + sgs;
                assert forall|j: int| 0 <= j < 8 implies groups_int(gs@)[j] == rhs[j] by {
                    if j >= zn {
                        assert(gs@[zn as int + (j - zn)] == back@[j - zn]);
                        assert(groups_int(back@)[j - zn] == back@[j - zn] as int);
                    }
                }
                assert(groups_int(gs@) =~= rhs);
            }
            Some(groups_to_u128(&gs))
        },
        None => None,
    }
}

/// Parse the trailing-compression form: the text ends with `::`.
fn parse_v6_trailing(ts: &Vec<Vec<u8>>, p: usize) -> (r: Option<u128>)
    requires
        find_empty(ts.deep_view()) == p,
        1 <= p,
        p == ts.deep_view().len() - 2,
        ts.deep_view()[ts.deep_view().len() - 1].len() == 0,
    ensures
        match r {
            Some(v) => parse_v6_tokens(ts.deep_view()) matches Some(gs) && groups_value(gs) == v
                as int,
            None => parse_v6_tokens(ts.deep_view()) is None,
        },
{
    let ghost dv = ts.deep_view();
    proof {
        lemma_find_empty(dv);
        assert forall|k: int| 0 <= k < dv.len() implies dv[k] == ts@[k]@ by {
            assert(dv[k] =~= ts@[k]@);
        }
    }
    if p > 7 {
        return None;
    }
    match parse_group_range(ts, 0, p) {
        Some(front) => {
            let mut gs: Vec<u16> = Vec::new();
            let fln = front.len();
            let mut k: usize = 0;
            while k < fln
                invariant
                    0 <= k <= fln,
                    fln == front@.len(),
                    gs@.len() == k,
                    forall|j: int| 0 <= j < k ==> #[trigger] gs@[j] == front@[j],
                decreases fln - k,
            {
                gs.push(front[k]);
                k += 1;
            }
            let zn = 8 - fln;
            let mut z: usize = 0;
            while z < zn
                invariant
                    0 <= z <= zn,
                    zn == 8 - fln,
                    fln == front@.len(),
                    gs@.len() == fln + z,
                    forall|j: int| 0 <= j < fln ==> #[trigger] gs@[j] == front@[j],
                    forall|j: int| 0 <= j < z ==> #[trigger] gs@[fln + j] == 0u16,
                decreases zn - z,
            {
                gs.push(0);
                z += 1;
            }
            proof {
                let rhs = group_values(dv.take(p as int)) + zero_groups(8 - p);
                assert forall|j: int| 0 <= j < 8 implies groups_int(gs@)[j] == rhs[j] by {
                    if j < p {
                        assert(gs@[j] == front@[j]);
                        assert(front@[j] as int == hex_value(dv[j]));
                        assert(dv.take(p as int)[j] == dv[j]);
                        assert(rhs[j] == hex_value(dv[j]));
                    } else {
                        assert(gs@[fln as int + (j - fln)] == 0u16);
                        assert(gs@[j] == 0u16);
                    }
                }
                assert(groups_int(gs@) =~= rhs);
            }
            Some(groups_to_u128(&gs))
        },
        None => {
            proof {
                if all_valid_groups(dv.take(p as int)) {
                    assert forall|k: int| 0 <= k < p implies is_valid_group(#[trigger] dv[k]) by {
                        assert(dv.take(p as int)[k] == dv[k]);
                        assert(is_valid_group(dv.take(p as int)[k]));
                    }
                }
            }
            None
        },
    }
}

/// Parse the interior-compression form: groups on both sides of `::`.
fn parse_v6_middle(ts: &Vec<Vec<u8>>, p: usize) -> (r: Option<u128>)
    requires
        find_empty(ts.deep_view()) == p,
        1 <= p,
        p < ts.deep_view().len() - 1,
        !(p == ts.deep_view().len() - 2 && ts.deep_view()[ts.deep_view().len() - 1].len() == 0),
    ensures
        match r {
            Some(v) => parse_v6_tokens(ts.deep_view()) matches Some(gs) && groups_value(gs) == v
                as int,
            None => parse_v6_tokens(ts.deep_view()) is None,
        },
{
    let ghost dv = ts.deep_view();
    proof {
        lemma_find_empty(dv);
        assert forall|k: int| 0 <= k < dv.len() implies dv[k] == ts@[k]@ by {
            assert(dv[k] =~= ts@[k]@);
        }
    }
    let n = ts.len();
    proof {
        assert(dv.subrange(p as int + 1, n as int) =~= dv.skip(p as int + 1));
    }
    let back = match parse_group_run(ts, p + 1, n) {
        Some(b) => b,
        None => {
            return None;
        },
    };
    let front = match parse_group_range(ts, 0, p) {
        Some(f) => f,
        None => {
            proof {
                if all_valid_groups(dv.take(p as int)) {
                    assert forall|k: int| 0 <= k < p implies is_valid_group(#[trigger] dv[k]) by {
                        assert(dv.take(p as int)[k] == dv[k]);
                        assert(is_valid_group(dv.take(p as int)[k]));
                    }
                }
            }
            return None;
        },
    };
    let fln = front.len();
    let bn = back.len();
    if fln + bn > 7 {
        return None;
    }
    let zn = 8 - fln - bn;
    let mut gs: Vec<u16> = Vec::new();
    let mut k: usize = 0;
    while k < fln
        invariant
            0 <= k <= fln,
            fln == front@.len(),
            gs@.len() == k,
            forall|j: int| 0 <= j < k ==> #[trigger] gs@[j] == front@[j],
        decreases fln - k,
    {
        gs.push(front[k]);
        k += 1;
    }
    let mut z: usize = 0;
    while z < zn
        invariant
            0 <= z <= zn,
            fln == front@.len(),
            gs@.len() == fln + z,
            forall|j: int| 0 <= j < fln ==> #[trigger] gs@[j] == front@[j],
            forall|j: int| 0 <= j < z ==> #[trigger] gs@[fln + j] == 0u16,
        decreases zn - z,
    {
        gs.push(0);
        z += 1;
    }
    let mut k2: usize = 0;
    while k2 < bn
        invariant
            0 <= k2 <= bn,
            fln == front@.len(),
            bn == back@.len(),
            gs@.len() == fln + zn + k2,
            forall|j: int| 0 <= j < fln ==> #[trigger] gs@[j] == front@[j],
            forall|j: int| 0 <= j < zn ==> #[trigger] gs@[fln + j] == 0u16,
            forall|j: int| 0 <= j < k2 ==> #[trigger] gs@[fln + zn + j] == back@[j],
        decreases bn - k2,
    {
        gs.push(back[k2]);
        k2 += 1;
    }
    proof {
        let sback = tokens_groups(dv.skip(p as int + 1))->Some_0;
        let rhs = group_values(dv.take(p as int)) + zero_groups(8 - p - sback.len()) + sback;
        assert forall|j: int| 0 <= j < 8 implies groups_int(gs@)[j] == rhs[j] by {
            if j < fln {
                assert(gs@[j] == front@[j]);
                assert(front@[j] as int == hex_value(dv[j]));
                assert(dv.take(p as int)[j] == dv[j]);
                assert(rhs[j] == hex_value(dv[j]));
            } else if j < fln + zn {
                assert(gs@[fln as int + (j - fln)] == 0u16);
                assert(gs@[j] == 0u16);
            } else {
                let j2 = j - fln - zn;
                assert(gs@[fln as int + zn as int + j2] == back@[j2]);
                assert(gs@[j] == back@[j2]);
                assert(groups_int(back@)[j2] == back@[j2] as int);
            }
        }
        assert(groups_int(gs@) =~= rhs);
    }
    Some(groups_to_u128(&gs))
}

/// Parse a colon-hex IPv6 address.
pub fn parse_ipv6(s: &[u8]) -> (r: Option<u128>)
    ensures
        match r {
            Some(v) => spec_parse_ipv6(s@) == Some(v as int),
            None => spec_parse_ipv6(s@) is None,
        },
{
    let ts = split_bytes_exec(s, 58);
    let ghost sts = split_bytes(s@, 58);
    proof {
        assert(sts =~~= ts.deep_view());
    }
    let n = ts.len();
    // Find the first empty token, which marks the compression.
    let mut p: usize = 0;
    while p < n && ts[p].len() != 0
        invariant
            0 <= p <= n,
            n == sts.len(),
            ts@.len() == n,
            sts == ts.deep_view(),
            forall|j: int| 0 <= j < p ==> (#[trigger] sts[j]).len() != 0,
        decreases n - p,
    {
        proof {
            assert(sts[p as int] == ts.deep_view()[p as int]);
        }
        p += 1;
    }
    proof {
        if p == n {
            lemma_find_empty_absent(sts);
        } else {
            assert(sts[p as int] == ts.deep_view()[p as int]);
            lemma_find_empty_unique(sts, p as int);
        }
    }
    if p == n {
        parse_v6_full(&ts)
    } else if p == 0 {
        if n == 3 && ts[1].len() == 0 && ts[2].len() == 0 {
            // The unspecified address, spelled with two colons alone.
            proof {
                assert(groups_value(zero_groups(8)) == 0);
            }
            Some(0)
        } else {
            parse_v6_leading(&ts)
        }
    } else if p == n - 2 && ts[n - 1].len() == 0 {
        parse_v6_trailing(&ts, p)
    } else if p < n - 1 {
        parse_v6_middle(&ts, p)
    } else {
        proof {
            assert(parse_v6_tokens(sts) is None);
        }
        None
    }
}

/// Format a group value in canonical lowercase hex.
fn format_hex_group(g: u16) -> (r: Vec<u8>)
    ensures
        r@ == canon_hex(g as int),
{
    let mut out: Vec<u8> = Vec::new();
    if g < 16 {
        out.push(hex_digit_byte(g));
    } else if g < 256 {
        out.push(hex_digit_byte(g / 16));
        out.push(hex_digit_byte(g % 16));
    } else if g < 4096 {
        out.push(hex_digit_byte(g / 16 / 16));
        out.push(hex_digit_byte(g / 16 % 16));
        out.push(hex_digit_byte(g % 16));
    } else {
        out.push(hex_digit_byte(g / 16 / 16 / 16));
        out.push(hex_digit_byte(g / 16 / 16 % 16));
        out.push(hex_digit_byte(g / 16 % 16));
        out.push(hex_digit_byte(g % 16));
    }
    proof {
        assert(out@ =~= canon_hex(g as int));
    }
    out
}

/// The lowercase digit byte for a value below sixteen.
fn hex_digit_byte(v: u16) -> (r: u8)
    requires
        v < 16,
    ensures
        r == hex_digit_of(v as int),
{
    if v < 10 {
        (48 + v) as u8
    } else {
        (87 + v) as u8
    }
}

/// The executable zero-run length, mirroring `run_len`.
fn run_len_exec(gs: &Vec<u16>, i: usize) -> (r: usize)
    requires
        i <= gs@.len(),
    ensures
        r == run_len(groups_int(gs@), i as int),
        i + r <= gs@.len(),
    decreases gs@.len() - i,
{
    if i < gs.len() && gs[i] == 0 {
        let rest = run_len_exec(gs, i + 1);
        1 + rest
    } else {
        0
    }
}

/// The executable longest-leftmost zero run, mirroring `best_run_from`.
fn best_run_exec(gs: &Vec<u16>, i: usize) -> (r: (usize, usize))
    requires
        i <= gs@.len(),
    ensures
        r.0 == best_run_from(groups_int(gs@), i as int).0,
        r.1 == best_run_from(groups_int(gs@), i as int).1,
        r.1 > 0 ==> r.0 + r.1 <= gs@.len(),
    decreases gs@.len() - i,
{
    if i >= gs.len() {
        (0, 0)
    } else {
        let l = run_len_exec(gs, i);
        if i + l >= gs.len() {
            (i, l)
        } else {
            let rest = best_run_exec(gs, i + l + 1);
            if l >= rest.1 {
                (i, l)
            } else {
                rest
            }
        }
    }
}

/// Joining a longer prefix of tokens appends a separator and the next
/// token.
pub proof fn lemma_join_take(ts: Seq<Seq<u8>>, sep: u8, i: int)
    requires
        1 <= i < ts.len(),
    ensures
        join_bytes(ts.take(i + 1), sep) == join_bytes(ts.take(i), sep) + seq![sep] + ts[i],
    decreases i,
{
    let d = ts.drop_first();
    if i == 1 {
        assert(ts.take(2) =~= seq![ts[0], ts[1]]);
        assert(ts.take(1) =~= seq![ts[0]]);
        assert(ts.take(2).drop_first() =~= seq![ts[1]]);
        assert(join_bytes(seq![ts[1]], sep) == ts[1]);
        assert(join_bytes(ts.take(2), sep) == ts[0] + seq![sep] + ts[1]);
        assert(join_bytes(ts.take(1), sep) == ts[0]);
    } else {
        lemma_join_take(d, sep, i - 1);
        assert(ts.take(i + 1).drop_first() =~= d.take(i));
        assert(ts.take(i).drop_first() =~= d.take(i - 1));
        assert(ts.take(i + 1).len() >= 2 && ts.take(i).len() >= 2);
        assert(join_bytes(ts.take(i + 1), sep) == ts[0] + seq![sep] + join_bytes(d.take(i), sep));
        assert(join_bytes(ts.take(i), sep) == ts[0] + seq![sep] + join_bytes(d.take(i - 1), sep));
        assert(d.take(i)[i - 1] == ts[i]);
        assert(join_bytes(d.take(i), sep) == join_bytes(d.take(i - 1), sep) + seq![sep] + ts[i]);
        assert(ts[0] + seq![sep] + (join_bytes(d.take(i - 1), sep) + seq![sep] + ts[i]) =~= (ts[0]
            + seq![sep] + join_bytes(d.take(i - 1), sep)) + seq![sep] + ts[i]);
    }
}

/// The executable join with a separator byte.
pub fn join_bytes_exec(ts: &Vec<Vec<u8>>, sep: u8) -> (r: Vec<u8>)
    requires
        ts@.len() >= 1,
    ensures
        r@ == join_bytes(ts.deep_view(), sep),
{
    let ghost dv = ts.deep_view();
    proof {
        assert forall|k: int| 0 <= k < dv.len() implies dv[k] == ts@[k]@ by {
            assert(dv[k] =~= ts@[k]@);
        }
    }
    let mut out: Vec<u8> = Vec::new();
    push_all(&mut out, ts[0].as_slice());
    proof {
        assert(dv.take(1) =~= seq![dv[0]]);
        assert(join_bytes(dv.take(1), sep) == dv[0]);
        assert(out@ == join_bytes(dv.take(1), sep));
    }
    let mut i: usize = 1;
    while i < ts.len()
        invariant
            1 <= i <= ts@.len(),
            dv == ts.deep_view(),
            dv.len() == ts@.len(),
            forall|k: int| 0 <= k < dv.len() ==> dv[k] == ts@[k]@,
            out@ == join_bytes(dv.take(i as int), sep),
        decreases ts@.len() - i,
    {
        out.push(sep);
        push_all(&mut out, ts[i].as_slice());
        proof {
            lemma_join_take(dv, sep, i as int);
        }
        i += 1;
    }
    proof {
        assert(dv.take(dv.len() as int) =~= dv);
    }
    out
}

/// Format an IPv6 address as its canonical colon-hex text.
pub fn format_ipv6(v: u128) -> (r: Vec<u8>)
    ensures
        r@ == canon_ipv6(v as int),
        spec_parse_ipv6(r@) == Some(v as int),
{
    let q1 = v / 65536;
    let q2 = q1 / 65536;
    let q3 = q2 / 65536;
    let q4 = q3 / 65536;
    let q5 = q4 / 65536;
    let q6 = q5 / 65536;
    let q7 = q6 / 65536;
    let mut gs: Vec<u16> = Vec::new();
    gs.push((q7 % 65536) as u16);
    gs.push((q6 % 65536) as u16);
    gs.push((q5 % 65536) as u16);
    gs.push((q4 % 65536) as u16);
    gs.push((q3 % 65536) as u16);
    gs.push((q2 % 65536) as u16);
    gs.push((q1 % 65536) as u16);
    gs.push((v % 65536) as u16);
    let ghost gsi = v6_groups_of(v as int);
    proof {
        lemma_v6_groups(v as int);
        assert(groups_int(gs@) =~= gsi);
    }
    let br = best_run_exec(&gs, 0);
    let i = br.0;
    let l = br.1;
    let mut tokens: Vec<Vec<u8>> = Vec::new();
    if l < 2 {
        let mut k: usize = 0;
        while k < 8
            invariant
                0 <= k <= 8,
                gs@.len() == 8,
                groups_int(gs@) == gsi,
                tokens@.len() == k,
                forall|j: int| 0 <= j < k ==> (#[trigger] tokens@[j])@ == canon_hex(gsi[j]),
            decreases 8 - k,
        {
            tokens.push(format_hex_group(gs[k]));
            k += 1;
        }
    } else if i == 0 && l == 8 {
        tokens.push(Vec::new());
        tokens.push(Vec::new());
        tokens.push(Vec::new());
    } else if i == 0 {
        tokens.push(Vec::new());
        tokens.push(Vec::new());
        let mut k: usize = l;
        while k < 8
            invariant
                l <= k <= 8,
                2 <= l,
                gs@.len() == 8,
                groups_int(gs@) == gsi,
                tokens@.len() == 2 + k - l,
                tokens@[0]@ == Seq::<u8>::empty(),
                tokens@[1]@ == Seq::<u8>::empty(),
                forall|j: int| 2 <= j < tokens@.len() ==> (#[trigger] tokens@[j])@ == canon_hex(
                    gsi[j - 2 + l],
                ),
            decreases 8 - k,
        {
            tokens.push(format_hex_group(gs[k]));
            k += 1;
        }
    } else if i + l == 8 {
        let mut k: usize = 0;
        while k < i
            invariant
                0 <= k <= i,
                i + l == 8,
                gs@.len() == 8,
                groups_int(gs@) == gsi,
                tokens@.len() == k,
                forall|j: int| 0 <= j < k ==> (#[trigger] tokens@[j])@ == canon_hex(gsi[j]),
            decreases i - k,
        {
            tokens.push(format_hex_group(gs[k]));
            k += 1;
        }
        tokens.push(Vec::new());
        tokens.push(Vec::new());
    } else {
        let mut k: usize = 0;
        while k < i
            invariant
                0 <= k <= i,
                i + l <= 8,
                gs@.len() == 8,
                groups_int(gs@) == gsi,
                tokens@.len() == k,
                forall|j: int| 0 <= j < k ==> (#[trigger] tokens@[j])@ == canon_hex(gsi[j]),
            decreases i - k,
        {
            tokens.push(format_hex_group(gs[k]));
            k += 1;
        }
        tokens.push(Vec::new());
        let mut k2: usize = i + l;
        while k2 < 8
            invariant
                i + l <= k2 <= 8,
                1 <= i,
                2 <= l,
                i + l <= 8,
                gs@.len() == 8,
                groups_int(gs@) == gsi,
                tokens@.len() == i + 1 + k2 - (i + l),
                forall|j: int| 0 <= j < i ==> (#[trigger] tokens@[j])@ == canon_hex(gsi[j]),
                tokens@[i as int]@ == Seq::<u8>::empty(),
                forall|j: int| i < j < tokens@.len() ==> (#[trigger] tokens@[j])@ == canon_hex(
                    gsi[j - i - 1 + i + l],
                ),
            decreases 8 - k2,
        {
            tokens.push(format_hex_group(gs[k2]));
            k2 += 1;
        }
    }
    proof {
        assert(tokens.deep_view() =~~= canon_v6_tokens(gsi));
    }
    let out = join_bytes_exec(&tokens, 58);
    proof {
        lemma_ipv6_round_trip(v as int);
    }
    out
}

/// An IP address as a plain integer of its family.
#[derive(Debug, Clone, Copy, PartialEq, Eq, Hash, Structural)]
pub enum IpAddress {
    V4(u32),
    V6(u128),
}

/// Canonicalization maps IPv4-compatible (first ninety-six bits zero)
/// and IPv4-mapped (`::ffff:0:0/96`) IPv6 addresses to their IPv4 form.
pub open spec fn spec_canonical_ip(a: IpAddress) -> IpAddress {
    match a {
        IpAddress::V4(x) => IpAddress::V4(x),
        IpAddress::V6(x) => if x < 0x100000000 || x / 0x100000000 == 0xffff {
            IpAddress::V4((x % 0x100000000) as u32)
        } else {
            IpAddress::V6(x)
        },
    }
}

/// Canonicalization of an address before a GeoIP lookup, since the two
/// address families are indexed separately.
pub trait CanonicalIpAddr: Sized {
    /// What the canonical form is.
    spec fn spec_canonical(self) -> Self;

    /// Compute the canonical form.
    fn to_canonical_ip(&self) -> (r: Self)
        ensures
            r == self.spec_canonical(),
    ;
}

impl CanonicalIpAddr for IpAddress {
    open spec fn spec_canonical(self) -> IpAddress {
        spec_canonical_ip(self)
    }

    fn to_canonical_ip(&self) -> (r: IpAddress)
        ensures
            r == self.spec_canonical(),
    {
        match self {
            IpAddress::V4(x) => IpAddress::V4(*x),
            IpAddress::V6(x) => {
                if *x < 0x100000000 || *x / 0x100000000 == 0xffff {
                    IpAddress::V4((*x % 0x100000000) as u32)
                } else {
                    IpAddress::V6(*x)
                }
            },
        }
    }
}

/// The address grammar: a dotted quad, or else colon-hex text.
pub open spec fn spec_parse_ip(s: Seq<u8>) -> Option<IpAddress> {
    match spec_parse_ipv4(s) {
        Some(v) => Some(IpAddress::V4(v as u32)),
        None => match spec_parse_ipv6(s) {
            Some(v) => Some(IpAddress::V6(v as u128)),
            None => None,
        },
    }
}

/// Parse an IP address of either family.
pub fn parse_ip(s: &[u8]) -> (r: Option<IpAddress>)
    ensures
        r == spec_parse_ip(s@),
{
    match parse_ipv4(s) {
        Some(v) => Some(IpAddress::V4(v)),
        None => match parse_ipv6(s) {
            Some(v) => Some(IpAddress::V6(v)),
            None => None,
        },
    }
}

/// Format an address of either family canonically.
pub fn format_ip(a: IpAddress) -> (r: Vec<u8>)
    ensures
        match a {
            IpAddress::V4(x) => r@ == canon_ipv4(x as int),
            IpAddress::V6(x) => r@ == canon_ipv6(x as int),
        },
        spec_parse_ip(r@) == Some(a),
{
    match a {
        IpAddress::V4(x) => {
            let r = format_ipv4(x);
            r
        },
        IpAddress::V6(x) => {
            let r = format_ipv6(x);
            proof {
                // Colon-hex text never parses as a dotted quad: its first
                // token would hold a colon or a hex letter, or the text
                // would lack dots entirely.
                lemma_v6_text_not_v4(x as int);
            }
            r
        },
    }
}

/// Canonical colon-hex text is never a valid dotted quad: it always
/// holds a colon, and a valid dotted quad is made of digits and dots
/// alone.
proof fn lemma_v6_text_not_v4(v: int)
    requires
        0 <= v < 0x100000000000000000000000000000000,
    ensures
        spec_parse_ipv4(canon_ipv6(v)) is None,
{
    let s = canon_ipv6(v);
    lemma_v6_groups(v);
    let gs = v6_groups_of(v);
    let ts6 = canon_v6_tokens(gs);
    let br = best_run_from(gs, 0);
    lemma_best_run(gs, 0);
    assert(ts6.len() >= 2);
    assert(s == ts6[0] + seq![58u8] + join_bytes(ts6.drop_first(), 58));
    let ci = ts6[0].len() as int;
    assert(s[ci] == 58);
    if spec_parse_ipv4(s) is Some {
        lemma_no_colon_in_v4_text(s);
        assert(false);
    }
}

/// A valid dotted quad holds no colon: each of its bytes is a dot or a
/// decimal digit.
proof fn lemma_no_colon_in_v4_text(s: Seq<u8>)
    requires
        spec_parse_ipv4(s) is Some,
    ensures
        forall|i: int| 0 <= i < s.len() ==> s[i] != 58,
{
    let ts = split_bytes(s, 46);
    lemma_split_parts(s, 46);
    assert forall|i: int| 0 <= i < s.len() implies s[i] != 58 by {
        if s[i] != 46 {
            let (t, k) = choose|t: int, k: int|
                0 <= t < split_bytes(s, 46).len() && 0 <= k < split_bytes(s, 46)[t].len() && s[i]
                    == #[trigger] split_bytes(s, 46)[t][k];
            assert(is_valid_octet(ts[t]));
            assert(is_digit(ts[t][k]));
        }
    }
}

/// Every byte of the split input is either the separator or a byte of
/// some token.
proof fn lemma_split_parts(s: Seq<u8>, sep: u8)
    ensures
        forall|i: int|
            0 <= i < s.len() ==> (#[trigger] s[i]) == sep || exists|t: int, k: int|
                0 <= t < split_bytes(s, sep).len() && 0 <= k < split_bytes(s, sep)[t].len() && s[i]
                    == #[trigger] split_bytes(s, sep)[t][k],
    decreases s.len(),
{
    let p = find_byte(s, sep);
    crate::bytes::lemma_find_byte(s, sep);
    if p == -1 {
        assert forall|i: int| 0 <= i < s.len() implies (#[trigger] s[i]) == sep || exists|
            t: int,
            k: int,
        |
            0 <= t < split_bytes(s, sep).len() && 0 <= k < split_bytes(s, sep)[t].len() && s[i] == 
        #[trigger] split_bytes(s, sep)[t][k] by {
            assert(split_bytes(s, sep)[0][i] == s[i]);
        }
    } else {
        lemma_split_parts(s.skip(p + 1), sep);
        let rest = split_bytes(s.skip(p + 1), sep);
        assert forall|i: int| 0 <= i < s.len() implies (#[trigger] s[i]) == sep || exists|
            t: int,
            k: int,
        |
            0 <= t < split_bytes(s, sep).len() && 0 <= k < split_bytes(s, sep)[t].len() && s[i] == 
        #[trigger] split_bytes(s, sep)[t][k] by {
            if i < p {
                assert(split_bytes(s, sep)[0][i] == s[i]);
            } else if i == p {
            } else {
                let i2 = i - p - 1;
                assert(s.skip(p + 1)[i2] == s[i]);
                if s.skip(p + 1)[i2] != sep {
                    let (t, k) = choose|t: int, k: int|
                        0 <= t < rest.len() && 0 <= k < rest[t].len() && s.skip(p + 1)[i2] == 
                        #[trigger] rest[t][k];
                    assert(split_bytes(s, sep)[t + 1][k] == rest[t][k]);
                }
            }
        }
    }
}

/// Every byte of a canonical dotted quad is a digit or a dot.
pub proof fn lemma_canon_ipv4_bytes(v: int)
    requires
        0 <= v < 0x100000000,
    ensures
        forall|i: int|
            0 <= i < canon_ipv4(v).len() ==> is_digit(#[trigger] canon_ipv4(v)[i]) || canon_ipv4(
                v,
            )[i] == 46,
{
    lemma_v4_octets(v);
    let os = v4_octets_of(v);
    let ts = seq![canon_dec(os[0]), canon_dec(os[1]), canon_dec(os[2]), canon_dec(os[3])];
    lemma_canon_dec(os[0]);
    lemma_canon_dec(os[1]);
    lemma_canon_dec(os[2]);
    lemma_canon_dec(os[3]);
    crate::bytes::lemma_join_parts(ts, 46);
    assert forall|i: int|
        0 <= i < canon_ipv4(v).len() implies is_digit(#[trigger] canon_ipv4(v)[i]) || canon_ipv4(
        v,
    )[i] == 46 by {
        if canon_ipv4(v)[i] != 46 {
            let (t, k) = choose|t: int, k: int|
                0 <= t < ts.len() && 0 <= k < ts[t].len() && join_bytes(ts, 46)[i] == (
                #[trigger] ts[t][k]);
            assert(is_digit(ts[t][k]));
        }
    }
}

/// Every byte of canonical colon-hex text is a hex digit or a colon.
pub proof fn lemma_canon_ipv6_bytes(v: int)
    requires
        0 <= v < 0x100000000000000000000000000000000,
    ensures
        forall|i: int|
            0 <= i < canon_ipv6(v).len() ==> is_hex_digit(#[trigger] canon_ipv6(v)[i])
                || canon_ipv6(v)[i] == 58,
{
    lemma_v6_groups(v);
    let gs = v6_groups_of(v);
    let ts = canon_v6_tokens(gs);
    crate::bytes::lemma_join_parts(ts, 58);
    assert forall|i: int|
        0 <= i < canon_ipv6(v).len() implies is_hex_digit(#[trigger] canon_ipv6(v)[i])
        || canon_ipv6(v)[i] == 58 by {
        if canon_ipv6(v)[i] != 58 {
            let (t, k) = choose|t: int, k: int|
                0 <= t < ts.len() && 0 <= k < ts[t].len() && join_bytes(ts, 58)[i] == (
                #[trigger] ts[t][k]);
            lemma_canon_hex_token(gs, ts, t, k);
        }
    }
}

} // verus!
