//! Byte-sequence text tools: separator splitting and joining with their
//! round-trip law, and positional decimal and hexadecimal digit values.
//!
//! All record and address grammars in this crate are ASCII, so parsing
//! and formatting work on byte sequences; `Seq<u8>` is their model.

use vstd::prelude::*;

verus! {

/// ASCII decimal digit.
pub open spec fn is_digit(b: u8) -> bool {
    48 <= b <= 57
}

pub open spec fn digit_val(b: u8) -> int {
    b - 48
}

/// ASCII hexadecimal digit, either case.
pub open spec fn is_hex_digit(b: u8) -> bool {
    is_digit(b) || 97 <= b <= 102 || 65 <= b <= 70
}

pub open spec fn hex_digit_val(b: u8) -> int {
    if is_digit(b) {
        b - 48
    } else if 97 <= b <= 102 {
        b - 87
    } else {
        b - 55
    }
}

/// The lowercase digit byte for a value below sixteen.
pub open spec fn hex_digit_of(v: int) -> u8 {
    if v < 10 {
        (48 + v) as u8
    } else {
        (87 + v) as u8
    }
}

/// A non-empty run of decimal digits.
pub open spec fn is_dec_digits(s: Seq<u8>) -> bool {
    s.len() >= 1 && forall|i: int| 0 <= i < s.len() ==> is_digit(#[trigger] s[i])
}

/// A non-empty run of hexadecimal digits.
pub open spec fn is_hex_digits(s: Seq<u8>) -> bool {
    s.len() >= 1 && forall|i: int| 0 <= i < s.len() ==> is_hex_digit(#[trigger] s[i])
}

/// The value of a decimal digit run, most significant digit first.
pub open spec fn dec_value(s: Seq<u8>) -> int
    decreases s.len(),
{
    if s.len() == 0 {
        0
    } else {
        dec_value(s.drop_last()) * 10 + digit_val(s.last())
    }
}

/// The value of a hexadecimal digit run, most significant digit first.
pub open spec fn hex_value(s: Seq<u8>) -> int
    decreases s.len(),
{
    if s.len() == 0 {
        0
    } else {
        hex_value(s.drop_last()) * 16 + hex_digit_val(s.last())
    }
}

/// Digit values are nonnegative, so longer runs never shrink the value.
pub proof fn lemma_dec_value_nonneg(s: Seq<u8>)
    requires
        forall|i: int| 0 <= i < s.len() ==> is_digit(#[trigger] s[i]),
    ensures
        dec_value(s) >= 0,
    decreases s.len(),
{
    if s.len() > 0 {
        assert(forall|i: int|
            0 <= i < s.drop_last().len() ==> is_digit(#[trigger] s.drop_last()[i]));
        lemma_dec_value_nonneg(s.drop_last());
    }
}

pub proof fn lemma_hex_value_nonneg(s: Seq<u8>)
    requires
        forall|i: int| 0 <= i < s.len() ==> is_hex_digit(#[trigger] s[i]),
    ensures
        hex_value(s) >= 0,
    decreases s.len(),
{
    if s.len() > 0 {
        assert(forall|i: int|
            0 <= i < s.drop_last().len() ==> is_hex_digit(#[trigger] s.drop_last()[i]));
        lemma_hex_value_nonneg(s.drop_last());
    }
}

/// Extending a digit run by one digit multiplies the value by the base.
/// This is the `take` form used by parsing loops.
pub proof fn lemma_dec_value_take(s: Seq<u8>, i: int)
    requires
        0 <= i < s.len(),
    ensures
        dec_value(s.take(i + 1)) == dec_value(s.take(i)) * 10 + digit_val(s[i]),
{
    assert(s.take(i + 1).drop_last() =~= s.take(i));
    assert(s.take(i + 1).last() == s[i]);
}

pub proof fn lemma_hex_value_take(s: Seq<u8>, i: int)
    requires
        0 <= i < s.len(),
    ensures
        hex_value(s.take(i + 1)) == hex_value(s.take(i)) * 16 + hex_digit_val(s[i]),
{
    assert(s.take(i + 1).drop_last() =~= s.take(i));
    assert(s.take(i + 1).last() == s[i]);
}

/// A longer prefix of a digit run has at least the value of a shorter one.
pub proof fn lemma_dec_value_monotone(s: Seq<u8>, i: int, j: int)
    requires
        forall|k: int| 0 <= k < s.len() ==> is_digit(#[trigger] s[k]),
        0 <= i <= j <= s.len(),
    ensures
        dec_value(s.take(i)) <= dec_value(s.take(j)),
    decreases j - i,
{
    if i < j {
        lemma_dec_value_monotone(s, i, j - 1);
        lemma_dec_value_take(s, j - 1);
        assert(forall|k: int|
            0 <= k < s.take(j - 1).len() ==> is_digit(#[trigger] s.take(j - 1)[k]));
        lemma_dec_value_nonneg(s.take(j - 1));
    }
}

pub proof fn lemma_hex_value_monotone(s: Seq<u8>, i: int, j: int)
    requires
        forall|k: int| 0 <= k < s.len() ==> is_hex_digit(#[trigger] s[k]),
        0 <= i <= j <= s.len(),
    ensures
        hex_value(s.take(i)) <= hex_value(s.take(j)),
    decreases j - i,
{
    if i < j {
        lemma_hex_value_monotone(s, i, j - 1);
        lemma_hex_value_take(s, j - 1);
        assert(forall|k: int|
            0 <= k < s.take(j - 1).len() ==> is_hex_digit(#[trigger] s.take(j - 1)[k]));
        lemma_hex_value_nonneg(s.take(j - 1));
    }
}

/// The index of the first occurrence of `sep`, or minus one.
pub open spec fn find_byte(s: Seq<u8>, sep: u8) -> int
    decreases s.len(),
{
    if s.len() == 0 {
        -1
    } else if s[0] == sep {
        0
    } else if find_byte(s.drop_first(), sep) == -1 {
        -1
    } else {
        find_byte(s.drop_first(), sep) + 1
    }
}

/// What `find_byte` means: minus one iff the byte is absent, otherwise
/// the least index holding it.
pub proof fn lemma_find_byte(s: Seq<u8>, sep: u8)
    ensures
        find_byte(s, sep) == -1 ==> forall|i: int| 0 <= i < s.len() ==> s[i] != sep,
        find_byte(s, sep) != -1 ==> 0 <= find_byte(s, sep) < s.len() && s[find_byte(s, sep)] == sep
            && forall|i: int| 0 <= i < find_byte(s, sep) ==> s[i] != sep,
    decreases s.len(),
{
    if s.len() == 0 {
    } else if s[0] == sep {
    } else {
        lemma_find_byte(s.drop_first(), sep);
        let r = find_byte(s.drop_first(), sep);
        if r == -1 {
            assert forall|i: int| 0 <= i < s.len() implies s[i] != sep by {
                if i >= 1 {
                    assert(s.drop_first()[i - 1] == s[i]);
                }
            }
        } else {
            assert(s[r + 1] == s.drop_first()[r]);
            assert forall|i: int| 0 <= i < r + 1 implies s[i] != sep by {
                if i >= 1 {
                    assert(s.drop_first()[i - 1] == s[i]);
                }
            }
        }
    }
}

/// Any index with the `find_byte` properties is `find_byte`.
pub proof fn lemma_find_byte_unique(s: Seq<u8>, sep: u8, p: int)
    requires
        0 <= p < s.len(),
        s[p] == sep,
        forall|i: int| 0 <= i < p ==> s[i] != sep,
    ensures
        find_byte(s, sep) == p,
    decreases s.len(),
{
    if p == 0 {
    } else {
        assert(s.drop_first()[p - 1] == s[p]);
        assert forall|i: int| 0 <= i < p - 1 implies s.drop_first()[i] != sep by {
            assert(s.drop_first()[i] == s[i + 1]);
        }
        lemma_find_byte_unique(s.drop_first(), sep, p - 1);
    }
}

/// `find_byte` of a sequence without the byte is minus one.
pub proof fn lemma_find_byte_absent(s: Seq<u8>, sep: u8)
    requires
        forall|i: int| 0 <= i < s.len() ==> s[i] != sep,
    ensures
        find_byte(s, sep) == -1,
{
    lemma_find_byte(s, sep);
    if find_byte(s, sep) != -1 {
        assert(s[find_byte(s, sep)] == sep);
    }
}

/// Split on a separator byte. Splitting an empty sequence gives one
/// empty token, matching how text splitting treats separators as token
/// boundaries.
pub open spec fn split_bytes(s: Seq<u8>, sep: u8) -> Seq<Seq<u8>>
    decreases s.len(),
{
    let p = find_byte(s, sep);
    if p == -1 {
        seq![s]
    } else if 0 <= p < s.len() {
        seq![s.take(p)] + split_bytes(s.skip(p + 1), sep)
    } else {
        seq![s]
    }
}

/// Join tokens with a separator byte.
pub open spec fn join_bytes(ts: Seq<Seq<u8>>, sep: u8) -> Seq<u8>
    decreases ts.len(),
{
    if ts.len() == 0 {
        Seq::empty()
    } else if ts.len() == 1 {
        ts[0]
    } else {
        ts[0] + seq![sep] + join_bytes(ts.drop_first(), sep)
    }
}

/// Finding the separator in `front + [sep] + rest` hits the end of a
/// separator-free `front`.
pub proof fn lemma_find_byte_concat(front: Seq<u8>, rest: Seq<u8>, sep: u8)
    requires
        forall|i: int| 0 <= i < front.len() ==> front[i] != sep,
    ensures
        find_byte(front + seq![sep] + rest, sep) == front.len(),
{
    let s = front + seq![sep] + rest;
    assert(s[front.len() as int] == sep);
    assert forall|i: int| 0 <= i < front.len() implies s[i] != sep by {
        assert(s[i] == front[i]);
    }
    lemma_find_byte_unique(s, sep, front.len() as int);
}

/// The split/join round trip: joining separator-free tokens and
/// splitting again recovers exactly the tokens.
pub proof fn lemma_split_join(ts: Seq<Seq<u8>>, sep: u8)
    requires
        ts.len() >= 1,
        forall|t: int, i: int|
            0 <= t < ts.len() && 0 <= i < ts[t].len() ==> (#[trigger] ts[t][i]) != sep,
    ensures
        split_bytes(join_bytes(ts, sep), sep) == ts,
    decreases ts.len(),
{
    if ts.len() == 1 {
        lemma_find_byte_absent(ts[0], sep);
        assert(join_bytes(ts, sep) == ts[0]);
        assert(split_bytes(ts[0], sep) =~= ts);
    } else {
        let rest = join_bytes(ts.drop_first(), sep);
        let s = ts[0] + seq![sep] + rest;
        assert(join_bytes(ts, sep) == s);
        lemma_find_byte_concat(ts[0], rest, sep);
        assert(s.take(ts[0].len() as int) =~= ts[0]);
        assert(s.skip(ts[0].len() as int + 1) =~= rest);
        assert forall|t: int, i: int|
            0 <= t < ts.drop_first().len() && 0 <= i < ts.drop_first()[t].len() implies (
        #[trigger] ts.drop_first()[t][i]) != sep by {
            assert(ts.drop_first()[t] == ts[t + 1]);
        }
        lemma_split_join(ts.drop_first(), sep);
        assert(split_bytes(s, sep) =~= seq![ts[0]] + ts.drop_first());
        assert(seq![ts[0]] + ts.drop_first() =~= ts);
    }
}

/// Splitting never yields an empty token list, and a token never holds
/// the separator.
pub proof fn lemma_split_tokens(s: Seq<u8>, sep: u8)
    ensures
        split_bytes(s, sep).len() >= 1,
        forall|t: int, i: int|
            0 <= t < split_bytes(s, sep).len() && 0 <= i < split_bytes(s, sep)[t].len() ==> (
            #[trigger] split_bytes(s, sep)[t][i]) != sep,
    decreases s.len(),
{
    let p = find_byte(s, sep);
    lemma_find_byte(s, sep);
    if p == -1 {
    } else {
        lemma_split_tokens(s.skip(p + 1), sep);
        let ts = split_bytes(s, sep);
        let rest = split_bytes(s.skip(p + 1), sep);
        assert forall|t: int, i: int|
            0 <= t < ts.len() && 0 <= i < ts[t].len() implies (#[trigger] ts[t][i]) != sep by {
            if t == 0 {
                assert(ts[0][i] == s[i]);
            } else {
                assert(ts[t] == rest[t - 1]);
            }
        }
    }
}

/// The executable split on a separator byte.
pub fn split_bytes_exec(s: &[u8], sep: u8) -> (r: Vec<Vec<u8>>)
    ensures
        r.deep_view() == split_bytes(s@, sep),
{
    let mut out: Vec<Vec<u8>> = Vec::new();
    let mut token: Vec<u8> = Vec::new();
    let ghost whole = s@;
    let mut start: usize = 0;
    let mut i: usize = 0;
    proof {
        assert(whole.skip(0) =~= whole);
        assert(out.deep_view() =~~= Seq::<Seq<u8>>::empty());
        assert(split_bytes(whole, sep) =~= out.deep_view() + split_bytes(whole.skip(0), sep));
    }
    while i < s.len()
        invariant
            0 <= start <= i <= s.len(),
            whole == s@,
            token@ == whole.subrange(start as int, i as int),
            forall|j: int| start <= j < i ==> whole[j] != sep,
            split_bytes(whole, sep) == out.deep_view() + split_bytes(
                whole.skip(start as int),
                sep,
            ),
        decreases s.len() - i,
    {
        let b = s[i];
        if b == sep {
            proof {
                let tail = whole.skip(start as int);
                assert(tail =~= token@ + seq![sep] + whole.skip(i as int + 1));
                lemma_find_byte_concat(token@, whole.skip(i as int + 1), sep);
                assert(find_byte(tail, sep) == token@.len());
                assert(tail.take(token@.len() as int) =~= token@);
                assert(tail.skip(token@.len() as int + 1) =~= whole.skip(i as int + 1));
                assert(split_bytes(tail, sep) =~= seq![token@] + split_bytes(
                    whole.skip(i as int + 1),
                    sep,
                ));
            }
            let ghost tok = token@;
            let ghost old_dv = out.deep_view();
            out.push(token);
            token = Vec::new();
            start = i + 1;
            proof {
                assert(out.deep_view() =~~= old_dv.push(tok));
                assert(old_dv.push(tok) + split_bytes(whole.skip(start as int), sep) =~= old_dv + (
                seq![tok] + split_bytes(whole.skip(start as int), sep)));
                assert(split_bytes(whole, sep) == out.deep_view() + split_bytes(
                    whole.skip(start as int),
                    sep,
                ));
            }
        } else {
            token.push(b);
            proof {
                assert(token@ =~= whole.subrange(start as int, i as int + 1));
            }
        }
        i += 1;
    }
    proof {
        let tail = whole.skip(start as int);
        assert(tail =~= token@);
        assert forall|k: int| 0 <= k < tail.len() implies tail[k] != sep by {
            assert(tail[k] == whole[start + k]);
        }
        lemma_find_byte_absent(tail, sep);
        assert(split_bytes(tail, sep) =~= seq![token@]);
    }
    let ghost tok = token@;
    let ghost old_dv = out.deep_view();
    out.push(token);
    proof {
        assert(out.deep_view() =~~= old_dv.push(tok));
        assert(old_dv.push(tok) =~= old_dv + seq![tok]);
        assert(out.deep_view() =~~= split_bytes(whole, sep));
    }
    out
}

/// Every byte of a join is the separator or a byte of some token.
pub proof fn lemma_join_parts(ts: Seq<Seq<u8>>, sep: u8)
    ensures
        forall|i: int|
            0 <= i < join_bytes(ts, sep).len() ==> (#[trigger] join_bytes(ts, sep)[i]) == sep
                || exists|t: int, k: int|
                0 <= t < ts.len() && 0 <= k < ts[t].len() && join_bytes(ts, sep)[i] == (
                #[trigger] ts[t][k]),
    decreases ts.len(),
{
    if ts.len() <= 1 {
        assert forall|i: int|
            0 <= i < join_bytes(ts, sep).len() implies (#[trigger] join_bytes(ts, sep)[i]) == sep
            || exists|t: int, k: int|
            0 <= t < ts.len() && 0 <= k < ts[t].len() && join_bytes(ts, sep)[i] == (
            #[trigger] ts[t][k]) by {
            if ts.len() == 1 {
                assert(join_bytes(ts, sep)[i] == ts[0][i]);
            }
        }
    } else {
        lemma_join_parts(ts.drop_first(), sep);
        let d = ts.drop_first();
        let rest = join_bytes(d, sep);
        let s = join_bytes(ts, sep);
        assert(s == ts[0] + seq![sep] + rest);
        assert forall|i: int|
            0 <= i < s.len() implies (#[trigger] s[i]) == sep || exists|t: int, k: int|
            0 <= t < ts.len() && 0 <= k < ts[t].len() && s[i] == (#[trigger] ts[t][k]) by {
            if i < ts[0].len() {
                assert(s[i] == ts[0][i]);
            } else if i == ts[0].len() {
            } else {
                let i2 = i - ts[0].len() - 1;
                assert(s[i] == rest[i2]);
                if rest[i2] != sep {
                    let (t, k) = choose|t: int, k: int|
                        0 <= t < d.len() && 0 <= k < d[t].len() && rest[i2] == (#[trigger] d[t][k]);
                    assert(s[i] == ts[t + 1][k]);
                }
            }
        }
    }
}

/// Relies on `String::from_utf8`: bytes below 128 are ASCII, so they
/// decode to exactly one character each, and the decode succeeds.
#[verifier::external_body]
pub fn string_from_ascii(bytes: Vec<u8>) -> (r: String)
    requires
        forall|i: int| 0 <= i < bytes@.len() ==> bytes@[i] < 128,
    ensures
        r@.len() == bytes@.len(),
        forall|i: int| 0 <= i < bytes@.len() ==> r@[i] == bytes@[i] as char,
{
    String::from_utf8(bytes).unwrap_or_default()
}

/// Copy a byte range out of a slice.
pub fn subrange_vec(s: &[u8], from: usize, to: usize) -> (r: Vec<u8>)
    requires
        from <= to <= s@.len(),
    ensures
        r@ == s@.subrange(from as int, to as int),
{
    let mut out: Vec<u8> = Vec::new();
    let mut i: usize = from;
    while i < to
        invariant
            from <= i <= to <= s@.len(),
            out@ == s@.subrange(from as int, i as int),
        decreases to - i,
    {
        out.push(s[i]);
        proof {
            assert(s@.subrange(from as int, i as int + 1) =~= s@.subrange(from as int, i as int)
                + seq![s@[i as int]]);
        }
        i += 1;
    }
    out
}

} // verus!
