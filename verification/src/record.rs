//! Ripe-geo text records: one `SUBNET/PREFIX` line per record.
//!
//! A record is parsed into `(base, size)` where `size` is the power of
//! two `2^(BITS - prefix)`. A prefix of zero would give a size the
//! address width cannot represent, so it is rejected as too large, as
//! is any prefix above the width.

use crate::bytes::{
    dec_value, find_byte, is_dec_digits, is_digit, is_hex_digit, join_bytes,
    lemma_find_byte_absent, lemma_find_byte_concat, lemma_find_byte_unique, split_bytes,
    string_from_ascii,
};
use crate::ip::{
    canon_dec, canon_ipv4, canon_ipv6, format_ipv4, format_ipv6, is_valid_group, is_valid_octet,
    lemma_canon_dec, lemma_ipv4_round_trip, lemma_ipv6_round_trip, parse_dec_bounded, parse_ipv4,
    parse_ipv6, push_all, spec_parse_ipv4, spec_parse_ipv6,
};
use vstd::prelude::*;
use vstd::string::StringSliceAdditionalSpecFns;

verus! {

/// The bytes of ASCII text, one per character.
pub open spec fn chars_to_bytes(s: Seq<char>) -> Seq<u8> {
    Seq::new(s.len(), |i: int| s[i] as u8)
}

/// Why a record line failed to parse.
#[derive(Debug, Clone, Copy, PartialEq, Eq, Structural)]
pub enum RipeGeoRecordError {
    /// The line is not of the form `SUBNET/SUFFIX`.
    Parts,
    /// The subnet is not an address literal of the record's family.
    Subnet,
    /// The suffix is not an unsigned decimal number in range.
    SuffixFormat,
    /// The suffix exceeds the address width, or is zero, whose interval
    /// size the address width cannot represent.
    SuffixTooLarge(u32),
}

/// Two to the power `n`.
pub open spec fn pow2(n: nat) -> int
    decreases n,
{
    if n == 0 {
        1
    } else {
        2 * pow2((n - 1) as nat)
    }
}

pub proof fn lemma_pow2_pos(n: nat)
    ensures
        pow2(n) >= 1,
    decreases n,
{
    if n > 0 {
        lemma_pow2_pos((n - 1) as nat);
    }
}

pub proof fn lemma_pow2_mono(a: nat, b: nat)
    requires
        a <= b,
    ensures
        pow2(a) <= pow2(b),
    decreases b,
{
    if a < b {
        lemma_pow2_mono(a, (b - 1) as nat);
        lemma_pow2_pos((b - 1) as nat);
    }
}

pub proof fn lemma_pow2_32()
    ensures
        pow2(32) == 0x100000000,
{
    assert(pow2(0) == 1);
    assert(pow2(1) == 2);
    assert(pow2(2) == 4);
    assert(pow2(3) == 8);
    assert(pow2(4) == 16);
    lemma_pow2_product(4, 4);
    assert(pow2(8) == 256);
    lemma_pow2_product(8, 8);
    assert(pow2(16) == 65536);
    lemma_pow2_product(16, 16);
}

pub proof fn lemma_pow2_128()
    ensures
        pow2(128) == 0x100000000000000000000000000000000,
{
    lemma_pow2_32();
    assert(pow2(64) == pow2(32) * pow2(32)) by {
        lemma_pow2_product(32, 32);
    }
    assert(pow2(64) == 0x10000000000000000);
    assert(pow2(128) == pow2(64) * pow2(64)) by {
        lemma_pow2_product(64, 64);
    }
    assert(pow2(128) == 0x10000000000000000 * 0x10000000000000000) by (nonlinear_arith)
        requires
            pow2(128) == pow2(64) * pow2(64),
            pow2(64) == 0x10000000000000000,
    ;
}

/// Powers of two multiply by adding exponents.
pub proof fn lemma_pow2_product(a: nat, b: nat)
    ensures
        pow2(a + b) == pow2(a) * pow2(b),
    decreases b,
{
    if b == 0 {
    } else {
        lemma_pow2_product(a, (b - 1) as nat);
        assert(pow2(a + b) == 2 * pow2((a + b - 1) as nat));
        assert((a + b - 1) as nat == a + ((b - 1) as nat));
        assert(pow2(a) * pow2(b) == pow2(a) * (2 * pow2((b - 1) as nat)));
        assert(2 * (pow2(a) * pow2((b - 1) as nat)) == pow2(a) * (2 * pow2((b - 1) as nat)))
            by (nonlinear_arith);
    }
}


/// Powers of two grow strictly, so they are injective in the exponent.
pub proof fn lemma_pow2_strict_mono(a: nat, b: nat)
    requires
        a < b,
    ensures
        pow2(a) < pow2(b),
    decreases b,
{
    if a + 1 == b {
        lemma_pow2_pos(a);
    } else {
        lemma_pow2_strict_mono(a, (b - 1) as nat);
        lemma_pow2_pos((b - 1) as nat);
    }
}

/// Whether `s` is the suffix an IPv4 interval size came from.
pub open spec fn is_suffix_for_v4(s: int, size: int) -> bool {
    1 <= s <= 32 && size == pow2((32 - s) as nat)
}

/// Whether `s` is the suffix an IPv6 interval size came from.
pub open spec fn is_suffix_for_v6(s: int, size: int) -> bool {
    1 <= s <= 128 && size == pow2((128 - s) as nat)
}

/// The prefix a stored IPv4 interval size came from: the unique suffix
/// in range whose power of two the size is.
pub open spec fn suffix_of_v4(size: int) -> int {
    choose|s: int| is_suffix_for_v4(s, size)
}

/// The IPv6 twin of [`suffix_of_v4`].
pub open spec fn suffix_of_v6(size: int) -> int {
    choose|s: int| is_suffix_for_v6(s, size)
}

/// A power-of-two size determines its suffix.
pub proof fn lemma_suffix_of_v4(k: nat)
    requires
        k <= 31,
    ensures
        suffix_of_v4(pow2(k)) == 32 - k,
{
    let size = pow2(k);
    assert(is_suffix_for_v4(32 - k, size));
    let s = suffix_of_v4(size);
    assert(is_suffix_for_v4(s, size));
    if (32 - s) as nat != k {
        if ((32 - s) as nat) < k {
            lemma_pow2_strict_mono((32 - s) as nat, k);
        } else {
            lemma_pow2_strict_mono(k, (32 - s) as nat);
        }
    }
}

/// The IPv6 twin of [`lemma_suffix_of_v4`].
pub proof fn lemma_suffix_of_v6(k: nat)
    requires
        k <= 127,
    ensures
        suffix_of_v6(pow2(k)) == 128 - k,
{
    let size = pow2(k);
    assert(is_suffix_for_v6(128 - k, size));
    let s = suffix_of_v6(size);
    assert(is_suffix_for_v6(s, size));
    if (128 - s) as nat != k {
        if ((128 - s) as nat) < k {
            lemma_pow2_strict_mono((128 - s) as nat, k);
        } else {
            lemma_pow2_strict_mono(k, (128 - s) as nat);
        }
    }
}

/// What parsing one record line of the IPv4 family yields: the subnet
/// base and the interval size, or the reason it is rejected.
pub open spec fn spec_parse_record_v4(s: Seq<u8>) -> Result<(int, int), RipeGeoRecordError> {
    let p = find_byte(s, 47);
    if p == -1 {
        Err(RipeGeoRecordError::Parts)
    } else {
        let left = s.take(p);
        let right = s.skip(p + 1);
        match spec_parse_ipv4(left) {
            None => Err(RipeGeoRecordError::Subnet),
            Some(addr) => if !(is_dec_digits(right) && dec_value(right) <= 0xFFFFFFFF) {
                Err(RipeGeoRecordError::SuffixFormat)
            } else if dec_value(right) == 0 || dec_value(right) > 32 {
                Err(RipeGeoRecordError::SuffixTooLarge(dec_value(right) as u32))
            } else {
                Ok((addr, pow2((32 - dec_value(right)) as nat)))
            },
        }
    }
}

/// The IPv6 twin of [`spec_parse_record_v4`].
pub open spec fn spec_parse_record_v6(s: Seq<u8>) -> Result<(int, int), RipeGeoRecordError> {
    let p = find_byte(s, 47);
    if p == -1 {
        Err(RipeGeoRecordError::Parts)
    } else {
        let left = s.take(p);
        let right = s.skip(p + 1);
        match spec_parse_ipv6(left) {
            None => Err(RipeGeoRecordError::Subnet),
            Some(addr) => if !(is_dec_digits(right) && dec_value(right) <= 0xFFFFFFFF) {
                Err(RipeGeoRecordError::SuffixFormat)
            } else if dec_value(right) == 0 || dec_value(right) > 128 {
                Err(RipeGeoRecordError::SuffixTooLarge(dec_value(right) as u32))
            } else {
                Ok((addr, pow2((128 - dec_value(right)) as nat)))
            },
        }
    }
}

/// The canonical text of an IPv4 record.
pub open spec fn canon_record_v4(addr: int, suffix: int) -> Seq<u8> {
    canon_ipv4(addr) + seq![47u8] + canon_dec(suffix)
}

/// The canonical text of an IPv6 record.
pub open spec fn canon_record_v6(addr: int, suffix: int) -> Seq<u8> {
    canon_ipv6(addr) + seq![47u8] + canon_dec(suffix)
}

/// Record round trip for the IPv4 family: parsing the canonical text
/// of any record gives the record back.
pub proof fn lemma_record_round_trip_v4(addr: int, suffix: int)
    requires
        0 <= addr < 0x100000000,
        1 <= suffix <= 32,
    ensures
        spec_parse_record_v4(canon_record_v4(addr, suffix)) == Ok::<(int, int), RipeGeoRecordError>(
            (addr, pow2((32 - suffix) as nat)),
        ),
{
    let a = canon_ipv4(addr);
    let d = canon_dec(suffix);
    let s = canon_record_v4(addr, suffix);
    crate::ip::lemma_canon_ipv4_bytes(addr);
    assert forall|i: int| 0 <= i < a.len() implies a[i] != 47 by {
        assert(is_digit(a[i]) || a[i] == 46);
    }
    lemma_find_byte_concat(a, d, 47);
    assert(find_byte(s, 47) == a.len());
    assert(s.take(a.len() as int) =~= a);
    assert(s.skip(a.len() as int + 1) =~= d);
    lemma_ipv4_round_trip(addr);
    lemma_canon_dec(suffix);
}

/// Record round trip for the IPv6 family.
pub proof fn lemma_record_round_trip_v6(addr: int, suffix: int)
    requires
        0 <= addr < 0x100000000000000000000000000000000,
        1 <= suffix <= 128,
    ensures
        spec_parse_record_v6(canon_record_v6(addr, suffix)) == Ok::<(int, int), RipeGeoRecordError>(
            (addr, pow2((128 - suffix) as nat)),
        ),
{
    let a = canon_ipv6(addr);
    let d = canon_dec(suffix);
    let s = canon_record_v6(addr, suffix);
    crate::ip::lemma_canon_ipv6_bytes(addr);
    assert forall|i: int| 0 <= i < a.len() implies a[i] != 47 by {
        assert(is_hex_digit(a[i]) || a[i] == 58);
    }
    lemma_find_byte_concat(a, d, 47);
    assert(find_byte(s, 47) == a.len());
    assert(s.take(a.len() as int) =~= a);
    assert(s.skip(a.len() as int + 1) =~= d);
    lemma_ipv6_round_trip(addr);
    lemma_canon_dec(suffix);
}

/// Compute two to the power `k` as a thirty-two-bit value.
fn pow2_u32(k: u32) -> (r: u32)
    requires
        k <= 31,
    ensures
        r as int == pow2(k as nat),
{
    let mut r: u32 = 1;
    let mut j: u32 = 0;
    while j < k
        invariant
            0 <= j <= k <= 31,
            r as int == pow2(j as nat),
        decreases k - j,
    {
        proof {
            lemma_pow2_32();
            assert(pow2(32) == 2 * pow2(31));
            assert(pow2(31) == 2 * pow2(30));
            lemma_pow2_mono(j as nat, 30);
        }
        r = r * 2;
        j += 1;
    }
    r
}

/// Compute two to the power `k` as a 128-bit value.
fn pow2_u128(k: u32) -> (r: u128)
    requires
        k <= 127,
    ensures
        r as int == pow2(k as nat),
{
    let mut r: u128 = 1;
    let mut j: u32 = 0;
    while j < k
        invariant
            0 <= j <= k <= 127,
            r as int == pow2(j as nat),
        decreases k - j,
    {
        proof {
            lemma_pow2_128();
            assert(pow2(128) == 2 * pow2(127));
            assert(pow2(127) == 2 * pow2(126));
            lemma_pow2_mono(j as nat, 126);
        }
        r = r * 2;
        j += 1;
    }
    r
}

/// The exponent of a power of two below two to the `bound`.
fn log2_u128(size: u128, Ghost(bound): Ghost<nat>) -> (r: u32)
    requires
        bound <= 127,
        exists|k: nat| k <= bound && size as int == pow2(k),
    ensures
        r <= bound,
        size as int == pow2(r as nat),
{
    let ghost k0 = choose|k: nat| k <= bound && size as int == pow2(k);
    proof {
        assert(size as int == pow2(k0));
        lemma_pow2_pos(k0);
        assert(k0 + 0 == k0 && size as int == pow2(k0));
    }
    let mut t = size;
    let mut r: u32 = 0;
    while t > 1
        invariant
            exists|m: nat| m + r == k0 && t as int == pow2(m),
            r <= k0,
            k0 <= bound <= 127,
            t >= 1,
        decreases t,
    {
        proof {
            let m = choose|m: nat| m + r == k0 && t as int == pow2(m);
            assert(m >= 1) by {
                if m == 0 {
                    assert(pow2(0int as nat) == 1);
                }
            }
            assert(pow2(m) == 2 * pow2((m - 1) as nat));
            lemma_pow2_pos((m - 1) as nat);
            assert((t / 2) as int == pow2((m - 1) as nat));
        }
        t = t / 2;
        r += 1;
    }
    proof {
        let m = choose|m: nat| m + r == k0 && t as int == pow2(m);
        if m >= 1 {
            assert(pow2(m) == 2 * pow2((m - 1) as nat));
            lemma_pow2_pos((m - 1) as nat);
            assert(t >= 2);
        }
    }
    r
}

/// An IPv4 record: a subnet base and a power-of-two interval size.
#[derive(Debug, Clone, Copy, PartialEq, Eq, Structural)]
pub struct RecordV4 {
    pub subnet: u32,
    pub size: u32,
}

/// An IPv6 record: a subnet base and a power-of-two interval size.
#[derive(Debug, Clone, Copy, PartialEq, Eq, Structural)]
pub struct RecordV6 {
    pub subnet: u128,
    pub size: u128,
}

impl RecordV4 {
    /// The record invariant: the size is a representable power of two,
    /// so it came from a prefix between one and the address width.
    pub open spec fn wf(self) -> bool {
        exists|k: nat| k <= 31 && self.size as int == pow2(k)
    }

    /// Parse one record line.
    pub fn parse_bytes(s: &[u8]) -> (r: Result<RecordV4, RipeGeoRecordError>)
        ensures
            match r {
                Ok(rec) => spec_parse_record_v4(s@) == Ok::<(int, int), RipeGeoRecordError>(
                    (rec.subnet as int, rec.size as int),
                ) && rec.wf(),
                Err(e) => spec_parse_record_v4(s@) == Err::<(int, int), RipeGeoRecordError>(e),
            },
    {
        let n = s.len();
        let mut p: usize = 0;
        while p < n && s[p] != 47
            invariant
                0 <= p <= n,
                n == s@.len(),
                forall|j: int| 0 <= j < p ==> s@[j] != 47,
            decreases n - p,
        {
            p += 1;
        }
        if p == n {
            proof {
                lemma_find_byte_absent(s@, 47);
            }
            return Err(RipeGeoRecordError::Parts);
        }
        proof {
            lemma_find_byte_unique(s@, 47, p as int);
        }
        let left = crate::bytes::subrange_vec(s, 0, p);
        let right = crate::bytes::subrange_vec(s, p + 1, n);
        let addr = match parse_ipv4(left.as_slice()) {
            Some(a) => a,
            None => {
                return Err(RipeGeoRecordError::Subnet);
            },
        };
        let suffix = match parse_dec_bounded(right.as_slice(), 0xFFFFFFFF) {
            Some(x) => x,
            None => {
                return Err(RipeGeoRecordError::SuffixFormat);
            },
        };
        if suffix == 0 || suffix > 32 {
            return Err(RipeGeoRecordError::SuffixTooLarge(suffix));
        }
        let size = pow2_u32(32 - suffix);
        Ok(RecordV4 { subnet: addr, size })
    }

    /// Parse one record line of text.
    pub fn parse(s: &str) -> (r: Result<RecordV4, RipeGeoRecordError>)
        ensures
            match r {
                Ok(rec) => spec_parse_record_v4(s.spec_bytes()) == Ok::<
                    (int, int),
                    RipeGeoRecordError,
                >((rec.subnet as int, rec.size as int)) && rec.wf(),
                Err(e) => spec_parse_record_v4(s.spec_bytes()) == Err::<
                    (int, int),
                    RipeGeoRecordError,
                >(e),
            },
    {
        Self::parse_bytes(s.as_bytes())
    }

    /// The canonical `addr/prefix` text of the record. The text is
    /// exactly the canonical record text of the subnet and its suffix,
    /// and parsing it gives the record back: the record round-trip law.
    pub fn to_text(&self) -> (r: String)
        requires
            self.wf(),
        ensures
            forall|i: int| 0 <= i < r@.len() ==> (((#[trigger] r@[i]) as u32) < 128),
            chars_to_bytes(r@) == canon_record_v4(
                self.subnet as int,
                suffix_of_v4(self.size as int),
            ),
            spec_parse_record_v4(chars_to_bytes(r@)) == Ok::<
                (int, int),
                RipeGeoRecordError,
            >((self.subnet as int, self.size as int)),
    {
        let k = log2_u128(self.size as u128, Ghost(31nat));
        proof {
            lemma_suffix_of_v4(k as nat);
        }
        let suffix = 32 - k;
        let mut out = format_ipv4(self.subnet);
        out.push(47);
        let d = crate::ip::format_dec(suffix);
        push_all(&mut out, d.as_slice());
        proof {
            assert(out@ =~= canon_record_v4(self.subnet as int, suffix as int));
            lemma_record_round_trip_v4(self.subnet as int, suffix as int);
            crate::ip::lemma_canon_ipv4_bytes(self.subnet as int);
            lemma_canon_dec(suffix as int);
            assert forall|i: int| 0 <= i < out@.len() implies out@[i] < 128 by {
                let a = canon_ipv4(self.subnet as int);
                if i < a.len() {
                    assert(out@[i] == a[i]);
                    assert(is_digit(a[i]) || a[i] == 46);
                } else if i > a.len() {
                    assert(out@[i] == canon_dec(suffix as int)[i - a.len() - 1]);
                    assert(is_digit(canon_dec(suffix as int)[i - a.len() - 1]));
                }
            }
        }
        let ghost bytes = out@;
        let r = string_from_ascii(out);
        proof {
            assert(chars_to_bytes(r@) =~= bytes);
        }
        r
    }
}

impl RecordV6 {
    /// The record invariant: the size is a representable power of two,
    /// so it came from a prefix between one and the address width.
    pub open spec fn wf(self) -> bool {
        exists|k: nat| k <= 127 && self.size as int == pow2(k)
    }

    /// Parse one record line.
    pub fn parse_bytes(s: &[u8]) -> (r: Result<RecordV6, RipeGeoRecordError>)
        ensures
            match r {
                Ok(rec) => spec_parse_record_v6(s@) == Ok::<(int, int), RipeGeoRecordError>(
                    (rec.subnet as int, rec.size as int),
                ) && rec.wf(),
                Err(e) => spec_parse_record_v6(s@) == Err::<(int, int), RipeGeoRecordError>(e),
            },
    {
        let n = s.len();
        let mut p: usize = 0;
        while p < n && s[p] != 47
            invariant
                0 <= p <= n,
                n == s@.len(),
                forall|j: int| 0 <= j < p ==> s@[j] != 47,
            decreases n - p,
        {
            p += 1;
        }
        if p == n {
            proof {
                lemma_find_byte_absent(s@, 47);
            }
            return Err(RipeGeoRecordError::Parts);
        }
        proof {
            lemma_find_byte_unique(s@, 47, p as int);
        }
        let left = crate::bytes::subrange_vec(s, 0, p);
        let right = crate::bytes::subrange_vec(s, p + 1, n);
        let addr = match parse_ipv6(left.as_slice()) {
            Some(a) => a,
            None => {
                return Err(RipeGeoRecordError::Subnet);
            },
        };
        let suffix = match parse_dec_bounded(right.as_slice(), 0xFFFFFFFF) {
            Some(x) => x,
            None => {
                return Err(RipeGeoRecordError::SuffixFormat);
            },
        };
        if suffix == 0 || suffix > 128 {
            return Err(RipeGeoRecordError::SuffixTooLarge(suffix));
        }
        let size = pow2_u128(128 - suffix);
        Ok(RecordV6 { subnet: addr, size })
    }

    /// Parse one record line of text.
    pub fn parse(s: &str) -> (r: Result<RecordV6, RipeGeoRecordError>)
        ensures
            match r {
                Ok(rec) => spec_parse_record_v6(s.spec_bytes()) == Ok::<
                    (int, int),
                    RipeGeoRecordError,
                >((rec.subnet as int, rec.size as int)) && rec.wf(),
                Err(e) => spec_parse_record_v6(s.spec_bytes()) == Err::<
                    (int, int),
                    RipeGeoRecordError,
                >(e),
            },
    {
        Self::parse_bytes(s.as_bytes())
    }

    /// The canonical `addr/prefix` text of the record. The text is
    /// exactly the canonical record text of the subnet and its suffix,
    /// and parsing it gives the record back: the record round-trip law.
    pub fn to_text(&self) -> (r: String)
        requires
            self.wf(),
        ensures
            forall|i: int| 0 <= i < r@.len() ==> (((#[trigger] r@[i]) as u32) < 128),
            chars_to_bytes(r@) == canon_record_v6(
                self.subnet as int,
                suffix_of_v6(self.size as int),
            ),
            spec_parse_record_v6(chars_to_bytes(r@)) == Ok::<
                (int, int),
                RipeGeoRecordError,
            >((self.subnet as int, self.size as int)),
    {
        let k = log2_u128(self.size, Ghost(127nat));
        proof {
            lemma_suffix_of_v6(k as nat);
        }
        let suffix = 128 - k;
        let mut out = format_ipv6(self.subnet);
        out.push(47);
        let d = crate::ip::format_dec(suffix);
        push_all(&mut out, d.as_slice());
        proof {
            assert(out@ =~= canon_record_v6(self.subnet as int, suffix as int));
            lemma_record_round_trip_v6(self.subnet as int, suffix as int);
            crate::ip::lemma_canon_ipv6_bytes(self.subnet as int);
            lemma_canon_dec(suffix as int);
            assert forall|i: int| 0 <= i < out@.len() implies out@[i] < 128 by {
                let a = canon_ipv6(self.subnet as int);
                if i < a.len() {
                    assert(out@[i] == a[i]);
                    assert(is_hex_digit(a[i]) || a[i] == 58);
                } else if i > a.len() {
                    assert(out@[i] == canon_dec(suffix as int)[i - a.len() - 1]);
                    assert(is_digit(canon_dec(suffix as int)[i - a.len() - 1]));
                }
            }
        }
        let ghost bytes = out@;
        let r = string_from_ascii(out);
        proof {
            assert(chars_to_bytes(r@) =~= bytes);
        }
        r
    }
}

} // verus!
