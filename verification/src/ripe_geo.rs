//! The ripe-geo provider: interval maps over both address families,
//! built from per-continent text files of `SUBNET/PREFIX` records.

use crate::bytes::{split_bytes, split_bytes_exec};
use crate::continent::{str_eq_exec, trim_of, Continent};
use crate::intervals::{
    interval_lookup, intervals_wf, overlapped_by_spec, seq_insert_sorted, IntervalBTreeMap,
    IntervalVec,
};
use crate::record::{
    pow2, spec_parse_record_v4, spec_parse_record_v6, RecordV4, RecordV6, RipeGeoRecordError,
};
use vstd::prelude::*;

verus! {

/// What to do when a record overlaps an already inserted interval:
/// abort the whole build, or skip the record with a warning.
#[derive(Debug, Clone, Copy, PartialEq, Eq, Structural)]
pub enum RipeGeoOverlapsStrategy {
    Fail,
    Skip,
}

impl Default for RipeGeoOverlapsStrategy {
    /// The default strategy skips overlapping records.
    fn default() -> (r: Self)
        ensures
            r == RipeGeoOverlapsStrategy::Skip,
    {
        RipeGeoOverlapsStrategy::Skip
    }
}

/// The address family a ripe-geo file covers.
#[derive(Debug, Clone, Copy, PartialEq, Eq, Hash, Structural)]
pub enum IpType {
    V4,
    V6,
}

impl IpType {
    /// The spelling used in ripe-geo file names.
    pub open spec fn parses_to(s: Seq<char>) -> Option<IpType> {
        if s == "ipv4"@ {
            Some(IpType::V4)
        } else if s == "ipv6"@ {
            Some(IpType::V6)
        } else {
            None
        }
    }

    /// Parse the family part of a ripe-geo file name.
    pub fn parse(s: &str) -> (r: Option<IpType>)
        ensures
            r == IpType::parses_to(s@),
    {
        if str_eq_exec(s, "ipv4") {
            Some(IpType::V4)
        } else if str_eq_exec(s, "ipv6") {
            Some(IpType::V6)
        } else {
            None
        }
    }
}

/// Why one file of ripe-geo data was rejected.
#[derive(Debug, PartialEq, Eq)]
pub enum RipeGeoFileError {
    /// A line failed to parse; carries the raw line.
    InvalidRecord { record: Vec<u8>, error: RipeGeoRecordError },
    /// Under the fail strategy: a record overlapped an interval already
    /// inserted. Carries the canonical texts of the new record and of
    /// the interval it collided with.
    OverlappedRecord(String, String),
    /// No record of the file was inserted.
    EmptyFile,
}

/// Why a whole set of ripe-geo files was rejected.
#[derive(Debug, PartialEq, Eq)]
pub enum RipeGeoDataError {
    /// One file was rejected; carries its path.
    FileCorrupted { path: String, error: RipeGeoFileError },
    /// Some continent and family had no file at all.
    MissingFiles(Vec<(Continent, IpType)>),
    /// A downloaded archive could not be decompressed or unpacked.
    ArchiveRead,
}

/// The index of the first occurrence of a character, or minus one.
pub open spec fn find_char(s: Seq<char>, c: char) -> int
    decreases s.len(),
{
    if s.len() == 0 {
        -1
    } else if s[0] == c {
        0
    } else if find_char(s.drop_first(), c) == -1 {
        -1
    } else {
        find_char(s.drop_first(), c) + 1
    }
}

/// The index of the last occurrence of a character, or minus one.
pub open spec fn find_last_char(s: Seq<char>, c: char) -> int
    decreases s.len(),
{
    if s.len() == 0 {
        -1
    } else if s.last() == c {
        s.len() - 1
    } else {
        find_last_char(s.drop_last(), c)
    }
}

proof fn lemma_find_char_unique(s: Seq<char>, c: char, p: int)
    requires
        0 <= p < s.len(),
        s[p] == c,
        forall|i: int| 0 <= i < p ==> s[i] != c,
    ensures
        find_char(s, c) == p,
    decreases s.len(),
{
    if p > 0 {
        assert(s.drop_first()[p - 1] == s[p]);
        assert forall|i: int| 0 <= i < p - 1 implies s.drop_first()[i] != c by {
            assert(s.drop_first()[i] == s[i + 1]);
        }
        lemma_find_char_unique(s.drop_first(), c, p - 1);
    }
}

proof fn lemma_find_char_absent(s: Seq<char>, c: char)
    requires
        forall|i: int| 0 <= i < s.len() ==> s[i] != c,
    ensures
        find_char(s, c) == -1,
    decreases s.len(),
{
    if s.len() > 0 {
        assert forall|i: int| 0 <= i < s.drop_first().len() implies s.drop_first()[i] != c by {
            assert(s.drop_first()[i] == s[i + 1]);
        }
        lemma_find_char_absent(s.drop_first(), c);
    }
}

proof fn lemma_find_last_char_unique(s: Seq<char>, c: char, p: int)
    requires
        0 <= p < s.len(),
        s[p] == c,
        forall|i: int| p < i < s.len() ==> s[i] != c,
    ensures
        find_last_char(s, c) == p,
    decreases s.len(),
{
    if p < s.len() - 1 {
        assert(s.drop_last()[p] == s[p]);
        assert forall|i: int| p < i < s.drop_last().len() implies s.drop_last()[i] != c by {
            assert(s.drop_last()[i] == s[i]);
        }
        lemma_find_last_char_unique(s.drop_last(), c, p);
    }
}

proof fn lemma_find_last_char_absent(s: Seq<char>, c: char)
    requires
        forall|i: int| 0 <= i < s.len() ==> s[i] != c,
    ensures
        find_last_char(s, c) == -1,
    decreases s.len(),
{
    if s.len() > 0 {
        assert forall|i: int| 0 <= i < s.drop_last().len() implies s.drop_last()[i] != c by {
            assert(s.drop_last()[i] == s[i]);
        }
        lemma_find_last_char_absent(s.drop_last(), c);
    }
}

/// The index of the first occurrence of a character in a text slice.
pub(crate) fn find_char_exec(s: &str, c: char) -> (r: Option<usize>)
    ensures
        match r {
            Some(p) => find_char(s@, c) == p && p < s@.len(),
            None => find_char(s@, c) == -1,
        },
{
    let n = s.unicode_len();
    let mut p: usize = 0;
    while p < n && s.get_char(p) != c
        invariant
            0 <= p <= n,
            n == s@.len(),
            forall|i: int| 0 <= i < p ==> s@[i] != c,
        decreases n - p,
    {
        p += 1;
    }
    if p == n {
        proof {
            lemma_find_char_absent(s@, c);
        }
        None
    } else {
        proof {
            lemma_find_char_unique(s@, c, p as int);
        }
        Some(p)
    }
}

/// The index of the last occurrence of a character in a text slice.
fn find_last_char_exec(s: &str, c: char) -> (r: Option<usize>)
    ensures
        match r {
            Some(p) => find_last_char(s@, c) == p && p < s@.len(),
            None => find_last_char(s@, c) == -1,
        },
{
    let n = s.unicode_len();
    let mut p: usize = n;
    while p > 0 && s.get_char(p - 1) != c
        invariant
            0 <= p <= n,
            n == s@.len(),
            forall|i: int| p <= i < n ==> s@[i] != c,
        decreases p,
    {
        p -= 1;
    }
    if p == 0 {
        proof {
            lemma_find_last_char_absent(s@, c);
        }
        None
    } else {
        proof {
            lemma_find_last_char_unique(s@, c, p as int - 1);
        }
        Some(p - 1)
    }
}

/// What a ripe-geo file name means: `<continent>.<family>.list`, with
/// anything before the last slash ignored. Unrecognized names give
/// nothing and are skipped by the build.
pub open spec fn parse_path_spec(s: Seq<char>) -> Option<(Continent, IpType)> {
    let name = s.skip(find_last_char(s, '/') + 1);
    let d = find_last_char(name, '.');
    if d == -1 {
        None
    } else if !(name.skip(d + 1) == "list"@) {
        None
    } else {
        let stem = name.take(d);
        let d2 = find_char(stem, '.');
        if d2 == -1 {
            None
        } else {
            match Continent::parses_to(trim_of(stem.take(d2))) {
                None => None,
                Some(c) => match IpType::parses_to(stem.skip(d2 + 1)) {
                    None => None,
                    Some(f) => Some((c, f)),
                },
            }
        }
    }
}

/// Parse a ripe-geo file path like `continents/asia.ipv4.list`.
pub fn parse_path(path: &str) -> (r: Option<(Continent, IpType)>)
    ensures
        r == parse_path_spec(path@),
{
    let n = path.unicode_len();
    let name = match find_last_char_exec(path, '/') {
        Some(p) => path.substring_char(p + 1, n),
        None => {
            proof {
                assert(path@.skip(0) =~= path@);
            }
            path.substring_char(0, n)
        },
    };
    let nn = name.unicode_len();
    let d = match find_last_char_exec(name, '.') {
        Some(d) => d,
        None => {
            return None;
        },
    };
    let ext = name.substring_char(d + 1, nn);
    if !str_eq_exec(ext, "list") {
        return None;
    }
    let stem = name.substring_char(0, d);
    let sn = stem.unicode_len();
    let d2 = match find_char_exec(stem, '.') {
        Some(d2) => d2,
        None => {
            return None;
        },
    };
    let cont_str = stem.substring_char(0, d2);
    let ip_str = stem.substring_char(d2 + 1, sn);
    proof {
        assert(stem@.take(d2 as int) =~= cont_str@);
        assert(stem@.skip(d2 as int + 1) =~= ip_str@);
    }
    let c = match Continent::parse(cont_str) {
        Some(c) => c,
        None => {
            return None;
        },
    };
    let f = match IpType::parse(ip_str) {
        Some(f) => f,
        None => {
            return None;
        },
    };
    Some((c, f))
}

/// A line with one trailing carriage return removed.
pub open spec fn strip_cr(t: Seq<u8>) -> Seq<u8> {
    if t.len() > 0 && t.last() == 13 {
        t.drop_last()
    } else {
        t
    }
}

/// The record lines of one text file: newline-separated, a final
/// newline yielding no extra line, carriage returns stripped.
pub open spec fn file_lines(s: Seq<u8>) -> Seq<Seq<u8>> {
    let ts = split_bytes(s, 10);
    let ts2 = if ts.len() > 0 && ts.last().len() == 0 {
        ts.drop_last()
    } else {
        ts
    };
    ts2.map_values(|t: Seq<u8>| strip_cr(t))
}

/// How the ingest of one file fails: a malformed line, an overlapping
/// record under the fail strategy, or a file with no inserted record.
/// The overlap case carries the new record's base and size and those
/// of the interval it collided with.
pub enum FileFailKind {
    Invalid(RipeGeoRecordError),
    Overlap(int, int, int, int),
    Empty,
}

/// The file error value that an ingest failure of the given kind at the
/// given line produces, for an IPv4 file: an overlap error carries the
/// canonical texts of the two records.
pub open spec fn file_error_matches_v4(
    e: RipeGeoFileError,
    lines: Seq<Seq<u8>>,
    l: int,
    k: FileFailKind,
) -> bool {
    match k {
        FileFailKind::Invalid(re) => e matches RipeGeoFileError::InvalidRecord { record, error }
            && record@ == lines[l] && error == re,
        FileFailKind::Overlap(nk, ns, ok, os) => e matches RipeGeoFileError::OverlappedRecord(
            nt,
            ot,
        ) && crate::record::chars_to_bytes(nt@) == crate::record::canon_record_v4(
            nk,
            crate::record::suffix_of_v4(ns),
        ) && crate::record::chars_to_bytes(ot@) == crate::record::canon_record_v4(
            ok,
            crate::record::suffix_of_v4(os),
        ),
        FileFailKind::Empty => e is EmptyFile,
    }
}

/// The IPv6 twin of [`file_error_matches_v4`].
pub open spec fn file_error_matches_v6(
    e: RipeGeoFileError,
    lines: Seq<Seq<u8>>,
    l: int,
    k: FileFailKind,
) -> bool {
    match k {
        FileFailKind::Invalid(re) => e matches RipeGeoFileError::InvalidRecord { record, error }
            && record@ == lines[l] && error == re,
        FileFailKind::Overlap(nk, ns, ok, os) => e matches RipeGeoFileError::OverlappedRecord(
            nt,
            ot,
        ) && crate::record::chars_to_bytes(nt@) == crate::record::canon_record_v6(
            nk,
            crate::record::suffix_of_v6(ns),
        ) && crate::record::chars_to_bytes(ot@) == crate::record::canon_record_v6(
            ok,
            crate::record::suffix_of_v6(os),
        ),
        FileFailKind::Empty => e is EmptyFile,
    }
}

/// The ingest fold for the IPv4 family: parse each line and insert its
/// interval; an overlap is skipped or aborts the fold by strategy. On
/// success yields the final map and how many records were skipped.
pub open spec fn ingest_v4(
    m: Seq<(int, int, Continent)>,
    lines: Seq<Seq<u8>>,
    c: Continent,
    fail_on_overlap: bool,
) -> Result<(Seq<(int, int, Continent)>, int), (int, FileFailKind)>
    decreases lines.len(),
{
    if lines.len() == 0 {
        Ok((m, 0))
    } else {
        match spec_parse_record_v4(lines[0]) {
            Err(e) => Err((0, FileFailKind::Invalid(e))),
            Ok(ks) => {
                if overlapped_by_spec(m, ks.0, ks.1) is None {
                    match ingest_v4(
                        seq_insert_sorted(m, (ks.0, ks.1, c)),
                        lines.drop_first(),
                        c,
                        fail_on_overlap,
                    ) {
                        Ok(r2) => Ok(r2),
                        Err(e2) => Err((e2.0 + 1, e2.1)),
                    }
                } else if fail_on_overlap {
                    match overlapped_by_spec(m, ks.0, ks.1) {
                        Some(occ) => Err((0, FileFailKind::Overlap(ks.0, ks.1, occ.0, occ.1))),
                        None => Err((0, FileFailKind::Empty)),
                    }
                } else {
                    match ingest_v4(m, lines.drop_first(), c, fail_on_overlap) {
                        Ok(r2) => Ok((r2.0, r2.1 + 1)),
                        Err(e2) => Err((e2.0 + 1, e2.1)),
                    }
                }
            },
        }
    }
}

/// The IPv6 twin of [`ingest_v4`].
pub open spec fn ingest_v6(
    m: Seq<(int, int, Continent)>,
    lines: Seq<Seq<u8>>,
    c: Continent,
    fail_on_overlap: bool,
) -> Result<(Seq<(int, int, Continent)>, int), (int, FileFailKind)>
    decreases lines.len(),
{
    if lines.len() == 0 {
        Ok((m, 0))
    } else {
        match spec_parse_record_v6(lines[0]) {
            Err(e) => Err((0, FileFailKind::Invalid(e))),
            Ok(ks) => {
                if overlapped_by_spec(m, ks.0, ks.1) is None {
                    match ingest_v6(
                        seq_insert_sorted(m, (ks.0, ks.1, c)),
                        lines.drop_first(),
                        c,
                        fail_on_overlap,
                    ) {
                        Ok(r2) => Ok(r2),
                        Err(e2) => Err((e2.0 + 1, e2.1)),
                    }
                } else if fail_on_overlap {
                    match overlapped_by_spec(m, ks.0, ks.1) {
                        Some(occ) => Err((0, FileFailKind::Overlap(ks.0, ks.1, occ.0, occ.1))),
                        None => Err((0, FileFailKind::Empty)),
                    }
                } else {
                    match ingest_v6(m, lines.drop_first(), c, fail_on_overlap) {
                        Ok(r2) => Ok((r2.0, r2.1 + 1)),
                        Err(e2) => Err((e2.0 + 1, e2.1)),
                    }
                }
            },
        }
    }
}

/// One file's ingest: the fold, then the empty check — a file none of
/// whose records was inserted is rejected.
pub open spec fn ingest_file_v4(
    m: Seq<(int, int, Continent)>,
    lines: Seq<Seq<u8>>,
    c: Continent,
    fail_on_overlap: bool,
) -> Result<(Seq<(int, int, Continent)>, int), (int, FileFailKind)> {
    match ingest_v4(m, lines, c, fail_on_overlap) {
        Ok(r) => if r.1 == lines.len() {
            Err((lines.len() as int, FileFailKind::Empty))
        } else {
            Ok(r)
        },
        Err(e) => Err(e),
    }
}

/// The IPv6 twin of [`ingest_file_v4`].
pub open spec fn ingest_file_v6(
    m: Seq<(int, int, Continent)>,
    lines: Seq<Seq<u8>>,
    c: Continent,
    fail_on_overlap: bool,
) -> Result<(Seq<(int, int, Continent)>, int), (int, FileFailKind)> {
    match ingest_v6(m, lines, c, fail_on_overlap) {
        Ok(r) => if r.1 == lines.len() {
            Err((lines.len() as int, FileFailKind::Empty))
        } else {
            Ok(r)
        },
        Err(e) => Err(e),
    }
}

/// Every stored interval size is a representable IPv4 power of two.
pub open spec fn sizes_pow2_v4(s: Seq<(int, int, Continent)>) -> bool {
    forall|i: int|
        0 <= i < s.len() ==> exists|k: nat| k <= 31 && (#[trigger] s[i]).1 == pow2(k)
}

/// Every stored interval size is a representable IPv6 power of two.
pub open spec fn sizes_pow2_v6(s: Seq<(int, int, Continent)>) -> bool {
    forall|i: int|
        0 <= i < s.len() ==> exists|k: nat| k <= 127 && (#[trigger] s[i]).1 == pow2(k)
}

/// The size of an overlapping interval reported by the map is the size
/// of some stored interval, hence a power of two when all stored sizes
/// are.
proof fn lemma_overlap_size_pow2(
    m: Seq<(int, int, Continent)>,
    k: int,
    sz: int,
    k0: int,
    s0: int,
    w: nat,
)
    requires
        forall|i: int|
            0 <= i < m.len() ==> exists|kk: nat| kk <= w && (#[trigger] m[i]).1 == pow2(kk),
        overlapped_by_spec(m, k, sz) == Some((k0, s0)),
    ensures
        exists|kk: nat| kk <= w && s0 == pow2(kk),
{
    if crate::intervals::interval_lookup_entry(m, k) is Some {
        crate::intervals::lemma_lookup_entry_some(m, k);
        let i = choose|i: int|
            0 <= i < m.len() && crate::intervals::interval_lookup_entry(m, k) == Some(
                ((#[trigger] m[i]).0, m[i].1),
            ) && crate::intervals::interval_contains(m[i], k);
        assert(s0 == m[i].1);
    } else {
        crate::intervals::lemma_first_in_window_some(m, k, sz);
        let i = choose|i: int|
            0 <= i < m.len() && crate::intervals::first_in_window(m, k, sz) == Some(
                ((#[trigger] m[i]).0, m[i].1),
            ) && k <= m[i].0 < k + sz;
        assert(s0 == m[i].1);
    }
}

/// Inserting a power-of-two-sized interval keeps all sizes powers of
/// two.
proof fn lemma_insert_sizes_pow2(
    s: Seq<(int, int, Continent)>,
    k: int,
    sz: int,
    c: Continent,
    w: nat,
)
    requires
        forall|i: int|
            0 <= i < s.len() ==> exists|kk: nat| kk <= w && (#[trigger] s[i]).1 == pow2(kk),
        exists|kk: nat| kk <= w && sz == pow2(kk),
    ensures
        forall|i: int|
            0 <= i < seq_insert_sorted(s, (k, sz, c)).len() ==> exists|kk: nat|
                kk <= w && (#[trigger] seq_insert_sorted(s, (k, sz, c))[i]).1 == pow2(kk),
{
    let e = (k, sz, c);
    let t = seq_insert_sorted(s, e);
    let p = crate::intervals::sorted_pos(s, k);
    crate::intervals::lemma_sorted_pos_bounds(s, k);
    crate::intervals::lemma_seq_insert_sorted_split(s, e);
    assert forall|i: int| 0 <= i < t.len() implies exists|kk: nat|
        kk <= w && (#[trigger] t[i]).1 == pow2(kk) by {
        if i < p {
            assert(t[i] == s[i]);
        } else if i == p {
            assert(t[i] == e);
        } else {
            assert(t[i] == s[i - 1]);
        }
    }
}


/// Build the overlap error for a rejected record: the canonical texts
/// of the new record and of the interval it collided with.
fn overlap_error_v4(rec: RecordV4, key: u32, size: u32) -> (e: RipeGeoFileError)
    requires
        rec.wf(),
        exists|kk: nat| kk <= 31 && size as int == pow2(kk),
    ensures
        e matches RipeGeoFileError::OverlappedRecord(nt, ot)
            && crate::record::chars_to_bytes(nt@) == crate::record::canon_record_v4(
            rec.subnet as int,
            crate::record::suffix_of_v4(rec.size as int),
        ) && crate::record::chars_to_bytes(ot@) == crate::record::canon_record_v4(
            key as int,
            crate::record::suffix_of_v4(size as int),
        ),
{
    let existing = RecordV4 { subnet: key, size };
    RipeGeoFileError::OverlappedRecord(rec.to_text(), existing.to_text())
}

/// The IPv6 twin of [`overlap_error_v4`].
fn overlap_error_v6(rec: RecordV6, key: u128, size: u128) -> (e: RipeGeoFileError)
    requires
        rec.wf(),
        exists|kk: nat| kk <= 127 && size as int == pow2(kk),
    ensures
        e matches RipeGeoFileError::OverlappedRecord(nt, ot)
            && crate::record::chars_to_bytes(nt@) == crate::record::canon_record_v6(
            rec.subnet as int,
            crate::record::suffix_of_v6(rec.size as int),
        ) && crate::record::chars_to_bytes(ot@) == crate::record::canon_record_v6(
            key as int,
            crate::record::suffix_of_v6(size as int),
        ),
{
    let existing = RecordV6 { subnet: key, size };
    RipeGeoFileError::OverlappedRecord(rec.to_text(), existing.to_text())
}


/// One ingest step at the head of a line list: the whole fold is the
/// single-line fold of the first line, continued over the rest.
proof fn lemma_ingest_v4_head(
    m: Seq<(int, int, Continent)>,
    lines: Seq<Seq<u8>>,
    c: Continent,
    fail_on_overlap: bool,
)
    requires
        lines.len() >= 1,
    ensures
        ({
            let step = ingest_v4(m, seq![lines[0]], c, fail_on_overlap);
            let rest = lines.drop_first();
            match step {
                Ok(res1) => {
                    let cont = ingest_v4(res1.0, rest, c, fail_on_overlap);
                    match cont {
                        Ok(r2) => ingest_v4(m, lines, c, fail_on_overlap) == Ok::<
                            _,
                            (int, FileFailKind),
                        >((r2.0, res1.1 + r2.1)),
                        Err(e2) => ingest_v4(m, lines, c, fail_on_overlap) == Err::<
                            (Seq<(int, int, Continent)>, int),
                            _,
                        >((e2.0 + 1, e2.1)),
                    }
                },
                Err(f) => ingest_v4(m, lines, c, fail_on_overlap) == Err::<
                    (Seq<(int, int, Continent)>, int),
                    _,
                >(f),
            }
        }),
{
    let single = seq![lines[0]];
    assert(single.drop_first() =~= Seq::<Seq<u8>>::empty());
    match spec_parse_record_v4(lines[0]) {
        Err(e) => {
            assert(ingest_v4(m, single, c, fail_on_overlap) == Err::<
                (Seq<(int, int, Continent)>, int),
                (int, FileFailKind),
            >((0, FileFailKind::Invalid(e))));
        },
        Ok(ks) => {
            if overlapped_by_spec(m, ks.0, ks.1) is None {
                let m2 = seq_insert_sorted(m, (ks.0, ks.1, c));
                assert(ingest_v4(m2, single.drop_first(), c, fail_on_overlap) == Ok::<
                    _,
                    (int, FileFailKind),
                >((m2, 0int)));
                assert(ingest_v4(m, single, c, fail_on_overlap) == Ok::<
                    _,
                    (int, FileFailKind),
                >((m2, 0int)));
            } else if fail_on_overlap {
            } else {
                assert(ingest_v4(m, single.drop_first(), c, fail_on_overlap) == Ok::<
                    _,
                    (int, FileFailKind),
                >((m, 0int)));
                assert(ingest_v4(m, single, c, fail_on_overlap) == Ok::<
                    _,
                    (int, FileFailKind),
                >((m, 1int)));
            }
        },
    }
}

/// The IPv6 twin of [`lemma_ingest_v4_head`].
proof fn lemma_ingest_v6_head(
    m: Seq<(int, int, Continent)>,
    lines: Seq<Seq<u8>>,
    c: Continent,
    fail_on_overlap: bool,
)
    requires
        lines.len() >= 1,
    ensures
        ({
            let step = ingest_v6(m, seq![lines[0]], c, fail_on_overlap);
            let rest = lines.drop_first();
            match step {
                Ok(res1) => {
                    let cont = ingest_v6(res1.0, rest, c, fail_on_overlap);
                    match cont {
                        Ok(r2) => ingest_v6(m, lines, c, fail_on_overlap) == Ok::<
                            _,
                            (int, FileFailKind),
                        >((r2.0, res1.1 + r2.1)),
                        Err(e2) => ingest_v6(m, lines, c, fail_on_overlap) == Err::<
                            (Seq<(int, int, Continent)>, int),
                            _,
                        >((e2.0 + 1, e2.1)),
                    }
                },
                Err(f) => ingest_v6(m, lines, c, fail_on_overlap) == Err::<
                    (Seq<(int, int, Continent)>, int),
                    _,
                >(f),
            }
        }),
{
    let single = seq![lines[0]];
    assert(single.drop_first() =~= Seq::<Seq<u8>>::empty());
    match spec_parse_record_v6(lines[0]) {
        Err(e) => {
            assert(ingest_v6(m, single, c, fail_on_overlap) == Err::<
                (Seq<(int, int, Continent)>, int),
                (int, FileFailKind),
            >((0, FileFailKind::Invalid(e))));
        },
        Ok(ks) => {
            if overlapped_by_spec(m, ks.0, ks.1) is None {
                let m2 = seq_insert_sorted(m, (ks.0, ks.1, c));
                assert(ingest_v6(m2, single.drop_first(), c, fail_on_overlap) == Ok::<
                    _,
                    (int, FileFailKind),
                >((m2, 0int)));
                assert(ingest_v6(m, single, c, fail_on_overlap) == Ok::<
                    _,
                    (int, FileFailKind),
                >((m2, 0int)));
            } else if fail_on_overlap {
            } else {
                assert(ingest_v6(m, single.drop_first(), c, fail_on_overlap) == Ok::<
                    _,
                    (int, FileFailKind),
                >((m, 0int)));
                assert(ingest_v6(m, single, c, fail_on_overlap) == Ok::<
                    _,
                    (int, FileFailKind),
                >((m, 1int)));
            }
        },
    }
}

/// Ingest one record line: parse it and insert its interval. On an
/// overlap the record is skipped with a warning or aborts the file by
/// strategy; the outcome is exactly one step of the ingest fold.
#[verifier::rlimit(100)]
#[verifier::spinoff_prover]
fn ingest_line_v4(
    tree: &mut IntervalBTreeMap<u32, Continent>,
    line: Vec<u8>,
    continent: Continent,
    overlaps_strategy: RipeGeoOverlapsStrategy,
) -> (r: Result<Option<RipeGeoFileError>, RipeGeoFileError>)
    requires
        old(tree).wf(),
        sizes_pow2_v4(old(tree)@),
    ensures
        final(tree).wf(),
        sizes_pow2_v4(final(tree)@),
        ({
            let fail = overlaps_strategy is Fail;
            let step = ingest_v4(old(tree)@, seq![line@], continent, fail);
            match r {
                Ok(w) => step matches Ok(res) && final(tree)@ == res.0 && ((w is Some && res.1
                    == 1) || (w is None && res.1 == 0)) && (w matches Some(e)
                    ==> e is OverlappedRecord),
                Err(e) => step matches Err(f) && f.0 == 0 && file_error_matches_v4(
                    e,
                    seq![line@],
                    0,
                    f.1,
                ) && final(tree)@ == old(tree)@,
            }
        }),
{
    let ghost single = seq![line@];
    let ghost fail = overlaps_strategy is Fail;
    proof {
        assert(single[0] == line@);
        assert(single.drop_first() =~= Seq::<Seq<u8>>::empty());
    }
    match RecordV4::parse_bytes(line.as_slice()) {
        Err(e) => {
            proof {
                assert(ingest_v4(tree@, single, continent, fail) == Err::<
                    (Seq<(int, int, Continent)>, int),
                    (int, FileFailKind),
                >((0, FileFailKind::Invalid(e))));
            }
            Err(RipeGeoFileError::InvalidRecord { record: line, error: e })
        },
        Ok(rec) => {
            proof {
                let kk = choose|kk: nat| kk <= 31 && rec.size as int == pow2(kk);
                crate::record::lemma_pow2_pos(kk);
            }
            let ghost before = tree@;
            match tree.try_insert(rec.subnet, rec.size, continent) {
                Ok(_) => {
                    proof {
                        lemma_insert_sizes_pow2(
                            before,
                            rec.subnet as int,
                            rec.size as int,
                            continent,
                            31,
                        );
                        let m2 = seq_insert_sorted(
                            before,
                            (rec.subnet as int, rec.size as int, continent),
                        );
                        assert(ingest_v4(m2, single.drop_first(), continent, fail) == Ok::<
                            _,
                            (int, FileFailKind),
                        >((m2, 0int)));
                        assert(ingest_v4(before, single, continent, fail) == Ok::<
                            _,
                            (int, FileFailKind),
                        >((m2, 0int)));
                    }
                    Ok(None)
                },
                Err(occ) => {
                    proof {
                        lemma_overlap_size_pow2(
                            tree@,
                            rec.subnet as int,
                            rec.size as int,
                            occ.key as int,
                            occ.size as int,
                            31,
                        );
                        if overlaps_strategy is Fail {
                            assert(ingest_v4(before, single, continent, fail) == Err::<
                                (Seq<(int, int, Continent)>, int),
                                (int, FileFailKind),
                            >((
                                0,
                                FileFailKind::Overlap(
                                    rec.subnet as int,
                                    rec.size as int,
                                    occ.key as int,
                                    occ.size as int,
                                ),
                            )));
                        } else {
                            assert(ingest_v4(before, single.drop_first(), continent, fail)
                                == Ok::<_, (int, FileFailKind)>((before, 0int)));
                            assert(ingest_v4(before, single, continent, fail) == Ok::<
                                _,
                                (int, FileFailKind),
                            >((before, 1int)));
                        }
                    }
                    let w = overlap_error_v4(rec, occ.key, occ.size);
                    match overlaps_strategy {
                        RipeGeoOverlapsStrategy::Fail => Err(w),
                        RipeGeoOverlapsStrategy::Skip => Ok(Some(w)),
                    }
                },
            }
        },
    }
}

/// The IPv6 twin of [`ingest_line_v4`].
#[verifier::rlimit(100)]
#[verifier::spinoff_prover]
fn ingest_line_v6(
    tree: &mut IntervalBTreeMap<u128, Continent>,
    line: Vec<u8>,
    continent: Continent,
    overlaps_strategy: RipeGeoOverlapsStrategy,
) -> (r: Result<Option<RipeGeoFileError>, RipeGeoFileError>)
    requires
        old(tree).wf(),
        sizes_pow2_v6(old(tree)@),
    ensures
        final(tree).wf(),
        sizes_pow2_v6(final(tree)@),
        ({
            let fail = overlaps_strategy is Fail;
            let step = ingest_v6(old(tree)@, seq![line@], continent, fail);
            match r {
                Ok(w) => step matches Ok(res) && final(tree)@ == res.0 && ((w is Some && res.1
                    == 1) || (w is None && res.1 == 0)) && (w matches Some(e)
                    ==> e is OverlappedRecord),
                Err(e) => step matches Err(f) && f.0 == 0 && file_error_matches_v6(
                    e,
                    seq![line@],
                    0,
                    f.1,
                ) && final(tree)@ == old(tree)@,
            }
        }),
{
    let ghost single = seq![line@];
    let ghost fail = overlaps_strategy is Fail;
    proof {
        assert(single[0] == line@);
        assert(single.drop_first() =~= Seq::<Seq<u8>>::empty());
    }
    match RecordV6::parse_bytes(line.as_slice()) {
        Err(e) => {
            proof {
                assert(ingest_v6(tree@, single, continent, fail) == Err::<
                    (Seq<(int, int, Continent)>, int),
                    (int, FileFailKind),
                >((0, FileFailKind::Invalid(e))));
            }
            Err(RipeGeoFileError::InvalidRecord { record: line, error: e })
        },
        Ok(rec) => {
            proof {
                let kk = choose|kk: nat| kk <= 127 && rec.size as int == pow2(kk);
                crate::record::lemma_pow2_pos(kk);
            }
            let ghost before = tree@;
            match tree.try_insert(rec.subnet, rec.size, continent) {
                Ok(_) => {
                    proof {
                        lemma_insert_sizes_pow2(
                            before,
                            rec.subnet as int,
                            rec.size as int,
                            continent,
                            127,
                        );
                        let m2 = seq_insert_sorted(
                            before,
                            (rec.subnet as int, rec.size as int, continent),
                        );
                        assert(ingest_v6(m2, single.drop_first(), continent, fail) == Ok::<
                            _,
                            (int, FileFailKind),
                        >((m2, 0int)));
                        assert(ingest_v6(before, single, continent, fail) == Ok::<
                            _,
                            (int, FileFailKind),
                        >((m2, 0int)));
                    }
                    Ok(None)
                },
                Err(occ) => {
                    proof {
                        lemma_overlap_size_pow2(
                            tree@,
                            rec.subnet as int,
                            rec.size as int,
                            occ.key as int,
                            occ.size as int,
                            127,
                        );
                        if overlaps_strategy is Fail {
                            assert(ingest_v6(before, single, continent, fail) == Err::<
                                (Seq<(int, int, Continent)>, int),
                                (int, FileFailKind),
                            >((
                                0,
                                FileFailKind::Overlap(
                                    rec.subnet as int,
                                    rec.size as int,
                                    occ.key as int,
                                    occ.size as int,
                                ),
                            )));
                        } else {
                            assert(ingest_v6(before, single.drop_first(), continent, fail)
                                == Ok::<_, (int, FileFailKind)>((before, 0int)));
                            assert(ingest_v6(before, single, continent, fail) == Ok::<
                                _,
                                (int, FileFailKind),
                            >((before, 1int)));
                        }
                    }
                    let w = overlap_error_v6(rec, occ.key, occ.size);
                    match overlaps_strategy {
                        RipeGeoOverlapsStrategy::Fail => Err(w),
                        RipeGeoOverlapsStrategy::Skip => Ok(Some(w)),
                    }
                },
            }
        },
    }
}

/// Ingest one file of IPv4 records into the read-write map.
#[verifier::rlimit(100)]
#[verifier::spinoff_prover]
#[verifier::loop_isolation(false)]
fn insert_file_v4(
    tree: &mut IntervalBTreeMap<u32, Continent>,
    contents: &[u8],
    continent: Continent,
    overlaps_strategy: RipeGeoOverlapsStrategy,
) -> (r: Result<Vec<RipeGeoFileError>, RipeGeoFileError>)
    requires
        old(tree).wf(),
        sizes_pow2_v4(old(tree)@),
    ensures
        final(tree).wf(),
        sizes_pow2_v4(final(tree)@),
        ({
            let lines = file_lines(contents@);
            let fail = overlaps_strategy is Fail;
            match r {
                Ok(warnings) => ingest_file_v4(old(tree)@, lines, continent, fail) matches Ok(res)
                    && final(tree)@ == res.0 && warnings@.len() == res.1 && (forall|i: int|
                    0 <= i < warnings@.len() ==> (#[trigger] warnings@[i]) is OverlappedRecord),
                Err(e) => ingest_file_v4(old(tree)@, lines, continent, fail) matches Err(f)
                    && file_error_matches_v4(e, lines, f.0, f.1),
            }
        }),
{
    let ghost m0 = old(tree)@;
    let ghost lines = file_lines(contents@);
    let ghost fail = overlaps_strategy is Fail;
    let toks = split_bytes_exec(contents, 10);
    let ghost sdv = split_bytes(contents@, 10);
    proof {
        crate::bytes::lemma_split_tokens(contents@, 10);
        assert forall|k: int| 0 <= k < sdv.len() implies sdv[k] == toks@[k]@ by {
            assert(sdv[k] =~= toks@[k]@);
        }
    }
    let mut n = toks.len();
    if toks[n - 1].len() == 0 {
        n = n - 1;
    }
    proof {
        assert(lines.len() == n);
        assert(forall|k: int| 0 <= k < n ==> lines[k] == strip_cr(#[trigger] sdv[k]));
    }
    let mut warnings: Vec<RipeGeoFileError> = Vec::new();
    let mut count: usize = 0;
    let mut i: usize = 0;
    proof {
        assert(lines.skip(0) =~= lines);
    }
    while i < n
        invariant
            0 <= i <= n,
            n <= toks@.len(),
            toks@.len() == sdv.len(),
            sdv == split_bytes(contents@, 10),
            forall|k: int| 0 <= k < sdv.len() ==> sdv[k] == toks@[k]@,
            lines == file_lines(contents@),
            lines.len() == n,
            forall|k: int| 0 <= k < n ==> lines[k] == strip_cr(#[trigger] sdv[k]),
            tree.wf(),
            sizes_pow2_v4(tree@),
            count + warnings@.len() == i,
            forall|k: int|
                0 <= k < warnings@.len() ==> (#[trigger] warnings@[k]) is OverlappedRecord,
            fail == (overlaps_strategy is Fail),
            ({
                match ingest_v4(tree@, lines.skip(i as int), continent, fail) {
                    Ok(res) => ingest_v4(m0, lines, continent, fail) == Ok::<
                        _,
                        (int, FileFailKind),
                    >((res.0, warnings@.len() + res.1)),
                    Err(f) => ingest_v4(m0, lines, continent, fail) == Err::<
                        (Seq<(int, int, Continent)>, int),
                        _,
                    >((i + f.0, f.1)),
                }
            }),
        decreases n - i,
    {
        let tlen = toks[i].len();
        let end = if tlen > 0 && toks[i][tlen - 1] == 13 {
            tlen - 1
        } else {
            tlen
        };
        let line = crate::bytes::subrange_vec(toks[i].as_slice(), 0, end);
        proof {
            assert(line@ =~= strip_cr(sdv[i as int]));
            assert(lines.skip(i as int)[0] == lines[i as int]);
            assert(lines.skip(i as int).drop_first() =~= lines.skip(i as int + 1));
        }
        let ghost pre = tree@;
        let step = ingest_line_v4(tree, line, continent, overlaps_strategy);
        proof {
            lemma_ingest_v4_head(pre, lines.skip(i as int), continent, fail);
            assert(seq![lines.skip(i as int)[0]] =~= seq![strip_cr(sdv[i as int])]);
        }
        match step {
            Err(e) => {
                proof {
                    assert(lines[i as int] == strip_cr(sdv[i as int]));
                }
                return Err(e);
            },
            Ok(Some(w)) => {
                warnings.push(w);
            },
            Ok(None) => {
                count += 1;
            },
        }
        i += 1;
    }
    proof {
        assert(lines.skip(n as int) =~= Seq::<Seq<u8>>::empty());
        assert(ingest_v4(m0, lines, continent, fail) == Ok::<_, (int, FileFailKind)>(
            (tree@, warnings@.len() as int),
        ));
    }
    if count == 0 {
        return Err(RipeGeoFileError::EmptyFile);
    }
    Ok(warnings)
}

/// Ingest one file of IPv6 records into the read-write map.
#[verifier::rlimit(100)]
#[verifier::spinoff_prover]
#[verifier::loop_isolation(false)]
fn insert_file_v6(
    tree: &mut IntervalBTreeMap<u128, Continent>,
    contents: &[u8],
    continent: Continent,
    overlaps_strategy: RipeGeoOverlapsStrategy,
) -> (r: Result<Vec<RipeGeoFileError>, RipeGeoFileError>)
    requires
        old(tree).wf(),
        sizes_pow2_v6(old(tree)@),
    ensures
        final(tree).wf(),
        sizes_pow2_v6(final(tree)@),
        ({
            let lines = file_lines(contents@);
            let fail = overlaps_strategy is Fail;
            match r {
                Ok(warnings) => ingest_file_v6(old(tree)@, lines, continent, fail) matches Ok(res)
                    && final(tree)@ == res.0 && warnings@.len() == res.1 && (forall|i: int|
                    0 <= i < warnings@.len() ==> (#[trigger] warnings@[i]) is OverlappedRecord),
                Err(e) => ingest_file_v6(old(tree)@, lines, continent, fail) matches Err(f)
                    && file_error_matches_v6(e, lines, f.0, f.1),
            }
        }),
{
    let ghost m0 = old(tree)@;
    let ghost lines = file_lines(contents@);
    let ghost fail = overlaps_strategy is Fail;
    let toks = split_bytes_exec(contents, 10);
    let ghost sdv = split_bytes(contents@, 10);
    proof {
        crate::bytes::lemma_split_tokens(contents@, 10);
        assert forall|k: int| 0 <= k < sdv.len() implies sdv[k] == toks@[k]@ by {
            assert(sdv[k] =~= toks@[k]@);
        }
    }
    let mut n = toks.len();
    if toks[n - 1].len() == 0 {
        n = n - 1;
    }
    proof {
        assert(lines.len() == n);
        assert(forall|k: int| 0 <= k < n ==> lines[k] == strip_cr(#[trigger] sdv[k]));
    }
    let mut warnings: Vec<RipeGeoFileError> = Vec::new();
    let mut count: usize = 0;
    let mut i: usize = 0;
    proof {
        assert(lines.skip(0) =~= lines);
    }
    while i < n
        invariant
            0 <= i <= n,
            n <= toks@.len(),
            toks@.len() == sdv.len(),
            sdv == split_bytes(contents@, 10),
            forall|k: int| 0 <= k < sdv.len() ==> sdv[k] == toks@[k]@,
            lines == file_lines(contents@),
            lines.len() == n,
            forall|k: int| 0 <= k < n ==> lines[k] == strip_cr(#[trigger] sdv[k]),
            tree.wf(),
            sizes_pow2_v6(tree@),
            count + warnings@.len() == i,
            forall|k: int|
                0 <= k < warnings@.len() ==> (#[trigger] warnings@[k]) is OverlappedRecord,
            fail == (overlaps_strategy is Fail),
            ({
                match ingest_v6(tree@, lines.skip(i as int), continent, fail) {
                    Ok(res) => ingest_v6(m0, lines, continent, fail) == Ok::<
                        _,
                        (int, FileFailKind),
                    >((res.0, warnings@.len() + res.1)),
                    Err(f) => ingest_v6(m0, lines, continent, fail) == Err::<
                        (Seq<(int, int, Continent)>, int),
                        _,
                    >((i + f.0, f.1)),
                }
            }),
        decreases n - i,
    {
        let tlen = toks[i].len();
        let end = if tlen > 0 && toks[i][tlen - 1] == 13 {
            tlen - 1
        } else {
            tlen
        };
        let line = crate::bytes::subrange_vec(toks[i].as_slice(), 0, end);
        proof {
            assert(line@ =~= strip_cr(sdv[i as int]));
            assert(lines.skip(i as int)[0] == lines[i as int]);
            assert(lines.skip(i as int).drop_first() =~= lines.skip(i as int + 1));
        }
        let ghost pre = tree@;
        let step = ingest_line_v6(tree, line, continent, overlaps_strategy);
        proof {
            lemma_ingest_v6_head(pre, lines.skip(i as int), continent, fail);
            assert(seq![lines.skip(i as int)[0]] =~= seq![strip_cr(sdv[i as int])]);
        }
        match step {
            Err(e) => {
                proof {
                    assert(lines[i as int] == strip_cr(sdv[i as int]));
                }
                return Err(e);
            },
            Ok(Some(w)) => {
                warnings.push(w);
            },
            Ok(None) => {
                count += 1;
            },
        }
        i += 1;
    }
    proof {
        assert(lines.skip(n as int) =~= Seq::<Seq<u8>>::empty());
        assert(ingest_v6(m0, lines, continent, fail) == Ok::<_, (int, FileFailKind)>(
            (tree@, warnings@.len() as int),
        ));
    }
    if count == 0 {
        return Err(RipeGeoFileError::EmptyFile);
    }
    Ok(warnings)
}

/// The ripe-geo data: one read-only interval map per address family.
#[derive(Debug)]
pub struct RipeGeoImpl {
    ipv4: IntervalVec<u32, Continent>,
    ipv6: IntervalVec<u128, Continent>,
}

impl RipeGeoImpl {
    /// The IPv4 interval map in the mathematical model.
    pub closed spec fn v4_map(self) -> Seq<(int, int, Continent)> {
        self.ipv4@
    }

    /// The IPv6 interval map in the mathematical model.
    pub closed spec fn v6_map(self) -> Seq<(int, int, Continent)> {
        self.ipv6@
    }

    /// Both maps are well-formed interval sequences.
    pub closed spec fn wf(self) -> bool {
        self.ipv4.wf() && self.ipv6.wf()
    }

    pub broadcast proof fn lemma_wf_maps(self)
        requires
            #[trigger] self.wf(),
        ensures
            intervals_wf(self.v4_map()),
            intervals_wf(self.v6_map()),
    {
    }
}

/// What a lookup in a ripe-geo map pair answers: the value of the
/// containing interval of the address family, or continent-unknown.
pub open spec fn ripe_lookup(g: RipeGeoImpl, a: crate::ip::IpAddress) -> Result<
    Continent,
    crate::geo::GeoError,
> {
    match a {
        crate::ip::IpAddress::V4(x) => match interval_lookup(g.v4_map(), x as int) {
            Some(c) => Ok(c),
            None => Err(crate::geo::GeoError::ContinentUnknown),
        },
        crate::ip::IpAddress::V6(x) => match interval_lookup(g.v6_map(), x as int) {
            Some(c) => Ok(c),
            None => Err(crate::geo::GeoError::ContinentUnknown),
        },
    }
}

/// The view of the input files: path text and contents per file.
pub open spec fn files_view(fs: Seq<(String, Vec<u8>)>) -> Seq<(Seq<char>, Seq<u8>)> {
    Seq::new(fs.len(), |i: int| (fs[i].0@, fs[i].1@))
}

/// The twelve required continent and family pairs, in file order.
pub open spec fn all_pairs() -> Seq<(Continent, IpType)> {
    seq![
        (Continent::Africa, IpType::V4),
        (Continent::Africa, IpType::V6),
        (Continent::Asia, IpType::V4),
        (Continent::Asia, IpType::V6),
        (Continent::Europe, IpType::V4),
        (Continent::Europe, IpType::V6),
        (Continent::NorthAmerica, IpType::V4),
        (Continent::NorthAmerica, IpType::V6),
        (Continent::Oceania, IpType::V4),
        (Continent::Oceania, IpType::V6),
        (Continent::SouthAmerica, IpType::V4),
        (Continent::SouthAmerica, IpType::V6),
    ]
}

/// The pairs a complete data set must cover: the six real continents,
/// each in both families.
pub open spec fn required_pairs() -> Set<(Continent, IpType)> {
    all_pairs().to_set()
}

/// The fold over the file list: recognized file names feed their
/// family's map and mark their pair seen; other files are skipped. An
/// error names the failing file by index.
pub open spec fn spec_build_from(
    m4: Seq<(int, int, Continent)>,
    m6: Seq<(int, int, Continent)>,
    seen: Set<(Continent, IpType)>,
    files: Seq<(Seq<char>, Seq<u8>)>,
    fail_on_overlap: bool,
) -> Result<
    (Seq<(int, int, Continent)>, Seq<(int, int, Continent)>, Set<(Continent, IpType)>),
    (int, int, FileFailKind),
>
    decreases files.len(),
{
    if files.len() == 0 {
        Ok((m4, m6, seen))
    } else {
        match parse_path_spec(files[0].0) {
            None => match spec_build_from(m4, m6, seen, files.drop_first(), fail_on_overlap) {
                Ok(r) => Ok(r),
                Err(e) => Err((e.0 + 1, e.1, e.2)),
            },
            Some(cf) => {
                if cf.1 is V4 {
                    match ingest_file_v4(m4, file_lines(files[0].1), cf.0, fail_on_overlap) {
                        Err(f) => Err((0, f.0, f.1)),
                        Ok(r) => match spec_build_from(
                            r.0,
                            m6,
                            seen.insert(cf),
                            files.drop_first(),
                            fail_on_overlap,
                        ) {
                            Ok(r2) => Ok(r2),
                            Err(e) => Err((e.0 + 1, e.1, e.2)),
                        },
                    }
                } else {
                    match ingest_file_v6(m6, file_lines(files[0].1), cf.0, fail_on_overlap) {
                        Err(f) => Err((0, f.0, f.1)),
                        Ok(r) => match spec_build_from(
                            m4,
                            r.0,
                            seen.insert(cf),
                            files.drop_first(),
                            fail_on_overlap,
                        ) {
                            Ok(r2) => Ok(r2),
                            Err(e) => Err((e.0 + 1, e.1, e.2)),
                        },
                    }
                }
            },
        }
    }
}

/// What a build result means, shared by every build entry point.
pub open spec fn build_result_matches(
    r: Result<RipeGeoImpl, RipeGeoDataError>,
    fv: Seq<(Seq<char>, Seq<u8>)>,
    fail_on_overlap: bool,
) -> bool {
    match r {
        Ok(rg) => spec_build_from(
            Seq::empty(),
            Seq::empty(),
            Set::empty(),
            fv,
            fail_on_overlap,
        ) matches Ok(res) && rg.v4_map() == res.0 && rg.v6_map() == res.1
            && required_pairs().subset_of(res.2) && rg.wf(),
        Err(RipeGeoDataError::MissingFiles(missing)) => spec_build_from(
            Seq::empty(),
            Seq::empty(),
            Set::empty(),
            fv,
            fail_on_overlap,
        ) matches Ok(res) && !required_pairs().subset_of(res.2) && missing@ == all_pairs().filter(
            |p: (Continent, IpType)| !res.2.contains(p),
        ),
        Err(RipeGeoDataError::FileCorrupted { path, error }) => spec_build_from(
            Seq::empty(),
            Seq::empty(),
            Set::empty(),
            fv,
            fail_on_overlap,
        ) matches Err(f) && 0 <= f.0 < fv.len() && path@ == fv[f.0].0 && (
        parse_path_spec(fv[f.0].0) matches Some(cf) && (if cf.1 is V4 {
            file_error_matches_v4(error, file_lines(fv[f.0].1), f.1, f.2)
        } else {
            file_error_matches_v6(error, file_lines(fv[f.0].1), f.1, f.2)
        })),
        Err(RipeGeoDataError::ArchiveRead) => false,
    }
}


/// The fixed list of continent and family pairs as values.
fn all_pairs_exec() -> (r: Vec<(Continent, IpType)>)
    ensures
        r@ == all_pairs(),
{
    let mut v: Vec<(Continent, IpType)> = Vec::new();
    v.push((Continent::Africa, IpType::V4));
    v.push((Continent::Africa, IpType::V6));
    v.push((Continent::Asia, IpType::V4));
    v.push((Continent::Asia, IpType::V6));
    v.push((Continent::Europe, IpType::V4));
    v.push((Continent::Europe, IpType::V6));
    v.push((Continent::NorthAmerica, IpType::V4));
    v.push((Continent::NorthAmerica, IpType::V6));
    v.push((Continent::Oceania, IpType::V4));
    v.push((Continent::Oceania, IpType::V6));
    v.push((Continent::SouthAmerica, IpType::V4));
    v.push((Continent::SouthAmerica, IpType::V6));
    proof {
        assert(v@ =~= all_pairs());
    }
    v
}

/// A stable index for each continent, used by the coverage flags.
pub open spec fn continent_index_spec(c: Continent) -> int {
    match c {
        Continent::Africa => 0,
        Continent::Asia => 1,
        Continent::Europe => 2,
        Continent::NorthAmerica => 3,
        Continent::Oceania => 4,
        Continent::SouthAmerica => 5,
        Continent::Antarctica => 6,
        Continent::Default => 7,
    }
}

fn continent_index(c: Continent) -> (r: usize)
    ensures
        r == continent_index_spec(c),
        r < 8,
{
    match c {
        Continent::Africa => 0,
        Continent::Asia => 1,
        Continent::Europe => 2,
        Continent::NorthAmerica => 3,
        Continent::Oceania => 4,
        Continent::SouthAmerica => 5,
        Continent::Antarctica => 6,
        Continent::Default => 7,
    }
}

/// The flag slot of a continent and family pair.
pub open spec fn pair_index_spec(p: (Continent, IpType)) -> int {
    continent_index_spec(p.0) * 2 + if p.1 is V4 {
        0int
    } else {
        1int
    }
}

impl RipeGeoImpl {
    /// Build the maps from a set of text files, each a `(path,
    /// contents)` pair. File names that do not spell a continent and
    /// family are skipped; every real continent must appear in both
    /// families; one bad file aborts the whole build.
    #[verifier::rlimit(100)]
    #[verifier::spinoff_prover]
    pub fn from_text_files(
        files: &Vec<(String, Vec<u8>)>,
        overlaps_strategy: RipeGeoOverlapsStrategy,
    ) -> (r: Result<RipeGeoImpl, RipeGeoDataError>)
        ensures
            build_result_matches(r, files_view(files@), overlaps_strategy is Fail),
    {
        let ghost fv = files_view(files@);
        let ghost fail = overlaps_strategy is Fail;
        let mut tree4: IntervalBTreeMap<u32, Continent> = IntervalBTreeMap::new();
        let mut tree6: IntervalBTreeMap<u128, Continent> = IntervalBTreeMap::new();
        let mut flags: Vec<bool> = Vec::new();
        let mut fi: usize = 0;
        while fi < 16
            invariant
                flags@.len() == fi <= 16,
                forall|k: int| 0 <= k < fi ==> !(#[trigger] flags@[k]),
            decreases 16 - fi,
        {
            flags.push(false);
            fi += 1;
        }
        let ghost seen0 = Set::<(Continent, IpType)>::empty();
        let mut i: usize = 0;
        proof {
            assert(fv.skip(0) =~= fv);
        }
        let ghost mut seen = seen0;
        while i < files.len()
            invariant
                0 <= i <= files@.len(),
                fv == files_view(files@),
                fail == (overlaps_strategy is Fail),
                seen0 == Set::<(Continent, IpType)>::empty(),
                fv.len() == files@.len(),
                tree4.wf(),
                tree6.wf(),
                sizes_pow2_v4(tree4@),
                sizes_pow2_v6(tree6@),
                flags@.len() == 16,
                forall|p: (Continent, IpType)|
                    #![trigger seen.contains(p)]
                    0 <= pair_index_spec(p) < 16 && (seen.contains(p) <==> flags@[pair_index_spec(
                        p,
                    )]),
                ({
                    match spec_build_from(tree4@, tree6@, seen, fv.skip(i as int), fail) {
                        Ok(res) => spec_build_from(Seq::empty(), Seq::empty(), seen0, fv, fail)
                            == Ok::<_, (int, int, FileFailKind)>(res),
                        Err(e) => spec_build_from(Seq::empty(), Seq::empty(), seen0, fv, fail)
                            == Err::<
                            (
                                Seq<(int, int, Continent)>,
                                Seq<(int, int, Continent)>,
                                Set<(Continent, IpType)>,
                            ),
                            (int, int, FileFailKind),
                        >((i + e.0, e.1, e.2)),
                    }
                }),
            decreases files@.len() - i,
        {
            proof {
                assert(fv.skip(i as int)[0] == fv[i as int]);
                assert(fv.skip(i as int).drop_first() =~= fv.skip(i as int + 1));
            }
            let path: &String = &files[i].0;
            match parse_path(path.as_str()) {
                None => {},
                Some((c, f)) => {
                    let res = match f {
                        IpType::V4 => insert_file_v4(
                            &mut tree4,
                            files[i].1.as_slice(),
                            c,
                            overlaps_strategy,
                        ),
                        IpType::V6 => insert_file_v6(
                            &mut tree6,
                            files[i].1.as_slice(),
                            c,
                            overlaps_strategy,
                        ),
                    };
                    match res {
                        Err(e) => {
                            return Err(
                                RipeGeoDataError::FileCorrupted { path: path.clone(), error: e },
                            );
                        },
                        Ok(_) => {
                            let ci = continent_index(c);
                            let slot = ci * 2 + match f {
                                IpType::V4 => 0usize,
                                IpType::V6 => 1usize,
                            };
                            flags[slot] = true;
                            proof {
                                seen = seen.insert((c, f));
                                assert forall|p: (Continent, IpType)|
                                    0 <= pair_index_spec(p) < 16 && (seen.contains(p)
                                        <==> flags@[pair_index_spec(p)]) by {
                                    if p != (c, f) {
                                        assert(pair_index_spec(p) != pair_index_spec((c, f)));
                                    }
                                }
                            }
                        },
                    }
                },
            }
            i += 1;
        }
        proof {
            assert(fv.skip(fv.len() as int) =~= Seq::<(Seq<char>, Seq<u8>)>::empty());
        }
        // Every required pair must have been seen.
        let pairs = all_pairs_exec();
        let mut missing: Vec<(Continent, IpType)> = Vec::new();
        let mut k: usize = 0;
        while k < pairs.len()
            invariant
                0 <= k <= pairs@.len(),
                pairs@ == all_pairs(),
                fv == files_view(files@),
                fail == (overlaps_strategy is Fail),
                seen0 == Set::<(Continent, IpType)>::empty(),
                ({
                    match spec_build_from(tree4@, tree6@, seen, fv.skip(fv.len() as int), fail) {
                        Ok(res) => spec_build_from(Seq::empty(), Seq::empty(), seen0, fv, fail)
                            == Ok::<_, (int, int, FileFailKind)>(res),
                        Err(e) => spec_build_from(Seq::empty(), Seq::empty(), seen0, fv, fail)
                            == Err::<
                            (
                                Seq<(int, int, Continent)>,
                                Seq<(int, int, Continent)>,
                                Set<(Continent, IpType)>,
                            ),
                            (int, int, FileFailKind),
                        >((fv.len() + e.0, e.1, e.2)),
                    }
                }),
                tree4.wf(),
                tree6.wf(),
                sizes_pow2_v4(tree4@),
                sizes_pow2_v6(tree6@),
                flags@.len() == 16,
                forall|p: (Continent, IpType)|
                    #![trigger seen.contains(p)]
                    0 <= pair_index_spec(p) < 16 && (seen.contains(p) <==> flags@[pair_index_spec(
                        p,
                    )]),
                missing@ == all_pairs().take(k as int).filter(
                    |p: (Continent, IpType)| !seen.contains(p),
                ),
            decreases pairs@.len() - k,
        {
            let (c, f) = pairs[k];
            let slot = continent_index(c) * 2 + match f {
                IpType::V4 => 0usize,
                IpType::V6 => 1usize,
            };
            let ghost before = missing@;
            if !flags[slot] {
                missing.push((c, f));
            }
            proof {
                assert(all_pairs().take(k as int + 1).drop_last() =~= all_pairs().take(k as int));
                assert(all_pairs().take(k as int + 1).last() == all_pairs()[k as int]);
                reveal(Seq::filter);
            }
            k += 1;
        }
        proof {
            assert(all_pairs().take(all_pairs().len() as int) =~= all_pairs());
        }
        if missing.len() > 0 {
            proof {
                let pred = |p: (Continent, IpType)| !seen.contains(p);
                assert(all_pairs().filter(pred)[0] == missing@[0]);
                all_pairs().lemma_filter_pred(pred, 0);
                assert(!seen.contains(missing@[0]));
                assert(required_pairs().contains(missing@[0])) by {
                    lemma_filter_subset(all_pairs(), pred, 0);
                }
                assert(!required_pairs().subset_of(seen));
            }
            return Err(RipeGeoDataError::MissingFiles(missing));
        }
        proof {
            assert(required_pairs().subset_of(seen)) by {
                assert forall|p: (Continent, IpType)| required_pairs().contains(p) implies
                    seen.contains(p) by {
                    let j = choose|j: int| 0 <= j < all_pairs().len() && all_pairs()[j] == p;
                    if !seen.contains(p) {
                        let pred = |q: (Continent, IpType)| !seen.contains(q);
                        all_pairs().lemma_filter_contains(pred, j);
                        assert(false);
                    }
                }
            }
        }
        Ok(RipeGeoImpl { ipv4: tree4.into_interval_vec(), ipv6: tree6.into_interval_vec() })
    }
}


/// Every element of a filtered sequence is an element of the original.
proof fn lemma_filter_subset<A>(s: Seq<A>, pred: spec_fn(A) -> bool, i: int)
    requires
        0 <= i < s.filter(pred).len(),
    ensures
        s.contains(s.filter(pred)[i]),
    decreases s.len(),
{
    reveal(Seq::filter);
    if s.len() > 0 {
        let sub = s.drop_last().filter(pred);
        if pred(s.last()) {
            if i < sub.len() {
                lemma_filter_subset(s.drop_last(), pred, i);
                let j = choose|j: int|
                    0 <= j < s.drop_last().len() && s.drop_last()[j] == sub[i];
                assert(s[j] == sub[i]);
            } else {
                assert(s.filter(pred)[i] == s.last());
                assert(s[s.len() - 1] == s.last());
            }
        } else {
            lemma_filter_subset(s.drop_last(), pred, i);
            let j = choose|j: int|
                0 <= j < s.drop_last().len() && s.drop_last()[j] == s.filter(pred)[i];
            assert(s[j] == s.filter(pred)[i]);
        }
    }
}

impl RipeGeoImpl {
    /// Look up the continent of an address in the family's map.
    pub fn try_lookup_continent(&self, address: crate::ip::IpAddress) -> (r: Result<
        Continent,
        crate::geo::GeoError,
    >)
        requires
            self.wf(),
        ensures
            r == ripe_lookup(*self, address),
    {
        let found: Option<&Continent> = match address {
            crate::ip::IpAddress::V4(x) => self.ipv4.get(x),
            crate::ip::IpAddress::V6(x) => self.ipv6.get(x),
        };
        match found {
            Some(c) => Ok(*c),
            None => Err(crate::geo::GeoError::ContinentUnknown),
        }
    }

    /// Take the maps apart in their read-write representation.
    pub fn into_interval_btree_maps(self) -> (r: (
        IntervalBTreeMap<u32, Continent>,
        IntervalBTreeMap<u128, Continent>,
    ))
        requires
            self.wf(),
        ensures
            r.0@ == self.v4_map(),
            r.1@ == self.v6_map(),
            r.0.wf(),
            r.1.wf(),
    {
        (self.ipv4.into_interval_btree_map(), self.ipv6.into_interval_btree_map())
    }

    /// Take the maps apart in their read-only representation.
    pub fn into_interval_vecs(self) -> (r: (
        IntervalVec<u32, Continent>,
        IntervalVec<u128, Continent>,
    ))
        requires
            self.wf(),
        ensures
            r.0@ == self.v4_map(),
            r.1@ == self.v6_map(),
            r.0.wf(),
            r.1.wf(),
    {
        (self.ipv4, self.ipv6)
    }

    /// Take the maps apart behind the representation-agnostic wrapper,
    /// in the read-only representation.
    pub fn into_intervals(self) -> (r: (
        crate::intervals::Intervals<u32, Continent>,
        crate::intervals::Intervals<u128, Continent>,
    ))
        requires
            self.wf(),
        ensures
            r.0@ == self.v4_map(),
            r.1@ == self.v6_map(),
            r.0.wf(),
            r.1.wf(),
            r.0 is Ro,
            r.1 is Ro,
    {
        (crate::intervals::Intervals::Ro(self.ipv4), crate::intervals::Intervals::Ro(self.ipv6))
    }
}

/// The lock invariant of the hot-swappable maps: whatever pair is
/// behind the lock is well-formed.
pub open spec fn ripe_geo_lock_inv() -> spec_fn(RipeGeoImpl) -> bool {
    |g: RipeGeoImpl| g.wf()
}

/// The ripe-geo provider: the current maps behind a reader-writer
/// lock, so the updater can atomically swap in a freshly parsed pair
/// while lookups keep reading the pair they acquired — one pair or the
/// other, never a mixture.
pub struct RipeGeo {
    inner: vstd::rwlock::RwLock<RipeGeoImpl, spec_fn(RipeGeoImpl) -> bool>,
    overlaps_strategy: RipeGeoOverlapsStrategy,
}

impl RipeGeo {
    /// Every value the lock can hand out is a well-formed map pair.
    pub closed spec fn wf(self) -> bool {
        forall|g: RipeGeoImpl| #[trigger] self.inner.inv(g) <==> g.wf()
    }

    /// The overlap strategy the provider was built with, kept for the
    /// updater task's rebuilds.
    pub closed spec fn strategy(self) -> RipeGeoOverlapsStrategy {
        self.overlaps_strategy
    }

    /// Wrap a built map pair.
    pub fn from_impl(value: RipeGeoImpl, overlaps_strategy: RipeGeoOverlapsStrategy) -> (r:
        RipeGeo)
        requires
            value.wf(),
        ensures
            r.wf(),
            r.strategy() == overlaps_strategy,
    {
        RipeGeo {
            inner: vstd::rwlock::RwLock::new(value, Ghost(ripe_geo_lock_inv())),
            overlaps_strategy,
        }
    }

    /// Read the overlap strategy.
    pub fn overlaps_strategy(&self) -> (r: RipeGeoOverlapsStrategy)
        ensures
            r == self.strategy(),
    {
        self.overlaps_strategy
    }

    /// Look up the continent of an address in the current maps. The
    /// answer is the interval lookup in one well-formed pair — the pair
    /// the read lock handed out, never a mixture of two.
    pub fn try_lookup_continent(&self, address: crate::ip::IpAddress) -> (r: Result<
        Continent,
        crate::geo::GeoError,
    >)
        requires
            self.wf(),
        ensures
            exists|g: RipeGeoImpl| #![auto] g.wf() && r == ripe_lookup(g, address),
    {
        let handle = self.inner.acquire_read();
        let current = handle.borrow();
        let ghost snapshot = *current;
        let r = current.try_lookup_continent(address);
        handle.release_read();
        proof {
            assert(snapshot.wf() && r == ripe_lookup(snapshot, address));
        }
        r
    }

    /// Swap a freshly built map pair in, atomically with respect to
    /// lookups: the writer lock is held only for the move itself.
    pub fn replace(&self, value: RipeGeoImpl)
        requires
            self.wf(),
            value.wf(),
    {
        let (old_value, write_handle) = self.inner.acquire_write();
        write_handle.release_write(value);
    }
}

/// What decompressing a gzip stream yields, as a function of the
/// compressed bytes alone; nothing when the stream is not valid gzip.
pub uninterp spec fn gunzip_of(bytes: Seq<u8>) -> Option<Seq<u8>>;

/// Relies on `flate2::bufread::GzDecoder`: decompressing a gzip byte
/// stream is a function of those bytes alone, failing on malformed
/// input.
#[verifier::external_body]
fn gunzip(bytes: &[u8]) -> (r: Option<Vec<u8>>)
    ensures
        match r {
            Some(v) => gunzip_of(bytes@) == Some(v@),
            None => gunzip_of(bytes@) is None,
        },
{
    let mut out = Vec::new();
    let mut decoder = flate2::bufread::GzDecoder::new(bytes);
    match std::io::Read::read_to_end(&mut decoder, &mut out) {
        Ok(_) => Some(out),
        Err(_) => None,
    }
}

/// What unpacking a tar archive yields: the path and contents of each
/// entry in order, as a function of the archive bytes alone; nothing
/// when the archive is malformed.
pub uninterp spec fn tar_entries_of(bytes: Seq<u8>) -> Option<Seq<(Seq<char>, Seq<u8>)>>;

/// Relies on `tar::Archive`: iterating the entries of a tar archive
/// held in memory is a function of the archive bytes alone.
#[verifier::external_body]
fn untar(bytes: &[u8]) -> (r: Option<Vec<(String, Vec<u8>)>>)
    ensures
        match r {
            Some(v) => tar_entries_of(bytes@) == Some(files_view(v@)),
            None => tar_entries_of(bytes@) is None,
        },
{
    let mut out: Vec<(String, Vec<u8>)> = Vec::new();
    let mut archive = tar::Archive::new(bytes);
    for entry in archive.entries().ok()? {
        let mut entry = entry.ok()?;
        let path = entry.path().ok()?.to_string_lossy().into_owned();
        let mut contents = Vec::new();
        std::io::Read::read_to_end(&mut entry, &mut contents).ok()?;
        out.push((path, contents));
    }
    Some(out)
}

impl RipeGeoImpl {
    /// Build the maps from a downloaded gzip'd tar archive of the
    /// ripe-geo layout. The download itself is input/output and happens
    /// outside the library; this takes the archive bytes.
    pub fn from_archive_bytes(
        bytes: &[u8],
        overlaps_strategy: RipeGeoOverlapsStrategy,
    ) -> (r: Result<RipeGeoImpl, RipeGeoDataError>)
        ensures
            match gunzip_of(bytes@) {
                None => r == Err::<RipeGeoImpl, _>(RipeGeoDataError::ArchiveRead),
                Some(tb) => match tar_entries_of(tb) {
                    None => r == Err::<RipeGeoImpl, _>(RipeGeoDataError::ArchiveRead),
                    Some(files) => build_result_matches(r, files, overlaps_strategy is Fail),
                },
            },
    {
        let unpacked = match gunzip(bytes) {
            Some(v) => v,
            None => {
                return Err(RipeGeoDataError::ArchiveRead);
            },
        };
        let files = match untar(unpacked.as_slice()) {
            Some(v) => v,
            None => {
                return Err(RipeGeoDataError::ArchiveRead);
            },
        };
        Self::from_text_files(&files, overlaps_strategy)
    }
}

/// One step of following a download's redirects: what to do with a
/// response while fetching the archive.
#[derive(Debug, PartialEq, Eq)]
pub enum FetchStep {
    /// A success status: the body is the archive.
    Done,
    /// A redirection with a location and attempts left: fetch there.
    Follow(String),
    /// Anything else, a redirect without a location, or attempts
    /// exhausted: give up.
    GiveUp,
}

/// Decide one step of the redirect-following download loop.
pub fn redirect_step(
    status: u16,
    location: Option<String>,
    attempt: usize,
    max_attempts: usize,
) -> (r: FetchStep)
    ensures
        200 <= status < 300 ==> r == FetchStep::Done,
        !(200 <= status < 300) && (300 <= status < 400) && location is Some && attempt + 1
            < max_attempts ==> r == FetchStep::Follow(location->0),
        !(200 <= status < 300) && !(300 <= status < 400 && location is Some && attempt + 1
            < max_attempts) ==> r == FetchStep::GiveUp,
{
    if 200 <= status && status < 300 {
        FetchStep::Done
    } else if 300 <= status && status < 400 {
        match location {
            Some(l) => {
                if max_attempts > 0 && attempt < max_attempts - 1 {
                    FetchStep::Follow(l)
                } else {
                    FetchStep::GiveUp
                }
            },
            None => FetchStep::GiveUp,
        }
    } else {
        FetchStep::GiveUp
    }
}

} // verus!
