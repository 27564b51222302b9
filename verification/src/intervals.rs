//! Non-overlapping interval containers over unsigned integer key spaces.
//!
//! An interval map stores disjoint half-open intervals `[key, key + size)`
//! and answers point lookups. Two representations exist: a read-write
//! variant ([`IntervalBTreeMap`]) kept sorted by key for ingest, and a
//! read-only variant ([`IntervalVec`]) of parallel sorted arrays for the
//! query path. Both are modelled by the same mathematical view: the sorted
//! sequence of `(key, size, value)` triples with keys and sizes as
//! unbounded integers.

use vstd::prelude::*;

verus! {

/// Key types an interval map can be built over: copyable values embedded
/// in the unbounded integers, with executable order and window tests.
pub trait IntervalKey: Sized + Copy {
    /// The mathematical value of the key.
    spec fn key_int(self) -> int;

    /// `self <= other` in key order.
    fn key_le(self, other: Self) -> (r: bool)
        ensures
            r == (self.key_int() <= other.key_int()),
    ;

    /// `self < base + size` over the unbounded integers, so that interval
    /// ends may reach past the largest key without wrapping around.
    fn below_end(self, base: Self, size: Self) -> (r: bool)
        requires
            size.key_int() >= 0,
        ensures
            r == (self.key_int() < base.key_int() + size.key_int()),
    ;
}

impl IntervalKey for u32 {
    open spec fn key_int(self) -> int {
        self as int
    }

    fn key_le(self, other: Self) -> (r: bool)
        ensures
            r == (self.key_int() <= other.key_int()),
    {
        self <= other
    }

    fn below_end(self, base: Self, size: Self) -> (r: bool)
        ensures
            r == (self.key_int() < base.key_int() + size.key_int()),
    {
        (self as u64) < (base as u64) + (size as u64)
    }
}

impl IntervalKey for u128 {
    open spec fn key_int(self) -> int {
        self as int
    }

    fn key_le(self, other: Self) -> (r: bool)
        ensures
            r == (self.key_int() <= other.key_int()),
    {
        self <= other
    }

    fn below_end(self, base: Self, size: Self) -> (r: bool)
        ensures
            r == (self.key_int() < base.key_int() + size.key_int()),
    {
        if self < base {
            true
        } else {
            self - base < size
        }
    }
}

impl IntervalKey for i64 {
    open spec fn key_int(self) -> int {
        self as int
    }

    fn key_le(self, other: Self) -> (r: bool)
        ensures
            r == (self.key_int() <= other.key_int()),
    {
        self <= other
    }

    fn below_end(self, base: Self, size: Self) -> (r: bool)
        ensures
            r == (self.key_int() < base.key_int() + size.key_int()),
    {
        (self as i128) < (base as i128) + (size as i128)
    }
}

/// One stored interval in the mathematical model: `(key, size, value)`.
pub open spec fn interval_contains<V>(e: (int, int, V), q: int) -> bool {
    e.0 <= q < e.0 + e.1
}

/// The half-open ranges `[k1, k1 + s1)` and `[k2, k2 + s2)` intersect.
pub open spec fn ranges_overlap(k1: int, s1: int, k2: int, s2: int) -> bool {
    k1 < k2 + s2 && k2 < k1 + s1
}

/// Well-formedness of an interval sequence: every size is at least one,
/// and the entries are sorted with pairwise disjoint ranges.
pub open spec fn intervals_wf<V>(s: Seq<(int, int, V)>) -> bool {
    &&& forall|i: int| 0 <= i < s.len() ==> (#[trigger] s[i]).1 >= 1
    &&& forall|i: int, j: int|
        0 <= i < j < s.len() ==> (#[trigger] s[i]).0 + s[i].1 <= (#[trigger] s[j]).0
}

/// Point lookup in the model: the value of the first entry containing `q`.
pub open spec fn interval_lookup<V>(s: Seq<(int, int, V)>, q: int) -> Option<V>
    decreases s.len(),
{
    if s.len() == 0 {
        None
    } else if interval_contains(s[0], q) {
        Some(s[0].2)
    } else {
        interval_lookup(s.drop_first(), q)
    }
}

/// Like [`interval_lookup`], but returning the identity `(key, size)` of
/// the containing interval.
pub open spec fn interval_lookup_entry<V>(s: Seq<(int, int, V)>, q: int) -> Option<(int, int)>
    decreases s.len(),
{
    if s.len() == 0 {
        None
    } else if interval_contains(s[0], q) {
        Some((s[0].0, s[0].1))
    } else {
        interval_lookup_entry(s.drop_first(), q)
    }
}

/// Some stored interval contains the point `q`.
pub open spec fn interval_covers<V>(s: Seq<(int, int, V)>, q: int) -> bool {
    exists|i: int| 0 <= i < s.len() && interval_contains(#[trigger] s[i], q)
}

/// The first entry whose key falls inside the window `[k, k + sz)`.
pub open spec fn first_in_window<V>(s: Seq<(int, int, V)>, k: int, sz: int) -> Option<(int, int)>
    decreases s.len(),
{
    if s.len() == 0 {
        None
    } else if k <= s[0].0 < k + sz {
        Some((s[0].0, s[0].1))
    } else {
        first_in_window(s.drop_first(), k, sz)
    }
}

/// What `overlapped_by` returns: the interval containing `k` if there is
/// one, otherwise the smallest-keyed interval starting inside `[k, k + sz)`.
pub open spec fn overlapped_by_spec<V>(s: Seq<(int, int, V)>, k: int, sz: int) -> Option<
    (int, int),
> {
    match interval_lookup_entry(s, k) {
        Some(e) => Some(e),
        None => first_in_window(s, k, sz),
    }
}

/// Insertion into the model, keeping the sequence sorted by key.
pub open spec fn seq_insert_sorted<V>(s: Seq<(int, int, V)>, e: (int, int, V)) -> Seq<
    (int, int, V),
>
    decreases s.len(),
{
    if s.len() == 0 {
        seq![e]
    } else if e.0 <= s[0].0 {
        seq![e] + s
    } else {
        seq![s[0]] + seq_insert_sorted(s.drop_first(), e)
    }
}

/// A point is contained in some entry iff the entry lookup succeeds.
pub proof fn lemma_lookup_entry_covers<V>(s: Seq<(int, int, V)>, q: int)
    ensures
        interval_lookup_entry(s, q) is Some <==> interval_covers(s, q),
        interval_lookup(s, q) is Some <==> interval_covers(s, q),
    decreases s.len(),
{
    if s.len() == 0 {
    } else if interval_contains(s[0], q) {
        assert(interval_covers(s, q));
    } else {
        lemma_lookup_entry_covers(s.drop_first(), q);
        if interval_covers(s.drop_first(), q) {
            let i = choose|i: int|
                0 <= i < s.drop_first().len() && interval_contains(#[trigger] s.drop_first()[i], q);
            assert(interval_contains(s[i + 1], q));
        }
        if interval_covers(s, q) {
            let i = choose|i: int| 0 <= i < s.len() && interval_contains(#[trigger] s[i], q);
            assert(i >= 1 && interval_contains(s.drop_first()[i - 1], q));
        }
    }
}

/// Lookup correctness, the positive half: in a well-formed sequence the
/// entry containing a point determines the lookup result.
pub proof fn lemma_lookup_at<V>(s: Seq<(int, int, V)>, q: int, i: int)
    requires
        intervals_wf(s),
        0 <= i < s.len(),
        interval_contains(s[i], q),
    ensures
        interval_lookup(s, q) == Some(s[i].2),
        interval_lookup_entry(s, q) == Some((s[i].0, s[i].1)),
    decreases s.len(),
{
    if i == 0 {
    } else {
        // s[0] ends at or before s[i].0 <= q, so it cannot contain q.
        assert(s[0].0 + s[0].1 <= s[i].0);
        assert(intervals_wf(s.drop_first())) by {
            assert forall|a: int, b: int|
                0 <= a < b < s.drop_first().len() implies (#[trigger] s.drop_first()[a]).0
                + s.drop_first()[a].1 <= (#[trigger] s.drop_first()[b]).0 by {
                assert(s.drop_first()[a] == s[a + 1] && s.drop_first()[b] == s[b + 1]);
            }
            assert forall|a: int|
                0 <= a < s.drop_first().len() implies (#[trigger] s.drop_first()[a]).1 >= 1 by {
                assert(s.drop_first()[a] == s[a + 1]);
            }
        }
        assert(s.drop_first()[i - 1] == s[i]);
        lemma_lookup_at(s.drop_first(), q, i - 1);
    }
}

/// The negative half of the entry lookup: nothing contains the point.
pub proof fn lemma_lookup_none<V>(s: Seq<(int, int, V)>, q: int)
    requires
        forall|i: int| 0 <= i < s.len() ==> !interval_contains(#[trigger] s[i], q),
    ensures
        interval_lookup(s, q) is None,
        interval_lookup_entry(s, q) is None,
{
    lemma_lookup_entry_covers(s, q);
}

/// `first_in_window` finds exactly the first entry keyed inside the window.
pub proof fn lemma_first_in_window_at<V>(s: Seq<(int, int, V)>, k: int, sz: int, p: int)
    requires
        0 <= p < s.len(),
        forall|i: int| 0 <= i < p ==> !(k <= (#[trigger] s[i]).0 < k + sz),
        k <= s[p].0 < k + sz,
    ensures
        first_in_window(s, k, sz) == Some((s[p].0, s[p].1)),
    decreases s.len(),
{
    if p == 0 {
    } else {
        assert forall|i: int| 0 <= i < p - 1 implies !(k <= (#[trigger] s.drop_first()[i]).0 < k
            + sz) by {
            assert(s.drop_first()[i] == s[i + 1]);
        }
        assert(s.drop_first()[p - 1] == s[p]);
        lemma_first_in_window_at(s.drop_first(), k, sz, p - 1);
    }
}

/// No entry keyed inside the window means `first_in_window` finds nothing.
pub proof fn lemma_first_in_window_none<V>(s: Seq<(int, int, V)>, k: int, sz: int)
    requires
        forall|i: int| 0 <= i < s.len() ==> !(k <= (#[trigger] s[i]).0 < k + sz),
    ensures
        first_in_window(s, k, sz) is None,
    decreases s.len(),
{
    if s.len() > 0 {
        assert forall|i: int|
            0 <= i < s.drop_first().len() implies !(k <= (#[trigger] s.drop_first()[i]).0 < k
            + sz) by {
            assert(s.drop_first()[i] == s[i + 1]);
        }
        lemma_first_in_window_none(s.drop_first(), k, sz);
    }
}

/// A `first_in_window` hit names a stored entry keyed inside the window.
pub proof fn lemma_first_in_window_some<V>(s: Seq<(int, int, V)>, k: int, sz: int)
    requires
        first_in_window(s, k, sz) is Some,
    ensures
        exists|i: int|
            0 <= i < s.len() && first_in_window(s, k, sz) == Some(((#[trigger] s[i]).0, s[i].1))
                && k <= s[i].0 < k + sz,
    decreases s.len(),
{
    if s.len() > 0 {
        if k <= s[0].0 < k + sz {
            assert(first_in_window(s, k, sz) == Some(((s[0]).0, s[0].1)) && k <= s[0].0 < k + sz);
        } else {
            lemma_first_in_window_some(s.drop_first(), k, sz);
            let i = choose|i: int|
                0 <= i < s.drop_first().len() && first_in_window(s.drop_first(), k, sz) == Some(
                    ((#[trigger] s.drop_first()[i]).0, s.drop_first()[i].1),
                ) && k <= s.drop_first()[i].0 < k + sz;
            assert(s[i + 1] == s.drop_first()[i]);
        }
    }
}

/// An entry lookup hit names a stored entry containing the point.
pub proof fn lemma_lookup_entry_some<V>(s: Seq<(int, int, V)>, q: int)
    requires
        interval_lookup_entry(s, q) is Some,
    ensures
        exists|i: int|
            0 <= i < s.len() && interval_lookup_entry(s, q) == Some(
                ((#[trigger] s[i]).0, s[i].1),
            ) && interval_contains(s[i], q),
    decreases s.len(),
{
    if s.len() > 0 {
        if interval_contains(s[0], q) {
            assert(interval_lookup_entry(s, q) == Some(((s[0]).0, s[0].1)) && interval_contains(
                s[0],
                q,
            ));
        } else {
            lemma_lookup_entry_some(s.drop_first(), q);
            let i = choose|i: int|
                0 <= i < s.drop_first().len() && interval_lookup_entry(s.drop_first(), q) == Some(
                    ((#[trigger] s.drop_first()[i]).0, s.drop_first()[i].1),
                ) && interval_contains(s.drop_first()[i], q);
            assert(s[i + 1] == s.drop_first()[i]);
        }
    }
}

/// The overlap test is exact: `overlapped_by_spec` finds an interval iff
/// some stored interval intersects the window `[k, k + sz)`.
pub proof fn lemma_overlapped_iff_intersects<V>(s: Seq<(int, int, V)>, k: int, sz: int)
    requires
        intervals_wf(s),
        sz >= 1,
    ensures
        overlapped_by_spec(s, k, sz) is Some <==> exists|i: int|
            0 <= i < s.len() && ranges_overlap((#[trigger] s[i]).0, s[i].1, k, sz),
{
    if overlapped_by_spec(s, k, sz) is Some {
        if interval_lookup_entry(s, k) is Some {
            lemma_lookup_entry_some(s, k);
            let i = choose|i: int|
                0 <= i < s.len() && interval_lookup_entry(s, k) == Some(
                    ((#[trigger] s[i]).0, s[i].1),
                ) && interval_contains(s[i], k);
            assert(ranges_overlap(s[i].0, s[i].1, k, sz));
        } else {
            lemma_first_in_window_some(s, k, sz);
            let i = choose|i: int|
                0 <= i < s.len() && first_in_window(s, k, sz) == Some(
                    ((#[trigger] s[i]).0, s[i].1),
                ) && k <= s[i].0 < k + sz;
            assert(ranges_overlap(s[i].0, s[i].1, k, sz));
        }
    }
    if exists|i: int| 0 <= i < s.len() && ranges_overlap((#[trigger] s[i]).0, s[i].1, k, sz) {
        let i = choose|i: int|
            0 <= i < s.len() && ranges_overlap((#[trigger] s[i]).0, s[i].1, k, sz);
        if overlapped_by_spec(s, k, sz) is None {
            lemma_lookup_entry_covers(s, k);
            if s[i].0 <= k {
                assert(interval_contains(s[i], k));
                assert(false);
            } else {
                assert(k <= s[i].0 < k + sz);
                lemma_first_in_window_at_exists(s, k, sz, i);
                assert(false);
            }
        }
    }
}

/// Helper: if any entry is keyed inside the window, `first_in_window`
/// finds one.
proof fn lemma_first_in_window_at_exists<V>(s: Seq<(int, int, V)>, k: int, sz: int, i: int)
    requires
        0 <= i < s.len(),
        k <= s[i].0 < k + sz,
    ensures
        first_in_window(s, k, sz) is Some,
    decreases s.len(),
{
    if k <= s[0].0 < k + sz {
    } else {
        assert(s.drop_first()[i - 1] == s[i]);
        lemma_first_in_window_at_exists(s.drop_first(), k, sz, i - 1);
    }
}

/// The position a new key is inserted at: the index of the first entry
/// whose key is at least `k`.
pub open spec fn sorted_pos<V>(s: Seq<(int, int, V)>, k: int) -> int
    decreases s.len(),
{
    if s.len() == 0 {
        0
    } else if k <= s[0].0 {
        0
    } else {
        1 + sorted_pos(s.drop_first(), k)
    }
}

/// `sorted_pos` is a valid index bound and splits the sequence into keys
/// below `k` and keys at least `k`.
pub proof fn lemma_sorted_pos_bounds<V>(s: Seq<(int, int, V)>, k: int)
    ensures
        0 <= sorted_pos(s, k) <= s.len(),
        forall|i: int| 0 <= i < sorted_pos(s, k) ==> (#[trigger] s[i]).0 < k,
        sorted_pos(s, k) < s.len() ==> k <= s[sorted_pos(s, k)].0,
    decreases s.len(),
{
    if s.len() == 0 || k <= s[0].0 {
    } else {
        lemma_sorted_pos_bounds(s.drop_first(), k);
        assert forall|i: int| 0 <= i < sorted_pos(s, k) implies (#[trigger] s[i]).0 < k by {
            if i >= 1 {
                assert(s[i] == s.drop_first()[i - 1]);
            }
        }
        if sorted_pos(s, k) < s.len() {
            assert(s[sorted_pos(s, k)] == s.drop_first()[sorted_pos(s, k) - 1]);
        }
    }
}

/// Any index with the `sorted_pos` split properties is `sorted_pos`.
pub proof fn lemma_sorted_pos_unique<V>(s: Seq<(int, int, V)>, k: int, p: int)
    requires
        0 <= p <= s.len(),
        forall|i: int| 0 <= i < p ==> (#[trigger] s[i]).0 < k,
        p < s.len() ==> k <= s[p].0,
    ensures
        sorted_pos(s, k) == p,
    decreases s.len(),
{
    if s.len() == 0 {
    } else if k <= s[0].0 {
        if p > 0 {
            assert(s[0].0 < k);
        }
    } else {
        assert(p >= 1);
        assert forall|i: int| 0 <= i < p - 1 implies (#[trigger] s.drop_first()[i]).0 < k by {
            assert(s.drop_first()[i] == s[i + 1]);
        }
        if p - 1 < s.drop_first().len() {
            assert(s.drop_first()[p - 1] == s[p]);
        }
        lemma_sorted_pos_unique(s.drop_first(), k, p - 1);
    }
}

/// The sorted insertion is the split at `sorted_pos` with the new entry
/// in the middle.
pub proof fn lemma_seq_insert_sorted_split<V>(s: Seq<(int, int, V)>, e: (int, int, V))
    ensures
        seq_insert_sorted(s, e) == s.take(sorted_pos(s, e.0)) + seq![e] + s.skip(
            sorted_pos(s, e.0),
        ),
    decreases s.len(),
{
    let p = sorted_pos(s, e.0);
    lemma_sorted_pos_bounds(s, e.0);
    if s.len() == 0 {
        assert(seq_insert_sorted(s, e) =~= s.take(p) + seq![e] + s.skip(p));
    } else if e.0 <= s[0].0 {
        assert(seq_insert_sorted(s, e) =~= s.take(0) + seq![e] + s.skip(0));
    } else {
        lemma_seq_insert_sorted_split(s.drop_first(), e);
        let d = s.drop_first();
        let q = sorted_pos(d, e.0);
        assert(seq_insert_sorted(s, e) == seq![s[0]] + (d.take(q) + seq![e] + d.skip(q)));
        assert(seq![s[0]] + (d.take(q) + seq![e] + d.skip(q)) =~= s.take(p) + seq![e] + s.skip(p));
    }
}

/// Inserting a non-overlapping interval preserves well-formedness.
pub proof fn lemma_insert_wf<V>(s: Seq<(int, int, V)>, k: int, sz: int, v: V)
    requires
        intervals_wf(s),
        sz >= 1,
        forall|i: int| 0 <= i < s.len() ==> !ranges_overlap((#[trigger] s[i]).0, s[i].1, k, sz),
    ensures
        intervals_wf(seq_insert_sorted(s, (k, sz, v))),
{
    let e = (k, sz, v);
    let p = sorted_pos(s, k);
    let t = seq_insert_sorted(s, e);
    lemma_sorted_pos_bounds(s, k);
    lemma_seq_insert_sorted_split(s, e);
    // Entries keyed below k end at or before k; entries keyed at or
    // above k start at or after k + sz.
    assert forall|i: int| 0 <= i < s.len() && (#[trigger] s[i]).0 < k implies s[i].0 + s[i].1
        <= k by {
        assert(!ranges_overlap(s[i].0, s[i].1, k, sz));
    }
    assert forall|i: int| 0 <= i < s.len() && (#[trigger] s[i]).0 >= k implies k + sz <= s[i].0 by {
        assert(!ranges_overlap(s[i].0, s[i].1, k, sz));
        assert(s[i].1 >= 1);
    }
    assert forall|i: int| 0 <= i < t.len() implies (#[trigger] t[i]).1 >= 1 by {
        if i < p {
            assert(t[i] == s[i]);
        } else if i == p {
        } else {
            assert(t[i] == s[i - 1]);
        }
    }
    assert forall|i: int, j: int| 0 <= i < j < t.len() implies (#[trigger] t[i]).0 + t[i].1 <= (
    #[trigger] t[j]).0 by {
        if i < p {
            assert(t[i] == s[i]);
        } else if i == p {
            assert(t[i] == e);
        } else {
            assert(t[i] == s[i - 1]);
        }
        if j < p {
            assert(t[j] == s[j]);
        } else if j == p {
            assert(t[j] == e);
        } else {
            assert(t[j] == s[j - 1]);
        }
    }
}

/// How a point lookup changes under insertion: points inside the new
/// interval see the new value, all others see what they saw before.
pub proof fn lemma_insert_lookup<V>(s: Seq<(int, int, V)>, k: int, sz: int, v: V, q: int)
    requires
        intervals_wf(s),
        sz >= 1,
        forall|i: int| 0 <= i < s.len() ==> !ranges_overlap((#[trigger] s[i]).0, s[i].1, k, sz),
    ensures
        interval_lookup(seq_insert_sorted(s, (k, sz, v)), q) == if k <= q < k + sz {
            Some(v)
        } else {
            interval_lookup(s, q)
        },
{
    let e = (k, sz, v);
    let p = sorted_pos(s, k);
    let t = seq_insert_sorted(s, e);
    lemma_sorted_pos_bounds(s, k);
    lemma_seq_insert_sorted_split(s, e);
    lemma_insert_wf(s, k, sz, v);
    if k <= q < k + sz {
        assert(t[p] == e);
        lemma_lookup_at(t, q, p);
    } else {
        lemma_lookup_entry_covers(s, q);
        lemma_lookup_entry_covers(t, q);
        if interval_covers(s, q) {
            let i = choose|i: int| 0 <= i < s.len() && interval_contains(#[trigger] s[i], q);
            lemma_lookup_at(s, q, i);
            let i2 = if i < p {
                i
            } else {
                i + 1
            };
            assert(t[i2] == s[i]);
            lemma_lookup_at(t, q, i2);
        } else {
            assert forall|i: int| 0 <= i < t.len() implies !interval_contains(
                #[trigger] t[i],
                q,
            ) by {
                if i < p {
                    assert(t[i] == s[i]);
                } else if i == p {
                    assert(t[i] == e);
                } else {
                    assert(t[i] == s[i - 1]);
                }
            }
            lemma_lookup_none(t, q);
            lemma_lookup_none(s, q);
        }
    }
}

/// The interval a rejected insert collided with.
#[derive(Debug, Clone, Copy, PartialEq, Eq)]
pub struct OccupiedError<K> {
    pub key: K,
    pub size: K,
}

/// The read-write interval map: entries kept sorted by key, insertion
/// with overlap detection, point lookup by binary search.
#[derive(Debug, Clone)]
pub struct IntervalBTreeMap<K, V> {
    entries: Vec<(K, K, V)>,
}

impl<K: IntervalKey, V> View for IntervalBTreeMap<K, V> {
    type V = Seq<(int, int, V)>;

    closed spec fn view(&self) -> Seq<(int, int, V)> {
        Seq::new(
            self.entries@.len(),
            |i: int|
                (self.entries@[i].0.key_int(), self.entries@[i].1.key_int(), self.entries@[i].2),
        )
    }
}

impl<K: IntervalKey, V> IntervalBTreeMap<K, V> {
    /// The container invariant: the stored intervals are sorted and
    /// pairwise disjoint, with sizes of at least one.
    pub open spec fn wf(&self) -> bool {
        intervals_wf(self@)
    }

    pub fn new() -> (r: Self)
        ensures
            r@ =~= Seq::<(int, int, V)>::empty(),
            r.wf(),
    {
        IntervalBTreeMap { entries: Vec::new() }
    }

    pub fn len(&self) -> (r: usize)
        ensures
            r == self@.len(),
    {
        self.entries.len()
    }

    pub fn is_empty(&self) -> (r: bool)
        ensures
            r == (self@.len() == 0),
    {
        self.entries.len() == 0
    }

    pub fn clear(&mut self)
        ensures
            final(self)@ =~= Seq::<(int, int, V)>::empty(),
            final(self).wf(),
    {
        self.entries.clear();
    }

    /// The index of the first entry whose key is at least `key`.
    fn lower_bound(&self, key: K) -> (r: usize)
        requires
            self.wf(),
        ensures
            0 <= r <= self@.len(),
            forall|i: int| 0 <= i < r ==> (#[trigger] self@[i]).0 < key.key_int(),
            r < self@.len() ==> key.key_int() <= self@[r as int].0,
    {
        let mut lo: usize = 0;
        let mut hi: usize = self.entries.len();
        while lo < hi
            invariant
                0 <= lo <= hi <= self.entries.len(),
                self.wf(),
                hi <= self@.len(),
                self@.len() == self.entries@.len(),
                forall|i: int| 0 <= i < lo ==> (#[trigger] self@[i]).0 < key.key_int(),
                forall|i: int| hi <= i < self@.len() ==> key.key_int() <= (#[trigger] self@[i]).0,
            decreases hi - lo,
        {
            let mid = lo + (hi - lo) / 2;
            let mid_key = self.entries[mid].0;
            assert(self@[mid as int].0 == mid_key.key_int());
            if key.key_le(mid_key) {
                hi = mid;
            } else {
                assert forall|i: int| 0 <= i < mid + 1 implies (#[trigger] self@[i]).0
                    < key.key_int() by {
                    if lo <= i < mid {
                        assert(self@[i].0 + self@[i].1 <= self@[mid as int].0);
                        assert(self@[i].1 >= 1);
                    }
                }
                lo = mid + 1;
            }
        }
        lo
    }

    /// Point lookup returning the identity `(key, size)` of the interval
    /// containing `key`, if any.
    pub fn get_key_size(&self, key: K) -> (r: Option<(K, K)>)
        requires
            self.wf(),
        ensures
            match r {
                Some(e) => interval_lookup_entry(self@, key.key_int()) == Some(
                    (e.0.key_int(), e.1.key_int()),
                ),
                None => interval_lookup_entry(self@, key.key_int()) is None,
            },
    {
        let q = Ghost(key.key_int());
        let lb = self.lower_bound(key);
        // An exact key hit is at index lb; otherwise the candidate is the
        // predecessor entry at lb - 1.
        if lb < self.entries.len() && self.entries[lb].0.key_le(key) {
            let (k0, s0, _) = self.entries[lb];
            proof {
                assert(self@[lb as int].0 == q@);
                assert(interval_contains(self@[lb as int], q@));
                lemma_lookup_at(self@, q@, lb as int);
            }
            return Some((k0, s0));
        }
        if lb == 0 {
            proof {
                assert forall|i: int| 0 <= i < self@.len() implies !interval_contains(
                    #[trigger] self@[i],
                    q@,
                ) by {}
                lemma_lookup_none(self@, q@);
            }
            return None;
        }
        let i = lb - 1;
        let (k0, s0, _) = self.entries[i];
        proof {
            assert(self@[i as int] == (k0.key_int(), s0.key_int(), self.entries@[i as int].2));
            assert(self@[i as int].1 >= 1);
        }
        if key.below_end(k0, s0) {
            proof {
                assert(interval_contains(self@[i as int], q@));
                lemma_lookup_at(self@, q@, i as int);
            }
            Some((k0, s0))
        } else {
            proof {
                assert forall|j: int| 0 <= j < self@.len() implies !interval_contains(
                    #[trigger] self@[j],
                    q@,
                ) by {
                    if j < i {
                        assert(self@[j].0 + self@[j].1 <= self@[i as int].0);
                    }
                }
                lemma_lookup_none(self@, q@);
            }
            None
        }
    }

    /// Point lookup: the value of the interval containing `key`.
    pub fn get(&self, key: K) -> (r: Option<&V>)
        requires
            self.wf(),
        ensures
            match r {
                Some(v) => interval_lookup(self@, key.key_int()) == Some(*v),
                None => interval_lookup(self@, key.key_int()) is None,
            },
    {
        let q = Ghost(key.key_int());
        let lb = self.lower_bound(key);
        if lb < self.entries.len() && self.entries[lb].0.key_le(key) {
            proof {
                assert(interval_contains(self@[lb as int], q@));
                lemma_lookup_at(self@, q@, lb as int);
            }
            return Some(&self.entries[lb].2);
        }
        if lb == 0 {
            proof {
                assert forall|i: int| 0 <= i < self@.len() implies !interval_contains(
                    #[trigger] self@[i],
                    q@,
                ) by {}
                lemma_lookup_none(self@, q@);
            }
            return None;
        }
        let i = lb - 1;
        let (k0, s0, _) = self.entries[i];
        proof {
            assert(self@[i as int] == (k0.key_int(), s0.key_int(), self.entries@[i as int].2));
            assert(self@[i as int].1 >= 1);
        }
        if key.below_end(k0, s0) {
            proof {
                assert(interval_contains(self@[i as int], q@));
                lemma_lookup_at(self@, q@, i as int);
            }
            Some(&self.entries[i].2)
        } else {
            proof {
                assert forall|j: int| 0 <= j < self@.len() implies !interval_contains(
                    #[trigger] self@[j],
                    q@,
                ) by {
                    if j < i {
                        assert(self@[j].0 + self@[j].1 <= self@[i as int].0);
                    }
                }
                lemma_lookup_none(self@, q@);
            }
            None
        }
    }

    /// Whether some stored interval contains `key`.
    pub fn contains(&self, key: K) -> (r: bool)
        requires
            self.wf(),
        ensures
            r == interval_covers(self@, key.key_int()),
    {
        proof {
            lemma_lookup_entry_covers(self@, key.key_int());
        }
        self.get(key).is_some()
    }

    /// The leftmost stored interval overlapping `[key, key + size)`: the
    /// one containing `key` if any, else the smallest-keyed interval
    /// starting inside the window.
    pub fn overlapped_by(&self, key: K, size: K) -> (r: Option<(K, K)>)
        requires
            self.wf(),
            size.key_int() >= 1,
        ensures
            match r {
                Some(e) => overlapped_by_spec(self@, key.key_int(), size.key_int()) == Some(
                    (e.0.key_int(), e.1.key_int()),
                ),
                None => overlapped_by_spec(self@, key.key_int(), size.key_int()) is None,
            },
    {
        let q = Ghost(key.key_int());
        let w = Ghost(size.key_int());
        if let Some(e) = self.get_key_size(key) {
            return Some(e);
        }
        let lb = self.lower_bound(key);
        if lb < self.entries.len() {
            let (k0, s0, _) = self.entries[lb];
            if k0.below_end(key, size) {
                proof {
                    assert(q@ <= self@[lb as int].0 < q@ + w@);
                    lemma_first_in_window_at(self@, q@, w@, lb as int);
                }
                return Some((k0, s0));
            }
            proof {
                assert forall|i: int| 0 <= i < self@.len() implies !(q@ <= (
                #[trigger] self@[i]).0 < q@ + w@) by {
                    if i > lb {
                        assert(self@[lb as int].0 + self@[lb as int].1 <= self@[i].0);
                        assert(self@[lb as int].1 >= 1);
                    }
                }
                lemma_first_in_window_none(self@, q@, w@);
            }
            None
        } else {
            proof {
                assert forall|i: int| 0 <= i < self@.len() implies !(q@ <= (
                #[trigger] self@[i]).0 < q@ + w@) by {}
                lemma_first_in_window_none(self@, q@, w@);
            }
            None
        }
    }

    /// Whether the window `[key, key + size)` intersects a stored interval.
    pub fn overlaps(&self, key: K, size: K) -> (r: bool)
        requires
            self.wf(),
            size.key_int() >= 1,
        ensures
            r == exists|i: int|
                0 <= i < self@.len() && ranges_overlap(
                    (#[trigger] self@[i]).0,
                    self@[i].1,
                    key.key_int(),
                    size.key_int(),
                ),
    {
        proof {
            lemma_overlapped_iff_intersects(self@, key.key_int(), size.key_int());
        }
        self.overlapped_by(key, size).is_some()
    }

    /// Insert `[key, key + size) -> value`. Succeeds iff no stored
    /// interval overlaps the new one; on overlap returns the leftmost
    /// overlapping interval and leaves the map unchanged.
    pub fn try_insert(&mut self, key: K, size: K, value: V) -> (r: Result<
        (),
        OccupiedError<K>,
    >)
        requires
            old(self).wf(),
            size.key_int() >= 1,
        ensures
            final(self).wf(),
            match r {
                Ok(_) => overlapped_by_spec(old(self)@, key.key_int(), size.key_int()) is None
                    && final(self)@ == seq_insert_sorted(
                    old(self)@,
                    (key.key_int(), size.key_int(), value),
                ),
                Err(e) => final(self)@ == old(self)@ && overlapped_by_spec(
                    old(self)@,
                    key.key_int(),
                    size.key_int(),
                ) == Some((e.key.key_int(), e.size.key_int())),
            },
    {
        if let Some((k0, s0)) = self.overlapped_by(key, size) {
            return Err(OccupiedError { key: k0, size: s0 });
        }
        let ghost s0 = self@;
        let ghost e = (key.key_int(), size.key_int(), value);
        let p = self.lower_bound(key);
        self.entries.insert(p, (key, size, value));
        proof {
            lemma_sorted_pos_unique(s0, e.0, p as int);
            lemma_seq_insert_sorted_split(s0, e);
            assert(self@ =~= s0.take(p as int) + seq![e] + s0.skip(p as int)) by {
                assert(self.entries@ == old(self).entries@.insert(p as int, (key, size, value)));
                assert forall|i: int| 0 <= i < self@.len() implies self@[i] == (s0.take(p as int)
                    + seq![e] + s0.skip(p as int))[i] by {
                    if i < p {
                        assert(self.entries@[i] == old(self).entries@[i]);
                    } else if i == p {
                    } else {
                        assert(self.entries@[i] == old(self).entries@[i - 1]);
                    }
                }
            }
            lemma_overlapped_iff_intersects(s0, e.0, e.1);
            lemma_insert_wf(s0, e.0, e.1, value);
        }
        Ok(())
    }
}

/// The read-only interval map: a pair of parallel arrays sorted by key,
/// answering point lookups by binary search.
#[derive(Debug, Clone)]
pub struct IntervalVec<K, V> {
    keys: Vec<K>,
    sizes_values: Vec<(K, V)>,
}

impl<K: IntervalKey, V> View for IntervalVec<K, V> {
    type V = Seq<(int, int, V)>;

    closed spec fn view(&self) -> Seq<(int, int, V)> {
        Seq::new(
            self.keys@.len(),
            |i: int|
                (
                    self.keys@[i].key_int(),
                    self.sizes_values@[i].0.key_int(),
                    self.sizes_values@[i].1,
                ),
        )
    }
}

impl<K: IntervalKey, V> IntervalVec<K, V> {
    /// The container invariant: parallel arrays of one length, sorted and
    /// pairwise disjoint intervals with sizes of at least one.
    pub open spec fn wf(&self) -> bool {
        self.arrays_parallel() && intervals_wf(self@)
    }

    /// The two arrays hold one entry per interval.
    pub closed spec fn arrays_parallel(&self) -> bool {
        self.keys@.len() == self.sizes_values@.len()
    }

    pub fn len(&self) -> (r: usize)
        requires
            self.wf(),
        ensures
            r == self@.len(),
    {
        self.keys.len()
    }

    pub fn is_empty(&self) -> (r: bool)
        requires
            self.wf(),
        ensures
            r == (self@.len() == 0),
    {
        self.keys.len() == 0
    }

    /// The index of the first entry whose key is at least `key`.
    fn lower_bound(&self, key: K) -> (r: usize)
        requires
            self.wf(),
        ensures
            0 <= r <= self@.len(),
            forall|i: int| 0 <= i < r ==> (#[trigger] self@[i]).0 < key.key_int(),
            r < self@.len() ==> key.key_int() <= self@[r as int].0,
    {
        let mut lo: usize = 0;
        let mut hi: usize = self.keys.len();
        while lo < hi
            invariant
                0 <= lo <= hi <= self.keys.len(),
                self.wf(),
                self@.len() == self.keys@.len(),
                forall|i: int| 0 <= i < lo ==> (#[trigger] self@[i]).0 < key.key_int(),
                forall|i: int| hi <= i < self@.len() ==> key.key_int() <= (#[trigger] self@[i]).0,
            decreases hi - lo,
        {
            let mid = lo + (hi - lo) / 2;
            let mid_key = self.keys[mid];
            assert(self@[mid as int].0 == mid_key.key_int());
            if key.key_le(mid_key) {
                hi = mid;
            } else {
                assert forall|i: int| 0 <= i < mid + 1 implies (#[trigger] self@[i]).0
                    < key.key_int() by {
                    if lo <= i < mid {
                        assert(self@[i].0 + self@[i].1 <= self@[mid as int].0);
                        assert(self@[i].1 >= 1);
                    }
                }
                lo = mid + 1;
            }
        }
        lo
    }

    /// Point lookup: the value of the interval containing `key`.
    pub fn get(&self, key: K) -> (r: Option<&V>)
        requires
            self.wf(),
        ensures
            match r {
                Some(v) => interval_lookup(self@, key.key_int()) == Some(*v),
                None => interval_lookup(self@, key.key_int()) is None,
            },
    {
        let q = Ghost(key.key_int());
        let lb = self.lower_bound(key);
        if lb < self.keys.len() && self.keys[lb].key_le(key) {
            proof {
                assert(interval_contains(self@[lb as int], q@));
                lemma_lookup_at(self@, q@, lb as int);
            }
            return Some(&self.sizes_values[lb].1);
        }
        if lb == 0 {
            proof {
                assert forall|i: int| 0 <= i < self@.len() implies !interval_contains(
                    #[trigger] self@[i],
                    q@,
                ) by {}
                lemma_lookup_none(self@, q@);
            }
            return None;
        }
        let i = lb - 1;
        let k0 = self.keys[i];
        let s0 = self.sizes_values[i].0;
        proof {
            assert(self@[i as int] == (k0.key_int(), s0.key_int(), self.sizes_values@[i as int].1));
            assert(self@[i as int].1 >= 1);
        }
        if key.below_end(k0, s0) {
            proof {
                assert(interval_contains(self@[i as int], q@));
                lemma_lookup_at(self@, q@, i as int);
            }
            Some(&self.sizes_values[i].1)
        } else {
            proof {
                assert forall|j: int| 0 <= j < self@.len() implies !interval_contains(
                    #[trigger] self@[j],
                    q@,
                ) by {
                    if j < i {
                        assert(self@[j].0 + self@[j].1 <= self@[i as int].0);
                    }
                }
                lemma_lookup_none(self@, q@);
            }
            None
        }
    }

    /// Whether some stored interval contains `key`.
    pub fn contains(&self, key: K) -> (r: bool)
        requires
            self.wf(),
        ensures
            r == interval_covers(self@, key.key_int()),
    {
        proof {
            lemma_lookup_entry_covers(self@, key.key_int());
        }
        self.get(key).is_some()
    }

    /// Point lookup returning the identity `(key, size)` of the interval
    /// containing `key`, if any.
    pub fn get_key_size(&self, key: K) -> (r: Option<(K, K)>)
        requires
            self.wf(),
        ensures
            match r {
                Some(e) => interval_lookup_entry(self@, key.key_int()) == Some(
                    (e.0.key_int(), e.1.key_int()),
                ),
                None => interval_lookup_entry(self@, key.key_int()) is None,
            },
    {
        let q = Ghost(key.key_int());
        let lb = self.lower_bound(key);
        if lb < self.keys.len() && self.keys[lb].key_le(key) {
            let k0 = self.keys[lb];
            let s0 = self.sizes_values[lb].0;
            proof {
                assert(self@[lb as int].0 == k0.key_int());
                assert(interval_contains(self@[lb as int], q@));
                lemma_lookup_at(self@, q@, lb as int);
            }
            return Some((k0, s0));
        }
        if lb == 0 {
            proof {
                assert forall|i: int| 0 <= i < self@.len() implies !interval_contains(
                    #[trigger] self@[i],
                    q@,
                ) by {}
                lemma_lookup_none(self@, q@);
            }
            return None;
        }
        let i = lb - 1;
        let k0 = self.keys[i];
        let s0 = self.sizes_values[i].0;
        proof {
            assert(self@[i as int] == (k0.key_int(), s0.key_int(), self.sizes_values@[i as int].1));
            assert(self@[i as int].1 >= 1);
        }
        if key.below_end(k0, s0) {
            proof {
                assert(interval_contains(self@[i as int], q@));
                lemma_lookup_at(self@, q@, i as int);
            }
            Some((k0, s0))
        } else {
            proof {
                assert forall|j: int| 0 <= j < self@.len() implies !interval_contains(
                    #[trigger] self@[j],
                    q@,
                ) by {
                    if j < i {
                        assert(self@[j].0 + self@[j].1 <= self@[i as int].0);
                    }
                }
                lemma_lookup_none(self@, q@);
            }
            None
        }
    }
}

impl<K: IntervalKey, V> IntervalBTreeMap<K, V> {
    /// Convert to the read-only representation, preserving every interval
    /// in order.
    pub fn into_interval_vec(self) -> (r: IntervalVec<K, V>)
        requires
            self.wf(),
        ensures
            r@ == self@,
            r.wf(),
    {
        let ghost src = self@;
        let mut entries = self.entries;
        let mut keys: Vec<K> = Vec::new();
        let mut sizes_values: Vec<(K, V)> = Vec::new();
        proof {
            assert(forall|i: int|
                0 <= i < entries@.len() ==> src[i] == (
                    (#[trigger] entries@[i]).0.key_int(),
                    entries@[i].1.key_int(),
                    entries@[i].2,
                ));
        }
        while entries.len() > 0
            invariant
                keys@.len() == sizes_values@.len(),
                keys@.len() + entries@.len() == src.len(),
                forall|i: int|
                    0 <= i < keys@.len() ==> src[i] == (
                        (#[trigger] keys@[i]).key_int(),
                        sizes_values@[i].0.key_int(),
                        sizes_values@[i].1,
                    ),
                forall|i: int|
                    0 <= i < entries@.len() ==> src[keys@.len() + i] == (
                        (#[trigger] entries@[i]).0.key_int(),
                        entries@[i].1.key_int(),
                        entries@[i].2,
                    ),
            decreases entries@.len(),
        {
            let (k, s, v) = entries.remove(0);
            keys.push(k);
            sizes_values.push((s, v));
        }
        let r = IntervalVec { keys, sizes_values };
        proof {
            assert(r@ =~= src);
        }
        r
    }
}

/// The two public laws of lookup in one statement, over any well-formed
/// interval sequence: a stored interval determines the lookup result at
/// each of its points, and points outside every stored interval look up
/// to nothing.
pub proof fn lemma_lookup_correct<V>(s: Seq<(int, int, V)>, q: int)
    requires
        intervals_wf(s),
    ensures
        forall|i: int|
            0 <= i < s.len() && interval_contains(#[trigger] s[i], q) ==> interval_lookup(s, q)
                == Some(s[i].2),
        (forall|i: int| 0 <= i < s.len() ==> !interval_contains(#[trigger] s[i], q))
            ==> interval_lookup(s, q) is None,
{
    assert forall|i: int|
        0 <= i < s.len() && interval_contains(#[trigger] s[i], q) implies interval_lookup(s, q)
        == Some(s[i].2) by {
        lemma_lookup_at(s, q, i);
    }
    if forall|i: int| 0 <= i < s.len() ==> !interval_contains(#[trigger] s[i], q) {
        lemma_lookup_none(s, q);
    }
}

/// Interval disjointness: in a well-formed sequence — which every
/// successful `try_insert` preserves — distinct stored intervals never
/// intersect.
pub proof fn lemma_wf_disjoint<V>(s: Seq<(int, int, V)>)
    requires
        intervals_wf(s),
    ensures
        forall|i: int, j: int|
            0 <= i < s.len() && 0 <= j < s.len() && i != j ==> !ranges_overlap(
                (#[trigger] s[i]).0,
                s[i].1,
                (#[trigger] s[j]).0,
                s[j].1,
            ),
{
    assert forall|i: int, j: int|
        0 <= i < s.len() && 0 <= j < s.len() && i != j implies !ranges_overlap(
        (#[trigger] s[i]).0,
        s[i].1,
        (#[trigger] s[j]).0,
        s[j].1,
    ) by {
        if i < j {
            assert(s[i].0 + s[i].1 <= s[j].0);
        } else {
            assert(s[j].0 + s[j].1 <= s[i].0);
        }
    }
}

/// Read-only/read-write equivalence: a read-write map and its read-only
/// conversion give the same answer to every point lookup. Both `get`
/// methods are pinned to `interval_lookup` of the view, and conversion
/// preserves the view exactly.
pub proof fn lemma_ro_rw_equivalence<K: IntervalKey, V>(
    rw: &IntervalBTreeMap<K, V>,
    ro: &IntervalVec<K, V>,
    q: int,
)
    requires
        rw@ == ro@,
    ensures
        interval_lookup(rw@, q) == interval_lookup(ro@, q),
        interval_lookup_entry(rw@, q) == interval_lookup_entry(ro@, q),
{
}

impl<K: IntervalKey, V> IntervalVec<K, V> {
    /// Convert back to the read-write representation, preserving every
    /// interval in order.
    pub fn into_interval_btree_map(self) -> (r: IntervalBTreeMap<K, V>)
        requires
            self.wf(),
        ensures
            r@ == self@,
            r.wf(),
    {
        let ghost src = self@;
        let mut keys = self.keys;
        let mut sizes_values = self.sizes_values;
        let mut entries: Vec<(K, K, V)> = Vec::new();
        proof {
            assert(forall|i: int|
                0 <= i < sizes_values@.len() ==> src[i] == (
                    (#[trigger] keys@[i]).key_int(),
                    sizes_values@[i].0.key_int(),
                    sizes_values@[i].1,
                ));
        }
        while sizes_values.len() > 0
            invariant
                keys@.len() == sizes_values@.len() + entries@.len(),
                entries@.len() + sizes_values@.len() == src.len(),
                forall|i: int|
                    0 <= i < entries@.len() ==> src[i] == (
                        (#[trigger] entries@[i]).0.key_int(),
                        entries@[i].1.key_int(),
                        entries@[i].2,
                    ),
                forall|i: int|
                    0 <= i < sizes_values@.len() ==> src[entries@.len() + i] == (
                        keys@[entries@.len() + i].key_int(),
                        (#[trigger] sizes_values@[i]).0.key_int(),
                        sizes_values@[i].1,
                    ),
            decreases sizes_values@.len(),
        {
            let ghost old_entries = entries@;
            let ghost old_sv = sizes_values@;
            let k = keys[entries.len()];
            let (s, v) = sizes_values.remove(0);
            entries.push((k, s, v));
            proof {
                assert forall|i: int|
                    0 <= i < entries@.len() implies src[i] == (
                    (#[trigger] entries@[i]).0.key_int(),
                    entries@[i].1.key_int(),
                    entries@[i].2,
                ) by {
                    if i < entries@.len() - 1 {
                        assert(entries@[i] == old_entries[i]);
                    } else {
                        assert(entries@[i] == (k, s, v));
                        assert(old_sv[0] == (s, v));
                    }
                }
                assert forall|i: int|
                    0 <= i < sizes_values@.len() implies src[entries@.len() + i] == (
                    keys@[entries@.len() + i].key_int(),
                    (#[trigger] sizes_values@[i]).0.key_int(),
                    sizes_values@[i].1,
                ) by {
                    assert(sizes_values@[i] == old_sv[i + 1]);
                }
            }
        }
        let r = IntervalBTreeMap { entries };
        proof {
            assert(r@ =~= src);
        }
        r
    }
}

/// The interval collection in either representation: read-only for the
/// query path, read-write during ingest.
#[derive(Debug, Clone)]
pub enum Intervals<K, V> {
    Ro(IntervalVec<K, V>),
    Rw(IntervalBTreeMap<K, V>),
}

impl<K: IntervalKey, V> View for Intervals<K, V> {
    type V = Seq<(int, int, V)>;

    open spec fn view(&self) -> Seq<(int, int, V)> {
        match self {
            Intervals::Ro(x) => x@,
            Intervals::Rw(x) => x@,
        }
    }
}

impl<K: IntervalKey, V> Intervals<K, V> {
    /// The invariant of whichever representation is current.
    pub open spec fn wf(&self) -> bool {
        match self {
            Intervals::Ro(x) => x.wf(),
            Intervals::Rw(x) => x.wf(),
        }
    }

    pub fn new() -> (r: Self)
        ensures
            r@ =~= Seq::<(int, int, V)>::empty(),
            r.wf(),
            r is Rw,
    {
        Intervals::Rw(IntervalBTreeMap::new())
    }

    /// Point lookup: the value of the interval containing `key`.
    pub fn get(&self, key: K) -> (r: Option<&V>)
        requires
            self.wf(),
        ensures
            match r {
                Some(v) => interval_lookup(self@, key.key_int()) == Some(*v),
                None => interval_lookup(self@, key.key_int()) is None,
            },
    {
        match self {
            Intervals::Ro(x) => x.get(key),
            Intervals::Rw(x) => x.get(key),
        }
    }

    /// Whether some stored interval contains `key`.
    pub fn contains(&self, key: K) -> (r: bool)
        requires
            self.wf(),
        ensures
            r == interval_covers(self@, key.key_int()),
    {
        match self {
            Intervals::Ro(x) => x.contains(key),
            Intervals::Rw(x) => x.contains(key),
        }
    }

    /// Point lookup returning the identity `(key, size)` of the interval
    /// containing `key`, if any.
    pub fn get_key_size(&self, key: K) -> (r: Option<(K, K)>)
        requires
            self.wf(),
        ensures
            match r {
                Some(e) => interval_lookup_entry(self@, key.key_int()) == Some(
                    (e.0.key_int(), e.1.key_int()),
                ),
                None => interval_lookup_entry(self@, key.key_int()) is None,
            },
    {
        match self {
            Intervals::Ro(x) => x.get_key_size(key),
            Intervals::Rw(x) => x.get_key_size(key),
        }
    }

    pub fn len(&self) -> (r: usize)
        requires
            self.wf(),
        ensures
            r == self@.len(),
    {
        match self {
            Intervals::Ro(x) => x.len(),
            Intervals::Rw(x) => x.len(),
        }
    }

    pub fn is_empty(&self) -> (r: bool)
        requires
            self.wf(),
        ensures
            r == (self@.len() == 0),
    {
        match self {
            Intervals::Ro(x) => x.is_empty(),
            Intervals::Rw(x) => x.is_empty(),
        }
    }

    /// Extract the read-only representation, converting if needed.
    pub fn into_interval_vec(self) -> (r: IntervalVec<K, V>)
        requires
            self.wf(),
        ensures
            r@ == self@,
            r.wf(),
    {
        match self {
            Intervals::Ro(x) => x,
            Intervals::Rw(x) => x.into_interval_vec(),
        }
    }

    /// Extract the read-write representation, converting if needed.
    pub fn into_interval_btree_map(self) -> (r: IntervalBTreeMap<K, V>)
        requires
            self.wf(),
        ensures
            r@ == self@,
            r.wf(),
    {
        match self {
            Intervals::Ro(x) => x.into_interval_btree_map(),
            Intervals::Rw(x) => x,
        }
    }

    /// Switch to the read-only representation.
    pub fn into_ro(self) -> (r: Self)
        requires
            self.wf(),
        ensures
            r@ == self@,
            r.wf(),
            r is Ro,
    {
        match self {
            Intervals::Ro(x) => Intervals::Ro(x),
            Intervals::Rw(x) => Intervals::Ro(x.into_interval_vec()),
        }
    }

    /// Switch to the read-write representation.
    pub fn into_rw(self) -> (r: Self)
        requires
            self.wf(),
        ensures
            r@ == self@,
            r.wf(),
            r is Rw,
    {
        match self {
            Intervals::Ro(x) => Intervals::Rw(x.into_interval_btree_map()),
            Intervals::Rw(x) => Intervals::Rw(x),
        }
    }
}

} // verus!
