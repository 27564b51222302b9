//! The non-overlapping interval tree used by the ripe-geo ingest path.
//!
//! [`IntervalTreeMap`] carries the same contract as
//! [`crate::intervals::IntervalBTreeMap`] and is backed by it; it exists
//! as the stand-alone ingest container, while the `intervals` module adds
//! the read-only representation and the conversions between the two.

use crate::intervals::{
    interval_covers, interval_lookup, interval_lookup_entry, intervals_wf, overlapped_by_spec,
    ranges_overlap, seq_insert_sorted, IntervalBTreeMap, IntervalKey,
};
use vstd::prelude::*;

pub use crate::intervals::OccupiedError;

verus! {

/// A non-overlapping interval tree: disjoint half-open intervals
/// `[key, key + size)` mapped to values, with overlap-checked insertion
/// and point lookup.
#[derive(Debug, Clone)]
pub struct IntervalTreeMap<K, V> {
    inner: IntervalBTreeMap<K, V>,
}

impl<K: IntervalKey, V> View for IntervalTreeMap<K, V> {
    type V = Seq<(int, int, V)>;

    closed spec fn view(&self) -> Seq<(int, int, V)> {
        self.inner@
    }
}

impl<K: IntervalKey, V> IntervalTreeMap<K, V> {
    /// The container invariant: the stored intervals are sorted and
    /// pairwise disjoint, with sizes of at least one.
    pub open spec fn wf(&self) -> bool {
        intervals_wf(self@)
    }

    pub fn new() -> (r: Self)
        ensures
            r@ =~= Seq::<(int, int, V)>::empty(),
            r.wf(),
    {
        IntervalTreeMap { inner: IntervalBTreeMap::new() }
    }

    pub fn len(&self) -> (r: usize)
        ensures
            r == self@.len(),
    {
        self.inner.len()
    }

    pub fn is_empty(&self) -> (r: bool)
        ensures
            r == (self@.len() == 0),
    {
        self.inner.is_empty()
    }

    pub fn clear(&mut self)
        ensures
            final(self)@ =~= Seq::<(int, int, V)>::empty(),
            final(self).wf(),
    {
        self.inner.clear();
    }

    /// Point lookup: the value of the interval containing `key`.
    pub fn get(&self, key: K) -> (r: Option<&V>)
        requires
            self.wf(),
        ensures
            match r {
                Some(v) => interval_lookup(self@, key.key_int()) == Some(*v),
                None => interval_lookup(self@, key.key_int()) is None,
            },
    {
        self.inner.get(key)
    }

    /// Whether some stored interval contains `key`.
    pub fn contains(&self, key: K) -> (r: bool)
        requires
            self.wf(),
        ensures
            r == interval_covers(self@, key.key_int()),
    {
        self.inner.contains(key)
    }

    /// Point lookup returning the identity `(key, size)` of the interval
    /// containing `key`, if any.
    pub fn get_key_size(&self, key: K) -> (r: Option<(K, K)>)
        requires
            self.wf(),
        ensures
            match r {
                Some(e) => interval_lookup_entry(self@, key.key_int()) == Some(
                    (e.0.key_int(), e.1.key_int()),
                ),
                None => interval_lookup_entry(self@, key.key_int()) is None,
            },
    {
        self.inner.get_key_size(key)
    }

    /// The leftmost stored interval overlapping `[key, key + size)`.
    pub fn overlapped_by(&self, key: K, size: K) -> (r: Option<(K, K)>)
        requires
            self.wf(),
            size.key_int() >= 1,
        ensures
            match r {
                Some(e) => overlapped_by_spec(self@, key.key_int(), size.key_int()) == Some(
                    (e.0.key_int(), e.1.key_int()),
                ),
                None => overlapped_by_spec(self@, key.key_int(), size.key_int()) is None,
            },
    {
        self.inner.overlapped_by(key, size)
    }

    /// Whether the window `[key, key + size)` intersects a stored interval.
    pub fn overlaps(&self, key: K, size: K) -> (r: bool)
        requires
            self.wf(),
            size.key_int() >= 1,
        ensures
            r == exists|i: int|
                0 <= i < self@.len() && ranges_overlap(
                    (#[trigger] self@[i]).0,
                    self@[i].1,
                    key.key_int(),
                    size.key_int(),
                ),
    {
        self.inner.overlaps(key, size)
    }

    /// Insert `[key, key + size) -> value`. Succeeds iff no stored
    /// interval overlaps the new one; on overlap returns the leftmost
    /// overlapping interval and leaves the map unchanged.
    pub fn try_insert(&mut self, key: K, size: K, value: V) -> (r: Result<(), OccupiedError<K>>)
        requires
            old(self).wf(),
            size.key_int() >= 1,
        ensures
            final(self).wf(),
            match r {
                Ok(_) => overlapped_by_spec(old(self)@, key.key_int(), size.key_int()) is None
                    && final(self)@ == seq_insert_sorted(
                    old(self)@,
                    (key.key_int(), size.key_int(), value),
                ),
                Err(e) => final(self)@ == old(self)@ && overlapped_by_spec(
                    old(self)@,
                    key.key_int(),
                    size.key_int(),
                ) == Some((e.key.key_int(), e.size.key_int())),
            },
    {
        self.inner.try_insert(key, size, value)
    }
}

} // verus!
