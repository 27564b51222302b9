use geo302::intervals::IntervalBTreeMap;
use geo302::interval_tree::IntervalTreeMap;

#[test]
fn interval_tree_clear() {
    let mut interval_tree: IntervalTreeMap<i64, i64> = IntervalTreeMap::new();
    assert_eq!(interval_tree.len(), 0);
    assert!(interval_tree.is_empty());
    interval_tree.try_insert(0, 1, 0).unwrap();
    assert_eq!(interval_tree.len(), 1);
    assert!(!interval_tree.is_empty());
    interval_tree.clear();
    assert_eq!(interval_tree.len(), 0);
    assert!(interval_tree.is_empty());
}

#[test]
fn interval_tree_no_overlap() {
    let mut interval_tree: IntervalTreeMap<i64, i64> = IntervalTreeMap::new();
    interval_tree.try_insert(0, 2, 0).unwrap();
    interval_tree.try_insert(2, 2, 1).unwrap();
    interval_tree.try_insert(4, 2, 2).unwrap();

    assert_eq!(interval_tree.get(0), Some(&0));
    assert_eq!(interval_tree.get(1), Some(&0));
    assert_eq!(interval_tree.get(2), Some(&1));
    assert_eq!(interval_tree.get(3), Some(&1));
    assert_eq!(interval_tree.get(4), Some(&2));
    assert_eq!(interval_tree.get(5), Some(&2));
    assert_eq!(interval_tree.get(-1), None);
    assert_eq!(interval_tree.get(6), None);
    assert_eq!(interval_tree.get(100), None);

    assert_eq!(interval_tree.get_key_size(0), Some((0, 2)));
    assert_eq!(interval_tree.get_key_size(1), Some((0, 2)));
    assert_eq!(interval_tree.get_key_size(2), Some((2, 2)));
    assert_eq!(interval_tree.get_key_size(3), Some((2, 2)));
    assert_eq!(interval_tree.get_key_size(4), Some((4, 2)));
    assert_eq!(interval_tree.get_key_size(5), Some((4, 2)));
    assert_eq!(interval_tree.get_key_size(-1), None);
    assert_eq!(interval_tree.get_key_size(6), None);
    assert_eq!(interval_tree.get_key_size(100), None);
}

#[test]
fn interval_tree_overlaps() {
    let mut interval_tree: IntervalTreeMap<i64, i64> = IntervalTreeMap::new();
    interval_tree.try_insert(0, 2, 0).unwrap();
    interval_tree.try_insert(4, 2, 2).unwrap();
    assert!(interval_tree.overlaps(0, 1));
    assert!(interval_tree.overlaps(1, 1));
    assert!(!interval_tree.overlaps(2, 1));
    assert!(interval_tree.overlaps(5, 1));
    assert!(!interval_tree.overlaps(6, 1));
    assert!(!interval_tree.overlaps(7, 1));
    assert!(interval_tree.overlaps(1, 2));
    assert!(interval_tree.overlaps(4, 2));
    assert!(interval_tree.overlaps(4, 100));
    assert!(interval_tree.overlaps(0, 6));
}

#[test]
fn intervals_clear() {
    let mut interval_tree: IntervalBTreeMap<i64, i64> = IntervalBTreeMap::new();
    assert_eq!(interval_tree.len(), 0);
    assert!(interval_tree.is_empty());
    interval_tree.try_insert(0, 1, 0).unwrap();
    assert_eq!(interval_tree.len(), 1);
    assert!(!interval_tree.is_empty());
    interval_tree.clear();
    assert_eq!(interval_tree.len(), 0);
    assert!(interval_tree.is_empty());
}

#[test]
fn intervals_no_overlap() {
    let mut interval_tree: IntervalBTreeMap<i64, i64> = IntervalBTreeMap::new();
    interval_tree.try_insert(0, 2, 0).unwrap();
    interval_tree.try_insert(2, 2, 1).unwrap();
    interval_tree.try_insert(4, 2, 2).unwrap();

    assert_eq!(interval_tree.get(0), Some(&0));
    assert_eq!(interval_tree.get(1), Some(&0));
    assert_eq!(interval_tree.get(2), Some(&1));
    assert_eq!(interval_tree.get(3), Some(&1));
    assert_eq!(interval_tree.get(4), Some(&2));
    assert_eq!(interval_tree.get(5), Some(&2));
    assert_eq!(interval_tree.get(-1), None);
    assert_eq!(interval_tree.get(6), None);
    assert_eq!(interval_tree.get(100), None);

    assert_eq!(interval_tree.get_key_size(0), Some((0, 2)));
    assert_eq!(interval_tree.get_key_size(1), Some((0, 2)));
    assert_eq!(interval_tree.get_key_size(2), Some((2, 2)));
    assert_eq!(interval_tree.get_key_size(3), Some((2, 2)));
    assert_eq!(interval_tree.get_key_size(4), Some((4, 2)));
    assert_eq!(interval_tree.get_key_size(5), Some((4, 2)));
    assert_eq!(interval_tree.get_key_size(-1), None);
    assert_eq!(interval_tree.get_key_size(6), None);
    assert_eq!(interval_tree.get_key_size(100), None);
}

#[test]
fn intervals_overlaps() {
    let mut interval_tree: IntervalBTreeMap<i64, i64> = IntervalBTreeMap::new();
    interval_tree.try_insert(0, 2, 0).unwrap();
    interval_tree.try_insert(4, 2, 2).unwrap();
    assert!(interval_tree.overlaps(0, 1));
    assert!(interval_tree.overlaps(1, 1));
    assert!(!interval_tree.overlaps(2, 1));
    assert!(interval_tree.overlaps(5, 1));
    assert!(!interval_tree.overlaps(6, 1));
    assert!(!interval_tree.overlaps(7, 1));
    assert!(interval_tree.overlaps(1, 2));
    assert!(interval_tree.overlaps(4, 2));
    assert!(interval_tree.overlaps(4, 100));
    assert!(interval_tree.overlaps(0, 6));
}

#[test]
fn intervals_ro_rw_agree() {
    let mut rw: IntervalBTreeMap<u32, u32> = IntervalBTreeMap::new();
    rw.try_insert(10, 10, 1).unwrap();
    rw.try_insert(30, 5, 2).unwrap();
    rw.try_insert(0, 4, 3).unwrap();
    let rw_answers: Vec<Option<u32>> = (0u32..40).map(|q| rw.get(q).copied()).collect();
    let ro = rw.into_interval_vec();
    for q in 0u32..40 {
        assert_eq!(ro.get(q).copied(), rw_answers[q as usize]);
    }
    let rw2 = ro.into_interval_btree_map();
    for q in 0u32..40 {
        assert_eq!(rw2.get(q).copied(), rw_answers[q as usize]);
    }
}

#[test]
fn interval_insert_rejects_overlap() {
    let mut t: IntervalBTreeMap<u32, u32> = IntervalBTreeMap::new();
    t.try_insert(16, 16, 7).unwrap();
    let e = t.try_insert(8, 16, 8).unwrap_err();
    assert_eq!((e.key, e.size), (16, 16));
    assert_eq!(t.len(), 1);
    // The leftmost overlapping interval is reported.
    t.try_insert(48, 16, 9).unwrap();
    let e = t.try_insert(0, 64, 10).unwrap_err();
    assert_eq!((e.key, e.size), (16, 16));
}
