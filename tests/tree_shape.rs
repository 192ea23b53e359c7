use bplustree::{BPlusTreeMap, Bound};

#[test]
fn five_keys_split_into_two_leaves() {
    let mut m = BPlusTreeMap::new(4).unwrap();
    for i in 1..=5u64 {
        m.insert(i, i);
    }
    assert_eq!(m.len(), 5);
    assert_eq!(m.leaf_count(), 2);
    assert_eq!(m.height(), 1);
}

#[test]
fn removing_three_merges_back_to_one_leaf() {
    let mut m = BPlusTreeMap::new(4).unwrap();
    for i in 1..=5u64 {
        m.insert(i, i);
    }
    for i in 1..=3u64 {
        m.remove(&i);
    }
    assert_eq!(m.len(), 2);
    assert_eq!(m.leaf_count(), 1);
    assert_eq!(m.height(), 0);
}

#[test]
fn new_map_has_height_zero() {
    let m: BPlusTreeMap<u64, u64> = BPlusTreeMap::new(8).unwrap();
    assert_eq!(m.height(), 0);
    assert_eq!(m.leaf_count(), 1);
}

#[test]
fn sequential_fill_keeps_leaves_half_full() {
    let mut m = BPlusTreeMap::new(4).unwrap();
    for i in 0..1000u64 {
        m.insert(i, i);
    }
    // Every leaf holds between 2 and 4 entries.
    assert!(m.leaf_count() * 2 <= 1000);
    assert!(m.leaf_count() * 4 >= 1000);
    assert!(m.height() >= 4);
    for i in 0..1000u64 {
        m.remove(&i);
    }
    assert_eq!(m.height(), 0);
    assert_eq!(m.leaf_count(), 1);
}

#[test]
fn length_equals_full_iteration_count() {
    let mut m = BPlusTreeMap::new(4).unwrap();
    for i in 0..777u64 {
        m.insert((i * 31) % 1000, i);
    }
    let mut n = 0usize;
    let mut it = m.items();
    assert_eq!(it.size_hint(), (m.len(), Some(m.len())));
    while it.next().is_some() {
        n += 1;
    }
    assert_eq!(it.size_hint().0, 0);
    assert_eq!(n, m.len());
    let all = m.collect_range_bounds(Bound::Unbounded, Bound::Unbounded);
    assert_eq!(all.len(), m.len());
}

#[test]
fn range_cursor_has_unknown_size() {
    let mut m = BPlusTreeMap::new(4).unwrap();
    for i in 0..10u64 {
        m.insert(i, i);
    }
    let it = m.range(Bound::Included(&2), Bound::Excluded(&5));
    assert_eq!(it.size_hint(), (0, None));
    let mut keys = m.keys();
    assert_eq!(keys.size_hint(), (10, Some(10)));
    keys.next_back();
    assert_eq!(keys.size_hint(), (9, Some(9)));
}

#[test]
fn odd_capacity_still_keeps_order() {
    let mut m = BPlusTreeMap::new(5).unwrap();
    for i in (0..500i64).rev() {
        m.insert(i, -i);
    }
    for i in (0..500i64).filter(|i| i % 3 == 0) {
        assert_eq!(m.remove(&i), Some(-i));
    }
    let mut it = m.items();
    let mut prev = -1i64;
    let mut count = 0usize;
    while let Some((k, v)) = it.next() {
        assert!(*k > prev);
        assert_eq!(*v, -*k);
        assert!(k % 3 != 0);
        prev = *k;
        count += 1;
    }
    assert_eq!(count, m.len());
}
