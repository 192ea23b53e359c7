use bplustree::{BPlusTreeError, BPlusTreeMap, Bound, Items};

fn collect_keys(mut it: Items<'_, i64, i64>) -> Vec<i64> {
    let mut out = Vec::new();
    while let Some((k, _)) = it.next() {
        out.push(*k);
    }
    out
}

fn collect_keys_back(mut it: Items<'_, i64, i64>) -> Vec<i64> {
    let mut out = Vec::new();
    while let Some((k, _)) = it.next_back() {
        out.push(*k);
    }
    out
}

fn filled(cap: usize, n: i64) -> BPlusTreeMap<i64, i64> {
    let mut m = BPlusTreeMap::new(cap).unwrap();
    for i in 0..n {
        m.insert(i, i * 10);
    }
    m
}

#[test]
fn capacity_below_four_is_refused() {
    assert_eq!(BPlusTreeMap::<i64, i64>::new(3).err(), Some(BPlusTreeError::CapacityTooSmall));
    assert_eq!(BPlusTreeMap::<i64, i64>::new(0).err(), Some(BPlusTreeError::CapacityTooSmall));
    assert!(BPlusTreeMap::<i64, i64>::new(4).is_ok());
}

#[test]
fn new_map_is_empty() {
    let m: BPlusTreeMap<i64, i64> = BPlusTreeMap::new(4).unwrap();
    assert!(m.is_empty());
    assert_eq!(m.len(), 0);
    assert!(m.first().is_none());
    assert!(m.last().is_none());
    assert!(m.get(&0).is_none());
    assert_eq!(collect_keys(m.items()), Vec::<i64>::new());
}

#[test]
fn split_at_leaf_keeps_order() {
    let mut m = BPlusTreeMap::new(4).unwrap();
    for i in 1..=5i64 {
        assert_eq!(m.insert(i, i), None);
    }
    assert_eq!(m.len(), 5);
    assert_eq!(collect_keys(m.items()), vec![1, 2, 3, 4, 5]);
    assert_eq!(collect_keys_back(m.items()), vec![5, 4, 3, 2, 1]);
    assert_eq!(m.first(), Some((&1, &1)));
    assert_eq!(m.last(), Some((&5, &5)));
}

#[test]
fn merge_at_leaf_after_removals() {
    let mut m = BPlusTreeMap::new(4).unwrap();
    for i in 1..=5i64 {
        m.insert(i, i);
    }
    assert_eq!(m.remove(&1), Some(1));
    assert_eq!(m.remove(&2), Some(2));
    assert_eq!(m.remove(&3), Some(3));
    assert_eq!(m.len(), 2);
    assert_eq!(collect_keys(m.items()), vec![4, 5]);
}

#[test]
fn root_collapse_then_reuse() {
    let mut m = filled(4, 100);
    for i in 0..100 {
        assert_eq!(m.remove(&i), Some(i * 10));
    }
    assert!(m.is_empty());
    assert_eq!(m.insert(7, 70), None);
    assert_eq!(m.get(&7), Some(&70));
    assert_eq!(m.remove(&7), Some(70));
    assert!(m.is_empty());
}

#[test]
fn alternating_removal() {
    let mut m = filled(4, 20);
    for i in (0..20).step_by(2) {
        assert_eq!(m.remove(&i), Some(i * 10));
    }
    for i in 0..20 {
        assert_eq!(m.get(&i).is_some(), i % 2 == 1);
    }
    assert_eq!(m.len(), 10);
    assert_eq!(collect_keys(m.items()), (0..20).filter(|i| i % 2 == 1).collect::<Vec<i64>>());
}

#[test]
fn range_is_lazy_and_takes_ten() {
    let m = filled(64, 1_000_000);
    let unused = m.range(Bound::Included(&500_000), Bound::Excluded(&500_100));
    drop(unused);
    let mut it = m.range(Bound::Included(&500_000), Bound::Excluded(&500_100));
    let mut got = Vec::new();
    for _ in 0..10 {
        let (k, v) = it.next().unwrap();
        got.push((*k, *v));
    }
    let expected: Vec<(i64, i64)> = (500_000..500_010).map(|k| (k, k * 10)).collect();
    assert_eq!(got, expected);
}

#[test]
fn reverse_inclusive_range() {
    let m = filled(4, 1000);
    let got = collect_keys_back(m.range(Bound::Included(&100), Bound::Included(&200)));
    assert_eq!(got, (100..=200).rev().collect::<Vec<i64>>());
}

#[test]
fn get_finds_exactly_the_inserted_keys() {
    let mut m = BPlusTreeMap::new(5).unwrap();
    let keys: Vec<i64> = (0..300).map(|i| (i * 37) % 1009).collect();
    for &k in &keys {
        m.insert(k, -k);
    }
    for probe in 0..1009 {
        let present = keys.contains(&probe);
        assert_eq!(m.get(&probe).copied(), if present { Some(-probe) } else { None });
    }
    assert_eq!(m.len(), keys.len());
}

#[test]
fn overwrite_keeps_length() {
    let mut m = filled(4, 10);
    assert_eq!(m.insert(3, 99), Some(30));
    assert_eq!(m.len(), 10);
    assert_eq!(m.get(&3), Some(&99));
}

#[test]
fn insert_then_remove_restores_length() {
    let mut m = filled(4, 10);
    assert_eq!(m.insert(50, 1), None);
    assert_eq!(m.len(), 11);
    assert_eq!(m.remove(&50), Some(1));
    assert_eq!(m.len(), 10);
    assert_eq!(m.get(&50), None);
    assert_eq!(m.remove(&50), None);
}

#[test]
fn range_matches_filtered_items() {
    let mut m = BPlusTreeMap::new(4).unwrap();
    for i in (0..200i64).rev() {
        m.insert(i * 3, i);
    }
    let all = collect_keys(m.items());
    let want: Vec<i64> = all.iter().copied().filter(|k| *k >= 50 && *k < 251).collect();
    assert_eq!(collect_keys(m.range(Bound::Included(&50), Bound::Excluded(&251))), want);
    assert_eq!(collect_keys(m.items_range(Some(&50), Some(&251))), want);
    let want_excl: Vec<i64> = all.iter().copied().filter(|k| *k > 51).collect();
    assert_eq!(collect_keys(m.range(Bound::Excluded(&51), Bound::Unbounded)), want_excl);
    let collected: Vec<i64> = m
        .collect_range_bounds(Bound::Included(&50), Bound::Excluded(&251))
        .into_iter()
        .map(|(k, _)| *k)
        .collect();
    assert_eq!(collected, want);
}

#[test]
fn reverse_items_match_sorted_snapshot() {
    let mut m = BPlusTreeMap::new(6).unwrap();
    let mut snapshot = Vec::new();
    for i in 0..500i64 {
        let k = (i * 7919) % 2003;
        m.insert(k, i);
        snapshot.push(k);
    }
    snapshot.sort();
    snapshot.dedup();
    snapshot.reverse();
    assert_eq!(collect_keys_back(m.items()), snapshot);
    assert_eq!(m.len(), snapshot.len());
}

#[test]
fn ends_meet_without_repeats() {
    let m = filled(4, 9);
    let mut it = m.items();
    let mut seen = Vec::new();
    loop {
        match it.next() {
            Some((k, _)) => seen.push(*k),
            None => break,
        }
        match it.next_back() {
            Some((k, _)) => seen.push(*k),
            None => break,
        }
    }
    seen.sort();
    assert_eq!(seen, (0..9).collect::<Vec<i64>>());
    assert!(it.next().is_none());
    assert!(it.next_back().is_none());
}

#[test]
fn keys_and_values_follow_key_order() {
    let mut m = BPlusTreeMap::new(4).unwrap();
    for k in [5i64, 1, 4, 2, 3] {
        m.insert(k, k * 100);
    }
    let mut ks = Vec::new();
    let mut keys = m.keys();
    while let Some(k) = keys.next() {
        ks.push(*k);
    }
    assert_eq!(ks, vec![1, 2, 3, 4, 5]);
    let mut vs = Vec::new();
    let mut values = m.values();
    while let Some(v) = values.next_back() {
        vs.push(*v);
    }
    assert_eq!(vs, vec![500, 400, 300, 200, 100]);
}

#[test]
fn random_mix_agrees_with_std_btreemap() {
    let mut m = BPlusTreeMap::new(4).unwrap();
    let mut reference = std::collections::BTreeMap::new();
    let mut x: u64 = 12345;
    for _ in 0..5000 {
        x = x.wrapping_mul(6364136223846793005).wrapping_add(1442695040888963407);
        let k = ((x >> 33) % 300) as i64;
        if (x >> 20) % 3 == 0 {
            assert_eq!(m.remove(&k), reference.remove(&k));
        } else {
            assert_eq!(m.insert(k, k + 1), reference.insert(k, k + 1));
        }
        assert_eq!(m.len(), reference.len());
    }
    assert_eq!(collect_keys(m.items()), reference.keys().copied().collect::<Vec<i64>>());
}

#[test]
fn pair_keys_sort_by_first_then_second() {
    let mut m = BPlusTreeMap::new(4).unwrap();
    let pairs = [(2u64, 1u64), (1, 9), (2, 0), (1, 1), (3, 0), (u64::MAX, 0), (0, u64::MAX)];
    for (i, p) in pairs.iter().enumerate() {
        m.insert(*p, i);
    }
    let mut got = Vec::new();
    let mut keys = m.keys();
    while let Some(k) = keys.next() {
        got.push(*k);
    }
    assert_eq!(got, vec![(0, u64::MAX), (1, 1), (1, 9), (2, 0), (2, 1), (3, 0), (u64::MAX, 0)]);
    assert_eq!(m.get(&(2, 0)), Some(&2));
    assert_eq!(m.remove(&(1, 9)), Some(1));
    assert_eq!(m.get(&(1, 9)), None);
}

#[test]
fn small_signed_keys_cover_negative_values() {
    let mut m = BPlusTreeMap::new(4).unwrap();
    for k in i8::MIN..=i8::MAX {
        m.insert(k, k as i32);
    }
    assert_eq!(m.len(), 256);
    assert_eq!(m.first(), Some((&i8::MIN, &-128)));
    assert_eq!(m.last(), Some((&i8::MAX, &127)));
    let mut it = m.range(Bound::Excluded(&-3), Bound::Included(&2));
    let mut got = Vec::new();
    while let Some((k, _)) = it.next() {
        got.push(*k);
    }
    assert_eq!(got, vec![-2, -1, 0, 1, 2]);
}
