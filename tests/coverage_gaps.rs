use bplustree::BPlusTreeMap;

#[test]
fn test_borrow_from_left_leaf() {
    // Capacity 4 means max 4 items, min 2 items.
    let mut tree = BPlusTreeMap::new(4).unwrap();

    // 4 items -> full. 5th item -> split: [1, 2] [3, 4, 5].
    for i in 1..=5 {
        tree.insert(i, i);
    }

    // A different setup, with more leaves; delete from the rightmost leaf to cause underflow.
    let mut tree = BPlusTreeMap::new(4).unwrap();
    for i in 1..=8 {
        tree.insert(i, i);
    }

    tree.remove(&8);
    tree.remove(&7);
    assert!(tree.get(&1).is_some());
    assert!(tree.get(&6).is_some());
}

#[test]
fn test_merge_leaves() {
    let mut tree = BPlusTreeMap::new(4).unwrap();
    for i in 1..=5 {
        tree.insert(i, i);
    }
    // Split happened; delete items to force a merge.
    tree.remove(&1);
    tree.remove(&2);
    tree.remove(&3);

    assert_eq!(tree.len(), 2);
    assert!(tree.get(&4).is_some());
    assert!(tree.get(&5).is_some());
}

#[test]
fn test_root_collapse() {
    let mut tree = BPlusTreeMap::new(4).unwrap();
    // Grow height
    for i in 0..100 {
        tree.insert(i, i);
    }

    // Shrink
    for i in 0..100 {
        tree.remove(&i);
    }

    assert!(tree.is_empty());
}

#[test]
fn test_capacity_edge_cases() {
    // Minimum capacity is 4.
    let mut tree = BPlusTreeMap::new(4).unwrap();

    for i in 0..20 {
        tree.insert(i, i);
    }

    for i in (0..20).step_by(2) {
        tree.remove(&i);
    }

    for i in (0..20).step_by(2) {
        assert!(tree.get(&i).is_none());
        if i + 1 < 20 {
            assert!(tree.get(&(i + 1)).is_some());
        }
    }
}

#[test]
fn test_zst() {
    let mut tree = BPlusTreeMap::new(4).unwrap();
    for _ in 0..100 {
        tree.insert((), ());
    }
    assert_eq!(tree.len(), 1);
    tree.remove(&());
    assert_eq!(tree.len(), 0);
}
