use bplustree::{BPlusTreeError, BPlusTreeMap, branch_layout, leaf_layout};

#[test]
fn leaf_layout_packs_aligned_arrays() {
    let word = std::mem::size_of::<usize>();
    let l = leaf_layout(4, 8, 8, 8, 8).unwrap();
    assert_eq!(l.keys_off, 8);
    assert_eq!(l.vals_off, 40);
    assert_eq!(l.next_off, 72);
    assert_eq!(l.prev_off, 72 + word);
    assert_eq!(l.total_size, 72 + 2 * word);
    assert_eq!(l.total_align, 8);
}

#[test]
fn leaf_layout_pads_to_value_alignment() {
    let l = leaf_layout(5, 1, 1, 4, 4).unwrap();
    assert_eq!(l.keys_off, 8);
    assert_eq!(l.vals_off, 16);
    assert_eq!(l.total_align, std::cmp::max(4, std::mem::align_of::<usize>()));
}

#[test]
fn branch_layout_holds_one_more_child() {
    let word = std::mem::size_of::<usize>();
    let b = branch_layout(4, 8, 8).unwrap();
    assert_eq!(b.keys_off, 8);
    assert_eq!(b.children_off, 40);
    assert_eq!(b.total_size, 40 + 5 * word);
    assert_eq!(b.total_align, 8);
}

#[test]
fn layouts_that_overflow_are_refused() {
    assert!(leaf_layout(usize::MAX, 8, 8, 8, 8).is_none());
    assert!(branch_layout(usize::MAX / 2, 8, 8).is_none());
    assert_eq!(BPlusTreeMap::<u64, u64>::new(usize::MAX).err(), Some(BPlusTreeError::CapacityTooLarge));
}

#[test]
fn map_caches_its_layouts() {
    let m: BPlusTreeMap<u64, u32> = BPlusTreeMap::new(16).unwrap();
    assert_eq!(m.capacity(), 16);
    assert_eq!(m.leaf_layout(), leaf_layout(16, 8, 8, 4, 4).unwrap());
    assert_eq!(m.branch_layout(), branch_layout(16, 8, 8).unwrap());
}

#[test]
fn unit_keys_and_values_have_empty_arrays() {
    let m: BPlusTreeMap<(), ()> = BPlusTreeMap::new(4).unwrap();
    assert_eq!(m.leaf_layout().keys_off, 8);
    assert_eq!(m.leaf_layout().vals_off, 8);
}
