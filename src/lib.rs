//! An ordered map kept as an in-memory B+ tree.
//!
//! Keys are ordered through [`KeyOrder`]. A map's contents are modelled as a
//! mathematical `Map`; iteration hands entries out in ascending key order from the
//! front and descending from the back.
mod branch;
mod insert;
mod iter;
mod key;
mod laws;
mod layout;
mod map;
mod node;
mod remove;
mod seek;
mod shape;

pub use iter::{Items, ItemsInner, Keys, Values, between, is_greatest, is_least, lists_in_order, owned_bound};
pub use key::KeyOrder;
pub use laws::{
    entry_between, insert_all, lemma_filter_listing, lemma_insert_all, lemma_insert_then_remove, lemma_listing_len,
    lemma_listing_unique, lemma_overwrite, lemma_range_is_filtered_items, lemma_reverse_listing, lists_in_reverse_order,
};
pub use layout::{BranchLayout, LeafLayout, branch_layout, branch_offsets, leaf_layout, leaf_offsets};
pub use map::{BPlusTreeError, BPlusTreeMap, MIN_CAPACITY, is_branch_layout, is_leaf_layout, layouts_fit};
pub use seek::{Bound, above, below, first_above_result, is_first_above, is_last_below, last_below_result};
pub use shape::saturate;
