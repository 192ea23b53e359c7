//! The ordered map: a B+ tree root, its item count and its node capacity.
use crate::insert::InsertOutcome;
use crate::key::KeyOrder;
use crate::layout::{BranchLayout, LeafLayout, branch_layout, branch_offsets, leaf_layout, leaf_offsets};
use crate::node::{Node, all_balanced, all_occupied, lemma_children_concat, lemma_children_single, lemma_content_range, lemma_leaf_finite};
use vstd::layout::{align_of, size_of};
use vstd::prelude::*;

verus! {

broadcast use {vstd::std_specs::vec::group_vec_axioms, vstd::seq::group_seq_axioms};

/// The smallest node capacity a map accepts.
pub const MIN_CAPACITY: usize = 4;

/// Why a map could not be built.
#[derive(Debug, PartialEq, Eq, Clone, Copy, Structural)]
pub enum BPlusTreeError {
    /// The requested capacity is below `MIN_CAPACITY`.
    CapacityTooSmall,
    /// A node of the requested capacity is too large to lay out in memory.
    CapacityTooLarge,
}

/// An ordered map from keys to values, kept as a B+ tree whose nodes split when they grow
/// past `capacity` keys and borrow or merge when they shrink below half of it.
pub struct BPlusTreeMap<K: KeyOrder, V> {
    root: Node<K, V>,
    len: usize,
    capacity: usize,
    leaf_layout: LeafLayout,
    branch_layout: BranchLayout,
    height: Ghost<nat>,
}

/// Whether `l` is the packed layout of a leaf of capacity `cap` for keys `K` and values `V`.
pub open spec fn is_leaf_layout<K, V>(l: LeafLayout, cap: nat) -> bool {
    let o = leaf_offsets(cap, size_of::<K>(), align_of::<K>(), size_of::<V>(), align_of::<V>());
    l.keys_off == o.0 && l.vals_off == o.1 && l.next_off == o.2 && l.prev_off == o.3 && l.total_size == o.4
        && l.total_align == o.5
}

/// Whether `l` is the packed layout of a branch of capacity `cap` for keys `K`.
pub open spec fn is_branch_layout<K>(l: BranchLayout, cap: nat) -> bool {
    let o = branch_offsets(cap, size_of::<K>(), align_of::<K>());
    l.keys_off == o.0 && l.children_off == o.1 && l.total_size == o.2 && l.total_align == o.3
}

/// Whether nodes of capacity `cap` for keys `K` and values `V` can be laid out in memory.
pub open spec fn layouts_fit<K, V>(cap: nat) -> bool {
    &&& leaf_offsets(cap, size_of::<K>(), align_of::<K>(), size_of::<V>(), align_of::<V>()).4 <= usize::MAX
    &&& branch_offsets(cap, size_of::<K>(), align_of::<K>()).2 <= usize::MAX
}

impl<K: KeyOrder, V> View for BPlusTreeMap<K, V> {
    type V = Map<K, V>;

    closed spec fn view(&self) -> Map<K, V> {
        self.root.content()
    }
}

impl<K: KeyOrder, V> BPlusTreeMap<K, V> {
    /// What holds of every map between calls: keys ascend within each node and every
    /// branch's separators bound the keys of its children (`wf`); all leaves lie at the same
    /// depth (`balanced`); with an even capacity every node but the root holds between
    /// `capacity / 2` and `capacity` keys and a branch root holds at least one; the item
    /// count and the cached layouts are exact.
    #[verifier::type_invariant]
    closed spec fn inv(self) -> bool {
        &&& self.root.wf(None, None)
        &&& self.root.balanced(self.height@)
        &&& self.capacity % 2 == 0 ==> self.root.occupied((self.capacity / 2) as nat, self.capacity as nat)
        &&& self.capacity % 2 == 0 && self.root is Branch ==> self.root.key_count() >= 1
        &&& self.len == self.root.content().dom().len()
        &&& self.capacity >= MIN_CAPACITY
        &&& is_leaf_layout::<K, V>(self.leaf_layout, self.capacity as nat)
        &&& is_branch_layout::<K>(self.branch_layout, self.capacity as nat)
    }

    /// The node capacity the map was built with.
    pub closed spec fn spec_capacity(self) -> nat {
        self.capacity as nat
    }

    /// The number of levels below the root; every leaf lies that far down.
    pub closed spec fn spec_height(self) -> nat {
        self.height@
    }

    /// The root node, for the modules that walk the tree.
    pub(crate) closed spec fn spec_root(self) -> Node<K, V> {
        self.root
    }

    /// The root node, with what the invariant says of it.
    pub(crate) fn root(&self) -> (r: &Node<K, V>)
        ensures
            *r == self.spec_root(),
            r.wf(None, None),
            r.content() == self@,
            r.balanced(self.spec_height()),
    {
        proof {
            use_type_invariant(self);
        }
        &self.root
    }

    fn empty_leaf() -> (n: Node<K, V>)
        ensures
            n.wf(None, None),
            n.balanced(0),
            n is Leaf,
            n.key_count() == 0,
            n.content() == Map::<K, V>::empty(),
    {
        let n = Node::Leaf { keys: Vec::new(), vals: Vec::new() };
        proof {
            lemma_leaf_finite(Seq::<K>::empty(), Seq::<V>::empty());
            assert(n.content() =~= Map::<K, V>::empty());
        }
        n
    }

    /// An empty map whose nodes hold at most `capacity` keys. Fails when the capacity is
    /// below `MIN_CAPACITY`, or when a node of that capacity is too large to lay out.
    pub fn new(capacity: usize) -> (r: Result<Self, BPlusTreeError>)
        ensures
            capacity < MIN_CAPACITY ==> r == Err::<Self, BPlusTreeError>(BPlusTreeError::CapacityTooSmall),
            capacity >= MIN_CAPACITY && !layouts_fit::<K, V>(capacity as nat) ==> r == Err::<Self, BPlusTreeError>(
                BPlusTreeError::CapacityTooLarge,
            ),
            capacity >= MIN_CAPACITY && layouts_fit::<K, V>(capacity as nat) ==> (r matches Ok(m) && m@ == Map::<K, V>::empty()
                && m.spec_capacity() == capacity),
    {
        if capacity < MIN_CAPACITY {
            return Err(BPlusTreeError::CapacityTooSmall);
        }
        vstd::layout::layout_for_type_is_valid::<K>();
        vstd::layout::layout_for_type_is_valid::<V>();
        let key_size = core::mem::size_of::<K>();
        let key_align = core::mem::align_of::<K>();
        let val_size = core::mem::size_of::<V>();
        let val_align = core::mem::align_of::<V>();
        let leaf = match leaf_layout(capacity, key_size, key_align, val_size, val_align) {
            Some(l) => l,
            None => return Err(BPlusTreeError::CapacityTooLarge),
        };
        let branch = match branch_layout(capacity, key_size, key_align) {
            Some(l) => l,
            None => return Err(BPlusTreeError::CapacityTooLarge),
        };
        Ok(
            BPlusTreeMap {
                root: Self::empty_leaf(),
                len: 0,
                capacity,
                leaf_layout: leaf,
                branch_layout: branch,
                height: Ghost(0),
            },
        )
    }

    /// The capacity the map was built with: a node that grows past it is split.
    pub fn capacity(&self) -> (r: usize)
        ensures
            r == self.spec_capacity(),
            r >= MIN_CAPACITY,
    {
        proof {
            use_type_invariant(self);
        }
        self.capacity
    }

    /// The packed layout of this map's leaves.
    pub fn leaf_layout(&self) -> (r: LeafLayout)
        ensures
            is_leaf_layout::<K, V>(r, self.spec_capacity()),
    {
        proof {
            use_type_invariant(self);
        }
        self.leaf_layout
    }

    /// The packed layout of this map's branches.
    pub fn branch_layout(&self) -> (r: BranchLayout)
        ensures
            is_branch_layout::<K>(r, self.spec_capacity()),
    {
        proof {
            use_type_invariant(self);
        }
        self.branch_layout
    }

    /// The number of entries.
    pub fn len(&self) -> (r: usize)
        ensures
            r == self@.len(),
            self@.dom().finite(),
    {
        proof {
            use_type_invariant(self);
            lemma_content_range(self.root, None, None);
        }
        self.len
    }

    /// Whether the map has no entries.
    pub fn is_empty(&self) -> (r: bool)
        ensures
            r == (self@.len() == 0),
    {
        proof {
            use_type_invariant(self);
        }
        self.len == 0
    }

    /// The value stored under `k`.
    pub fn get(&self, k: &K) -> (r: Option<&V>)
        ensures
            match r {
                Some(v) => self@.contains_key(*k) && *v == self@[*k],
                None => !self@.contains_key(*k),
            },
    {
        proof {
            use_type_invariant(self);
        }
        self.root.get(k, Ghost(None), Ghost(None))
    }

    /// Whether `k` has an entry.
    pub fn contains_key(&self, k: &K) -> (r: bool)
        ensures
            r == self@.contains_key(*k),
    {
        self.get(k).is_some()
    }

    /// Stores `v` under `k` and returns the value `k` had before, if any.
    pub fn insert(&mut self, k: K, v: V) -> (r: Option<V>)
        requires
            old(self)@.len() < usize::MAX,
        ensures
            final(self)@ == old(self)@.insert(k, v),
            r == (if old(self)@.contains_key(k) {
                Some(old(self)@[k])
            } else {
                None
            }),
            final(self).spec_capacity() == old(self).spec_capacity(),
    {
        proof {
            use_type_invariant(&*self);
            lemma_content_range(self.root, None, None);
        }
        let ghost before = self@;
        let mut tmp = BPlusTreeMap {
            root: Self::empty_leaf(),
            len: 0,
            capacity: self.capacity,
            leaf_layout: self.leaf_layout,
            branch_layout: self.branch_layout,
            height: Ghost(0),
        };
        core::mem::swap(self, &mut tmp);
        let BPlusTreeMap { root, len, capacity, leaf_layout, branch_layout, height } = tmp;
        let out: InsertOutcome<K, V> = root.insert(k, v, capacity, Ghost(None), Ghost(None), height);
        let (node, old, split) = out;
        let ghost grown = split.is_some();
        let new_root = match split {
            None => node,
            Some((sep, right)) => {
                let ghost l = node;
                let ghost r = right;
                let keys = vec![sep];
                let children = vec![node, right];
                proof {
                    assert(children@ =~= seq![l] + seq![r]);
                    lemma_children_concat(seq![l], seq![r]);
                    lemma_children_single(l);
                    lemma_children_single(r);
                    assert(children@[0] == l);
                    assert(children@[1] == r);
                    assert(all_balanced(children@, height@));
                    if capacity % 2 == 0 {
                        assert(all_occupied(children@, (capacity / 2) as nat, capacity as nat));
                    }
                }
                Node::Branch { keys, children }
            },
        };
        proof {
            lemma_content_range(new_root, None, None);
        }
        let new_len = if old.is_some() {
            len
        } else {
            len + 1
        };
        let new_height: Ghost<nat> = Ghost(if grown { height@ + 1 } else { height@ });
        *self = BPlusTreeMap { root: new_root, len: new_len, capacity, leaf_layout, branch_layout, height: new_height };
        old
    }

    /// Removes `k` and returns the value it had, if any.
    pub fn remove(&mut self, k: &K) -> (r: Option<V>)
        ensures
            final(self)@ == old(self)@.remove(*k),
            r == (if old(self)@.contains_key(*k) {
                Some(old(self)@[*k])
            } else {
                None
            }),
            final(self).spec_capacity() == old(self).spec_capacity(),
    {
        proof {
            use_type_invariant(&*self);
            lemma_content_range(self.root, None, None);
        }
        let mut tmp = BPlusTreeMap {
            root: Self::empty_leaf(),
            len: 0,
            capacity: self.capacity,
            leaf_layout: self.leaf_layout,
            branch_layout: self.branch_layout,
            height: Ghost(0),
        };
        core::mem::swap(self, &mut tmp);
        let BPlusTreeMap { root, len, capacity, leaf_layout, branch_layout, height } = tmp;
        let (node, old) = root.remove(k, capacity - capacity / 2, Ghost(None), Ghost(None), height, Ghost(capacity as nat));
        let ghost collapsed = node.key_count() == 0 && !(node is Leaf);
        let new_root = if node.key_len() == 0 && !node.is_leaf_node() {
            match node {
                Node::Branch { keys, mut children } => {
                    proof {
                        assert(children@ =~= seq![children@[0]]);
                        lemma_children_single(children@[0]);
                    }
                    children.remove(0)
                },
                other => other,
            }
        } else {
            node
        };
        proof {
            lemma_content_range(new_root, None, None);
        }
        let new_len = if old.is_some() {
            len - 1
        } else {
            len
        };
        let new_height: Ghost<nat> = Ghost(if collapsed { (height@ - 1) as nat } else { height@ });
        *self = BPlusTreeMap { root: new_root, len: new_len, capacity, leaf_layout, branch_layout, height: new_height };
        old
    }
}

} // verus!
