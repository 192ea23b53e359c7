//! Diagnostics on the shape of the tree: its height and its number of leaves.
use crate::key::KeyOrder;
use crate::map::BPlusTreeMap;
use crate::node::{Node, child_hi, child_lo};
use vstd::prelude::*;

verus! {

broadcast use {vstd::std_specs::vec::group_vec_axioms, vstd::seq::group_seq_axioms};

/// `x` as a `usize`, or `usize::MAX` when it does not fit.
pub open spec fn saturate(x: nat) -> usize {
    if x <= usize::MAX {
        x as usize
    } else {
        usize::MAX
    }
}

/// The number of leaves under `n`.
pub open spec fn leaf_total<K, V>(n: Node<K, V>) -> nat
    decreases n,
{
    match n {
        Node::Leaf { .. } => 1,
        Node::Branch { children, .. } => children_leaf_total(children@),
    }
}

/// The number of leaves under the nodes of `cs`.
pub open spec fn children_leaf_total<K, V>(cs: Seq<Node<K, V>>) -> nat
    decreases cs,
{
    if cs.len() == 0 {
        0
    } else {
        children_leaf_total(cs.drop_last()) + leaf_total(cs.last())
    }
}

impl<K, V> Node<K, V> {
    /// The number of leaves under this node, saturating at `usize::MAX`.
    pub fn count_leaves(&self) -> (r: usize)
        ensures
            r == saturate(leaf_total(*self)),
        decreases self,
    {
        match self {
            Node::Leaf { .. } => 1,
            Node::Branch { keys, children } => {
                let mut total: usize = 0;
                let mut i: usize = 0;
                while i < children.len()
                    invariant
                        *self == (Node::Branch { keys: *keys, children: *children }),
                        i <= children.len(),
                        total == saturate(children_leaf_total(children@.subrange(0, i as int))),
                    decreases children.len() - i,
                {
                    proof {
                        assert(self->Branch_children == *children);
                        assert(decreases_to!(*self => self->Branch_children));
                    }
                    let c = children[i].count_leaves();
                    proof {
                        let pre = children@.subrange(0, i as int);
                        let next = children@.subrange(0, i + 1);
                        assert(next.drop_last() =~= pre);
                        assert(next.last() == children@[i as int]);
                    }
                    total = total.saturating_add(c);
                    i += 1;
                }
                proof {
                    assert(children@.subrange(0, children@.len() as int) =~= children@);
                }
                total
            },
        }
    }
}

impl<K: KeyOrder, V> BPlusTreeMap<K, V> {
    /// The number of leaves of the tree.
    pub closed spec fn spec_leaf_count(self) -> nat {
        leaf_total(self.spec_root())
    }

    /// The number of levels below the root (0 while the root is a leaf), saturating at
    /// `usize::MAX`. Every leaf lies this far down.
    pub fn height(&self) -> (r: usize)
        ensures
            r == saturate(self.spec_height()),
    {
        let root = self.root();
        let ghost h = self.spec_height();
        let mut node = root;
        let mut depth: usize = 0;
        let ghost rest: nat = h;
        let ghost nhi: Option<int> = None;
        while !node.is_leaf_node()
            invariant
                node.balanced(rest),
                node.wf(None, nhi),
                rest <= h,
                depth == saturate((h - rest) as nat),
            decreases rest,
        {
            match node {
                Node::Branch { keys, children } => {
                    proof {
                        assert(children@[0].balanced((rest - 1) as nat));
                        assert(children@[0].wf(child_lo(keys@, None, 0), child_hi(keys@, nhi, 0)));
                    }
                    node = &children[0];
                    proof {
                        rest = (rest - 1) as nat;
                        nhi = child_hi(keys@, nhi, 0);
                    }
                },
                Node::Leaf { .. } => {},
            }
            depth = depth.saturating_add(1);
        }
        depth
    }

    /// The number of leaves, saturating at `usize::MAX`. This walks the whole tree.
    pub fn leaf_count(&self) -> (r: usize)
        ensures
            r == saturate(self.spec_leaf_count()),
    {
        self.root().count_leaves()
    }
}

} // verus!
