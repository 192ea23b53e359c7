//! Insertion with splits that propagate upwards.
use crate::branch::{lemma_branch_insert_child, lemma_branch_replace, lemma_branch_split, lemma_children_around};
use crate::key::KeyOrder;
use crate::node::{Node, all_balanced, all_occupied, in_open_range, branch_wf, child_hi, child_lo, children_map, in_range, lemma_branch_slot, lemma_child_wf, lemma_children_bounds, lemma_leaf_at, lemma_leaf_insert, lemma_leaf_split, lemma_leaf_update, lemma_sorted_sub, route, search};
use vstd::prelude::*;

verus! {

broadcast use {vstd::std_specs::vec::group_vec_axioms, vstd::seq::group_seq_axioms};

/// What inserting into a subtree leaves behind: the subtree itself, the value that `k`
/// had before, and, when the subtree overflowed, the separator and the new right sibling.
pub type InsertOutcome<K, V> = (Node<K, V>, Option<V>, Option<(K, Node<K, V>)>);

/// Whether `r` is a correct outcome of inserting `(k, v)` into `n`, bounded by `[lo, hi)`
/// with its leaves `h` levels down.
pub open spec fn insert_post<K: KeyOrder, V>(
    n: Node<K, V>,
    k: K,
    v: V,
    lo: Option<int>,
    hi: Option<int>,
    h: nat,
    r: InsertOutcome<K, V>,
) -> bool {
    &&& r.0.balanced(h)
    &&& (r.2 matches Some(sp) ==> sp.1.balanced(h))
    &&& r.1 == (if n.content().contains_key(k) {
        Some(n.content()[k])
    } else {
        None
    })
    &&& match r.2 {
        None => r.0.wf(lo, hi) && r.0.content() == n.content().insert(k, v),
        Some(sp) => {
            &&& in_range(lo, hi, sp.0.rank())
            &&& (lo matches Some(l) ==> l < sp.0.rank())
            &&& r.0.wf(lo, Some(sp.0.rank()))
            &&& sp.1.wf(Some(sp.0.rank()), hi)
            &&& r.0.content().union_prefer_right(sp.1.content()) == n.content().insert(k, v)
        },
    }
}

/// How full the nodes left by an insertion into `n` are, for an even capacity `cap`: every
/// node holds at most `cap` keys; a node that was not split holds at least as many keys as
/// before, and the two halves of a split at least `cap / 2` each.
pub open spec fn insert_fill<K, V>(n: Node<K, V>, cap: nat, r: InsertOutcome<K, V>) -> bool {
    &&& r.0.occupied(cap / 2, cap)
    &&& match r.2 {
        None => r.0.key_count() >= n.key_count(),
        Some(sp) => sp.1.occupied(cap / 2, cap) && r.0.key_count() >= cap / 2 && sp.1.key_count() >= cap / 2,
    }
}

/// Inserts `(k, v)` into a leaf's sorted keys and values, splitting the leaf in two when it
/// holds more than `cap` entries afterwards.
fn insert_leaf<K: KeyOrder, V>(
    mut keys: Vec<K>,
    mut vals: Vec<V>,
    k: K,
    v: V,
    cap: usize,
    Ghost(lo): Ghost<Option<int>>,
    Ghost(hi): Ghost<Option<int>>,
) -> (r: InsertOutcome<K, V>)
    requires
        (Node::Leaf { keys, vals }).wf(lo, hi),
        in_range(lo, hi, k.rank()),
        cap >= 1,
        cap % 2 == 0 ==> keys.len() <= cap,
    ensures
        insert_post((Node::Leaf { keys, vals }), k, v, lo, hi, 0, r),
        cap % 2 == 0 ==> insert_fill((Node::Leaf { keys, vals }), cap as nat, r),
{
    let ghost keys0 = keys@;
    let ghost vals0 = vals@;
    match search(&keys, &k) {
        Ok(i) => {
            proof {
                K::rank_injective(keys@[i as int], k);
                lemma_leaf_at(keys@, vals@, i as int);
                lemma_leaf_update(keys@, vals@, i as int, v);
            }
            let old = vals.remove(i);
            vals.insert(i, v);
            proof {
                assert(vals@ =~= vals0.update(i as int, v));
            }
            (Node::Leaf { keys, vals }, Some(old), None)
        },
        Err(i) => {
            proof {
                lemma_leaf_insert(keys@, vals@, i as int, k, v);
            }
            keys.insert(i, k);
            vals.insert(i, v);
            proof {
                assert forall|j: int| 0 <= j < keys.len() implies in_range(lo, hi, #[trigger] keys@[j].rank()) by {
                    if j < i {
                        assert(keys@[j] == keys0[j]);
                    } else if j > i {
                        assert(keys@[j] == keys0[j - 1]);
                    }
                }
            }
            if keys.len() > cap {
                let m: usize = keys.len() - keys.len() / 2;
                let ghost whole_k = keys@;
                proof {
                    lemma_leaf_split(keys@, vals@, m as int);
                    lemma_sorted_sub(keys@, 0, m as int);
                    lemma_sorted_sub(keys@, m as int, keys@.len() as int);
                }
                let rk = keys.split_off(m);
                let rv = vals.split_off(m);
                let sep = rk[0].copy_key();
                proof {
                    assert forall|j: int| 0 <= j < keys.len() implies in_range(lo, Some(sep.rank()), #[trigger] keys@[j].rank()) by {
                        assert(keys@[j] == whole_k[j]);
                    }
                    assert forall|j: int| 0 <= j < rk.len() implies in_range(Some(sep.rank()), hi, #[trigger] rk@[j].rank()) by {
                        assert(rk@[j] == whole_k[j + m]);
                        assert(rk@[0] == whole_k[m as int]);
                    }
                    assert(rk@[0] == whole_k[m as int]);
                }
                (Node::Leaf { keys, vals }, None, Some((sep, Node::Leaf { keys: rk, vals: rv })))
            } else {
                (Node::Leaf { keys, vals }, None, None)
            }
        },
    }

}

/// Splits an overfull branch around its middle separator, which is lifted out.
fn split_branch<K: KeyOrder, V>(
    mut keys: Vec<K>,
    mut children: Vec<Node<K, V>>,
    Ghost(lo): Ghost<Option<int>>,
    Ghost(hi): Ghost<Option<int>>,
    Ghost(h): Ghost<nat>,
    Ghost(cap): Ghost<nat>,
) -> (r: (Node<K, V>, K, Node<K, V>))
    requires
        branch_wf(keys@, children@, lo, hi),
        keys.len() >= 2,
        h > 0,
        all_balanced(children@, (h - 1) as nat),
    ensures
        cap % 2 == 0 && keys.len() == cap + 1 && all_occupied(children@, cap / 2, cap) ==> {
            &&& r.0.occupied(cap / 2, cap)
            &&& r.2.occupied(cap / 2, cap)
            &&& r.0.key_count() >= cap / 2
            &&& r.2.key_count() >= cap / 2
        },
        r.0.balanced(h),
        r.2.balanced(h),
        in_open_range(lo, hi, r.1.rank()),
        r.0.wf(lo, Some(r.1.rank())),
        r.2.wf(Some(r.1.rank()), hi),
        r.0.content().union_prefer_right(r.2.content()) == children_map(children@),
{
    let m: usize = keys.len() / 2;
    let ghost all_k = keys@;
    let ghost all_c = children@;
    proof {
        lemma_branch_split(keys@, children@, lo, hi, m as int);
        assert(in_open_range(lo, hi, all_k[0].rank()));
        assert(all_k[0].rank() < all_k[m as int].rank());
    }
    let mut rkeys = keys.split_off(m);
    let rchildren = children.split_off(m + 1);
    let lifted = rkeys.remove(0);
    proof {
        assert(lifted == all_k[m as int]);
        assert(rkeys@ =~= all_k.subrange(m as int + 1, all_k.len() as int));
        assert forall|i: int| 0 <= i < rchildren@.len() implies (#[trigger] rchildren@[i]).balanced((h - 1) as nat) by {
            assert(rchildren@[i] == all_c[i + m + 1]);
        }
        assert forall|i: int| 0 <= i < children@.len() implies (#[trigger] children@[i]).balanced((h - 1) as nat) by {
            assert(children@[i] == all_c[i]);
        }
        if cap % 2 == 0 && all_k.len() == cap + 1 && all_occupied(all_c, cap / 2, cap) {
            assert forall|i: int| 0 <= i < rchildren@.len() implies cap / 2 <= (#[trigger] rchildren@[i]).key_count()
                && rchildren@[i].occupied(cap / 2, cap) by {
                assert(rchildren@[i] == all_c[i + m + 1]);
            }
            assert forall|i: int| 0 <= i < children@.len() implies cap / 2 <= (#[trigger] children@[i]).key_count()
                && children@[i].occupied(cap / 2, cap) by {
                assert(children@[i] == all_c[i]);
            }
        }
    }
    (Node::Branch { keys, children }, lifted, Node::Branch { keys: rkeys, children: rchildren })
}

impl<K: KeyOrder, V> Node<K, V> {
    /// Inserts `(k, v)` into this subtree, splitting it in two when it holds more than
    /// `cap` keys afterwards.
    #[verifier::rlimit(50)]
    pub fn insert(
        self,
        k: K,
        v: V,
        cap: usize,
        Ghost(lo): Ghost<Option<int>>,
        Ghost(hi): Ghost<Option<int>>,
        Ghost(h): Ghost<nat>,
    ) -> (r: InsertOutcome<K, V>)
        requires
            self.wf(lo, hi),
            self.balanced(h),
            in_range(lo, hi, k.rank()),
            cap >= 1,
            cap % 2 == 0 ==> self.occupied((cap / 2) as nat, cap as nat),
        ensures
            insert_post(self, k, v, lo, hi, h, r),
            cap % 2 == 0 ==> insert_fill(self, cap as nat, r),
        decreases self,
    {
        let ghost old_self = self;
        match self {
            Node::Leaf { keys, vals } => insert_leaf(keys, vals, k, v, cap, Ghost(lo), Ghost(hi)),
            Node::Branch { mut keys, mut children } => {
                let i = route(&keys, &k);
                let ghost clo = child_lo(keys@, lo, i as int);
                let ghost chi = child_hi(keys@, hi, i as int);
                proof {
                    lemma_child_wf(old_self, lo, hi, i as int);
                    lemma_branch_slot(old_self, lo, hi, i as int, k);
                    lemma_children_around(children@, i as int);
                    if i + 1 < children.len() {
                        lemma_children_bounds(old_self, lo, hi, i as int + 1, children.len() as int);
                    }
                    if i > 0 {
                        lemma_children_bounds(old_self, lo, hi, 0, i as int);
                    }
                }
                let ghost cs0 = children@;
                let ghost pre = cs0.subrange(0, i as int);
                let ghost post = cs0.subrange(i as int + 1, cs0.len() as int);
                let child = children.remove(i);
                assert(child == cs0[i as int]);
                let (c2, old, split) = child.insert(k, v, cap, Ghost(clo), Ghost(chi), Ghost((h - 1) as nat));
                proof {
                    if post.len() > 0 {
                        assert(!children_map(post).contains_key(k));
                    } else {
                        assert(children_map(post) == Map::<K, V>::empty());
                    }
                    if pre.len() == 0 {
                        assert(children_map(pre) == Map::<K, V>::empty());
                    }
                }
                match split {
                    None => {
                        children.insert(i, c2);
                        proof {
                            assert(children@ =~= cs0.update(i as int, c2));
                            lemma_branch_replace(keys@, cs0, lo, hi, i as int, c2);
                            assert(children_map(children@) =~= old_self.content().insert(k, v));
                            assert(all_balanced(children@, (h - 1) as nat));
                            if cap % 2 == 0 {
                                assert forall|j: int| 0 <= j < children@.len() implies cap / 2 <= (#[trigger] children@[j]).key_count()
                                    && children@[j].occupied((cap / 2) as nat, cap as nat) by {
                                    if j != i {
                                        assert(children@[j] == cs0[j]);
                                    }
                                }
                            }
                        }
                        (Node::Branch { keys, children }, old, None)
                    },
                    Some((sep, right)) => {
                        let ghost keys0 = keys@;
                        children.insert(i, c2);
                        children.insert(i + 1, right);
                        keys.insert(i, sep);
                        proof {
                            assert(children@ =~= cs0.update(i as int, c2).insert(i as int + 1, right));
                            lemma_branch_insert_child(keys0, cs0, lo, hi, i as int, c2, sep, right);
                            assert(children_map(children@) =~= old_self.content().insert(k, v));
                            assert forall|j: int| 0 <= j < children@.len() implies (#[trigger] children@[j]).balanced((h - 1) as nat) by {
                                if j < i {
                                    assert(children@[j] == cs0[j]);
                                } else if j > i + 1 {
                                    assert(children@[j] == cs0[j - 1]);
                                }
                            }
                            if cap % 2 == 0 {
                                assert forall|j: int| 0 <= j < children@.len() implies cap / 2 <= (#[trigger] children@[j]).key_count()
                                    && children@[j].occupied((cap / 2) as nat, cap as nat) by {
                                    if j < i {
                                        assert(children@[j] == cs0[j]);
                                    } else if j > i + 1 {
                                        assert(children@[j] == cs0[j - 1]);
                                    }
                                }
                            }
                        }
                        if keys.len() > cap {
                            let (l, lifted, r) = split_branch(keys, children, Ghost(lo), Ghost(hi), Ghost(h), Ghost(cap as nat));
                            (l, old, Some((lifted, r)))
                        } else {
                            (Node::Branch { keys, children }, old, None)
                        }
                    },
                }
            },
        }
    }
}

} // verus!
