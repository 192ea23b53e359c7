//! Finding the least or greatest key on one side of a bound.
use crate::key::KeyOrder;
use crate::node::{Node, child_hi, child_lo, lemma_branch_slot, lemma_child_wf, lemma_children_contains, lemma_content_range, lemma_leaf_at, lemma_leaf_contains, route, search, sorted_keys};
use vstd::prelude::*;

verus! {

broadcast use {vstd::std_specs::vec::group_vec_axioms, vstd::seq::group_seq_axioms};

/// One end of a range of keys.
#[derive(Debug, PartialEq, Eq)]
pub enum Bound<K> {
    /// The end includes this key.
    Included(K),
    /// The end excludes this key.
    Excluded(K),
    /// The range is open at this end.
    Unbounded,
}

/// Whether a key of rank `r` lies on or after the lower bound `b`.
pub open spec fn above<K: KeyOrder>(b: Bound<K>, r: int) -> bool {
    match b {
        Bound::Included(x) => x.rank() <= r,
        Bound::Excluded(x) => x.rank() < r,
        Bound::Unbounded => true,
    }
}

/// Whether a key of rank `r` lies on or before the upper bound `b`.
pub open spec fn below<K: KeyOrder>(b: Bound<K>, r: int) -> bool {
    match b {
        Bound::Included(x) => r <= x.rank(),
        Bound::Excluded(x) => r < x.rank(),
        Bound::Unbounded => true,
    }
}

/// Whether `k` is the least key of `m` on or after `b`.
pub open spec fn is_first_above<K: KeyOrder, V>(m: Map<K, V>, b: Bound<K>, k: K) -> bool {
    &&& m.contains_key(k)
    &&& above(b, k.rank())
    &&& forall|x: K| #[trigger] m.contains_key(x) && above(b, x.rank()) ==> k.rank() <= x.rank()
}

/// Whether `k` is the greatest key of `m` on or before `b`.
pub open spec fn is_last_below<K: KeyOrder, V>(m: Map<K, V>, b: Bound<K>, k: K) -> bool {
    &&& m.contains_key(k)
    &&& below(b, k.rank())
    &&& forall|x: K| #[trigger] m.contains_key(x) && below(b, x.rank()) ==> x.rank() <= k.rank()
}

/// The outcome of a search for the least key of `m` on or after `b`.
pub open spec fn first_above_result<K: KeyOrder, V>(m: Map<K, V>, b: Bound<K>, r: Option<(&K, &V)>) -> bool {
    match r {
        Some(p) => is_first_above(m, b, *p.0) && *p.1 == m[*p.0],
        None => forall|x: K| #[trigger] m.contains_key(x) ==> !above(b, x.rank()),
    }
}

/// The outcome of a search for the greatest key of `m` on or before `b`.
pub open spec fn last_below_result<K: KeyOrder, V>(m: Map<K, V>, b: Bound<K>, r: Option<(&K, &V)>) -> bool {
    match r {
        Some(p) => is_last_below(m, b, *p.0) && *p.1 == m[*p.0],
        None => forall|x: K| #[trigger] m.contains_key(x) ==> !below(b, x.rank()),
    }
}

/// The position of the first key at or after the lower bound `b` among sorted keys.
fn lower_index<K: KeyOrder>(keys: &Vec<K>, b: &Bound<K>) -> (i: usize)
    requires
        sorted_keys(keys@),
    ensures
        i <= keys.len(),
        forall|j: int| 0 <= j < i ==> !above(*b, #[trigger] keys@[j].rank()),
        forall|j: int| i <= j < keys.len() ==> above(*b, #[trigger] keys@[j].rank()),
{
    match b {
        Bound::Unbounded => 0,
        Bound::Included(x) => match search(keys, x) {
            Ok(i) => {
                proof {
                    assert forall|j: int| 0 <= j < i implies !above(*b, #[trigger] keys@[j].rank()) by {
                        assert(keys@[j].rank() < keys@[i as int].rank());
                    }
                    assert forall|j: int| i <= j < keys.len() implies above(*b, #[trigger] keys@[j].rank()) by {
                        if j > i {
                            assert(keys@[i as int].rank() < keys@[j].rank());
                        }
                    }
                }
                i
            },
            Err(i) => i,
        },
        Bound::Excluded(x) => match search(keys, x) {
            Ok(i) => {
                proof {
                    assert forall|j: int| 0 <= j < i + 1 implies !above(*b, #[trigger] keys@[j].rank()) by {
                        if j < i {
                            assert(keys@[j].rank() < keys@[i as int].rank());
                        }
                    }
                    assert forall|j: int| i + 1 <= j < keys.len() implies above(*b, #[trigger] keys@[j].rank()) by {
                        assert(keys@[i as int].rank() < keys@[j].rank());
                    }
                }
                i + 1
            },
            Err(i) => i,
        },
    }
}

/// The number of keys at or before the upper bound `b` among sorted keys.
fn upper_index<K: KeyOrder>(keys: &Vec<K>, b: &Bound<K>) -> (i: usize)
    requires
        sorted_keys(keys@),
    ensures
        i <= keys.len(),
        forall|j: int| 0 <= j < i ==> below(*b, #[trigger] keys@[j].rank()),
        forall|j: int| i <= j < keys.len() ==> !below(*b, #[trigger] keys@[j].rank()),
{
    match b {
        Bound::Unbounded => keys.len(),
        Bound::Included(x) => match search(keys, x) {
            Ok(i) => {
                proof {
                    assert forall|j: int| 0 <= j < i + 1 implies below(*b, #[trigger] keys@[j].rank()) by {
                        if j < i {
                            assert(keys@[j].rank() < keys@[i as int].rank());
                        }
                    }
                    assert forall|j: int| i + 1 <= j < keys.len() implies !below(*b, #[trigger] keys@[j].rank()) by {
                        assert(keys@[i as int].rank() < keys@[j].rank());
                    }
                }
                i + 1
            },
            Err(i) => i,
        },
        Bound::Excluded(x) => match search(keys, x) {
            Ok(i) => {
                proof {
                    assert forall|j: int| 0 <= j < i implies below(*b, #[trigger] keys@[j].rank()) by {
                        assert(keys@[j].rank() < keys@[i as int].rank());
                    }
                    assert forall|j: int| i <= j < keys.len() implies !below(*b, #[trigger] keys@[j].rank()) by {
                        if j > i {
                            assert(keys@[i as int].rank() < keys@[j].rank());
                        }
                    }
                }
                i
            },
            Err(i) => i,
        },
    }
}


/// No key of `m` lies on or after `b`.
pub open spec fn none_above<K: KeyOrder, V>(m: Map<K, V>, b: Bound<K>) -> bool {
    forall|x: K| #[trigger] m.contains_key(x) ==> !above(b, x.rank())
}

/// No key of `m` lies on or before `b`.
pub open spec fn none_below<K: KeyOrder, V>(m: Map<K, V>, b: Bound<K>) -> bool {
    forall|x: K| #[trigger] m.contains_key(x) ==> !below(b, x.rank())
}

impl<K: KeyOrder, V> Node<K, V> {
    /// The entry of this subtree with the least key on or after `b`.
    pub fn seek_first(&self, b: &Bound<K>, Ghost(lo): Ghost<Option<int>>, Ghost(hi): Ghost<Option<int>>) -> (r: Option<
        (&K, &V),
    >)
        requires
            self.wf(lo, hi),
        ensures
            first_above_result(self.content(), *b, r),
        decreases self,
    {
        match self {
            Node::Leaf { keys, vals } => {
                let i = lower_index(keys, b);
                proof {
                    assert forall|x: K| #[trigger] self.content().contains_key(x) && above(*b, x.rank()) implies i < keys.len()
                        && keys@[i as int].rank() <= x.rank() by {
                        lemma_leaf_contains(keys@, vals@, x);
                        let j = choose|j: int| 0 <= j < keys@.len() && keys@[j] == x;
                        if j > i {
                            assert(keys@[i as int].rank() < keys@[j].rank());
                        }
                    }
                }
                if i < keys.len() {
                    proof {
                        lemma_leaf_at(keys@, vals@, i as int);
                    }
                    Some((&keys[i], &vals[i]))
                } else {
                    None
                }
            },
            Node::Branch { keys, children } => {
                let start = match b {
                    Bound::Unbounded => 0,
                    Bound::Included(x) => route(keys, x),
                    Bound::Excluded(x) => route(keys, x),
                };
                proof {
                    assert forall|c: int| 0 <= c < start implies none_above((#[trigger] children@[c]).content(), *b) by {
                        lemma_child_wf(*self, lo, hi, c);
                        lemma_content_range(children@[c], child_lo(keys@, lo, c), child_hi(keys@, hi, c));
                        assert(keys@[c].rank() <= keys@[start - 1].rank());
                    }
                }
                let mut j: usize = start;
                while j < children.len()
                    invariant
                        self.wf(lo, hi),
                        self == (Node::Branch { keys: *keys, children: *children }),
                        start <= j <= children.len(),
                        forall|c: int| 0 <= c < j ==> none_above((#[trigger] children@[c]).content(), *b),
                    decreases children.len() - j,
                {
                    proof {
                        lemma_child_wf(*self, lo, hi, j as int);
                    }
                    let r = children[j].seek_first(b, Ghost(child_lo(keys@, lo, j as int)), Ghost(child_hi(keys@, hi, j as int)));
                    match r {
                        Some(p) => {
                            proof {
                                let k = *p.0;
                                lemma_content_range(children@[j as int], child_lo(keys@, lo, j as int), child_hi(keys@, hi, j as int));
                                lemma_branch_slot(*self, lo, hi, j as int, k);
                                assert forall|x: K| #[trigger] self.content().contains_key(x) && above(*b, x.rank()) implies k.rank() <= x.rank() by {
                                    lemma_children_contains(children@, x);
                                    let c = choose|c: int| 0 <= c < children@.len() && (#[trigger] children@[c]).content().contains_key(x);
                                    if c > j {
                                        lemma_child_wf(*self, lo, hi, c);
                                        lemma_content_range(children@[c], child_lo(keys@, lo, c), child_hi(keys@, hi, c));
                                        assert(keys@[j as int].rank() <= keys@[c - 1].rank());
                                    }
                                }
                            }
                            return Some(p);
                        },
                        None => {},
                    }
                    j += 1;
                }
                proof {
                    assert forall|x: K| #[trigger] self.content().contains_key(x) implies !above(*b, x.rank()) by {
                        lemma_children_contains(children@, x);
                        let c = choose|c: int| 0 <= c < children@.len() && (#[trigger] children@[c]).content().contains_key(x);
                    }
                }
                None
            },
        }
    }

    /// The entry of this subtree with the greatest key on or before `b`.
    pub fn seek_last(&self, b: &Bound<K>, Ghost(lo): Ghost<Option<int>>, Ghost(hi): Ghost<Option<int>>) -> (r: Option<
        (&K, &V),
    >)
        requires
            self.wf(lo, hi),
        ensures
            last_below_result(self.content(), *b, r),
        decreases self,
    {
        match self {
            Node::Leaf { keys, vals } => {
                let i = upper_index(keys, b);
                proof {
                    assert forall|x: K| #[trigger] self.content().contains_key(x) && below(*b, x.rank()) implies i > 0
                        && x.rank() <= keys@[i - 1].rank() by {
                        lemma_leaf_contains(keys@, vals@, x);
                        let j = choose|j: int| 0 <= j < keys@.len() && keys@[j] == x;
                        if j < i - 1 {
                            assert(keys@[j].rank() < keys@[i - 1].rank());
                        }
                    }
                }
                if i > 0 {
                    proof {
                        lemma_leaf_at(keys@, vals@, i - 1);
                    }
                    Some((&keys[i - 1], &vals[i - 1]))
                } else {
                    None
                }
            },
            Node::Branch { keys, children } => {
                let start = match b {
                    Bound::Unbounded => keys.len(),
                    Bound::Included(x) => route(keys, x),
                    Bound::Excluded(x) => route(keys, x),
                };
                proof {
                    assert forall|c: int| start < c < children.len() implies none_below((#[trigger] children@[c]).content(), *b) by {
                        lemma_child_wf(*self, lo, hi, c);
                        lemma_content_range(children@[c], child_lo(keys@, lo, c), child_hi(keys@, hi, c));
                        assert(keys@[start as int].rank() <= keys@[c - 1].rank());
                    }
                }
                assert(start < children.len());
                let mut j: usize = start + 1;
                while j > 0
                    invariant
                        self.wf(lo, hi),
                        self == (Node::Branch { keys: *keys, children: *children }),
                        0 <= j <= start + 1,
                        start < children.len(),
                        forall|c: int| j <= c < children.len() ==> none_below((#[trigger] children@[c]).content(), *b),
                    decreases j,
                {
                    let t = j - 1;
                    proof {
                        lemma_child_wf(*self, lo, hi, t as int);
                    }
                    let r = children[t].seek_last(b, Ghost(child_lo(keys@, lo, t as int)), Ghost(child_hi(keys@, hi, t as int)));
                    match r {
                        Some(p) => {
                            proof {
                                let k = *p.0;
                                lemma_content_range(children@[t as int], child_lo(keys@, lo, t as int), child_hi(keys@, hi, t as int));
                                lemma_branch_slot(*self, lo, hi, t as int, k);
                                assert forall|x: K| #[trigger] self.content().contains_key(x) && below(*b, x.rank()) implies x.rank() <= k.rank() by {
                                    lemma_children_contains(children@, x);
                                    let c = choose|c: int| 0 <= c < children@.len() && (#[trigger] children@[c]).content().contains_key(x);
                                    if c < t {
                                        lemma_child_wf(*self, lo, hi, c);
                                        lemma_content_range(children@[c], child_lo(keys@, lo, c), child_hi(keys@, hi, c));
                                        assert(keys@[c].rank() <= keys@[t - 1].rank());
                                    }
                                }
                            }
                            return Some(p);
                        },
                        None => {},
                    }
                    j = t;
                }
                proof {
                    assert forall|x: K| #[trigger] self.content().contains_key(x) implies !below(*b, x.rank()) by {
                        lemma_children_contains(children@, x);
                        let c = choose|c: int| 0 <= c < children@.len() && (#[trigger] children@[c]).content().contains_key(x);
                    }
                }
                None
            },
        }
    }
}

} // verus!
