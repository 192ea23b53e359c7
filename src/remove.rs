//! Removal with underflow repair: borrowing from a sibling, or merging with one.
use crate::branch::{
    lemma_branch_concat, lemma_branch_merge_pair, lemma_branch_replace, lemma_branch_replace_pair, lemma_branch_split,
    lemma_children_around, lemma_children_around_pair,
};
use crate::key::KeyOrder;
use crate::node::{
    Node, all_balanced, all_occupied, branch_wf, child_hi, child_lo, children_map, in_open_range, in_range, leaf_map, lemma_branch_slot, lemma_child_wf,
    lemma_children_bounds, lemma_leaf_at, lemma_leaf_concat, lemma_leaf_contains, lemma_leaf_remove, lemma_leaf_split,
    lemma_sorted_sub, route, search, sorted_keys,
};
use vstd::prelude::*;

verus! {

broadcast use {vstd::std_specs::vec::group_vec_axioms, vstd::seq::group_seq_axioms};

/// Two sorted leaves divided at `sep`, joined, form one sorted leaf.
proof fn lemma_leaf_join<K: KeyOrder, V>(
    lk: Seq<K>,
    lv: Seq<V>,
    rk: Seq<K>,
    rv: Seq<V>,
    lo: Option<int>,
    sep: int,
    hi: Option<int>,
)
    requires
        lk.len() == lv.len(),
        rk.len() == rv.len(),
        sorted_keys(lk),
        sorted_keys(rk),
        forall|j: int| 0 <= j < lk.len() ==> in_range(lo, Some(sep), #[trigger] lk[j].rank()),
        forall|j: int| 0 <= j < rk.len() ==> in_range(Some(sep), hi, #[trigger] rk[j].rank()),
        in_open_range(lo, hi, sep),
    ensures
        sorted_keys(lk + rk),
        forall|j: int| 0 <= j < (lk + rk).len() ==> in_range(lo, hi, #[trigger] (lk + rk)[j].rank()),
        leaf_map(lk + rk, lv + rv) == leaf_map(lk, lv).union_prefer_right(leaf_map(rk, rv)),
{
    let k = lk + rk;
    assert forall|a: int, b: int| 0 <= a < b < k.len() implies #[trigger] k[a].rank() < #[trigger] k[b].rank() by {
        if b < lk.len() {
        } else if a < lk.len() {
            assert(in_range(lo, Some(sep), lk[a].rank()));
            assert(in_range(Some(sep), hi, rk[b - lk.len()].rank()));
        } else {
            assert(k[a] == rk[a - lk.len()] && k[b] == rk[b - lk.len()]);
        }
    }
    assert forall|j: int| 0 <= j < k.len() implies in_range(lo, hi, #[trigger] k[j].rank()) by {
        if j < lk.len() {
            assert(in_range(lo, Some(sep), lk[j].rank()));
        } else {
            assert(k[j] == rk[j - lk.len()]);
            assert(in_range(Some(sep), hi, rk[j - lk.len()].rank()));
        }
    }
    lemma_leaf_concat(lk, lv, rk, rv);
}


/// Cutting sorted leaf entries at `m >= 1` gives two leaves divided at the key at `m`.
proof fn lemma_leaf_cut<K: KeyOrder, V>(mk: Seq<K>, mv: Seq<V>, m: int, lo: Option<int>, hi: Option<int>)
    requires
        mk.len() == mv.len(),
        sorted_keys(mk),
        forall|j: int| 0 <= j < mk.len() ==> in_range(lo, hi, #[trigger] mk[j].rank()),
        1 <= m < mk.len(),
    ensures
        in_open_range(lo, hi, mk[m].rank()),
        sorted_keys(mk.subrange(0, m)),
        sorted_keys(mk.subrange(m, mk.len() as int)),
        forall|j: int| 0 <= j < m ==> in_range(lo, Some(mk[m].rank()), #[trigger] mk.subrange(0, m)[j].rank()),
        forall|j: int|
            0 <= j < mk.len() - m ==> in_range(Some(mk[m].rank()), hi, #[trigger] mk.subrange(m, mk.len() as int)[j].rank()),
        leaf_map(mk, mv) == leaf_map(mk.subrange(0, m), mv.subrange(0, m)).union_prefer_right(
            leaf_map(mk.subrange(m, mk.len() as int), mv.subrange(m, mv.len() as int)),
        ),
{
    assert(in_range(lo, hi, mk[0].rank()));
    assert(mk[0].rank() < mk[m].rank());
    lemma_sorted_sub(mk, 0, m);
    lemma_sorted_sub(mk, m, mk.len() as int);
    assert forall|j: int| 0 <= j < m implies in_range(lo, Some(mk[m].rank()), #[trigger] mk.subrange(0, m)[j].rank()) by {
        assert(mk.subrange(0, m)[j] == mk[j]);
    }
    assert forall|j: int| 0 <= j < mk.len() - m implies in_range(
        Some(mk[m].rank()),
        hi,
        #[trigger] mk.subrange(m, mk.len() as int)[j].rank(),
    ) by {
        assert(mk.subrange(m, mk.len() as int)[j] == mk[m + j]);
        if j > 0 {
            assert(mk[m].rank() < mk[m + j].rank());
        }
    }
    lemma_leaf_split(mk, mv, m);
}

/// What moving entries between two adjacent siblings divided at `sep` must keep: both
/// stay well formed around the new separator, which lies strictly inside their outer
/// bounds, both keep their leaves `h` levels down, and together they hold the same entries.
pub open spec fn shift_post<K: KeyOrder, V>(
    left: Node<K, V>,
    right: Node<K, V>,
    lo: Option<int>,
    hi: Option<int>,
    h: nat,
    r: (Node<K, V>, K, Node<K, V>),
) -> bool {
    &&& r.0.balanced(h)
    &&& r.2.balanced(h)
    &&& in_open_range(lo, hi, r.1.rank())
    &&& r.0.wf(lo, Some(r.1.rank()))
    &&& r.2.wf(Some(r.1.rank()), hi)
    &&& r.0.content().union_prefer_right(r.2.content()) == left.content().union_prefer_right(right.content())
}

/// Moves the last entry of the left leaf to the front of the right leaf.
fn leaf_shift_right<K: KeyOrder, V>(
    mut lk: Vec<K>,
    mut lv: Vec<V>,
    mut rk: Vec<K>,
    mut rv: Vec<V>,
    Ghost(lo): Ghost<Option<int>>,
    Ghost(sep): Ghost<int>,
    Ghost(hi): Ghost<Option<int>>,
) -> (r: (Node<K, V>, K, Node<K, V>))
    requires
        (Node::Leaf { keys: lk, vals: lv }).wf(lo, Some(sep)),
        (Node::Leaf { keys: rk, vals: rv }).wf(Some(sep), hi),
        in_open_range(lo, hi, sep),
        lk.len() >= 2,
    ensures
        shift_post((Node::Leaf { keys: lk, vals: lv }), (Node::Leaf { keys: rk, vals: rv }), lo, hi, 0, r),
        r.0.key_count() == lk.len() - 1,
        r.2.key_count() == rk.len() + 1,
{
    let ghost mk = lk@ + rk@;
    let ghost mv = lv@ + rv@;
    let n = lk.len();
    proof {
        lemma_leaf_join(lk@, lv@, rk@, rv@, lo, sep, hi);
        lemma_leaf_cut(mk, mv, n - 1, lo, hi);
    }
    let key = lk.remove(n - 1);
    let val = lv.remove(n - 1);
    rk.insert(0, key);
    rv.insert(0, val);
    let s = rk[0].copy_key();
    proof {
        assert(lk@ =~= mk.subrange(0, n - 1));
        assert(lv@ =~= mv.subrange(0, n - 1));
        assert(rk@ =~= mk.subrange(n - 1, mk.len() as int));
        assert(rv@ =~= mv.subrange(n - 1, mv.len() as int));
    }
    (Node::Leaf { keys: lk, vals: lv }, s, Node::Leaf { keys: rk, vals: rv })
}

/// Moves the first entry of the right leaf to the end of the left leaf.
fn leaf_shift_left<K: KeyOrder, V>(
    mut lk: Vec<K>,
    mut lv: Vec<V>,
    mut rk: Vec<K>,
    mut rv: Vec<V>,
    Ghost(lo): Ghost<Option<int>>,
    Ghost(sep): Ghost<int>,
    Ghost(hi): Ghost<Option<int>>,
) -> (r: (Node<K, V>, K, Node<K, V>))
    requires
        (Node::Leaf { keys: lk, vals: lv }).wf(lo, Some(sep)),
        (Node::Leaf { keys: rk, vals: rv }).wf(Some(sep), hi),
        in_open_range(lo, hi, sep),
        rk.len() >= 2,
    ensures
        shift_post((Node::Leaf { keys: lk, vals: lv }), (Node::Leaf { keys: rk, vals: rv }), lo, hi, 0, r),
        r.0.key_count() == lk.len() + 1,
        r.2.key_count() == rk.len() - 1,
{
    let ghost mk = lk@ + rk@;
    let ghost mv = lv@ + rv@;
    let n = lk.len();
    proof {
        lemma_leaf_join(lk@, lv@, rk@, rv@, lo, sep, hi);
        lemma_leaf_cut(mk, mv, n + 1, lo, hi);
    }
    let key = rk.remove(0);
    let val = rv.remove(0);
    lk.push(key);
    lv.push(val);
    let s = rk[0].copy_key();
    proof {
        assert(lk@ =~= mk.subrange(0, n + 1));
        assert(lv@ =~= mv.subrange(0, n + 1));
        assert(rk@ =~= mk.subrange(n + 1, mk.len() as int));
        assert(rv@ =~= mv.subrange(n + 1, mv.len() as int));
    }
    (Node::Leaf { keys: lk, vals: lv }, s, Node::Leaf { keys: rk, vals: rv })
}

/// Joins two adjacent leaves into one.
fn leaf_merge<K: KeyOrder, V>(
    mut lk: Vec<K>,
    mut lv: Vec<V>,
    mut rk: Vec<K>,
    mut rv: Vec<V>,
    Ghost(lo): Ghost<Option<int>>,
    Ghost(sep): Ghost<int>,
    Ghost(hi): Ghost<Option<int>>,
) -> (r: Node<K, V>)
    requires
        (Node::Leaf { keys: lk, vals: lv }).wf(lo, Some(sep)),
        (Node::Leaf { keys: rk, vals: rv }).wf(Some(sep), hi),
        in_open_range(lo, hi, sep),
    ensures
        r.wf(lo, hi),
        r.balanced(0),
        r.key_count() == lk.len() + rk.len(),
        r.content() == leaf_map(lk@, lv@).union_prefer_right(leaf_map(rk@, rv@)),
{
    proof {
        lemma_leaf_join(lk@, lv@, rk@, rv@, lo, sep, hi);
    }
    lk.append(&mut rk);
    lv.append(&mut rv);
    Node::Leaf { keys: lk, vals: lv }
}

/// Rotates the last child of the left branch through the separator into the right branch.
fn branch_shift_right<K: KeyOrder, V>(
    mut lk: Vec<K>,
    mut lc: Vec<Node<K, V>>,
    sep: K,
    mut rk: Vec<K>,
    mut rc: Vec<Node<K, V>>,
    Ghost(lo): Ghost<Option<int>>,
    Ghost(hi): Ghost<Option<int>>,
    Ghost(h): Ghost<nat>,
    Ghost(min): Ghost<nat>,
    Ghost(cap): Ghost<nat>,
) -> (r: (Node<K, V>, K, Node<K, V>))
    requires
        h > 0,
        all_balanced(lc@, (h - 1) as nat),
        all_balanced(rc@, (h - 1) as nat),
        branch_wf(lk@, lc@, lo, Some(sep.rank())),
        branch_wf(rk@, rc@, Some(sep.rank()), hi),
        in_open_range(lo, hi, sep.rank()),
        lk.len() >= 1,
    ensures
        shift_post((Node::Branch { keys: lk, children: lc }), (Node::Branch { keys: rk, children: rc }), lo, hi, h, r),
        r.0.key_count() == lk.len() - 1,
        r.2.key_count() == rk.len() + 1,
        all_occupied(lc@, min, cap) && all_occupied(rc@, min, cap) && r.0.key_count() <= cap && r.2.key_count() <= cap
            ==> r.0.occupied(min, cap) && r.2.occupied(min, cap),
{
    let ghost mk = lk@ + seq![sep] + rk@;
    let ghost mc = lc@ + rc@;
    let ghost lc0 = lc@;
    let ghost rc0 = rc@;
    let n = lk.len();
    proof {
        assert forall|i: int| 0 <= i < mc.len() implies (#[trigger] mc[i]).balanced((h - 1) as nat) by {
            if i < lc@.len() {
                assert(mc[i] == lc@[i]);
            } else {
                assert(mc[i] == rc@[i - lc@.len()]);
            }
        }
        lemma_branch_concat(lk@, lc@, sep, rk@, rc@, lo, hi);
        lemma_branch_split(mk, mc, lo, hi, n - 1);
    }
    let s = lk.remove(n - 1);
    let c = lc.remove(n);
    rk.insert(0, sep);
    rc.insert(0, c);
    proof {
        assert(s == mk[n - 1]);
        assert(lk@ =~= mk.subrange(0, n - 1));
        assert(lc@ =~= mc.subrange(0, n as int));
        assert(rk@ =~= mk.subrange(n as int, mk.len() as int));
        assert(forall|i: int| 0 <= i < lc@.len() ==> lc@[i] == mc[i]);
        assert(rc@ =~= mc.subrange(n as int, mc.len() as int));
        assert forall|i: int| 0 <= i < rc@.len() implies (#[trigger] rc@[i]).balanced((h - 1) as nat) by {
            assert(rc@[i] == mc[i + n]);
        }
        if all_occupied(lc0, min, cap) && all_occupied(rc0, min, cap) {
            assert forall|i: int| 0 <= i < mc.len() implies min <= (#[trigger] mc[i]).key_count() && mc[i].occupied(min, cap) by {
                if i < lc0.len() {
                    assert(mc[i] == lc0[i]);
                } else {
                    assert(mc[i] == rc0[i - lc0.len()]);
                }
            }
            assert forall|i: int| 0 <= i < lc@.len() implies min <= (#[trigger] lc@[i]).key_count() && lc@[i].occupied(min, cap) by {
                assert(lc@[i] == mc[i]);
            }
            assert forall|i: int| 0 <= i < rc@.len() implies min <= (#[trigger] rc@[i]).key_count() && rc@[i].occupied(min, cap) by {
                assert(rc@[i] == mc[i + lc@.len()]);
            }
        }
    }
    (Node::Branch { keys: lk, children: lc }, s, Node::Branch { keys: rk, children: rc })
}

/// Rotates the first child of the right branch through the separator into the left branch.
fn branch_shift_left<K: KeyOrder, V>(
    mut lk: Vec<K>,
    mut lc: Vec<Node<K, V>>,
    sep: K,
    mut rk: Vec<K>,
    mut rc: Vec<Node<K, V>>,
    Ghost(lo): Ghost<Option<int>>,
    Ghost(hi): Ghost<Option<int>>,
    Ghost(h): Ghost<nat>,
    Ghost(min): Ghost<nat>,
    Ghost(cap): Ghost<nat>,
) -> (r: (Node<K, V>, K, Node<K, V>))
    requires
        h > 0,
        all_balanced(lc@, (h - 1) as nat),
        all_balanced(rc@, (h - 1) as nat),
        branch_wf(lk@, lc@, lo, Some(sep.rank())),
        branch_wf(rk@, rc@, Some(sep.rank()), hi),
        in_open_range(lo, hi, sep.rank()),
        rk.len() >= 1,
    ensures
        shift_post((Node::Branch { keys: lk, children: lc }), (Node::Branch { keys: rk, children: rc }), lo, hi, h, r),
        r.0.key_count() == lk.len() + 1,
        r.2.key_count() == rk.len() - 1,
        all_occupied(lc@, min, cap) && all_occupied(rc@, min, cap) && r.0.key_count() <= cap && r.2.key_count() <= cap
            ==> r.0.occupied(min, cap) && r.2.occupied(min, cap),
{
    let ghost mk = lk@ + seq![sep] + rk@;
    let ghost mc = lc@ + rc@;
    let ghost lc0 = lc@;
    let ghost rc0 = rc@;
    let n = lk.len();
    proof {
        assert forall|i: int| 0 <= i < mc.len() implies (#[trigger] mc[i]).balanced((h - 1) as nat) by {
            if i < lc@.len() {
                assert(mc[i] == lc@[i]);
            } else {
                assert(mc[i] == rc@[i - lc@.len()]);
            }
        }
        lemma_branch_concat(lk@, lc@, sep, rk@, rc@, lo, hi);
        lemma_branch_split(mk, mc, lo, hi, n + 1);
    }
    let s = rk.remove(0);
    let c = rc.remove(0);
    lk.push(sep);
    lc.push(c);
    proof {
        assert(s == mk[n + 1]);
        assert(lk@ =~= mk.subrange(0, n + 1));
        assert(lc@ =~= mc.subrange(0, n + 2));
        assert(rk@ =~= mk.subrange(n + 2, mk.len() as int));
        assert(forall|i: int| 0 <= i < lc@.len() ==> lc@[i] == mc[i]);
        assert(rc@ =~= mc.subrange(n + 2, mc.len() as int));
        assert forall|i: int| 0 <= i < rc@.len() implies (#[trigger] rc@[i]).balanced((h - 1) as nat) by {
            assert(rc@[i] == mc[i + n + 2]);
        }
        if all_occupied(lc0, min, cap) && all_occupied(rc0, min, cap) {
            assert forall|i: int| 0 <= i < mc.len() implies min <= (#[trigger] mc[i]).key_count() && mc[i].occupied(min, cap) by {
                if i < lc0.len() {
                    assert(mc[i] == lc0[i]);
                } else {
                    assert(mc[i] == rc0[i - lc0.len()]);
                }
            }
            assert forall|i: int| 0 <= i < lc@.len() implies min <= (#[trigger] lc@[i]).key_count() && lc@[i].occupied(min, cap) by {
                assert(lc@[i] == mc[i]);
            }
            assert forall|i: int| 0 <= i < rc@.len() implies min <= (#[trigger] rc@[i]).key_count() && rc@[i].occupied(min, cap) by {
                assert(rc@[i] == mc[i + lc@.len()]);
            }
        }
    }
    (Node::Branch { keys: lk, children: lc }, s, Node::Branch { keys: rk, children: rc })
}

/// Joins two adjacent branches into one, folding their separator in between.
fn branch_merge<K: KeyOrder, V>(
    mut lk: Vec<K>,
    mut lc: Vec<Node<K, V>>,
    sep: K,
    mut rk: Vec<K>,
    mut rc: Vec<Node<K, V>>,
    Ghost(lo): Ghost<Option<int>>,
    Ghost(hi): Ghost<Option<int>>,
    Ghost(h): Ghost<nat>,
    Ghost(min): Ghost<nat>,
    Ghost(cap): Ghost<nat>,
) -> (r: Node<K, V>)
    requires
        h > 0,
        all_balanced(lc@, (h - 1) as nat),
        all_balanced(rc@, (h - 1) as nat),
        branch_wf(lk@, lc@, lo, Some(sep.rank())),
        branch_wf(rk@, rc@, Some(sep.rank()), hi),
        in_open_range(lo, hi, sep.rank()),
    ensures
        r.wf(lo, hi),
        r.balanced(h),
        r.key_count() == lk.len() + 1 + rk.len(),
        all_occupied(lc@, min, cap) && all_occupied(rc@, min, cap) && r.key_count() <= cap ==> r.occupied(min, cap),
        r.content() == children_map(lc@).union_prefer_right(children_map(rc@)),
{
    let ghost mc = lc@ + rc@;
    let ghost lc0 = lc@;
    let ghost rc0 = rc@;
    proof {
        lemma_branch_concat(lk@, lc@, sep, rk@, rc@, lo, hi);
        assert forall|i: int| 0 <= i < mc.len() implies (#[trigger] mc[i]).balanced((h - 1) as nat) by {
            if i < lc@.len() {
                assert(mc[i] == lc@[i]);
            } else {
                assert(mc[i] == rc@[i - lc@.len()]);
            }
        }
    }
    let ghost mk = lk@ + seq![sep] + rk@;
    lk.push(sep);
    lk.append(&mut rk);
    lc.append(&mut rc);
    proof {
        assert(lk@ =~= mk);
        assert(lc@ =~= mc);
        if all_occupied(lc0, min, cap) && all_occupied(rc0, min, cap) {
            assert forall|i: int| 0 <= i < mc.len() implies min <= (#[trigger] mc[i]).key_count() && mc[i].occupied(min, cap) by {
                if i < lc0.len() {
                    assert(mc[i] == lc0[i]);
                } else {
                    assert(mc[i] == rc0[i - lc0.len()]);
                }
            }
        }
    }
    Node::Branch { keys: lk, children: lc }
}


/// Moves one entry (leaves) or one child (branches) between two adjacent siblings of the
/// same kind divided at `sep`: from `left` into `right` when `to_right`, the other way otherwise.
fn shift_nodes<K: KeyOrder, V>(
    left: Node<K, V>,
    sep: K,
    right: Node<K, V>,
    to_right: bool,
    Ghost(lo): Ghost<Option<int>>,
    Ghost(hi): Ghost<Option<int>>,
    Ghost(h): Ghost<nat>,
    Ghost(min): Ghost<nat>,
    Ghost(cap): Ghost<nat>,
) -> (r: (Node<K, V>, K, Node<K, V>))
    requires
        left.balanced(h),
        right.balanced(h),
        left.wf(lo, Some(sep.rank())),
        right.wf(Some(sep.rank()), hi),
        in_open_range(lo, hi, sep.rank()),
        (left is Leaf) == (right is Leaf),
        to_right ==> left.key_count() >= 2,
        !to_right ==> right.key_count() >= 2,
    ensures
        shift_post(left, right, lo, hi, h, r),
        to_right ==> r.0.key_count() == left.key_count() - 1 && r.2.key_count() == right.key_count() + 1,
        !to_right ==> r.0.key_count() == left.key_count() + 1 && r.2.key_count() == right.key_count() - 1,
        left.occupied(min, cap) && right.occupied(min, cap) && r.0.key_count() <= cap && r.2.key_count() <= cap
            ==> r.0.occupied(min, cap) && r.2.occupied(min, cap),
{
    let ghost sr = sep.rank();
    match (left, right) {
        (Node::Leaf { keys: lk, vals: lv }, Node::Leaf { keys: rk, vals: rv }) => {
            if to_right {
                leaf_shift_right(lk, lv, rk, rv, Ghost(lo), Ghost(sr), Ghost(hi))
            } else {
                leaf_shift_left(lk, lv, rk, rv, Ghost(lo), Ghost(sr), Ghost(hi))
            }
        },
        (Node::Branch { keys: lk, children: lc }, Node::Branch { keys: rk, children: rc }) => {
            if to_right {
                branch_shift_right(lk, lc, sep, rk, rc, Ghost(lo), Ghost(hi), Ghost(h), Ghost(min), Ghost(cap))
            } else {
                branch_shift_left(lk, lc, sep, rk, rc, Ghost(lo), Ghost(hi), Ghost(h), Ghost(min), Ghost(cap))
            }
        },
        (l, r) => {
            proof {
                assert(false);
            }
            (l, sep, r)
        },
    }
}

/// Joins two adjacent siblings of the same kind divided at `sep` into one node.
fn merge_nodes<K: KeyOrder, V>(
    left: Node<K, V>,
    sep: K,
    right: Node<K, V>,
    Ghost(lo): Ghost<Option<int>>,
    Ghost(hi): Ghost<Option<int>>,
    Ghost(h): Ghost<nat>,
    Ghost(min): Ghost<nat>,
    Ghost(cap): Ghost<nat>,
) -> (r: Node<K, V>)
    requires
        left.balanced(h),
        right.balanced(h),
        left.wf(lo, Some(sep.rank())),
        right.wf(Some(sep.rank()), hi),
        in_open_range(lo, hi, sep.rank()),
        (left is Leaf) == (right is Leaf),
    ensures
        r.wf(lo, hi),
        r.balanced(h),
        r.content() == left.content().union_prefer_right(right.content()),
        r.key_count() == left.key_count() + right.key_count() + (if left is Leaf { 0int } else { 1int }),
        left.occupied(min, cap) && right.occupied(min, cap) && r.key_count() <= cap ==> r.occupied(min, cap),
{
    let ghost sr = sep.rank();
    match (left, right) {
        (Node::Leaf { keys: lk, vals: lv }, Node::Leaf { keys: rk, vals: rv }) => {
            leaf_merge(lk, lv, rk, rv, Ghost(lo), Ghost(sr), Ghost(hi))
        },
        (Node::Branch { keys: lk, children: lc }, Node::Branch { keys: rk, children: rc }) => {
            branch_merge(lk, lc, sep, rk, rc, Ghost(lo), Ghost(hi), Ghost(h), Ghost(min), Ghost(cap))
        },
        (l, r) => {
            proof {
                assert(false);
            }
            l
        },
    }
}

/// Children `cs` of a branch after a removal below child `i`: every child holds at most
/// `cap` keys with every node below it occupied, every child but `i` holds at least `min`
/// keys, and child `i` at least `min - 1`.
pub open spec fn nearly_occupied<K, V>(cs: Seq<Node<K, V>>, i: int, min: nat, cap: nat) -> bool {
    &&& 0 <= i < cs.len()
    &&& forall|j: int| 0 <= j < cs.len() ==> (#[trigger] cs[j]).occupied(min, cap) && (j != i ==> min <= cs[j].key_count())
    &&& cs[i].key_count() + 1 >= min
}

/// Moves entries between the adjacent children `j` and `j + 1` of a branch: from `j` into
/// `j + 1` when `to_right`, the other way otherwise.
fn shift_pair<K: KeyOrder, V>(
    mut keys: Vec<K>,
    mut children: Vec<Node<K, V>>,
    j: usize,
    to_right: bool,
    Ghost(lo): Ghost<Option<int>>,
    Ghost(hi): Ghost<Option<int>>,
    Ghost(h): Ghost<nat>,
    Ghost(min): Ghost<nat>,
    Ghost(cap): Ghost<nat>,
) -> (r: (Vec<K>, Vec<Node<K, V>>))
    requires
        all_balanced(children@, h),
        branch_wf(keys@, children@, lo, hi),
        j < keys.len(),
        (children@[j as int] is Leaf) == (children@[j + 1] is Leaf),
        to_right ==> children@[j as int].key_count() >= 2,
        !to_right ==> children@[j + 1].key_count() >= 2,
    ensures
        branch_wf(r.0@, r.1@, lo, hi),
        all_balanced(r.1@, h),
        children_map(r.1@) == children_map(children@),
        r.0@.len() == keys@.len(),
        ({
            let u = if to_right { j + 1 } else { j as int };
            let d = if to_right { j as int } else { j + 1 };
            nearly_occupied(children@, u, min, cap) && children@[u].key_count() < min && children@[d].key_count() > min
                && min <= cap
        }) ==> all_occupied(r.1@, min, cap),
{
    let ghost keys0 = keys@;
    let ghost cs0 = children@;
    let ghost plo = child_lo(keys0, lo, j as int);
    let ghost phi = child_hi(keys0, hi, j + 1);
    proof {
        assert(cs0[j as int].wf(child_lo(keys0, lo, j as int), child_hi(keys0, hi, j as int)));
        assert(cs0[j + 1].wf(child_lo(keys0, lo, j + 1), child_hi(keys0, hi, j + 1)));
        if j > 0 {
            assert(keys0[j - 1].rank() < keys0[j as int].rank());
        }
        if j + 1 < keys0.len() {
            assert(keys0[j as int].rank() < keys0[j + 1].rank());
        }
        assert(in_open_range(lo, hi, keys0[j as int].rank()));
        lemma_children_around_pair(cs0, j as int);
    }
    let right = children.remove(j + 1);
    let left = children.remove(j);
    let sep = keys.remove(j);
    let (a, s, b) = shift_nodes(left, sep, right, to_right, Ghost(plo), Ghost(phi), Ghost(h), Ghost(min), Ghost(cap));
    children.insert(j, a);
    children.insert(j + 1, b);
    keys.insert(j, s);
    proof {
        assert(keys@ =~= keys0.update(j as int, s));
        assert(children@ =~= cs0.update(j as int, a).update(j + 1, b));
        assert(all_balanced(children@, h));
        let u = if to_right { j + 1 } else { j as int };
        let d = if to_right { j as int } else { j + 1 };
        if nearly_occupied(cs0, u, min, cap) && cs0[u].key_count() < min && cs0[d].key_count() > min && min <= cap {
            assert forall|x: int| 0 <= x < children@.len() implies min <= (#[trigger] children@[x]).key_count()
                && children@[x].occupied(min, cap) by {
                if x != j && x != j + 1 {
                    assert(children@[x] == cs0[x]);
                }
            }
        }
        lemma_branch_replace_pair(keys0, cs0, lo, hi, j as int, a, s, b);
    }
    (keys, children)
}

/// Merges the adjacent children `j` and `j + 1` of a branch, dropping the separator between them.
fn merge_pair<K: KeyOrder, V>(
    mut keys: Vec<K>,
    mut children: Vec<Node<K, V>>,
    j: usize,
    Ghost(lo): Ghost<Option<int>>,
    Ghost(hi): Ghost<Option<int>>,
    Ghost(h): Ghost<nat>,
    Ghost(min): Ghost<nat>,
    Ghost(cap): Ghost<nat>,
    Ghost(u): Ghost<int>,
) -> (r: (Vec<K>, Vec<Node<K, V>>))
    requires
        all_balanced(children@, h),
        branch_wf(keys@, children@, lo, hi),
        j < keys.len(),
        (children@[j as int] is Leaf) == (children@[j + 1] is Leaf),
    ensures
        branch_wf(r.0@, r.1@, lo, hi),
        all_balanced(r.1@, h),
        children_map(r.1@) == children_map(children@),
        r.0@.len() + 1 == keys@.len(),
        ({
            let o = if u == j { j + 1 } else { j as int };
            &&& u == j || u == j + 1
            &&& nearly_occupied(children@, u, min, cap)
            &&& children@[u].key_count() < min
            &&& children@[o].key_count() <= min
            &&& 2 * min <= cap
        }) ==> all_occupied(r.1@, min, cap),
{
    let ghost keys0 = keys@;
    let ghost cs0 = children@;
    let ghost plo = child_lo(keys0, lo, j as int);
    let ghost phi = child_hi(keys0, hi, j + 1);
    proof {
        assert(cs0[j as int].wf(child_lo(keys0, lo, j as int), child_hi(keys0, hi, j as int)));
        assert(cs0[j + 1].wf(child_lo(keys0, lo, j + 1), child_hi(keys0, hi, j + 1)));
        if j > 0 {
            assert(keys0[j - 1].rank() < keys0[j as int].rank());
        }
        if j + 1 < keys0.len() {
            assert(keys0[j as int].rank() < keys0[j + 1].rank());
        }
        assert(in_open_range(lo, hi, keys0[j as int].rank()));
        lemma_children_around_pair(cs0, j as int);
    }
    let right = children.remove(j + 1);
    let left = children.remove(j);
    let sep = keys.remove(j);
    let c = merge_nodes(left, sep, right, Ghost(plo), Ghost(phi), Ghost(h), Ghost(min), Ghost(cap));
    children.insert(j, c);
    proof {
        assert(keys@ =~= keys0.remove(j as int));
        assert(children@ =~= cs0.update(j as int, c).remove(j + 1));
        assert forall|x: int| 0 <= x < children@.len() implies (#[trigger] children@[x]).balanced(h) by {
            if x > j {
                assert(children@[x] == cs0[x + 1]);
            }
        }
        let o = if u == j { j + 1 } else { j as int };
        if (u == j || u == j + 1) && nearly_occupied(cs0, u, min, cap) && cs0[u].key_count() < min && cs0[o].key_count() <= min
            && 2 * min <= cap {
            assert(cs0[j as int].key_count() + cs0[j + 1].key_count() + 1 <= 2 * min);
            assert forall|x: int| 0 <= x < children@.len() implies min <= (#[trigger] children@[x]).key_count()
                && children@[x].occupied(min, cap) by {
                if x > j {
                    assert(children@[x] == cs0[x + 1]);
                } else if x < j {
                    assert(children@[x] == cs0[x]);
                }
            }
        }
        lemma_branch_merge_pair(keys0, cs0, lo, hi, j as int, c);
    }
    (keys, children)
}

impl<K: KeyOrder, V> Node<K, V> {
    /// Number of keys held (entries of a leaf, separators of a branch).
    pub fn key_len(&self) -> (r: usize)
        ensures
            r == self.key_count(),
    {
        match self {
            Node::Leaf { keys, .. } => keys.len(),
            Node::Branch { keys, .. } => keys.len(),
        }
    }

    /// Whether this node is a leaf.
    pub fn is_leaf_node(&self) -> (r: bool)
        ensures
            r == (self is Leaf),
    {
        matches!(self, Node::Leaf { .. })
    }
}

/// Repairs child `i` of a branch when it holds fewer than `min` keys: it borrows from a
/// sibling that has more than `min` (the left one first), or else merges with a sibling
/// (the left one first).
fn fix_child<K: KeyOrder, V>(
    keys: Vec<K>,
    children: Vec<Node<K, V>>,
    i: usize,
    min: usize,
    Ghost(lo): Ghost<Option<int>>,
    Ghost(hi): Ghost<Option<int>>,
    Ghost(h): Ghost<nat>,
    Ghost(cap): Ghost<nat>,
) -> (r: (Vec<K>, Vec<Node<K, V>>))
    requires
        all_balanced(children@, h),
        branch_wf(keys@, children@, lo, hi),
        i < children.len(),
        min >= 2,
    ensures
        branch_wf(r.0@, r.1@, lo, hi),
        all_balanced(r.1@, h),
        children_map(r.1@) == children_map(children@),
        r.0@.len() <= keys@.len() <= r.0@.len() + 1,
        nearly_occupied(children@, i as int, min as nat, cap) && keys.len() >= 1 && 2 * min <= cap ==> all_occupied(
            r.1@,
            min as nat,
            cap,
        ),
{
    if children[i].key_len() >= min {
        proof {
            if nearly_occupied(children@, i as int, min as nat, cap) {
                assert forall|x: int| 0 <= x < children@.len() implies min <= (#[trigger] children@[x]).key_count()
                    && children@[x].occupied(min as nat, cap) by {}
            }
        }
        return (keys, children);
    }
    proof {
        assert forall|j: int| 0 <= j < children@.len() implies (#[trigger] children@[j] is Leaf) == (h == 0) by {
            assert(children@[j].balanced(h));
        }
    }
    if i > 0 && children[i - 1].key_len() > min {
        shift_pair(keys, children, i - 1, true, Ghost(lo), Ghost(hi), Ghost(h), Ghost(min as nat), Ghost(cap))
    } else if i + 1 < children.len() && children[i + 1].key_len() > min {
        shift_pair(keys, children, i, false, Ghost(lo), Ghost(hi), Ghost(h), Ghost(min as nat), Ghost(cap))
    } else if i > 0 {
        merge_pair(keys, children, i - 1, Ghost(lo), Ghost(hi), Ghost(h), Ghost(min as nat), Ghost(cap), Ghost(i as int))
    } else if i + 1 < children.len() {
        merge_pair(keys, children, i, Ghost(lo), Ghost(hi), Ghost(h), Ghost(min as nat), Ghost(cap), Ghost(i as int))
    } else {
        (keys, children)
    }
}

impl<K: KeyOrder, V> Node<K, V> {
    /// Removes `k` from this subtree, repairing any child left with fewer than `min` keys.
    pub fn remove(
        self,
        k: &K,
        min: usize,
        Ghost(lo): Ghost<Option<int>>,
        Ghost(hi): Ghost<Option<int>>,
        Ghost(h): Ghost<nat>,
        Ghost(cap): Ghost<nat>,
    ) -> (r: (Node<K, V>, Option<V>))
        requires
            self.wf(lo, hi),
            self.balanced(h),
            min >= 2,
        ensures
            r.0.wf(lo, hi),
            r.0.balanced(h),
            r.0.key_count() <= self.key_count() <= r.0.key_count() + 1,
            self.occupied(min as nat, cap) && 2 * min <= cap && (self is Branch ==> self.key_count() >= 1) ==> r.0.occupied(
                min as nat,
                cap,
            ),
            r.0.content() == self.content().remove(*k),
            r.1 == (if self.content().contains_key(*k) {
                Some(self.content()[*k])
            } else {
                None
            }),
        decreases self,
    {
        let ghost old_self = self;
        match self {
            Node::Leaf { mut keys, mut vals } => {
                let ghost keys0 = keys@;
                let ghost vals0 = vals@;
                match search(&keys, k) {
                    Ok(i) => {
                        proof {
                            K::rank_injective(keys0[i as int], *k);
                            lemma_leaf_at(keys0, vals0, i as int);
                            lemma_leaf_remove(keys0, vals0, i as int);
                        }
                        keys.remove(i);
                        let v = vals.remove(i);
                        proof {
                            assert forall|j: int| 0 <= j < keys.len() implies in_range(lo, hi, #[trigger] keys@[j].rank()) by {
                                if j < i {
                                    assert(keys@[j] == keys0[j]);
                                } else {
                                    assert(keys@[j] == keys0[j + 1]);
                                }
                            }
                        }
                        (Node::Leaf { keys, vals }, Some(v))
                    },
                    Err(i) => {
                        proof {
                            lemma_leaf_contains(keys0, vals0, *k);
                            if keys0.contains(*k) {
                                let j = choose|j: int| 0 <= j < keys0.len() && keys0[j] == *k;
                                assert(keys0[j].rank() == k.rank());
                            }
                            assert(old_self.content().remove(*k) =~= old_self.content());
                        }
                        (Node::Leaf { keys, vals }, None)
                    },
                }
            },
            Node::Branch { keys, mut children } => {
                let i = route(&keys, k);
                let ghost cs0 = children@;
                let ghost pre = cs0.subrange(0, i as int);
                let ghost post = cs0.subrange(i as int + 1, cs0.len() as int);
                proof {
                    lemma_child_wf(old_self, lo, hi, i as int);
                    lemma_branch_slot(old_self, lo, hi, i as int, *k);
                    lemma_children_around(cs0, i as int);
                    if i + 1 < cs0.len() {
                        lemma_children_bounds(old_self, lo, hi, i as int + 1, cs0.len() as int);
                        assert(!children_map(post).contains_key(*k));
                    } else {
                        assert(children_map(post) == Map::<K, V>::empty());
                    }
                    if i > 0 {
                        lemma_children_bounds(old_self, lo, hi, 0, i as int);
                        assert(!children_map(pre).contains_key(*k));
                    } else {
                        assert(children_map(pre) == Map::<K, V>::empty());
                    }
                }
                let child = children.remove(i);
                assert(child == cs0[i as int]);
                let (c2, old) = child.remove(k, min, Ghost(child_lo(keys@, lo, i as int)), Ghost(child_hi(keys@, hi, i as int)), Ghost((h - 1) as nat), Ghost(cap));
                children.insert(i, c2);
                proof {
                    assert(children@ =~= cs0.update(i as int, c2));
                    lemma_branch_replace(keys@, cs0, lo, hi, i as int, c2);
                    assert(children_map(children@) =~= old_self.content().remove(*k));
                    assert(all_balanced(children@, (h - 1) as nat));
                    if old_self.occupied(min as nat, cap) && 2 * min <= cap && old_self.key_count() >= 1 {
                        assert(cs0[i as int].occupied(min as nat, cap) && min <= cs0[i as int].key_count());
                        assert forall|j: int| 0 <= j < children@.len() implies (#[trigger] children@[j]).occupied(min as nat, cap)
                            && (j != i ==> min <= children@[j].key_count()) by {
                            if j != i {
                                assert(children@[j] == cs0[j]);
                            }
                        }
                        assert(nearly_occupied(children@, i as int, min as nat, cap));
                    }
                }
                let (keys, children) = fix_child(keys, children, i, min, Ghost(lo), Ghost(hi), Ghost((h - 1) as nat), Ghost(cap));
                (Node::Branch { keys, children }, old)
            },
        }
    }
}

} // verus!
