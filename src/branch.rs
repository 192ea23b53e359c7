//! How a branch's invariant and map change when its children are rearranged.
use crate::key::KeyOrder;
use crate::node::{Node, in_open_range, branch_wf, child_hi, child_lo, children_map, lemma_children_concat, lemma_children_single, lemma_sorted_sub};
use vstd::prelude::*;

verus! {

broadcast use {vstd::std_specs::vec::group_vec_axioms, vstd::seq::group_seq_axioms};

/// The map of a child sequence, split around the child at `i`.
pub proof fn lemma_children_around<K: KeyOrder, V>(cs: Seq<Node<K, V>>, i: int)
    requires
        0 <= i < cs.len(),
    ensures
        children_map(cs) == children_map(cs.subrange(0, i)).union_prefer_right(cs[i].content()).union_prefer_right(
            children_map(cs.subrange(i + 1, cs.len() as int)),
        ),
{
    let pre = cs.subrange(0, i);
    let post = cs.subrange(i + 1, cs.len() as int);
    assert(cs =~= pre + seq![cs[i]] + post);
    lemma_children_concat(pre + seq![cs[i]], post);
    lemma_children_concat(pre, seq![cs[i]]);
    lemma_children_single(cs[i]);
}

/// Replacing child `i` by a subtree well formed in the same bounds keeps the branch well formed.
pub proof fn lemma_branch_replace<K: KeyOrder, V>(
    keys: Seq<K>,
    cs: Seq<Node<K, V>>,
    lo: Option<int>,
    hi: Option<int>,
    i: int,
    c: Node<K, V>,
)
    requires
        branch_wf(keys, cs, lo, hi),
        0 <= i < cs.len(),
        c.wf(child_lo(keys, lo, i), child_hi(keys, hi, i)),
    ensures
        branch_wf(keys, cs.update(i, c), lo, hi),
        children_map(cs.update(i, c)) == children_map(cs.subrange(0, i)).union_prefer_right(c.content()).union_prefer_right(
            children_map(cs.subrange(i + 1, cs.len() as int)),
        ),
{
    let cs1 = cs.update(i, c);
    assert forall|j: int| 0 <= j < cs1.len() implies (#[trigger] cs1[j]).wf(child_lo(keys, lo, j), child_hi(keys, hi, j)) by {
        if j != i {
            assert(cs1[j] == cs[j]);
        }
    }
    lemma_children_around(cs1, i);
    assert(cs1.subrange(0, i) =~= cs.subrange(0, i));
    assert(cs1.subrange(i + 1, cs1.len() as int) =~= cs.subrange(i + 1, cs.len() as int));
}

/// Replacing child `i` by two subtrees divided at `sep`, with `sep` put in as a separator,
/// keeps the branch well formed.
pub proof fn lemma_branch_insert_child<K: KeyOrder, V>(
    keys: Seq<K>,
    cs: Seq<Node<K, V>>,
    lo: Option<int>,
    hi: Option<int>,
    i: int,
    c: Node<K, V>,
    sep: K,
    right: Node<K, V>,
)
    requires
        branch_wf(keys, cs, lo, hi),
        0 <= i < cs.len(),
        in_open_range(child_lo(keys, lo, i), child_hi(keys, hi, i), sep.rank()),
        c.wf(child_lo(keys, lo, i), Some(sep.rank())),
        right.wf(Some(sep.rank()), child_hi(keys, hi, i)),
    ensures
        branch_wf(keys.insert(i, sep), cs.update(i, c).insert(i + 1, right), lo, hi),
        children_map(cs.update(i, c).insert(i + 1, right)) == children_map(cs.subrange(0, i)).union_prefer_right(
            c.content().union_prefer_right(right.content()),
        ).union_prefer_right(children_map(cs.subrange(i + 1, cs.len() as int))),
{
    let k1 = keys.insert(i, sep);
    let cs1 = cs.update(i, c).insert(i + 1, right);
    assert(in_open_range(lo, hi, sep.rank())) by {
        if i > 0 {
            assert(in_open_range(lo, hi, keys[i - 1].rank()));
        }
        if i < keys.len() {
            assert(in_open_range(lo, hi, keys[i].rank()));
        }
    }
    assert forall|a: int, b: int| 0 <= a < b < k1.len() implies #[trigger] k1[a].rank() < #[trigger] k1[b].rank() by {
        if b < i {
        } else if b == i {
            assert(k1[a] == keys[a]);
            assert(keys[a].rank() <= keys[i - 1].rank());
        } else if a < i {
            assert(k1[b] == keys[b - 1]);
        } else if a == i {
            assert(k1[b] == keys[b - 1]);
            assert(keys[i].rank() <= keys[b - 1].rank());
        } else {
            assert(k1[a] == keys[a - 1] && k1[b] == keys[b - 1]);
        }
    }
    assert forall|j: int| 0 <= j < k1.len() implies in_open_range(lo, hi, #[trigger] k1[j].rank()) by {
        if j < i {
            assert(k1[j] == keys[j]);
        } else if j > i {
            assert(k1[j] == keys[j - 1]);
        }
    }
    assert forall|j: int| 0 <= j < cs1.len() implies (#[trigger] cs1[j]).wf(child_lo(k1, lo, j), child_hi(k1, hi, j)) by {
        if j < i {
            assert(cs1[j] == cs[j]);
            assert(child_lo(k1, lo, j) == child_lo(keys, lo, j));
            assert(child_hi(k1, hi, j) == child_hi(keys, hi, j));
        } else if j == i {
            assert(child_lo(k1, lo, j) == child_lo(keys, lo, j));
        } else if j == i + 1 {
            assert(child_hi(k1, hi, j) == child_hi(keys, hi, i));
        } else {
            assert(cs1[j] == cs[j - 1]);
            assert(child_lo(k1, lo, j) == child_lo(keys, lo, j - 1));
            assert(child_hi(k1, hi, j) == child_hi(keys, hi, j - 1));
        }
    }
    let pre = cs.subrange(0, i);
    let post = cs.subrange(i + 1, cs.len() as int);
    assert(cs1 =~= pre + seq![c, right] + post);
    lemma_children_concat(pre + seq![c, right], post);
    lemma_children_concat(pre, seq![c, right]);
    assert(seq![c, right] =~= seq![c] + seq![right]);
    lemma_children_concat(seq![c], seq![right]);
    lemma_children_single(c);
    lemma_children_single(right);
}

/// Splitting a branch at separator `m`: the separators before it and the children up to it
/// form one branch, those after it another, and `keys[m]` divides them.
pub proof fn lemma_branch_split<K: KeyOrder, V>(keys: Seq<K>, cs: Seq<Node<K, V>>, lo: Option<int>, hi: Option<int>, m: int)
    requires
        branch_wf(keys, cs, lo, hi),
        0 <= m < keys.len(),
    ensures
        in_open_range(lo, hi, keys[m].rank()),
        branch_wf(keys.subrange(0, m), cs.subrange(0, m + 1), lo, Some(keys[m].rank())),
        branch_wf(keys.subrange(m + 1, keys.len() as int), cs.subrange(m + 1, cs.len() as int), Some(keys[m].rank()), hi),
        children_map(cs) == children_map(cs.subrange(0, m + 1)).union_prefer_right(
            children_map(cs.subrange(m + 1, cs.len() as int)),
        ),
{
    let kl = keys.subrange(0, m);
    let kr = keys.subrange(m + 1, keys.len() as int);
    let cl = cs.subrange(0, m + 1);
    let cr = cs.subrange(m + 1, cs.len() as int);
    let sep = Some(keys[m].rank());
    lemma_sorted_sub(keys, 0, m);
    lemma_sorted_sub(keys, m + 1, keys.len() as int);
    assert forall|j: int| 0 <= j < kl.len() implies in_open_range(lo, sep, #[trigger] kl[j].rank()) by {
        assert(kl[j] == keys[j]);
    }
    assert forall|j: int| 0 <= j < kr.len() implies in_open_range(sep, hi, #[trigger] kr[j].rank()) by {
        assert(kr[j] == keys[j + m + 1]);
    }
    assert forall|j: int| 0 <= j < cl.len() implies (#[trigger] cl[j]).wf(child_lo(kl, lo, j), child_hi(kl, sep, j)) by {
        assert(cl[j] == cs[j]);
        assert(child_lo(kl, lo, j) == child_lo(keys, lo, j));
        assert(child_hi(kl, sep, j) == child_hi(keys, hi, j));
    }
    assert forall|j: int| 0 <= j < cr.len() implies (#[trigger] cr[j]).wf(child_lo(kr, sep, j), child_hi(kr, hi, j)) by {
        assert(cr[j] == cs[j + m + 1]);
        assert(child_lo(kr, sep, j) == child_lo(keys, lo, j + m + 1));
        assert(child_hi(kr, hi, j) == child_hi(keys, hi, j + m + 1));
    }
    assert(cs =~= cl + cr);
    lemma_children_concat(cl, cr);
}


/// Two branches divided at `sep` joined with `sep` between them form one branch.
pub proof fn lemma_branch_concat<K: KeyOrder, V>(
    lk: Seq<K>,
    lc: Seq<Node<K, V>>,
    sep: K,
    rk: Seq<K>,
    rc: Seq<Node<K, V>>,
    lo: Option<int>,
    hi: Option<int>,
)
    requires
        branch_wf(lk, lc, lo, Some(sep.rank())),
        branch_wf(rk, rc, Some(sep.rank()), hi),
        in_open_range(lo, hi, sep.rank()),
    ensures
        branch_wf(lk + seq![sep] + rk, lc + rc, lo, hi),
        children_map(lc + rc) == children_map(lc).union_prefer_right(children_map(rc)),
{
    let k = lk + seq![sep] + rk;
    let c = lc + rc;
    let n = lk.len();
    assert forall|j: int| 0 <= j < lk.len() implies #[trigger] k[j] == lk[j] by {}
    assert forall|j: int| 0 <= j < rk.len() implies #[trigger] k[n + 1 + j] == rk[j] by {}
    assert(k[n as int] == sep);
    assert forall|a: int, b: int| 0 <= a < b < k.len() implies #[trigger] k[a].rank() < #[trigger] k[b].rank() by {
        if b < n {
        } else if b == n {
            assert(in_open_range(lo, Some(sep.rank()), lk[a].rank()));
        } else if a < n {
            assert(in_open_range(lo, Some(sep.rank()), lk[a].rank()));
            assert(in_open_range(Some(sep.rank()), hi, rk[b - n - 1].rank()));
        } else if a == n {
            assert(in_open_range(Some(sep.rank()), hi, rk[b - n - 1].rank()));
        } else {
            assert(k[a] == rk[a - n - 1] && k[b] == rk[b - n - 1]);
        }
    }
    assert forall|j: int| 0 <= j < k.len() implies in_open_range(lo, hi, #[trigger] k[j].rank()) by {
        if j < n {
            assert(in_open_range(lo, Some(sep.rank()), lk[j].rank()));
        } else if j > n {
            assert(k[j] == rk[j - n - 1]);
            assert(in_open_range(Some(sep.rank()), hi, rk[j - n - 1].rank()));
        }
    }
    assert forall|j: int| 0 <= j < c.len() implies (#[trigger] c[j]).wf(child_lo(k, lo, j), child_hi(k, hi, j)) by {
        if j < lc.len() {
            assert(c[j] == lc[j]);
            assert(child_lo(k, lo, j) == child_lo(lk, lo, j));
            assert(child_hi(k, hi, j) == child_hi(lk, Some(sep.rank()), j));
        } else {
            let jj = j - lc.len();
            assert(c[j] == rc[jj]);
            assert(child_lo(k, lo, j) == child_lo(rk, Some(sep.rank()), jj));
            assert(child_hi(k, hi, j) == child_hi(rk, hi, jj));
        }
    }
    lemma_children_concat(lc, rc);
}

/// The map of a child sequence, split around the adjacent children `j` and `j + 1`.
pub proof fn lemma_children_around_pair<K: KeyOrder, V>(cs: Seq<Node<K, V>>, j: int)
    requires
        0 <= j && j + 1 < cs.len(),
    ensures
        children_map(cs) == children_map(cs.subrange(0, j)).union_prefer_right(
            cs[j].content().union_prefer_right(cs[j + 1].content()),
        ).union_prefer_right(children_map(cs.subrange(j + 2, cs.len() as int))),
{
    let pre = cs.subrange(0, j);
    let post = cs.subrange(j + 2, cs.len() as int);
    assert(cs =~= pre + seq![cs[j], cs[j + 1]] + post);
    lemma_children_concat(pre + seq![cs[j], cs[j + 1]], post);
    lemma_children_concat(pre, seq![cs[j], cs[j + 1]]);
    assert(seq![cs[j], cs[j + 1]] =~= seq![cs[j]] + seq![cs[j + 1]]);
    lemma_children_concat(seq![cs[j]], seq![cs[j + 1]]);
    lemma_children_single(cs[j]);
    lemma_children_single(cs[j + 1]);
}

/// Replacing the adjacent children `j` and `j + 1` by two subtrees divided at a new
/// separator `s` keeps the branch well formed.
pub proof fn lemma_branch_replace_pair<K: KeyOrder, V>(
    keys: Seq<K>,
    cs: Seq<Node<K, V>>,
    lo: Option<int>,
    hi: Option<int>,
    j: int,
    a: Node<K, V>,
    s: K,
    b: Node<K, V>,
)
    requires
        branch_wf(keys, cs, lo, hi),
        0 <= j < keys.len(),
        in_open_range(child_lo(keys, lo, j), child_hi(keys, hi, j + 1), s.rank()),
        a.wf(child_lo(keys, lo, j), Some(s.rank())),
        b.wf(Some(s.rank()), child_hi(keys, hi, j + 1)),
    ensures
        branch_wf(keys.update(j, s), cs.update(j, a).update(j + 1, b), lo, hi),
        children_map(cs.update(j, a).update(j + 1, b)) == children_map(cs.subrange(0, j)).union_prefer_right(
            a.content().union_prefer_right(b.content()),
        ).union_prefer_right(children_map(cs.subrange(j + 2, cs.len() as int))),
{
    let k1 = keys.update(j, s);
    let c1 = cs.update(j, a).update(j + 1, b);
    assert(in_open_range(lo, hi, s.rank())) by {
        if j > 0 {
            assert(in_open_range(lo, hi, keys[j - 1].rank()));
        }
        if j + 1 < keys.len() {
            assert(in_open_range(lo, hi, keys[j + 1].rank()));
        }
    }
    assert forall|x: int, y: int| 0 <= x < y < k1.len() implies #[trigger] k1[x].rank() < #[trigger] k1[y].rank() by {
        if y == j {
            assert(keys[x].rank() <= keys[j - 1].rank());
        } else if x == j {
            assert(keys[j + 1].rank() <= keys[y].rank());
        }
    }
    assert forall|x: int| 0 <= x < c1.len() implies (#[trigger] c1[x]).wf(child_lo(k1, lo, x), child_hi(k1, hi, x)) by {
        if x < j || x > j + 1 {
            assert(c1[x] == cs[x]);
            assert(child_lo(k1, lo, x) == child_lo(keys, lo, x));
            assert(child_hi(k1, hi, x) == child_hi(keys, hi, x));
        } else if x == j {
            assert(child_lo(k1, lo, x) == child_lo(keys, lo, x));
        } else {
            assert(child_hi(k1, hi, x) == child_hi(keys, hi, x));
        }
    }
    lemma_children_around_pair(c1, j);
    assert(c1.subrange(0, j) =~= cs.subrange(0, j));
    assert(c1.subrange(j + 2, c1.len() as int) =~= cs.subrange(j + 2, cs.len() as int));
}

/// Replacing the adjacent children `j` and `j + 1` by one subtree spanning both, and dropping
/// the separator between them, keeps the branch well formed.
pub proof fn lemma_branch_merge_pair<K: KeyOrder, V>(
    keys: Seq<K>,
    cs: Seq<Node<K, V>>,
    lo: Option<int>,
    hi: Option<int>,
    j: int,
    c: Node<K, V>,
)
    requires
        branch_wf(keys, cs, lo, hi),
        0 <= j < keys.len(),
        c.wf(child_lo(keys, lo, j), child_hi(keys, hi, j + 1)),
    ensures
        branch_wf(keys.remove(j), cs.update(j, c).remove(j + 1), lo, hi),
        children_map(cs.update(j, c).remove(j + 1)) == children_map(cs.subrange(0, j)).union_prefer_right(
            c.content(),
        ).union_prefer_right(children_map(cs.subrange(j + 2, cs.len() as int))),
{
    let k1 = keys.remove(j);
    let c1 = cs.update(j, c).remove(j + 1);
    assert forall|x: int, y: int| 0 <= x < y < k1.len() implies #[trigger] k1[x].rank() < #[trigger] k1[y].rank() by {
        if y < j {
        } else if x < j {
            assert(k1[y] == keys[y + 1]);
        } else {
            assert(k1[x] == keys[x + 1] && k1[y] == keys[y + 1]);
        }
    }
    assert forall|x: int| 0 <= x < k1.len() implies in_open_range(lo, hi, #[trigger] k1[x].rank()) by {
        if x >= j {
            assert(k1[x] == keys[x + 1]);
        }
    }
    assert forall|x: int| 0 <= x < c1.len() implies (#[trigger] c1[x]).wf(child_lo(k1, lo, x), child_hi(k1, hi, x)) by {
        if x < j {
            assert(c1[x] == cs[x]);
            assert(child_lo(k1, lo, x) == child_lo(keys, lo, x));
            assert(child_hi(k1, hi, x) == child_hi(keys, hi, x));
        } else if x == j {
            assert(child_lo(k1, lo, x) == child_lo(keys, lo, x));
            assert(child_hi(k1, hi, x) == child_hi(keys, hi, x + 1));
        } else {
            assert(c1[x] == cs[x + 1]);
            assert(child_lo(k1, lo, x) == child_lo(keys, lo, x + 1));
            assert(child_hi(k1, hi, x) == child_hi(keys, hi, x + 1));
        }
    }
    lemma_children_around(c1, j);
    assert(c1.subrange(0, j) =~= cs.subrange(0, j));
    assert(c1.subrange(j + 1, c1.len() as int) =~= cs.subrange(j + 2, cs.len() as int));
}

} // verus!
