//! Tree nodes: the map each one holds, the invariants they keep, and lookups within them.
use crate::key::KeyOrder;
use vstd::prelude::*;

verus! {

broadcast use {vstd::std_specs::vec::group_vec_axioms, vstd::seq::group_seq_axioms};

/// Whether `r` lies in the half-open rank interval `[lo, hi)`; a missing end is unbounded.
pub open spec fn in_range(lo: Option<int>, hi: Option<int>, r: int) -> bool {
    &&& (match lo {
        Some(l) => l <= r,
        None => true,
    })
    &&& (match hi {
        Some(h) => r < h,
        None => true,
    })
}

/// Keys strictly ascending by rank.
pub open spec fn sorted_keys<K: KeyOrder>(s: Seq<K>) -> bool {
    forall|i: int, j: int| 0 <= i < j < s.len() ==> #[trigger] s[i].rank() < #[trigger] s[j].rank()
}

/// Every key's rank lies in `[lo, hi)`.
pub open spec fn keys_in_range<K: KeyOrder>(s: Seq<K>, lo: Option<int>, hi: Option<int>) -> bool {
    forall|i: int| 0 <= i < s.len() ==> in_range(lo, hi, #[trigger] s[i].rank())
}

/// Whether `r` lies strictly between `lo` and `hi`; a missing end is unbounded.
pub open spec fn in_open_range(lo: Option<int>, hi: Option<int>, r: int) -> bool {
    &&& (match lo {
        Some(l) => l < r,
        None => true,
    })
    &&& (match hi {
        Some(h) => r < h,
        None => true,
    })
}

/// Every key's rank lies strictly between `lo` and `hi`.
pub open spec fn keys_in_open_range<K: KeyOrder>(s: Seq<K>, lo: Option<int>, hi: Option<int>) -> bool {
    forall|i: int| 0 <= i < s.len() ==> in_open_range(lo, hi, #[trigger] s[i].rank())
}

/// The map held by parallel key and value sequences.
pub open spec fn leaf_map<K, V>(keys: Seq<K>, vals: Seq<V>) -> Map<K, V> {
    Map::new(
        |k: K| exists|i: int| 0 <= i < keys.len() && keys[i] == k,
        |k: K| vals[choose|i: int| 0 <= i < keys.len() && keys[i] == k],
    )
}

/// Lower rank bound of the child at `i` of a branch bounded by `lo`.
pub open spec fn child_lo<K: KeyOrder>(seps: Seq<K>, lo: Option<int>, i: int) -> Option<int> {
    if i == 0 {
        lo
    } else {
        Some(seps[i - 1].rank())
    }
}

/// Upper rank bound of the child at `i` of a branch bounded by `hi`.
pub open spec fn child_hi<K: KeyOrder>(seps: Seq<K>, hi: Option<int>, i: int) -> Option<int> {
    if i == seps.len() {
        hi
    } else {
        Some(seps[i].rank())
    }
}

/// A node of the tree: a leaf holds entries, a branch holds separators and children.
///
/// In a branch with separators `s` and children `c`, every key of `c[i]` is at least
/// `s[i - 1]` and below `s[i]`; a separator lies strictly inside the branch's bounds.
pub enum Node<K, V> {
    Leaf { keys: Vec<K>, vals: Vec<V> },
    Branch { keys: Vec<K>, children: Vec<Node<K, V>> },
}

/// The union of the children's maps, later children overriding earlier ones.
pub open spec fn children_map<K: KeyOrder, V>(cs: Seq<Node<K, V>>) -> Map<K, V>
    decreases cs,
{
    if cs.len() == 0 {
        Map::empty()
    } else {
        children_map(cs.drop_last()).union_prefer_right(cs.last().content())
    }
}

/// Structural invariant of a branch with separators `keys` and children `cs` whose
/// keys must lie in `[lo, hi)`.
pub open spec fn branch_wf<K: KeyOrder, V>(keys: Seq<K>, cs: Seq<Node<K, V>>, lo: Option<int>, hi: Option<int>) -> bool
    decreases cs,
{
    &&& cs.len() == keys.len() + 1
    &&& sorted_keys(keys)
    &&& keys_in_open_range(keys, lo, hi)
    &&& forall|i: int|
        0 <= i < cs.len() ==> (#[trigger] cs[i]).wf(child_lo(keys, lo, i), child_hi(keys, hi, i))
}

/// Every node of `cs` has all its leaves `h` levels down.
pub open spec fn all_balanced<K, V>(cs: Seq<Node<K, V>>, h: nat) -> bool
    decreases cs,
{
    forall|i: int| 0 <= i < cs.len() ==> (#[trigger] cs[i]).balanced(h)
}

/// Every node of `cs` holds between `min` and `cap` keys, and so do the nodes below it.
pub open spec fn all_occupied<K, V>(cs: Seq<Node<K, V>>, min: nat, cap: nat) -> bool
    decreases cs,
{
    forall|i: int| 0 <= i < cs.len() ==> min <= (#[trigger] cs[i]).key_count() && cs[i].occupied(min, cap)
}

impl<K, V> Node<K, V> {
    /// Number of keys (leaf entries or branch separators).
    pub open spec fn key_count(self) -> nat {
        match self {
            Node::Leaf { keys, .. } => keys.len() as nat,
            Node::Branch { keys, .. } => keys.len() as nat,
        }
    }

    /// This node holds at most `cap` keys, and every node below it between `min` and `cap`.
    pub open spec fn occupied(self, min: nat, cap: nat) -> bool
        decreases self,
    {
        match self {
            Node::Leaf { keys, .. } => keys.len() <= cap,
            Node::Branch { keys, children } => keys.len() <= cap && all_occupied(children@, min, cap),
        }
    }

    /// All leaves under this node lie `h` levels down.
    pub open spec fn balanced(self, h: nat) -> bool
        decreases self,
    {
        match self {
            Node::Leaf { .. } => h == 0,
            Node::Branch { children, .. } => h > 0 && all_balanced(children@, (h - 1) as nat),
        }
    }
}

impl<K: KeyOrder, V> Node<K, V> {
    /// The entries stored under this node.
    pub open spec fn content(self) -> Map<K, V>
        decreases self,
    {
        match self {
            Node::Leaf { keys, vals } => leaf_map(keys@, vals@),
            Node::Branch { keys, children } => children_map(children@),
        }
    }

    /// Structural invariant of a subtree whose keys must lie in `[lo, hi)`.
    pub open spec fn wf(self, lo: Option<int>, hi: Option<int>) -> bool
        decreases self,
    {
        match self {
            Node::Leaf { keys, vals } => {
                &&& keys.len() == vals.len()
                &&& sorted_keys(keys@)
                &&& keys_in_range(keys@, lo, hi)
            },
            Node::Branch { keys, children } => branch_wf(keys@, children@, lo, hi),
        }
    }
}


/// In a leaf with sorted keys, the key at `i` maps to the value at `i`.
pub proof fn lemma_leaf_at<K: KeyOrder, V>(keys: Seq<K>, vals: Seq<V>, i: int)
    requires
        sorted_keys(keys),
        0 <= i < keys.len(),
    ensures
        leaf_map(keys, vals).contains_key(keys[i]),
        leaf_map(keys, vals)[keys[i]] == vals[i],
{
    let k = keys[i];
    let j = choose|j: int| 0 <= j < keys.len() && keys[j] == k;
    if j != i {
        assert(keys[i].rank() != keys[j].rank());
    }
}

/// A key is in a leaf's map exactly when it is one of the keys.
pub proof fn lemma_leaf_contains<K: KeyOrder, V>(keys: Seq<K>, vals: Seq<V>, k: K)
    ensures
        leaf_map(keys, vals).contains_key(k) <==> keys.contains(k),
{
    if keys.contains(k) {
        let i = choose|i: int| 0 <= i < keys.len() && keys[i] == k;
        assert(leaf_map(keys, vals).dom().contains(k));
    }
}

/// A leaf's map has finitely many keys.
pub proof fn lemma_leaf_finite<K: KeyOrder, V>(keys: Seq<K>, vals: Seq<V>)
    ensures
        leaf_map(keys, vals).dom().finite(),
{
    assert forall|k: K| #[trigger] leaf_map(keys, vals).dom().contains(k) implies keys.to_set().contains(k) by {
        lemma_leaf_contains(keys, vals, k);
    }
    vstd::seq_lib::seq_to_set_is_finite(keys);
    vstd::set_lib::lemma_set_subset_finite(keys.to_set(), leaf_map(keys, vals).dom());
}

/// The map of concatenated sorted leaf sequences is the union of the two maps.
pub proof fn lemma_leaf_concat<K: KeyOrder, V>(ka: Seq<K>, va: Seq<V>, kb: Seq<K>, vb: Seq<V>)
    requires
        ka.len() == va.len(),
        kb.len() == vb.len(),
        sorted_keys(ka + kb),
    ensures
        leaf_map(ka + kb, va + vb) == leaf_map(ka, va).union_prefer_right(leaf_map(kb, vb)),
{
    let k = ka + kb;
    let v = va + vb;
    assert forall|i: int| 0 <= i < ka.len() implies #[trigger] ka[i] == k[i] by {}
    assert forall|i: int| 0 <= i < kb.len() implies #[trigger] kb[i] == k[i + ka.len()] by {}
    assert(sorted_keys(ka)) by {
        assert forall|i: int, j: int| 0 <= i < j < ka.len() implies #[trigger] ka[i].rank() < #[trigger] ka[j].rank() by {
            assert(k[i] == ka[i] && k[j] == ka[j]);
        }
    }
    assert(sorted_keys(kb)) by {
        assert forall|i: int, j: int| 0 <= i < j < kb.len() implies #[trigger] kb[i].rank() < #[trigger] kb[j].rank() by {
            assert(k[i + ka.len()] == kb[i] && k[j + ka.len()] == kb[j]);
        }
    }
    let lhs = leaf_map(k, v);
    let rhs = leaf_map(ka, va).union_prefer_right(leaf_map(kb, vb));
    assert forall|x: K| lhs.contains_key(x) <==> rhs.contains_key(x) by {
        lemma_leaf_contains(k, v, x);
        lemma_leaf_contains(ka, va, x);
        lemma_leaf_contains(kb, vb, x);
        if k.contains(x) {
            let i = choose|i: int| 0 <= i < k.len() && k[i] == x;
            if i < ka.len() {
                assert(ka[i] == x);
            } else {
                assert(kb[i - ka.len()] == x);
            }
        }
        if ka.contains(x) {
            let i = choose|i: int| 0 <= i < ka.len() && ka[i] == x;
            assert(k[i] == x);
        }
        if kb.contains(x) {
            let i = choose|i: int| 0 <= i < kb.len() && kb[i] == x;
            assert(k[i + ka.len()] == x);
        }
    }
    assert forall|x: K| #[trigger] lhs.contains_key(x) implies lhs[x] == rhs[x] by {
        lemma_leaf_contains(k, v, x);
        let i = choose|i: int| 0 <= i < k.len() && k[i] == x;
        lemma_leaf_at(k, v, i);
        if i < ka.len() {
            lemma_leaf_at(ka, va, i);
            lemma_leaf_contains(kb, vb, x);
            if kb.contains(x) {
                let j = choose|j: int| 0 <= j < kb.len() && kb[j] == x;
                assert(k[j + ka.len()] == x);
                assert(k[i].rank() < k[j + ka.len()].rank());
            }
        } else {
            lemma_leaf_at(kb, vb, i - ka.len());
        }
    }
    assert(lhs =~= rhs);
}

/// The map of a single child is that child's content.
pub proof fn lemma_children_single<K: KeyOrder, V>(c: Node<K, V>)
    ensures
        children_map(seq![c]) == c.content(),
{
    assert(seq![c].drop_last() =~= Seq::<Node<K, V>>::empty());
    assert(children_map(Seq::<Node<K, V>>::empty()) == Map::<K, V>::empty());
    assert(children_map(seq![c]) =~= c.content());
}

/// The map of concatenated child sequences is the union of the two maps.
pub proof fn lemma_children_concat<K: KeyOrder, V>(a: Seq<Node<K, V>>, b: Seq<Node<K, V>>)
    ensures
        children_map(a + b) == children_map(a).union_prefer_right(children_map(b)),
    decreases b.len(),
{
    if b.len() == 0 {
        assert(a + b =~= a);
        assert(children_map(b) == Map::<K, V>::empty());
        assert(children_map(a).union_prefer_right(Map::empty()) =~= children_map(a));
    } else {
        lemma_children_concat(a, b.drop_last());
        assert((a + b).drop_last() =~= a + b.drop_last());
        assert((a + b).last() == b.last());
        assert(children_map(a + b) =~= children_map(a).union_prefer_right(children_map(b)));
    }
}

/// A key of the children's map is a key of one of the children.
pub proof fn lemma_children_contains<K: KeyOrder, V>(cs: Seq<Node<K, V>>, k: K)
    requires
        children_map(cs).contains_key(k),
    ensures
        exists|j: int| 0 <= j < cs.len() && (#[trigger] cs[j]).content().contains_key(k),
    decreases cs.len(),
{
    if !cs.last().content().contains_key(k) {
        lemma_children_contains(cs.drop_last(), k);
        let j = choose|j: int| 0 <= j < cs.drop_last().len() && (#[trigger] cs.drop_last()[j]).content().contains_key(k);
        assert(cs[j] == cs.drop_last()[j]);
    } else {
        assert(cs[cs.len() - 1] == cs.last());
    }
}

/// When every child's map is finite, so is their union.
pub proof fn lemma_children_finite<K: KeyOrder, V>(cs: Seq<Node<K, V>>)
    requires
        forall|j: int| 0 <= j < cs.len() ==> (#[trigger] cs[j]).content().dom().finite(),
    ensures
        children_map(cs).dom().finite(),
    decreases cs.len(),
{
    if cs.len() > 0 {
        assert forall|j: int| 0 <= j < cs.drop_last().len() implies (#[trigger] cs.drop_last()[j]).content().dom().finite() by {
            assert(cs.drop_last()[j] == cs[j]);
        }
        lemma_children_finite(cs.drop_last());
        assert(cs.last() == cs[cs.len() - 1]);
        vstd::set_lib::lemma_set_union_finite_iff(children_map(cs.drop_last()).dom(), cs.last().content().dom());
        assert(children_map(cs).dom() =~= children_map(cs.drop_last()).dom().union(cs.last().content().dom()));
    }
}

/// A child of a well-formed branch is well formed within bounds that narrow the branch's.
pub proof fn lemma_child_wf<K: KeyOrder, V>(n: Node<K, V>, lo: Option<int>, hi: Option<int>, j: int)
    requires
        n.wf(lo, hi),
        n is Branch,
        0 <= j < n->Branch_children.len(),
    ensures
        n->Branch_children@[j].wf(child_lo(n->Branch_keys@, lo, j), child_hi(n->Branch_keys@, hi, j)),
        forall|r: int| in_range(child_lo(n->Branch_keys@, lo, j), child_hi(n->Branch_keys@, hi, j), r) ==> in_range(lo, hi, r),
{
    let keys = n->Branch_keys@;
    if j > 0 {
        assert(in_open_range(lo, hi, keys[j - 1].rank()));
    }
    if j < keys.len() {
        assert(in_open_range(lo, hi, keys[j].rank()));
    }
}

/// Every key of a leaf lies in the leaf's bounds, and there are finitely many.
pub proof fn lemma_leaf_range<K: KeyOrder, V>(keys: Seq<K>, vals: Seq<V>, lo: Option<int>, hi: Option<int>)
    requires
        keys_in_range(keys, lo, hi),
    ensures
        forall|k: K| #[trigger] leaf_map(keys, vals).contains_key(k) ==> in_range(lo, hi, k.rank()),
        leaf_map(keys, vals).dom().finite(),
{
    assert forall|k: K| #[trigger] leaf_map(keys, vals).contains_key(k) implies in_range(lo, hi, k.rank()) by {
        lemma_leaf_contains(keys, vals, k);
        let i = choose|i: int| 0 <= i < keys.len() && keys[i] == k;
    }
    lemma_leaf_finite(keys, vals);
}

/// Every key of a well-formed subtree lies in its bounds, and there are finitely many.
pub proof fn lemma_content_range<K: KeyOrder, V>(n: Node<K, V>, lo: Option<int>, hi: Option<int>)
    requires
        n.wf(lo, hi),
    ensures
        forall|k: K| #[trigger] n.content().contains_key(k) ==> in_range(lo, hi, k.rank()),
        n.content().dom().finite(),
    decreases n,
{
    match n {
        Node::Leaf { .. } => {
            lemma_leaf_range(n->Leaf_keys@, n->Leaf_vals@, lo, hi);
        },
        Node::Branch { .. } => {
            let keys = n->Branch_keys;
            let cs = n->Branch_children@;
            assert forall|j: int| 0 <= j < cs.len() implies {
                &&& (forall|k: K| #[trigger] cs[j].content().contains_key(k) ==> in_range(lo, hi, k.rank()))
                &&& (#[trigger] cs[j]).content().dom().finite()
            } by {
                lemma_child_wf(n, lo, hi, j);
                lemma_content_range(cs[j], child_lo(keys@, lo, j), child_hi(keys@, hi, j));
            }
            assert forall|k: K| #[trigger] n.content().contains_key(k) implies in_range(lo, hi, k.rank()) by {
                lemma_children_contains(cs, k);
                let j = choose|j: int| 0 <= j < cs.len() && (#[trigger] cs[j]).content().contains_key(k);
            }
            lemma_children_finite(cs);
        },
    }
}


/// Whether child `i` of a branch with separators `seps` is the one a key of rank `r` belongs to.
pub open spec fn in_slot<K: KeyOrder>(seps: Seq<K>, i: int, r: int) -> bool {
    &&& 0 <= i <= seps.len()
    &&& (i == 0 || seps[i - 1].rank() <= r)
    &&& (i == seps.len() || r < seps[i].rank())
}

/// In a well-formed branch, a key is found exactly where its slot's child finds it.
pub proof fn lemma_branch_slot<K: KeyOrder, V>(n: Node<K, V>, lo: Option<int>, hi: Option<int>, i: int, k: K)
    requires
        n.wf(lo, hi),
        n is Branch,
        in_slot(n->Branch_keys@, i, k.rank()),
    ensures
        n.content().contains_key(k) == n->Branch_children@[i].content().contains_key(k),
        n.content().contains_key(k) ==> n.content()[k] == n->Branch_children@[i].content()[k],
{
    let keys = n->Branch_keys@;
    let cs = n->Branch_children@;
    let pre = cs.subrange(0, i);
    let post = cs.subrange(i + 1, cs.len() as int);
    assert(cs =~= pre + seq![cs[i]] + post);
    lemma_children_concat(pre + seq![cs[i]], post);
    lemma_children_concat(pre, seq![cs[i]]);
    lemma_children_single(cs[i]);
    if children_map(pre).contains_key(k) {
        lemma_children_contains(pre, k);
        let j = choose|j: int| 0 <= j < pre.len() && (#[trigger] pre[j]).content().contains_key(k);
        assert(pre[j] == cs[j]);
        lemma_child_wf(n, lo, hi, j);
        lemma_content_range(cs[j], child_lo(keys, lo, j), child_hi(keys, hi, j));
        assert(keys[j].rank() <= keys[i - 1].rank());
    }
    if children_map(post).contains_key(k) {
        lemma_children_contains(post, k);
        let j = choose|j: int| 0 <= j < post.len() && (#[trigger] post[j]).content().contains_key(k);
        assert(post[j] == cs[j + i + 1]);
        lemma_child_wf(n, lo, hi, j + i + 1);
        lemma_content_range(cs[j + i + 1], child_lo(keys, lo, j + i + 1), child_hi(keys, hi, j + i + 1));
        assert(keys[i].rank() <= keys[j + i].rank());
    }
}

/// Binary search among keys sorted by rank: `Ok(i)` where a key of equal rank sits,
/// `Err(i)` where a key of that rank would be inserted.
pub fn search<K: KeyOrder>(keys: &Vec<K>, k: &K) -> (r: Result<usize, usize>)
    requires
        sorted_keys(keys@),
    ensures
        match r {
            Ok(i) => i < keys.len() && keys@[i as int].rank() == k.rank(),
            Err(i) => {
                &&& i <= keys.len()
                &&& forall|j: int| 0 <= j < i ==> #[trigger] keys@[j].rank() < k.rank()
                &&& forall|j: int| i <= j < keys.len() ==> k.rank() < #[trigger] keys@[j].rank()
            },
        },
{
    let mut lo: usize = 0;
    let mut hi: usize = keys.len();
    while lo < hi
        invariant
            sorted_keys(keys@),
            0 <= lo <= hi <= keys.len(),
            forall|j: int| 0 <= j < lo ==> #[trigger] keys@[j].rank() < k.rank(),
            forall|j: int| hi <= j < keys.len() ==> k.rank() < #[trigger] keys@[j].rank(),
        decreases hi - lo,
    {
        let mid: usize = lo + (hi - lo) / 2;
        match keys[mid].compare(k) {
            core::cmp::Ordering::Less => {
                lo = mid + 1;
            },
            core::cmp::Ordering::Equal => {
                return Ok(mid);
            },
            core::cmp::Ordering::Greater => {
                hi = mid;
            },
        }
    }
    Err(lo)
}

/// The child of a branch with separators `seps` that a key belongs to: the number of
/// separators at or below it.
pub fn route<K: KeyOrder>(seps: &Vec<K>, k: &K) -> (i: usize)
    requires
        sorted_keys(seps@),
    ensures
        in_slot(seps@, i as int, k.rank()),
{
    match search(seps, k) {
        Ok(i) => i + 1,
        Err(i) => i,
    }
}

impl<K: KeyOrder, V> Node<K, V> {
    /// The value stored under `k` in this subtree.
    pub fn get(&self, k: &K, Ghost(lo): Ghost<Option<int>>, Ghost(hi): Ghost<Option<int>>) -> (r: Option<&V>)
        requires
            self.wf(lo, hi),
        ensures
            match r {
                Some(v) => self.content().contains_key(*k) && *v == self.content()[*k],
                None => !self.content().contains_key(*k),
            },
        decreases self,
    {
        match self {
            Node::Leaf { keys, vals } => {
                match search(keys, k) {
                    Ok(i) => {
                        proof {
                            K::rank_injective(keys@[i as int], *k);
                            lemma_leaf_at(keys@, vals@, i as int);
                        }
                        Some(&vals[i])
                    },
                    Err(i) => {
                        proof {
                            lemma_leaf_contains(keys@, vals@, *k);
                            if keys@.contains(*k) {
                                let j = choose|j: int| 0 <= j < keys@.len() && keys@[j] == *k;
                                assert(keys@[j].rank() == k.rank());
                            }
                        }
                        None
                    },
                }
            },
            Node::Branch { keys, children } => {
                let i = route(keys, k);
                proof {
                    lemma_branch_slot(*self, lo, hi, i as int, *k);
                    lemma_child_wf(*self, lo, hi, i as int);
                }
                children[i].get(k, Ghost(child_lo(keys@, lo, i as int)), Ghost(child_hi(keys@, hi, i as int)))
            },
        }
    }
}


/// A leaf of one entry maps its key to its value.
pub proof fn lemma_leaf_single<K: KeyOrder, V>(k: K, v: V)
    ensures
        leaf_map(seq![k], seq![v]) == Map::<K, V>::empty().insert(k, v),
{
    lemma_leaf_contains(seq![k], seq![v], k);
    lemma_leaf_at(seq![k], seq![v], 0);
    assert forall|x: K| #[trigger] leaf_map(seq![k], seq![v]).contains_key(x) implies x == k by {
        lemma_leaf_contains(seq![k], seq![v], x);
    }
    assert(leaf_map(seq![k], seq![v]) =~= Map::<K, V>::empty().insert(k, v));
}

/// A contiguous part of sorted keys is sorted and lies between its neighbours.
pub proof fn lemma_sorted_sub<K: KeyOrder>(s: Seq<K>, a: int, b: int)
    requires
        sorted_keys(s),
        0 <= a <= b <= s.len(),
    ensures
        sorted_keys(s.subrange(a, b)),
        a > 0 ==> keys_in_range(s.subrange(a, b), Some(s[a - 1].rank()), None),
        b < s.len() ==> keys_in_range(s.subrange(a, b), None, Some(s[b].rank())),
{
    let t = s.subrange(a, b);
    assert forall|i: int, j: int| 0 <= i < j < t.len() implies #[trigger] t[i].rank() < #[trigger] t[j].rank() by {
        assert(t[i] == s[a + i] && t[j] == s[a + j]);
    }
    if a > 0 {
        assert forall|i: int| 0 <= i < t.len() implies in_range(Some(s[a - 1].rank()), None, #[trigger] t[i].rank()) by {
            assert(t[i] == s[a + i]);
        }
    }
    if b < s.len() {
        assert forall|i: int| 0 <= i < t.len() implies in_range(None, Some(s[b].rank()), #[trigger] t[i].rank()) by {
            assert(t[i] == s[a + i]);
        }
    }
}

/// Keys of the children `a..b` of a well-formed branch lie between those children's outer bounds.
pub proof fn lemma_children_bounds<K: KeyOrder, V>(n: Node<K, V>, lo: Option<int>, hi: Option<int>, a: int, b: int)
    requires
        n.wf(lo, hi),
        n is Branch,
        0 <= a < b <= n->Branch_children.len(),
    ensures
        forall|x: K| #[trigger] children_map(n->Branch_children@.subrange(a, b)).contains_key(x) ==> in_range(
            child_lo(n->Branch_keys@, lo, a),
            child_hi(n->Branch_keys@, hi, b - 1),
            x.rank(),
        ),
        children_map(n->Branch_children@.subrange(a, b)).dom().finite(),
{
    let keys = n->Branch_keys@;
    let cs = n->Branch_children@;
    let sub = cs.subrange(a, b);
    assert forall|x: K| #[trigger] children_map(sub).contains_key(x) implies in_range(
        child_lo(keys, lo, a),
        child_hi(keys, hi, b - 1),
        x.rank(),
    ) by {
        lemma_children_contains(sub, x);
        let j = choose|j: int| 0 <= j < sub.len() && (#[trigger] sub[j]).content().contains_key(x);
        assert(sub[j] == cs[a + j]);
        lemma_child_wf(n, lo, hi, a + j);
        lemma_content_range(cs[a + j], child_lo(keys, lo, a + j), child_hi(keys, hi, a + j));
        if a > 0 && j > 0 {
            assert(keys[a - 1].rank() <= keys[a + j - 1].rank());
        }
        if b - 1 < keys.len() && a + j < b - 1 {
            assert(keys[a + j].rank() <= keys[b - 1].rank());
        }
    }
    assert forall|j: int| 0 <= j < sub.len() implies (#[trigger] sub[j]).content().dom().finite() by {
        assert(sub[j] == cs[a + j]);
        lemma_child_wf(n, lo, hi, a + j);
        lemma_content_range(cs[a + j], child_lo(keys, lo, a + j), child_hi(keys, hi, a + j));
    }
    lemma_children_finite(sub);
}


/// Splitting a sorted leaf at `m` splits its map into the maps of the two parts.
pub proof fn lemma_leaf_split<K: KeyOrder, V>(keys: Seq<K>, vals: Seq<V>, m: int)
    requires
        sorted_keys(keys),
        keys.len() == vals.len(),
        0 <= m <= keys.len(),
    ensures
        leaf_map(keys, vals) == leaf_map(keys.subrange(0, m), vals.subrange(0, m)).union_prefer_right(
            leaf_map(keys.subrange(m, keys.len() as int), vals.subrange(m, vals.len() as int)),
        ),
{
    assert(keys =~= keys.subrange(0, m) + keys.subrange(m, keys.len() as int));
    assert(vals =~= vals.subrange(0, m) + vals.subrange(m, vals.len() as int));
    lemma_leaf_concat(keys.subrange(0, m), vals.subrange(0, m), keys.subrange(m, keys.len() as int), vals.subrange(m, vals.len() as int));
}

/// Inserting a key at its sorted position adds it to the leaf's map.
pub proof fn lemma_leaf_insert<K: KeyOrder, V>(keys: Seq<K>, vals: Seq<V>, i: int, k: K, v: V)
    requires
        sorted_keys(keys),
        keys.len() == vals.len(),
        0 <= i <= keys.len(),
        forall|j: int| 0 <= j < i ==> #[trigger] keys[j].rank() < k.rank(),
        forall|j: int| i <= j < keys.len() ==> k.rank() < #[trigger] keys[j].rank(),
    ensures
        sorted_keys(keys.insert(i, k)),
        !leaf_map(keys, vals).contains_key(k),
        leaf_map(keys.insert(i, k), vals.insert(i, v)) == leaf_map(keys, vals).insert(k, v),
{
    let k1 = keys.insert(i, k);
    let v1 = vals.insert(i, v);
    assert forall|a: int, b: int| 0 <= a < b < k1.len() implies #[trigger] k1[a].rank() < #[trigger] k1[b].rank() by {
        if b < i {
        } else if b == i {
        } else if a < i {
            assert(keys[a].rank() < keys[b - 1].rank() || a == b - 1);
        } else if a == i {
        } else {
        }
    }
    lemma_leaf_contains(keys, vals, k);
    if keys.contains(k) {
        let j = choose|j: int| 0 <= j < keys.len() && keys[j] == k;
    }
    let ka = keys.subrange(0, i);
    let kb = keys.subrange(i, keys.len() as int);
    let va = vals.subrange(0, i);
    let vb = vals.subrange(i, vals.len() as int);
    lemma_leaf_split(keys, vals, i);
    assert(k1 =~= (ka + seq![k]) + kb);
    assert(v1 =~= (va + seq![v]) + vb);
    lemma_leaf_split(k1, v1, i + 1);
    assert(k1.subrange(0, i + 1) =~= ka + seq![k]);
    assert(v1.subrange(0, i + 1) =~= va + seq![v]);
    assert(k1.subrange(i + 1, k1.len() as int) =~= kb);
    assert(v1.subrange(i + 1, v1.len() as int) =~= vb);
    lemma_sorted_sub(k1, 0, i + 1);
    lemma_leaf_concat(ka, va, seq![k], seq![v]);
    lemma_leaf_single(k, v);
    lemma_leaf_contains(kb, vb, k);
    if kb.contains(k) {
        let j = choose|j: int| 0 <= j < kb.len() && kb[j] == k;
        assert(kb[j] == keys[i + j]);
    }
    assert(leaf_map(k1, v1) =~= leaf_map(keys, vals).insert(k, v));
}

/// Replacing the value at `i` rebinds that key in the leaf's map.
pub proof fn lemma_leaf_update<K: KeyOrder, V>(keys: Seq<K>, vals: Seq<V>, i: int, v: V)
    requires
        sorted_keys(keys),
        keys.len() == vals.len(),
        0 <= i < keys.len(),
    ensures
        leaf_map(keys, vals.update(i, v)) == leaf_map(keys, vals).insert(keys[i], v),
{
    let v1 = vals.update(i, v);
    assert forall|x: K| #[trigger] leaf_map(keys, v1).contains_key(x) <==> leaf_map(keys, vals).insert(keys[i], v).contains_key(x) by {
        lemma_leaf_contains(keys, v1, x);
        lemma_leaf_contains(keys, vals, x);
    }
    assert forall|x: K| #[trigger] leaf_map(keys, v1).contains_key(x) implies leaf_map(keys, v1)[x] == leaf_map(keys, vals).insert(keys[i], v)[x] by {
        lemma_leaf_contains(keys, v1, x);
        let j = choose|j: int| 0 <= j < keys.len() && keys[j] == x;
        lemma_leaf_at(keys, v1, j);
        lemma_leaf_at(keys, vals, j);
        if j != i {
            assert(keys[i].rank() != keys[j].rank());
        }
    }
    assert(leaf_map(keys, v1) =~= leaf_map(keys, vals).insert(keys[i], v));
}

/// Removing the entry at `i` removes its key from the leaf's map.
pub proof fn lemma_leaf_remove<K: KeyOrder, V>(keys: Seq<K>, vals: Seq<V>, i: int)
    requires
        sorted_keys(keys),
        keys.len() == vals.len(),
        0 <= i < keys.len(),
    ensures
        sorted_keys(keys.remove(i)),
        leaf_map(keys.remove(i), vals.remove(i)) == leaf_map(keys, vals).remove(keys[i]),
{
    let k1 = keys.remove(i);
    let v1 = vals.remove(i);
    assert forall|a: int, b: int| 0 <= a < b < k1.len() implies #[trigger] k1[a].rank() < #[trigger] k1[b].rank() by {
        if b < i {
        } else if a < i {
            assert(k1[b] == keys[b + 1]);
        } else {
            assert(k1[a] == keys[a + 1] && k1[b] == keys[b + 1]);
        }
    }
    assert forall|x: K| #[trigger] leaf_map(k1, v1).contains_key(x) <==> leaf_map(keys, vals).remove(keys[i]).contains_key(x) by {
        lemma_leaf_contains(k1, v1, x);
        lemma_leaf_contains(keys, vals, x);
        if k1.contains(x) {
            let j = choose|j: int| 0 <= j < k1.len() && k1[j] == x;
            if j < i {
                assert(keys[j] == x);
                assert(keys[j].rank() < keys[i].rank());
            } else {
                assert(keys[j + 1] == x);
                assert(keys[i].rank() < keys[j + 1].rank());
            }
        }
        if keys.contains(x) && x != keys[i] {
            let j = choose|j: int| 0 <= j < keys.len() && keys[j] == x;
            if j < i {
                assert(k1[j] == x);
            } else {
                assert(k1[j - 1] == x);
            }
        }
    }
    assert forall|x: K| #[trigger] leaf_map(k1, v1).contains_key(x) implies leaf_map(k1, v1)[x] == leaf_map(keys, vals)[x] by {
        lemma_leaf_contains(k1, v1, x);
        let j = choose|j: int| 0 <= j < k1.len() && k1[j] == x;
        lemma_leaf_at(k1, v1, j);
        if j < i {
            lemma_leaf_at(keys, vals, j);
        } else {
            lemma_leaf_at(keys, vals, j + 1);
        }
    }
    assert(leaf_map(k1, v1) =~= leaf_map(keys, vals).remove(keys[i]));
}

} // verus!
