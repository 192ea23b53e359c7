//! Lazy, double-ended iteration over the entries of a map between two bounds.
use crate::key::KeyOrder;
use crate::map::BPlusTreeMap;
use crate::seek::{Bound, above, below, first_above_result, last_below_result};
use vstd::prelude::*;

verus! {

/// The entries of `m` whose keys lie on or after `lower` and on or before `upper`.
pub open spec fn between<K: KeyOrder, V>(m: Map<K, V>, lower: Bound<K>, upper: Bound<K>) -> Map<K, V> {
    Map::new(|x: K| m.contains_key(x) && above(lower, x.rank()) && below(upper, x.rank()), |x: K| m[x])
}

/// Whether `k` has the least rank among the keys of `m`.
pub open spec fn is_least<K: KeyOrder, V>(m: Map<K, V>, k: K) -> bool {
    &&& m.contains_key(k)
    &&& forall|x: K| #[trigger] m.contains_key(x) ==> k.rank() <= x.rank()
}

/// Whether `k` has the greatest rank among the keys of `m`.
pub open spec fn is_greatest<K: KeyOrder, V>(m: Map<K, V>, k: K) -> bool {
    &&& m.contains_key(k)
    &&& forall|x: K| #[trigger] m.contains_key(x) ==> x.rank() <= k.rank()
}

/// A bound on borrowed keys, read as a bound on the keys themselves.
pub open spec fn owned_bound<K>(b: Bound<&K>) -> Bound<K> {
    match b {
        Bound::Included(k) => Bound::Included(*k),
        Bound::Excluded(k) => Bound::Excluded(*k),
        Bound::Unbounded => Bound::Unbounded,
    }
}

/// Whether `s` lists the entries of `m` in ascending key order, each once.
pub open spec fn lists_in_order<K: KeyOrder, V>(m: Map<K, V>, s: Seq<(&K, &V)>) -> bool {
    &&& forall|i: int| 0 <= i < s.len() ==> m.contains_key(*(#[trigger] s[i]).0) && *s[i].1 == m[*s[i].0]
    &&& forall|i: int, j: int| 0 <= i < j < s.len() ==> (*(#[trigger] s[i]).0).rank() < (*(#[trigger] s[j]).0).rank()
    &&& forall|x: K| #[trigger] m.contains_key(x) ==> exists|i: int| 0 <= i < s.len() && *s[i].0 == x
}

/// Whether a key lies on or after a lower bound.
pub fn is_above<K: KeyOrder>(b: &Bound<K>, k: &K) -> (r: bool)
    ensures
        r == above(*b, k.rank()),
{
    match b {
        Bound::Included(x) => !matches!(k.compare(x), core::cmp::Ordering::Less),
        Bound::Excluded(x) => matches!(k.compare(x), core::cmp::Ordering::Greater),
        Bound::Unbounded => true,
    }
}

/// Whether a key lies on or before an upper bound.
pub fn is_below<K: KeyOrder>(b: &Bound<K>, k: &K) -> (r: bool)
    ensures
        r == below(*b, k.rank()),
{
    match b {
        Bound::Included(x) => !matches!(k.compare(x), core::cmp::Ordering::Greater),
        Bound::Excluded(x) => matches!(k.compare(x), core::cmp::Ordering::Less),
        Bound::Unbounded => true,
    }
}

/// The state of an [`Items`] cursor.
pub enum ItemsInner<'a, K: KeyOrder, V> {
    /// The entries of `tree` not yet handed out are those between `lower` and `upper`;
    /// nothing has been looked up yet beyond what was handed out.
    Lazy { tree: &'a BPlusTreeMap<K, V>, lower: Bound<K>, upper: Bound<K> },
    /// Nothing is left.
    Done,
}

/// A cursor over the entries of a map between two bounds, in ascending key order from
/// the front and descending from the back. The two ends meet: no entry is handed out twice.
pub struct Items<'a, K: KeyOrder, V> {
    pub(crate) inner: ItemsInner<'a, K, V>,
    /// How many entries are left, when that is known (for a cursor over the whole map).
    known_len: Option<usize>,
}

/// The entries left to a cursor in state `inner`.
pub open spec fn inner_remaining<'a, K: KeyOrder, V>(inner: ItemsInner<'a, K, V>) -> Map<K, V> {
    match inner {
        ItemsInner::Lazy { tree, lower, upper } => between(tree@, lower, upper),
        ItemsInner::Done => Map::empty(),
    }
}

impl<'a, K: KeyOrder, V> Items<'a, K, V> {
    /// The entries not yet handed out.
    pub closed spec fn remaining(self) -> Map<K, V> {
        inner_remaining(self.inner)
    }

    /// Whether the cursor keeps count of the entries left (it was made for the whole map
    /// and has not run out).
    pub closed spec fn counted(self) -> bool {
        self.known_len is Some
    }

    #[verifier::type_invariant]
    closed spec fn inv(self) -> bool {
        &&& self.remaining().dom().finite()
        &&& (self.known_len matches Some(n) ==> n == self.remaining().len())
    }

    /// A cursor over the entries of `tree` between `lower` and `upper`; nothing is looked up
    /// yet. When `counted`, the cursor covers the whole map and keeps count of what is left.
    pub(crate) fn new(tree: &'a BPlusTreeMap<K, V>, lower: Bound<K>, upper: Bound<K>, counted: bool) -> (r: Self)
        requires
            counted ==> lower == Bound::<K>::Unbounded && upper == Bound::<K>::Unbounded,
        ensures
            r.remaining() == between(tree@, lower, upper),
            r.counted() == counted,
    {
        let n = tree.len();
        let ghost rem = between(tree@, lower, upper);
        proof {
            vstd::set_lib::lemma_set_subset_finite(tree@.dom(), rem.dom());
            if counted {
                assert(rem =~= tree@);
            }
        }
        let known_len = if counted {
            Some(n)
        } else {
            None
        };
        Items { inner: ItemsInner::Lazy { tree, lower, upper }, known_len }
    }

    /// Bounds on the number of entries left: exact for a cursor over the whole map, and
    /// unknown (`(0, None)`) for a cursor over a range.
    pub fn size_hint(&self) -> (r: (usize, Option<usize>))
        ensures
            self.counted() ==> r.0 == self.remaining().len() && r.1 == Some(r.0),
            !self.counted() ==> r == (0usize, None::<usize>),
    {
        proof {
            use_type_invariant(self);
        }
        match self.known_len {
            Some(n) => (n, Some(n)),
            None => (0, None),
        }
    }

    /// Hands out the remaining entry with the least key.
    pub fn next(&mut self) -> (r: Option<(&'a K, &'a V)>)
        ensures
            match r {
                Some(p) => {
                    &&& is_least(old(self).remaining(), *p.0)
                    &&& *p.1 == old(self).remaining()[*p.0]
                    &&& final(self).remaining() == old(self).remaining().remove(*p.0)
                    &&& final(self).counted() == old(self).counted()
                },
                None => old(self).remaining() == Map::<K, V>::empty() && final(self).remaining() == Map::<K, V>::empty(),
            },
    {
        proof {
            use_type_invariant(&*self);
        }
        let mut whole = Items { inner: ItemsInner::Done, known_len: None };
        proof {
            assert(whole.remaining() =~= Map::<K, V>::empty());
        }
        core::mem::swap(self, &mut whole);
        let Items { inner: state, known_len } = whole;
        let ghost rem0 = inner_remaining(state);
        let next_len = match known_len {
            Some(n) => if n > 0 {
                Some(n - 1)
            } else {
                Some(0)
            },
            None => None,
        };
        match state {
            ItemsInner::Done => {
                proof {
                    assert(old(self).remaining() == Map::<K, V>::empty());
                }
                None
            },
            ItemsInner::Lazy { tree, lower, upper } => {
                let ghost m = tree@;
                let ghost rem = between(m, lower, upper);
                let found = tree.root().seek_first(&lower, Ghost(None), Ghost(None));
                proof {
                    assert(first_above_result(m, lower, found));
                }
                match found {
                    Some((k, v)) => {
                        if is_below(&upper, k) {
                            let next_lower = Bound::Excluded(k.copy_key());
                            proof {
                                let rem2 = between(m, next_lower, upper);
                                assert forall|x: K| #[trigger] rem2.contains_key(x) <==> rem.remove(*k).contains_key(x) by {
                                    if rem.contains_key(x) && x.rank() == k.rank() {
                                        K::rank_injective(x, *k);
                                    }
                                }
                                assert(rem2 =~= rem.remove(*k));
                            }
                            proof {
                                assert(rem.contains_key(*k));
                            }
                            *self = Items { inner: ItemsInner::Lazy { tree, lower: next_lower, upper }, known_len: next_len };
                            Some((k, v))
                        } else {
                            proof {
                                assert(rem =~= Map::<K, V>::empty());
                            }
                            None
                        }
                    },
                    None => {
                        proof {
                            assert(rem =~= Map::<K, V>::empty());
                        }
                        None
                    },
                }
            },
        }
    }

    /// Hands out the remaining entry with the greatest key.
    pub fn next_back(&mut self) -> (r: Option<(&'a K, &'a V)>)
        ensures
            match r {
                Some(p) => {
                    &&& is_greatest(old(self).remaining(), *p.0)
                    &&& *p.1 == old(self).remaining()[*p.0]
                    &&& final(self).remaining() == old(self).remaining().remove(*p.0)
                    &&& final(self).counted() == old(self).counted()
                },
                None => old(self).remaining() == Map::<K, V>::empty() && final(self).remaining() == Map::<K, V>::empty(),
            },
    {
        proof {
            use_type_invariant(&*self);
        }
        let mut whole = Items { inner: ItemsInner::Done, known_len: None };
        proof {
            assert(whole.remaining() =~= Map::<K, V>::empty());
        }
        core::mem::swap(self, &mut whole);
        let Items { inner: state, known_len } = whole;
        let ghost rem0 = inner_remaining(state);
        let next_len = match known_len {
            Some(n) => if n > 0 {
                Some(n - 1)
            } else {
                Some(0)
            },
            None => None,
        };
        match state {
            ItemsInner::Done => {
                proof {
                    assert(old(self).remaining() == Map::<K, V>::empty());
                }
                None
            },
            ItemsInner::Lazy { tree, lower, upper } => {
                let ghost m = tree@;
                let ghost rem = between(m, lower, upper);
                let found = tree.root().seek_last(&upper, Ghost(None), Ghost(None));
                proof {
                    assert(last_below_result(m, upper, found));
                }
                match found {
                    Some((k, v)) => {
                        if is_above(&lower, k) {
                            let next_upper = Bound::Excluded(k.copy_key());
                            proof {
                                let rem2 = between(m, lower, next_upper);
                                assert forall|x: K| #[trigger] rem2.contains_key(x) <==> rem.remove(*k).contains_key(x) by {
                                    if rem.contains_key(x) && x.rank() == k.rank() {
                                        K::rank_injective(x, *k);
                                    }
                                }
                                assert(rem2 =~= rem.remove(*k));
                            }
                            proof {
                                assert(rem.contains_key(*k));
                            }
                            *self = Items { inner: ItemsInner::Lazy { tree, lower, upper: next_upper }, known_len: next_len };
                            Some((k, v))
                        } else {
                            proof {
                                assert(rem =~= Map::<K, V>::empty());
                            }
                            None
                        }
                    },
                    None => {
                        proof {
                            assert(rem =~= Map::<K, V>::empty());
                        }
                        None
                    },
                }
            },
        }
    }
}


/// A cursor over the keys of a map between two bounds.
pub struct Keys<'a, K: KeyOrder, V> {
    pub(crate) inner: Items<'a, K, V>,
}

impl<'a, K: KeyOrder, V> Keys<'a, K, V> {
    /// Whether the cursor keeps count of the entries left.
    pub closed spec fn counted(self) -> bool {
        self.inner.counted()
    }

    /// Bounds on the number of entries left, as for [`Items::size_hint`].
    pub fn size_hint(&self) -> (r: (usize, Option<usize>))
        ensures
            self.counted() ==> r.0 == self.remaining().len() && r.1 == Some(r.0),
            !self.counted() ==> r == (0usize, None::<usize>),
    {
        self.inner.size_hint()
    }

    /// The entries whose keys are not yet handed out.
    pub closed spec fn remaining(self) -> Map<K, V> {
        self.inner.remaining()
    }

    /// Hands out the least remaining key.
    pub fn next(&mut self) -> (r: Option<&'a K>)
        ensures
            match r {
                Some(k) => is_least(old(self).remaining(), *k) && final(self).remaining() == old(self).remaining().remove(*k)
                    && final(self).counted() == old(self).counted(),
                None => old(self).remaining() == Map::<K, V>::empty() && final(self).remaining() == Map::<K, V>::empty(),
            },
    {
        match self.inner.next() {
            Some((k, _)) => Some(k),
            None => None,
        }
    }

    /// Hands out the greatest remaining key.
    pub fn next_back(&mut self) -> (r: Option<&'a K>)
        ensures
            match r {
                Some(k) => is_greatest(old(self).remaining(), *k) && final(self).remaining() == old(self).remaining().remove(*k)
                    && final(self).counted() == old(self).counted(),
                None => old(self).remaining() == Map::<K, V>::empty() && final(self).remaining() == Map::<K, V>::empty(),
            },
    {
        match self.inner.next_back() {
            Some((k, _)) => Some(k),
            None => None,
        }
    }
}

/// A cursor over the values of a map between two bounds, in the order of their keys.
pub struct Values<'a, K: KeyOrder, V> {
    pub(crate) inner: Items<'a, K, V>,
}

impl<'a, K: KeyOrder, V> Values<'a, K, V> {
    /// Whether the cursor keeps count of the entries left.
    pub closed spec fn counted(self) -> bool {
        self.inner.counted()
    }

    /// Bounds on the number of entries left, as for [`Items::size_hint`].
    pub fn size_hint(&self) -> (r: (usize, Option<usize>))
        ensures
            self.counted() ==> r.0 == self.remaining().len() && r.1 == Some(r.0),
            !self.counted() ==> r == (0usize, None::<usize>),
    {
        self.inner.size_hint()
    }

    /// The entries whose values are not yet handed out.
    pub closed spec fn remaining(self) -> Map<K, V> {
        self.inner.remaining()
    }

    /// Hands out the value of the least remaining key.
    pub fn next(&mut self) -> (r: Option<&'a V>)
        ensures
            match r {
                Some(v) => exists|k: K|
                    is_least(old(self).remaining(), k) && *v == old(self).remaining()[k] && final(self).remaining()
                        == old(self).remaining().remove(k) && final(self).counted() == old(self).counted(),
                None => old(self).remaining() == Map::<K, V>::empty() && final(self).remaining() == Map::<K, V>::empty(),
            },
    {
        let ghost before = self.remaining();
        let ghost was_counted = self.counted();
        match self.inner.next() {
            Some((k, v)) => {
                proof {
                    assert(is_least(before, *k) && *v == before[*k] && self.remaining() == before.remove(*k)
                        && self.counted() == was_counted);
                }
                Some(v)
            },
            None => None,
        }
    }

    /// Hands out the value of the greatest remaining key.
    pub fn next_back(&mut self) -> (r: Option<&'a V>)
        ensures
            match r {
                Some(v) => exists|k: K|
                    is_greatest(old(self).remaining(), k) && *v == old(self).remaining()[k] && final(self).remaining()
                        == old(self).remaining().remove(k) && final(self).counted() == old(self).counted(),
                None => old(self).remaining() == Map::<K, V>::empty() && final(self).remaining() == Map::<K, V>::empty(),
            },
    {
        let ghost before = self.remaining();
        let ghost was_counted = self.counted();
        match self.inner.next_back() {
            Some((k, v)) => {
                proof {
                    assert(is_greatest(before, *k) && *v == before[*k] && self.remaining() == before.remove(*k)
                        && self.counted() == was_counted);
                }
                Some(v)
            },
            None => None,
        }
    }
}

impl<K: KeyOrder, V> BPlusTreeMap<K, V> {
    /// A cursor over all entries.
    pub fn items(&self) -> (r: Items<'_, K, V>)
        ensures
            r.remaining() == self@,
            r.counted(),
    {
        let r = Items::new(self, Bound::Unbounded, Bound::Unbounded, true);
        proof {
            assert(r.remaining() =~= self@);
        }
        r
    }

    /// A cursor over all keys.
    pub fn keys(&self) -> (r: Keys<'_, K, V>)
        ensures
            r.remaining() == self@,
            r.counted(),
    {
        Keys { inner: self.items() }
    }

    /// A cursor over all values, in the order of their keys.
    pub fn values(&self) -> (r: Values<'_, K, V>)
        ensures
            r.remaining() == self@,
            r.counted(),
    {
        Values { inner: self.items() }
    }

    /// An owned copy of a bound on a borrowed key.
    fn clone_bound(b: Bound<&K>) -> (r: Bound<K>)
        ensures
            r == owned_bound(b),
    {
        match b {
            Bound::Included(k) => Bound::Included(k.copy_key()),
            Bound::Excluded(k) => Bound::Excluded(k.copy_key()),
            Bound::Unbounded => Bound::Unbounded,
        }
    }

    /// A cursor over the entries between `start` and `end`; nothing is looked up until it is
    /// first advanced.
    pub fn range(&self, start: Bound<&K>, end: Bound<&K>) -> (r: Items<'_, K, V>)
        ensures
            r.remaining() == between(self@, owned_bound(start), owned_bound(end)),
            !r.counted(),
    {
        Items::new(self, Self::clone_bound(start), Self::clone_bound(end), false)
    }

    /// A cursor over the entries from `start` (included) up to `end` (excluded); a missing
    /// end leaves that side open.
    pub fn items_range(&self, start: Option<&K>, end: Option<&K>) -> (r: Items<'_, K, V>)
        ensures
            r.remaining() == between(
                self@,
                match start {
                    Some(k) => Bound::Included(*k),
                    None => Bound::Unbounded,
                },
                match end {
                    Some(k) => Bound::Excluded(*k),
                    None => Bound::Unbounded,
                },
            ),
    {
        let lower = match start {
            Some(k) => Bound::Included(k),
            None => Bound::Unbounded,
        };
        let upper = match end {
            Some(k) => Bound::Excluded(k),
            None => Bound::Unbounded,
        };
        self.range(lower, upper)
    }

    /// The entries between `start` and `end`, in ascending key order.
    pub fn collect_range_bounds(&self, start: Bound<&K>, end: Bound<&K>) -> (r: Vec<(&K, &V)>)
        ensures
            lists_in_order(between(self@, owned_bound(start), owned_bound(end)), r@),
    {
        let mut it = self.range(start, end);
        let ghost m = it.remaining();
        let mut out: Vec<(&K, &V)> = Vec::new();
        let _ = self.len();
        proof {
            vstd::set_lib::lemma_set_subset_finite(self@.dom(), m.dom());
        }
        loop
            invariant
                m == between(self@, owned_bound(start), owned_bound(end)),
                it.remaining().dom().finite(),
                forall|x: K| #[trigger] it.remaining().contains_key(x) ==> m.contains_key(x) && it.remaining()[x] == m[x],
                forall|x: K|
                    #[trigger] m.contains_key(x) ==> it.remaining().contains_key(x) || exists|i: int|
                        0 <= i < out@.len() && *out@[i].0 == x,
                forall|i: int|
                    0 <= i < out@.len() ==> m.contains_key(*(#[trigger] out@[i]).0) && *out@[i].1 == m[*out@[i].0]
                        && !it.remaining().contains_key(*out@[i].0),
                forall|i: int, j: int| 0 <= i < j < out@.len() ==> (*(#[trigger] out@[i]).0).rank() < (*(#[trigger] out@[j]).0).rank(),
                forall|i: int, x: K|
                    0 <= i < out@.len() && #[trigger] it.remaining().contains_key(x) ==> (*(#[trigger] out@[i]).0).rank() < x.rank(),
            ensures
                it.remaining() == Map::<K, V>::empty(),
            decreases it.remaining().dom().len(),
        {
            let ghost before = it.remaining();
            let ghost out0 = out@;
            match it.next() {
                Some(p) => {
                    out.push(p);
                    proof {
                        assert(out@[out@.len() - 1] == p);
                        assert forall|i: int| 0 <= i < out0.len() implies out@[i] == out0[i] by {}
                        assert forall|x: K| #[trigger] m.contains_key(x) implies it.remaining().contains_key(x) || exists|i: int|
                            0 <= i < out@.len() && *out@[i].0 == x by {
                            if !before.contains_key(x) {
                                let i = choose|i: int| 0 <= i < out0.len() && *out0[i].0 == x;
                                assert(out@[i] == out0[i]);
                            } else if x == *p.0 {
                                assert(out@[out@.len() - 1] == p);
                            }
                        }
                        assert forall|i: int, x: K|
                            0 <= i < out@.len() && #[trigger] it.remaining().contains_key(x) implies (*(#[trigger] out@[i]).0).rank() < x.rank() by {
                            if i < out0.len() {
                                assert(out@[i] == out0[i]);
                            } else {
                                assert(before.contains_key(x));
                                if x.rank() == p.0.rank() {
                                    K::rank_injective(x, *p.0);
                                }
                            }
                        }
                    }
                },
                None => {
                    break;
                },
            }
        }
        out
    }

    /// The entry with the least key.
    pub fn first(&self) -> (r: Option<(&K, &V)>)
        ensures
            first_above_result(self@, Bound::Unbounded, r),
    {
        self.root().seek_first(&Bound::Unbounded, Ghost(None), Ghost(None))
    }

    /// The entry with the greatest key.
    pub fn last(&self) -> (r: Option<(&K, &V)>)
        ensures
            last_below_result(self@, Bound::Unbounded, r),
    {
        self.root().seek_last(&Bound::Unbounded, Ghost(None), Ghost(None))
    }
}

} // verus!
