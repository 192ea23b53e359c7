//! Laws that relate the map's operations, stated over its model.
use crate::iter::{between, lists_in_order};
use crate::seek::{Bound, above, below};
use crate::key::KeyOrder;
use vstd::prelude::*;

verus! {

/// The map after inserting `ks[i] => vs[i]` into `m` for each `i` in turn.
pub open spec fn insert_all<K, V>(m: Map<K, V>, ks: Seq<K>, vs: Seq<V>) -> Map<K, V>
    decreases ks.len(),
{
    if ks.len() == 0 || vs.len() == 0 {
        m
    } else {
        insert_all(m, ks.drop_last(), vs.drop_last()).insert(ks.last(), vs.last())
    }
}

/// After a sequence of insertions a key is present exactly when it was present before or
/// was inserted; when the inserted keys are distinct, each maps to the value inserted with it.
pub proof fn lemma_insert_all<K, V>(m: Map<K, V>, ks: Seq<K>, vs: Seq<V>)
    requires
        ks.len() == vs.len(),
    ensures
        forall|x: K| #[trigger] insert_all(m, ks, vs).contains_key(x) <==> m.contains_key(x) || ks.contains(x),
        ks.no_duplicates() ==> forall|i: int| 0 <= i < ks.len() ==> #[trigger] insert_all(m, ks, vs)[ks[i]] == vs[i],
    decreases ks.len(),
{
    if ks.len() > 0 {
        let ks0 = ks.drop_last();
        let vs0 = vs.drop_last();
        lemma_insert_all(m, ks0, vs0);
        assert(insert_all(m, ks, vs) == insert_all(m, ks0, vs0).insert(ks.last(), vs.last()));
        assert(ks[ks.len() - 1] == ks.last());
        assert forall|x: K| #[trigger] insert_all(m, ks, vs).contains_key(x) <==> m.contains_key(x) || ks.contains(x) by {
            if ks0.contains(x) {
                let j = choose|j: int| 0 <= j < ks0.len() && ks0[j] == x;
                assert(ks[j] == x);
            }
            if x == ks.last() {
                assert(ks.contains(x));
            }
            if ks.contains(x) && x != ks.last() {
                let j = choose|j: int| 0 <= j < ks.len() && ks[j] == x;
                assert(j < ks.len() - 1);
                assert(ks0[j] == x);
            }
        }
        if ks.no_duplicates() {
            assert(ks0.no_duplicates());
            assert forall|i: int| 0 <= i < ks.len() implies #[trigger] insert_all(m, ks, vs)[ks[i]] == vs[i] by {
                if i < ks.len() - 1 {
                    assert(ks[i] != ks[ks.len() - 1]);
                    assert(ks0[i] == ks[i]);
                    assert(vs0[i] == vs[i]);
                    assert(ks0.contains(ks0[i]));
                    assert(insert_all(m, ks0, vs0).contains_key(ks0[i]));
                }
            }
        }
    }
}

/// Storing a second value under a key leaves the number of entries as it was and keeps
/// the second value.
pub proof fn lemma_overwrite<K, V>(m: Map<K, V>, k: K, v1: V, v2: V)
    requires
        m.dom().finite(),
    ensures
        m.insert(k, v1).insert(k, v2).len() == m.insert(k, v1).len(),
        m.insert(k, v1).insert(k, v2).contains_key(k),
        m.insert(k, v1).insert(k, v2)[k] == v2,
        m.insert(k, v1).insert(k, v2) == m.insert(k, v2),
{
    assert(m.insert(k, v1).insert(k, v2).dom() =~= m.insert(k, v1).dom());
    assert(m.insert(k, v1).insert(k, v2) =~= m.insert(k, v2));
}

/// Inserting a key that was absent and then removing it gives back the map it started from:
/// the same number of entries, and the key absent.
pub proof fn lemma_insert_then_remove<K, V>(m: Map<K, V>, k: K, v: V)
    requires
        !m.contains_key(k),
    ensures
        m.insert(k, v).remove(k) == m,
        !m.insert(k, v).remove(k).contains_key(k),
{
    assert(m.insert(k, v).remove(k) =~= m);
}

/// A listing of a finite map in ascending key order has one element per entry.
pub proof fn lemma_listing_len<K: KeyOrder, V>(m: Map<K, V>, s: Seq<(&K, &V)>)
    requires
        m.dom().finite(),
        lists_in_order(m, s),
    ensures
        s.len() == m.len(),
{
    let ks = Seq::new(s.len(), |i: int| *s[i].0);
    assert forall|i: int, j: int| 0 <= i < ks.len() && 0 <= j < ks.len() && i != j implies ks[i] != ks[j] by {
        if i < j {
            assert((*s[i].0).rank() < (*s[j].0).rank());
        } else {
            assert((*s[j].0).rank() < (*s[i].0).rank());
        }
    }
    assert forall|x: K| #[trigger] ks.to_set().contains(x) <==> m.dom().contains(x) by {
        if m.dom().contains(x) {
            let i = choose|i: int| 0 <= i < s.len() && *s[i].0 == x;
            assert(ks[i] == x);
        }
        if ks.to_set().contains(x) {
            let i = choose|i: int| 0 <= i < ks.len() && ks[i] == x;
            assert(m.contains_key(*s[i].0));
        }
    }
    assert(ks.to_set() =~= m.dom());
    ks.unique_seq_to_set();
}

/// A finite map has exactly one listing in ascending key order.
pub proof fn lemma_listing_unique<K: KeyOrder, V>(m: Map<K, V>, s1: Seq<(&K, &V)>, s2: Seq<(&K, &V)>)
    requires
        m.dom().finite(),
        lists_in_order(m, s1),
        lists_in_order(m, s2),
    ensures
        s1 == s2,
    decreases s1.len(),
{
    lemma_listing_len(m, s1);
    lemma_listing_len(m, s2);
    if s1.len() == 0 {
        assert(s1 =~= s2);
    } else {
        let a = s1[0];
        let b = s2[0];
        assert(m.contains_key(*a.0));
        assert(m.contains_key(*b.0));
        let ia = choose|i: int| 0 <= i < s2.len() && *s2[i].0 == *a.0;
        let ib = choose|i: int| 0 <= i < s1.len() && *s1[i].0 == *b.0;
        if ia > 0 {
            assert((*s2[0].0).rank() < (*s2[ia].0).rank());
        }
        if ib > 0 {
            assert((*s1[0].0).rank() < (*s1[ib].0).rank());
        }
        K::rank_injective(*a.0, *b.0);
        assert(a == b);
        let k = *a.0;
        let m2 = m.remove(k);
        let t1 = s1.drop_first();
        let t2 = s2.drop_first();
        assert forall|i: int| 0 <= i < t1.len() implies #[trigger] t1[i] == s1[i + 1] by {}
        assert forall|i: int| 0 <= i < t2.len() implies #[trigger] t2[i] == s2[i + 1] by {}
        assert(lists_in_order(m2, t1)) by {
            assert forall|i: int| 0 <= i < t1.len() implies m2.contains_key(*(#[trigger] t1[i]).0) && *t1[i].1 == m2[*t1[i].0] by {
                assert((*s1[0].0).rank() < (*s1[i + 1].0).rank());
            }
            assert forall|x: K| #[trigger] m2.contains_key(x) implies exists|i: int| 0 <= i < t1.len() && *t1[i].0 == x by {
                let i = choose|i: int| 0 <= i < s1.len() && *s1[i].0 == x;
                assert(i > 0);
                assert(*t1[i - 1].0 == x);
            }
        }
        assert(lists_in_order(m2, t2)) by {
            assert forall|i: int| 0 <= i < t2.len() implies m2.contains_key(*(#[trigger] t2[i]).0) && *t2[i].1 == m2[*t2[i].0] by {
                assert((*s2[0].0).rank() < (*s2[i + 1].0).rank());
            }
            assert forall|x: K| #[trigger] m2.contains_key(x) implies exists|i: int| 0 <= i < t2.len() && *t2[i].0 == x by {
                let i = choose|i: int| 0 <= i < s2.len() && *s2[i].0 == x;
                assert(i > 0);
                assert(*t2[i - 1].0 == x);
            }
        }
        lemma_listing_unique(m2, t1, t2);
        assert forall|i: int| 0 <= i < s1.len() implies s1[i] == s2[i] by {
            if i > 0 {
                assert(t1[i - 1] == t2[i - 1]);
            }
        }
        assert(s1 =~= s2);
    }
}


/// Whether an entry's key lies on or after `lower` and on or before `upper`.
pub open spec fn entry_between<'a, 'b, K: KeyOrder, V>(lower: Bound<K>, upper: Bound<K>) -> spec_fn((&'a K, &'b V)) -> bool {
    |p: (&'a K, &'b V)| above(lower, (*p.0).rank()) && below(upper, (*p.0).rank())
}

/// Keeping, from a listing of `m` in ascending key order, the entries whose keys lie between
/// two bounds lists the entries of `m` between those bounds.
pub proof fn lemma_filter_listing<K: KeyOrder, V>(m: Map<K, V>, s: Seq<(&K, &V)>, lower: Bound<K>, upper: Bound<K>)
    requires
        lists_in_order(m, s),
    ensures
        lists_in_order(between(m, lower, upper), s.filter(entry_between(lower, upper))),
    decreases s.len(),
{
    reveal(Seq::filter);
    let f = entry_between(lower, upper);
    let b = between(m, lower, upper);
    if s.len() == 0 {
        assert forall|x: K| #[trigger] b.contains_key(x) implies exists|i: int| 0 <= i < s.filter(f).len() && *s.filter(f)[i].0 == x by {
            assert(m.contains_key(x));
        }
    } else {
        let t = s.drop_last();
        let last = s.last();
        let k = *last.0;
        let m2 = m.remove(k);
        assert(last == s[s.len() - 1]);
        assert forall|i: int| 0 <= i < t.len() implies #[trigger] t[i] == s[i] by {}
        assert(lists_in_order(m2, t)) by {
            assert forall|i: int| 0 <= i < t.len() implies m2.contains_key(*(#[trigger] t[i]).0) && *t[i].1 == m2[*t[i].0] by {
                assert((*s[i].0).rank() < (*s[s.len() - 1].0).rank());
            }
            assert forall|x: K| #[trigger] m2.contains_key(x) implies exists|i: int| 0 <= i < t.len() && *t[i].0 == x by {
                let i = choose|i: int| 0 <= i < s.len() && *s[i].0 == x;
                assert(i != s.len() - 1);
                assert(*t[i].0 == x);
            }
        }
        lemma_filter_listing(m2, t, lower, upper);
        let ft = t.filter(f);
        let b2 = between(m2, lower, upper);
        assert forall|i: int| 0 <= i < ft.len() implies (*(#[trigger] ft[i]).0).rank() < k.rank() by {
            assert(b2.contains_key(*ft[i].0));
        }
        if f(last) {
            let fs = ft.push(last);
            assert(s.filter(f) == fs);
            assert forall|i: int| 0 <= i < fs.len() implies b.contains_key(*(#[trigger] fs[i]).0) && *fs[i].1 == b[*fs[i].0] by {
                if i < ft.len() {
                    assert(fs[i] == ft[i]);
                    assert(b2.contains_key(*ft[i].0));
                } else {
                    assert(fs[i] == last);
                }
            }
            assert forall|i: int, j: int| 0 <= i < j < fs.len() implies (*(#[trigger] fs[i]).0).rank() < (*(#[trigger] fs[j]).0).rank() by {
                assert(fs[i] == ft[i]);
                if j < ft.len() {
                    assert(fs[j] == ft[j]);
                }
            }
            assert forall|x: K| #[trigger] b.contains_key(x) implies exists|i: int| 0 <= i < fs.len() && *fs[i].0 == x by {
                if x == k {
                    assert(*fs[fs.len() - 1].0 == x);
                } else {
                    assert(b2.contains_key(x));
                    let i = choose|i: int| 0 <= i < ft.len() && *ft[i].0 == x;
                    assert(fs[i] == ft[i]);
                }
            }
        } else {
            assert(s.filter(f) == ft);
            assert forall|i: int| 0 <= i < ft.len() implies b.contains_key(*(#[trigger] ft[i]).0) && *ft[i].1 == b[*ft[i].0] by {
                assert(b2.contains_key(*ft[i].0));
            }
            assert forall|x: K| #[trigger] b.contains_key(x) implies exists|i: int| 0 <= i < ft.len() && *ft[i].0 == x by {
                assert(x != k);
                assert(b2.contains_key(x));
            }
        }
    }
}

/// What a range yields, listed in ascending key order, is exactly the listing of the whole
/// map with the entries outside the range left out, in the same order.
pub proof fn lemma_range_is_filtered_items<K: KeyOrder, V>(
    m: Map<K, V>,
    all: Seq<(&K, &V)>,
    part: Seq<(&K, &V)>,
    lower: Bound<K>,
    upper: Bound<K>,
)
    requires
        m.dom().finite(),
        lists_in_order(m, all),
        lists_in_order(between(m, lower, upper), part),
    ensures
        part == all.filter(entry_between(lower, upper)),
{
    let b = between(m, lower, upper);
    vstd::set_lib::lemma_set_subset_finite(m.dom(), b.dom());
    lemma_filter_listing(m, all, lower, upper);
    lemma_listing_unique(b, part, all.filter(entry_between(lower, upper)));
}


/// Whether `s` lists the entries of `m` in descending key order, each once.
pub open spec fn lists_in_reverse_order<K: KeyOrder, V>(m: Map<K, V>, s: Seq<(&K, &V)>) -> bool {
    lists_in_order(m, s.reverse())
}

/// Handing entries out from the back gives the listing in ascending order, reversed.
pub proof fn lemma_reverse_listing<K: KeyOrder, V>(m: Map<K, V>, asc: Seq<(&K, &V)>, desc: Seq<(&K, &V)>)
    requires
        m.dom().finite(),
        lists_in_order(m, asc),
        lists_in_reverse_order(m, desc),
    ensures
        desc == asc.reverse(),
{
    lemma_listing_unique(m, asc, desc.reverse());
    assert(desc.reverse().reverse() =~= desc);
}

} // verus!
