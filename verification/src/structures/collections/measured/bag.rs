//! Counts as a bag: a map from element to count read as a multiset, and
//! the facts that keep a running total equal to the bag's size.
use vstd::prelude::*;
use vstd::multiset::Multiset;

verus! {

broadcast use {vstd::multiset::group_multiset_axioms, vstd::map::group_map_axioms, vstd::set::group_set_axioms};

/// `n` copies of `x`.
pub open spec fn copies<T>(x: T, n: nat) -> Multiset<T>
    decreases n,
{
    if n == 0 {
        Multiset::empty()
    } else {
        copies(x, (n - 1) as nat).insert(x)
    }
}

/// `copies(x, n)` holds `x` exactly `n` times and nothing else.
pub proof fn lemma_copies<T>(x: T, n: nat)
    ensures
        copies(x, n).len() == n,
        copies(x, n).count(x) == n,
        forall|y: T| y != x ==> #[trigger] copies(x, n).count(y) == 0,
    decreases n,
{
    if n > 0 {
        lemma_copies(x, (n - 1) as nat);
    }
}

/// The count a map gives `k`: its value, or zero when absent.
pub open spec fn count_in<T>(m: Map<T, usize>, k: T) -> nat {
    if m.contains_key(k) {
        m[k] as nat
    } else {
        0
    }
}

/// The bag in which each key occurs as many times as its value says.
pub open spec fn bag_of<T>(m: Map<T, usize>) -> Multiset<T> {
    Multiset::from_map(Map::new(|k: T| m.contains_key(k) && m[k] > 0, |k: T| m[k] as nat))
}

/// The bag of a finite map counts each key by its value.
pub proof fn lemma_bag_count<T>(m: Map<T, usize>)
    requires
        m.dom().finite(),
    ensures
        forall|k: T| #[trigger] bag_of(m).count(k) == count_in(m, k),
{
    let inner = Map::new(|k: T| m.contains_key(k) && m[k] > 0, |k: T| m[k] as nat);
    assert(inner.dom().subset_of(m.dom()));
    vstd::set_lib::lemma_set_subset_finite(m.dom(), inner.dom());
    assert forall|k: T| #[trigger] bag_of(m).count(k) == count_in(m, k) by {
        if inner.dom().contains(k) {
        } else {
        }
    }
}

/// The empty map is the empty bag.
pub proof fn lemma_bag_empty<T>()
    ensures
        bag_of(Map::<T, usize>::empty()).len() == 0,
{
    lemma_bag_count(Map::<T, usize>::empty());
    assert(bag_of(Map::<T, usize>::empty()) =~= Multiset::empty());
}

/// Setting a key's value changes the bag's size by the difference.
pub proof fn lemma_bag_insert<T>(m: Map<T, usize>, k: T, v: usize)
    requires
        m.dom().finite(),
    ensures
        bag_of(m.insert(k, v)).len() + count_in(m, k) == bag_of(m).len() + v,
        count_in(m, k) <= bag_of(m).len(),
{
    let m2 = m.insert(k, v);
    lemma_bag_count(m);
    lemma_bag_count(m2);
    let c = count_in(m, k);
    lemma_copies(k, c);
    lemma_copies(k, v as nat);
    let mid = bag_of(m).sub(copies(k, c));
    assert(copies(k, c).subset_of(bag_of(m)));
    let rebuilt = mid.add(copies(k, v as nat));
    assert(rebuilt =~= bag_of(m2)) by {
        assert forall|y: T| rebuilt.count(y) == bag_of(m2).count(y) by {
            if y == k {
            } else {
            }
        }
    }
    assert(mid.len() == bag_of(m).len() - c);
    assert(copies(k, c).len() <= bag_of(m).len()) by {
        assert(mid.len() >= 0);
    }
}

/// Dropping a key shrinks the bag by the key's count.
pub proof fn lemma_bag_remove<T>(m: Map<T, usize>, k: T)
    requires
        m.dom().finite(),
    ensures
        bag_of(m.remove(k)).len() + count_in(m, k) == bag_of(m).len(),
{
    lemma_bag_insert(m, k, 0);
    lemma_bag_count(m.remove(k));
    lemma_bag_count(m.insert(k, 0));
    assert(bag_of(m.remove(k)) =~= bag_of(m.insert(k, 0)));
}

/// A map whose counts never exceed another's makes a bag no larger.
pub proof fn lemma_bag_le<T>(m1: Map<T, usize>, m2: Map<T, usize>)
    requires
        m1.dom().finite(),
        m2.dom().finite(),
        forall|k: T| #[trigger] count_in(m1, k) <= count_in(m2, k),
    ensures
        bag_of(m1).len() <= bag_of(m2).len(),
        bag_of(m1).subset_of(bag_of(m2)),
{
    lemma_bag_count(m1);
    lemma_bag_count(m2);
    assert(bag_of(m1).subset_of(bag_of(m2))) by {
        assert forall|k: T| bag_of(m1).count(k) <= bag_of(m2).count(k) by {
            assert(count_in(m1, k) <= count_in(m2, k));
        }
    }
    assert(bag_of(m2).sub(bag_of(m1)).len() == bag_of(m2).len() - bag_of(m1).len());
}

/// Setting the count of `k` changes the bag's size by the difference.
pub proof fn lemma_update_len<T>(m: Multiset<T>, k: T, n: nat)
    ensures
        m.update(k, n).len() + m.count(k) == m.len() + n,
        m.update(k, n).count(k) == n,
        forall|y: T| y != k ==> #[trigger] m.update(k, n).count(y) == m.count(y),
{
    broadcast use vstd::multiset::group_multiset_properties;
    let c = m.count(k);
    lemma_copies(k, c);
    lemma_copies(k, n);
    let rebuilt = m.sub(copies(k, c)).add(copies(k, n));
    assert(copies(k, c).subset_of(m));
    assert(rebuilt =~= m.update(k, n)) by {
        assert forall|y: T| rebuilt.count(y) == m.update(k, n).count(y) by {
            if y == k {
            } else {
            }
        }
    }
}

/// A bag contained in another is no larger.
pub proof fn lemma_le_len<T>(m1: Multiset<T>, m2: Multiset<T>)
    requires
        m1.subset_of(m2),
    ensures
        m1.len() <= m2.len(),
{
    assert(m2.sub(m1).len() == m2.len() - m1.len());
}

} // verus!
