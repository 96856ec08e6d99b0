//! A bag: each element has a whole-number count. Use it when duplicates
//! matter as counts rather than as repeated ordered entries, such as
//! inventories, token bags and frequency tables.
//!
//! Set algebra follows multiset rules: union keeps the larger count,
//! intersection the smaller, difference subtracts. `sum` adds counts.
use vstd::prelude::*;
use vstd::multiset::Multiset;
use crate::structures::traits::key::Key;
use crate::structures::traits::collection::{Collection, CollectionRemove};
use crate::structures::traits::measured::Measured;
use super::tally::Tally;
use super::bag::{bag_of, count_in, copies, lemma_copies, lemma_bag_count, lemma_update_len, lemma_le_len};

verus! {

broadcast use {vstd::multiset::group_multiset_axioms, vstd::multiset::group_multiset_properties, vstd::map::group_map_axioms, vstd::set::group_set_axioms};

/// Counts of each element in the larger of two bags.
pub open spec fn bag_union<T>(a: Multiset<T>, b: Multiset<T>) -> Multiset<T> {
    a.add(b.sub(a))
}

/// How far apart two bags' counts are, element by element.
pub open spec fn bag_distance<T>(a: Multiset<T>, b: Multiset<T>) -> Multiset<T> {
    a.sub(b).add(b.sub(a))
}

/// How two counts combine in a set operation.
enum Combine {
    Union,
    Intersection,
    Difference,
    Distance,
}

spec fn combined(how: Combine, a: nat, b: nat) -> nat {
    match how {
        Combine::Union => if a >= b { a } else { b },
        Combine::Intersection => if a <= b { a } else { b },
        Combine::Difference => if a >= b { (a - b) as nat } else { 0 },
        Combine::Distance => if a >= b { (a - b) as nat } else { (b - a) as nat },
    }
}

fn combine_counts(how: &Combine, a: usize, b: usize) -> (c: usize)
    ensures
        c == combined(*how, a as nat, b as nat),
{
    match how {
        Combine::Union => if a >= b { a } else { b },
        Combine::Intersection => if a <= b { a } else { b },
        Combine::Difference => if a >= b { a - b } else { 0 },
        Combine::Distance => if a >= b { a - b } else { b - a },
    }
}

/// Unordered bag of elements, storing a positive count for every distinct
/// element.
pub struct MultiSet<T> {
    tally: Tally<T>,
}

impl<T> MultiSet<T> {
    #[verifier::type_invariant]
    spec fn inv(self) -> bool {
        forall|k: T| #[trigger] self.tally@.contains_key(k) ==> self.tally@[k] > 0
    }
}

impl<T> View for MultiSet<T> {
    type V = Multiset<T>;

    closed spec fn view(&self) -> Multiset<T> {
        bag_of(self.tally@)
    }
}

impl<T: Key> MultiSet<T> {
    /// The distinct elements in storage order: the order `distinct` lists
    /// them in.
    pub closed spec fn listing(&self) -> Seq<T> {
        self.tally.key_order()
    }

    /// What the stored counts say, checked against the bag.
    fn facts(&self) -> (ok: bool)
        ensures
            ok,
            self.tally@.dom().finite(),
            forall|k: T| #[trigger] self.tally@.contains_key(k) ==> self.tally@[k] > 0,
            forall|k: T| #[trigger] self@.count(k) == count_in(self.tally@, k),
            self@.dom() == self.tally@.dom(),
            self@.len() <= usize::MAX,
            self@.len() == self.tally.total_spec(),
    {
        proof {
            use_type_invariant(self);
        }
        self.tally.check_invariants();
        proof {
            assert(self@.dom() =~= self.tally@.dom());
        }
        true
    }

    /// Creates an empty multiset.
    pub fn new() -> (s: Self)
        ensures
            s@ == Multiset::<T>::empty(),
    {
        let s = MultiSet { tally: Tally::new() };
        s.facts();
        proof {
            assert(s@ =~= Multiset::<T>::empty());
        }
        s
    }

    /// Number of distinct elements.
    pub fn len(&self) -> (n: usize)
        ensures
            self@.dom().finite(),
            n == self@.dom().len(),
    {
        self.facts();
        self.tally.len()
    }

    /// Number of distinct elements; the measured-collection name for `len`.
    pub fn distinct_len(&self) -> (n: usize)
        ensures
            self@.dom().finite(),
            n == self@.dom().len(),
    {
        self.len()
    }

    /// Total number of occurrences across all elements.
    pub fn total_count(&self) -> (n: usize)
        ensures
            n == self@.len(),
    {
        self.facts();
        self.tally.total()
    }

    /// Whether there are no elements.
    pub fn is_empty(&self) -> (empty: bool)
        ensures
            empty == (self@.len() == 0),
            empty == (self@ == Multiset::<T>::empty()),
    {
        proof {
            vstd::multiset::lemma_multiset_empty_len(self@);
        }
        self.total_count() == 0
    }

    /// Each distinct element with its count.
    pub fn iter(&self) -> (pairs: Vec<(T, usize)>)
        ensures
            pairs@.len() == self@.dom().len(),
            forall|i: int| 0 <= i < pairs@.len() ==> #[trigger] self@.count(pairs@[i].0) == pairs@[i].1 && pairs@[i].1 > 0,
            forall|i: int, j: int| 0 <= i < pairs@.len() && 0 <= j < pairs@.len() && i != j ==> pairs@[i].0 != pairs@[j].0,
    {
        self.facts();
        self.tally.iter()
    }

    /// Each distinct element once.
    pub fn distinct(&self) -> (items: Vec<T>)
        ensures
            items@ == self.listing(),
            items@.no_duplicates(),
            items@.to_set() == self@.dom(),
    {
        self.facts();
        self.tally.keys()
    }

    /// Every occurrence: an element with count 3 appears three times.
    pub fn occurrences(&self) -> (items: Vec<T>)
        ensures
            items@.to_multiset() == self@,
    {
        broadcast use vstd::seq_lib::group_to_multiset_ensures;
        self.facts();
        let pairs = self.tally.iter();
        let ghost m = self.tally@;
        let mut items: Vec<T> = Vec::new();
        let mut i: usize = 0;
        while i < pairs.len()
            invariant
                i <= pairs@.len(),
                m == self.tally@,
                m.dom().finite(),
                self@.len() <= usize::MAX,
                forall|k: T| #[trigger] self@.count(k) == count_in(m, k),
                pairs@.len() == m.len(),
                forall|a: int| 0 <= a < pairs@.len() ==> m.contains_key(#[trigger] pairs@[a].0) && m[pairs@[a].0] == pairs@[a].1,
                forall|a: int, b: int| 0 <= a < pairs@.len() && 0 <= b < pairs@.len() && a != b ==> pairs@[a].0 != pairs@[b].0,
                forall|k: T| #[trigger] items@.to_multiset().count(k) == (if exists|a: int| 0 <= a < i && pairs@[a].0 == k { count_in(m, k) } else { 0 }),
            decreases pairs@.len() - i,
        {
            let (k, c) = pairs[i];
            let mut j: usize = 0;
            let ghost start = items@;
            while j < c
                invariant
                    j <= c,
                    m.dom().finite(),
                    self@.len() <= usize::MAX,
                    forall|x: T| #[trigger] self@.count(x) == count_in(m, x),
                    forall|a: int| 0 <= a < pairs@.len() ==> m.contains_key(#[trigger] pairs@[a].0) && m[pairs@[a].0] == pairs@[a].1,
                    forall|a: int, b: int| 0 <= a < pairs@.len() && 0 <= b < pairs@.len() && a != b ==> pairs@[a].0 != pairs@[b].0,
                    i < pairs@.len(),
                    k == pairs@[i as int].0,
                    c == pairs@[i as int].1,
                    forall|x: T| #[trigger] items@.to_multiset().count(x) == start.to_multiset().count(x) + (if x == k { j as nat } else { 0 }),
                    forall|x: T| #[trigger] start.to_multiset().count(x) == (if exists|a: int| 0 <= a < i && pairs@[a].0 == x { count_in(m, x) } else { 0 }),
                decreases c - j,
            {
                proof {
                    assert(!(exists|a: int| 0 <= a < i && pairs@[a].0 == k)) by {
                        if exists|a: int| 0 <= a < i && pairs@[a].0 == k {
                            let a = choose|a: int| 0 <= a < i && pairs@[a].0 == k;
                            assert(pairs@[a].0 != pairs@[i as int].0);
                        }
                    }
                    let target = items@.to_multiset().insert(k);
                    assert(target.subset_of(self@)) by {
                        assert forall|x: T| target.count(x) <= self@.count(x) by {
                            if x != k {
                                if exists|a: int| 0 <= a < i && pairs@[a].0 == x {
                                    let a = choose|a: int| 0 <= a < i && pairs@[a].0 == x;
                                    assert(m.contains_key(pairs@[a].0));
                                }
                            }
                        }
                    }
                    lemma_le_len(target, self@);
                }
                let ghost prev_items = items@;
                items.push(k);
                proof {
                    assert(items@ == prev_items.push(k));
                    vstd::seq_lib::to_multiset_build(prev_items, k);
                }
                j += 1;
            }
            proof {
                assert forall|x: T| #[trigger] items@.to_multiset().count(x) == (if exists|a: int| 0 <= a < i + 1 && pairs@[a].0 == x { count_in(m, x) } else { 0 }) by {
                    if x == k {
                        assert(pairs@[i as int].0 == x);
                        assert(!(exists|a: int| 0 <= a < i && pairs@[a].0 == k)) by {
                            if exists|a: int| 0 <= a < i && pairs@[a].0 == k {
                                let a = choose|a: int| 0 <= a < i && pairs@[a].0 == k;
                                assert(pairs@[a].0 != pairs@[i as int].0);
                            }
                        }
                    } else {
                        if exists|a: int| 0 <= a < i + 1 && pairs@[a].0 == x {
                            let a = choose|a: int| 0 <= a < i + 1 && pairs@[a].0 == x;
                            assert(a != i);
                        }
                    }
                }
            }
            i += 1;
        }
        proof {
            assert(items@.to_multiset() =~= self@) by {
                assert forall|x: T| items@.to_multiset().count(x) == self@.count(x) by {
                    if m.contains_key(x) {
                        crate::structures::entries::lemma_pairs_cover(m, pairs@, x);
                    } else {
                        if exists|a: int| 0 <= a < pairs@.len() && pairs@[a].0 == x {
                            let a = choose|a: int| 0 <= a < pairs@.len() && pairs@[a].0 == x;
                            assert(m.contains_key(pairs@[a].0));
                        }
                    }
                }
            }
        }
        items
    }

    /// Removes all elements.
    pub fn clear(&mut self)
        ensures
            final(self)@ == Multiset::<T>::empty(),
    {
        *self = MultiSet::new();
    }

    /// Whether `item` occurs at least once.
    pub fn contains(&self, item: &T) -> (found: bool)
        ensures
            found == self@.contains(*item),
    {
        self.facts();
        self.tally.contains(item)
    }

    /// How many times `item` occurs; zero when absent.
    pub fn count_of(&self, item: &T) -> (n: usize)
        ensures
            n == self@.count(*item),
    {
        self.facts();
        match self.tally.get(item) {
            Some(n) => n,
            None => 0,
        }
    }

    /// Sets the count of `item` outright; zero removes the element.
    pub fn set_count(&mut self, item: T, count: usize)
        requires
            old(self)@.len() - old(self)@.count(item) + count <= usize::MAX,
        ensures
            final(self)@ == old(self)@.update(item, count as nat),
    {
        self.facts();
        proof {
            lemma_update_len(self@, item, count as nat);
        }
        let ghost before = self@;
        let mut s = MultiSet::new();
        std::mem::swap(&mut s, self);
        let MultiSet { mut tally } = s;
        if count == 0 {
            tally.remove(&item);
        } else {
            tally.set(item, count);
        }
        tally.check_invariants();
        proof {
            assert forall|k: T| #[trigger] tally@.contains_key(k) implies tally@[k] > 0 by {
                if k != item {
                    assert(before.count(k) == count_in(tally@, k));
                }
            }
            lemma_bag_count(tally@);
            assert(bag_of(tally@) =~= before.update(item, count as nat));
        }
        *self = MultiSet { tally };
    }

    /// Adds `times` occurrences of `item`; zero leaves the multiset unchanged.
    pub fn insert_times(&mut self, item: T, times: usize)
        requires
            old(self)@.len() + times <= usize::MAX,
        ensures
            final(self)@ == old(self)@.add(copies(item, times as nat)),
    {
        proof {
            lemma_copies(item, times as nat);
        }
        if times == 0 {
            proof {
                assert(self@.add(copies(item, 0)) =~= self@);
            }
            return;
        }
        let current = self.count_of(&item);
        proof {
            lemma_update_len(self@, item, 0);
        }
        let ghost before = self@;
        self.set_count(item, current + times);
        proof {
            lemma_update_len(before, item, (current + times) as nat);
            assert(self@ =~= before.add(copies(item, times as nat)));
        }
    }

    /// Adds one occurrence.
    pub fn insert(&mut self, item: T)
        requires
            old(self)@.len() < usize::MAX,
        ensures
            final(self)@ == old(self)@.insert(item),
    {
        self.insert_times(item, 1);
        proof {
            lemma_copies(item, 1);
            assert(copies(item, 1) =~= Multiset::singleton(item));
        }
    }

    /// Removes up to `times` occurrences and returns how many were removed.
    pub fn remove_times(&mut self, item: &T, times: usize) -> (removed: usize)
        ensures
            removed == (if times <= old(self)@.count(*item) { times as nat } else { old(self)@.count(*item) }),
            final(self)@ == old(self)@.sub(copies(*item, times as nat)),
    {
        proof {
            lemma_copies(*item, times as nat);
        }
        self.facts();
        let current = self.count_of(item);
        let removed = if times <= current { times } else { current };
        let ghost before = self@;
        if removed > 0 {
            proof {
                lemma_update_len(before, *item, (current - removed) as nat);
            }
            self.set_count(*item, current - removed);
        }
        proof {
            assert(self@ =~= before.sub(copies(*item, times as nat)));
        }
        removed
    }

    /// Removes one occurrence. Returns whether anything was removed.
    pub fn remove(&mut self, item: &T) -> (removed: bool)
        ensures
            removed == old(self)@.contains(*item),
            final(self)@ == old(self)@.remove(*item),
    {
        let n = self.remove_times(item, 1);
        proof {
            lemma_copies(*item, 1);
            assert(copies(*item, 1) =~= Multiset::singleton(*item));
        }
        n > 0
    }

    /// Removes every occurrence and returns how many there were.
    pub fn remove_all(&mut self, item: &T) -> (removed: usize)
        ensures
            removed == old(self)@.count(*item),
            final(self)@ == old(self)@.update(*item, 0),
    {
        self.facts();
        let current = self.count_of(item);
        proof {
            lemma_update_len(self@, *item, 0);
        }
        if current > 0 {
            self.set_count(*item, 0);
        } else {
            proof {
                assert(self@ =~= self@.update(*item, 0));
            }
        }
        current
    }

    /// Keeps the elements for which `keep(item, count)` returns `true`.
    pub fn retain<F: Fn(&T, usize) -> bool>(&mut self, keep: F)
        requires
            forall|k: &T, v: usize| #[trigger] keep.requires((k, v)),
        ensures
            forall|k: T| #[trigger] final(self)@.contains(k) ==> final(self)@.count(k) == old(self)@.count(k) && keep.ensures((&k, old(self)@.count(k) as usize), true),
            forall|k: T| #[trigger] old(self)@.contains(k) && !final(self)@.contains(k) ==> keep.ensures((&k, old(self)@.count(k) as usize), false),
    {
        self.facts();
        let ghost before = self@;
        let ghost m = self.tally@;
        let mut s = MultiSet::new();
        std::mem::swap(&mut s, self);
        let MultiSet { mut tally } = s;
        tally.retain(keep);
        tally.check_invariants();
        proof {
            lemma_bag_count(tally@);
        }
        *self = MultiSet { tally };
    }

    /// Adds every count of `other` to this multiset.
    fn add_bag(&mut self, other: &Self)
        requires
            old(self)@.len() + other@.len() <= usize::MAX,
        ensures
            final(self)@ == old(self)@.add(other@),
    {
        let pairs = other.iter();
        other.facts();
        let ghost base = self@;
        let mut i: usize = 0;
        while i < pairs.len()
            invariant
                i <= pairs@.len(),
                base.len() + other@.len() <= usize::MAX,
                other@.dom().finite(),
                pairs@.len() == other@.dom().len(),
                forall|a: int| 0 <= a < pairs@.len() ==> #[trigger] other@.count(pairs@[a].0) == pairs@[a].1 && pairs@[a].1 > 0,
                forall|a: int, b: int| 0 <= a < pairs@.len() && 0 <= b < pairs@.len() && a != b ==> pairs@[a].0 != pairs@[b].0,
                forall|x: T| #[trigger] self@.count(x) == base.count(x) + (if exists|a: int| 0 <= a < i && pairs@[a].0 == x { other@.count(x) } else { 0 }),
            decreases pairs@.len() - i,
        {
            let (k, c) = pairs[i];
            let ghost prev = self@;
            proof {
                assert(!(exists|a: int| 0 <= a < i && pairs@[a].0 == k)) by {
                    if exists|a: int| 0 <= a < i && pairs@[a].0 == k {
                        let a = choose|a: int| 0 <= a < i && pairs@[a].0 == k;
                        assert(pairs@[a].0 != pairs@[i as int].0);
                    }
                }
                lemma_copies(k, c as nat);
                let target = prev.add(copies(k, c as nat));
                assert(target.subset_of(base.add(other@))) by {
                    assert forall|x: T| target.count(x) <= base.add(other@).count(x) by {
                        if x != k {
                            if exists|a: int| 0 <= a < i && pairs@[a].0 == x {
                            }
                        }
                    }
                }
                lemma_le_len(target, base.add(other@));
            }
            self.insert_times(k, c);
            proof {
                assert forall|x: T| #[trigger] self@.count(x) == base.count(x) + (if exists|a: int| 0 <= a < i + 1 && pairs@[a].0 == x { other@.count(x) } else { 0 }) by {
                    if x == k {
                        assert(pairs@[i as int].0 == x);
                    } else {
                        if exists|a: int| 0 <= a < i + 1 && pairs@[a].0 == x {
                            let a = choose|a: int| 0 <= a < i + 1 && pairs@[a].0 == x;
                            assert(a != i);
                        }
                    }
                }
            }
            i += 1;
        }
        proof {
            assert(self@ =~= base.add(other@)) by {
                assert forall|x: T| self@.count(x) == base.add(other@).count(x) by {
                    if other@.count(x) > 0 {
                        lemma_pairs_cover_bag(other@, pairs@, x);
                    }
                }
            }
        }
    }

    /// A multiset with the same counts.
    pub fn duplicate(&self) -> (out: Self)
        ensures
            out@ == self@,
    {
        let mut out = MultiSet::new();
        self.facts();
        out.add_bag(self);
        proof {
            assert(out@ =~= self@);
        }
        out
    }

    /// Adds the counts of both multisets.
    pub fn sum(&self, other: &Self) -> (out: Self)
        requires
            self@.len() + other@.len() <= usize::MAX,
        ensures
            out@ == self@.add(other@),
    {
        let mut out = self.duplicate();
        out.add_bag(other);
        out
    }

    /// Sets each element's count in a fresh multiset to what `how` makes of
    /// its counts here and in `other`.
    fn combine(&self, other: &Self, how: Combine, Ghost(target): Ghost<Multiset<T>>) -> (out: Self)
        requires
            forall|x: T| #[trigger] target.count(x) == combined(how, self@.count(x), other@.count(x)),
            target.len() <= usize::MAX,
        ensures
            out@ == target,
    {
        self.facts();
        other.facts();
        let mut out = MultiSet::new();
        let mine = self.iter();
        let mut i: usize = 0;
        while i < mine.len()
            invariant
                i <= mine@.len(),
                forall|x: T| #[trigger] target.count(x) == combined(how, self@.count(x), other@.count(x)),
                target.len() <= usize::MAX,
                forall|a: int| 0 <= a < mine@.len() ==> #[trigger] self@.count(mine@[a].0) == mine@[a].1 && mine@[a].1 > 0,
                forall|a: int, b: int| 0 <= a < mine@.len() && 0 <= b < mine@.len() && a != b ==> mine@[a].0 != mine@[b].0,
                forall|x: T| #[trigger] out@.count(x) == (if exists|a: int| 0 <= a < i && mine@[a].0 == x { target.count(x) } else { 0 }),
            decreases mine@.len() - i,
        {
            let (k, c) = mine[i];
            let d = other.count_of(&k);
            let v = combine_counts(&how, c, d);
            proof {
                assert(!(exists|a: int| 0 <= a < i && mine@[a].0 == k)) by {
                    if exists|a: int| 0 <= a < i && mine@[a].0 == k {
                        let a = choose|a: int| 0 <= a < i && mine@[a].0 == k;
                        assert(mine@[a].0 != mine@[i as int].0);
                    }
                }
                lemma_update_len(out@, k, v as nat);
                assert(out@.update(k, v as nat).subset_of(target)) by {
                    assert forall|x: T| out@.update(k, v as nat).count(x) <= target.count(x) by {
                        if x != k {
                            if exists|a: int| 0 <= a < i && mine@[a].0 == x {
                            }
                        }
                    }
                }
                lemma_le_len(out@.update(k, v as nat), target);
            }
            out.set_count(k, v);
            proof {
                assert forall|x: T| #[trigger] out@.count(x) == (if exists|a: int| 0 <= a < i + 1 && mine@[a].0 == x { target.count(x) } else { 0 }) by {
                    if x == k {
                        assert(mine@[i as int].0 == x);
                    } else {
                        lemma_update_len(out@, k, v as nat);
                        if exists|a: int| 0 <= a < i + 1 && mine@[a].0 == x {
                            let a = choose|a: int| 0 <= a < i + 1 && mine@[a].0 == x;
                            assert(a != i);
                        }
                    }
                }
            }
            i += 1;
        }
        proof {
            assert forall|x: T| #[trigger] out@.count(x) == (if self@.count(x) > 0 { target.count(x) } else { 0 }) by {
                if self@.count(x) > 0 {
                    lemma_pairs_cover_bag(self@, mine@, x);
                } else if exists|a: int| 0 <= a < mine@.len() && mine@[a].0 == x {
                    let a = choose|a: int| 0 <= a < mine@.len() && mine@[a].0 == x;
                    assert(self@.count(mine@[a].0) > 0);
                }
            }
        }
        let theirs = other.iter();
        let mut j: usize = 0;
        while j < theirs.len()
            invariant
                j <= theirs@.len(),
                self@.dom().finite(),
                mine@.len() == self@.dom().len(),
                forall|a: int| 0 <= a < mine@.len() ==> #[trigger] self@.count(mine@[a].0) == mine@[a].1 && mine@[a].1 > 0,
                forall|a: int, b: int| 0 <= a < mine@.len() && 0 <= b < mine@.len() && a != b ==> mine@[a].0 != mine@[b].0,
                forall|x: T| #[trigger] target.count(x) == combined(how, self@.count(x), other@.count(x)),
                target.len() <= usize::MAX,
                forall|a: int| 0 <= a < theirs@.len() ==> #[trigger] other@.count(theirs@[a].0) == theirs@[a].1 && theirs@[a].1 > 0,
                forall|a: int, b: int| 0 <= a < theirs@.len() && 0 <= b < theirs@.len() && a != b ==> theirs@[a].0 != theirs@[b].0,
                forall|x: T| #[trigger] out@.count(x) == (if self@.count(x) > 0 || exists|a: int| 0 <= a < j && theirs@[a].0 == x { target.count(x) } else { 0 }),
            decreases theirs@.len() - j,
        {
            let (k, d) = theirs[j];
            if !self.contains(&k) {
                let v = combine_counts(&how, 0, d);
                proof {
                    assert(!(exists|a: int| 0 <= a < j && theirs@[a].0 == k)) by {
                        if exists|a: int| 0 <= a < j && theirs@[a].0 == k {
                            let a = choose|a: int| 0 <= a < j && theirs@[a].0 == k;
                            assert(theirs@[a].0 != theirs@[j as int].0);
                        }
                    }
                    lemma_update_len(out@, k, v as nat);
                    assert(out@.update(k, v as nat).subset_of(target)) by {
                        assert forall|x: T| out@.update(k, v as nat).count(x) <= target.count(x) by {
                            if x != k {
                                if exists|a: int| 0 <= a < j && theirs@[a].0 == x {
                                }
                            }
                        }
                    }
                    lemma_le_len(out@.update(k, v as nat), target);
                }
                out.set_count(k, v);
                proof {
                    lemma_update_len(out@, k, v as nat);
                }
            }
            proof {
                assert forall|x: T| #[trigger] out@.count(x) == (if self@.count(x) > 0 || exists|a: int| 0 <= a < j + 1 && theirs@[a].0 == x { target.count(x) } else { 0 }) by {
                    if x == k {
                        assert(theirs@[j as int].0 == x);
                    } else {
                        if exists|a: int| 0 <= a < j + 1 && theirs@[a].0 == x {
                            let a = choose|a: int| 0 <= a < j + 1 && theirs@[a].0 == x;
                            assert(a != j);
                        }
                    }
                }
            }
            j += 1;
        }
        proof {
            assert(out@ =~= target) by {
                assert forall|x: T| out@.count(x) == target.count(x) by {
                    if self@.count(x) > 0 {
                        lemma_pairs_cover_bag(self@, mine@, x);
                    } else if other@.count(x) > 0 {
                        lemma_pairs_cover_bag(other@, theirs@, x);
                    }
                }
            }
        }
        out
    }

    /// The larger count of each element.
    pub fn union(&self, other: &Self) -> (out: Self)
        requires
            bag_union(self@, other@).len() <= usize::MAX,
        ensures
            out@ == bag_union(self@, other@),
            forall|x: T| #[trigger] out@.count(x) == (if self@.count(x) >= other@.count(x) { self@.count(x) } else { other@.count(x) }),
    {
        self.combine(other, Combine::Union, Ghost(bag_union(self@, other@)))
    }

    /// The smaller count of each element.
    pub fn intersection(&self, other: &Self) -> (out: Self)
        ensures
            out@ == self@.intersection_with(other@),
            forall|x: T| #[trigger] out@.count(x) == (if self@.count(x) <= other@.count(x) { self@.count(x) } else { other@.count(x) }),
    {
        self.facts();
        proof {
            assert(self@.intersection_with(other@).subset_of(self@));
            lemma_le_len(self@.intersection_with(other@), self@);
        }
        self.combine(other, Combine::Intersection, Ghost(self@.intersection_with(other@)))
    }

    /// Counts minus `other`'s counts, stopping at zero.
    pub fn difference(&self, other: &Self) -> (out: Self)
        ensures
            out@ == self@.sub(other@),
    {
        self.facts();
        proof {
            assert(self@.sub(other@).subset_of(self@));
            lemma_le_len(self@.sub(other@), self@);
        }
        self.combine(other, Combine::Difference, Ghost(self@.sub(other@)))
    }

    /// How far apart the counts are.
    pub fn symmetric_difference(&self, other: &Self) -> (out: Self)
        requires
            bag_distance(self@, other@).len() <= usize::MAX,
        ensures
            out@ == bag_distance(self@, other@),
    {
        self.combine(other, Combine::Distance, Ghost(bag_distance(self@, other@)))
    }

    /// Whether no element occurs more often here than in `other`.
    pub fn is_subset(&self, other: &Self) -> (sub: bool)
        ensures
            sub == self@.subset_of(other@),
    {
        self.facts();
        other.facts();
        if self.distinct_len() > other.distinct_len() {
            proof {
                if self@.subset_of(other@) {
                    assert(self@.dom().subset_of(other@.dom()));
                    vstd::set_lib::lemma_len_subset(self@.dom(), other@.dom());
                }
            }
            return false;
        }
        let mine = self.iter();
        assert(forall|a: int| 0 <= a < mine@.len() ==> #[trigger] self@.count(mine@[a].0) == mine@[a].1 && mine@[a].1 > 0);
        let mut i: usize = 0;
        while i < mine.len()
            invariant
                i <= mine@.len(),
                self@.dom().finite(),
                mine@.len() == self@.dom().len(),
                forall|a: int| 0 <= a < mine@.len() ==> #[trigger] self@.count(mine@[a].0) == mine@[a].1 && mine@[a].1 > 0,
                forall|a: int, b: int| 0 <= a < mine@.len() && 0 <= b < mine@.len() && a != b ==> mine@[a].0 != mine@[b].0,
                forall|a: int| 0 <= a < i ==> self@.count(#[trigger] mine@[a].0) <= other@.count(mine@[a].0),
            decreases mine@.len() - i,
        {
            let (k, c) = mine[i];
            if c > other.count_of(&k) {
                return false;
            }
            i += 1;
        }
        proof {
            assert forall|x: T| self@.count(x) <= other@.count(x) by {
                if self@.count(x) > 0 {
                    lemma_pairs_cover_bag(self@, mine@, x);
                    let a = choose|a: int| 0 <= a < mine@.len() && mine@[a].0 == x;
                    assert(self@.count(mine@[a].0) <= other@.count(mine@[a].0));
                }
            }
        }
        true
    }

    /// Whether no element occurs in both.
    pub fn is_disjoint(&self, other: &Self) -> (disjoint: bool)
        ensures
            disjoint == self@.is_disjoint_from(other@),
    {
        let items = self.distinct();
        let mut i: usize = 0;
        while i < items.len()
            invariant
                i <= items@.len(),
                items@.to_set() == self@.dom(),
                forall|a: int| 0 <= a < i ==> other@.count(#[trigger] items@[a]) == 0,
            decreases items@.len() - i,
        {
            if other.contains(&items[i]) {
                proof {
                    assert(items@.to_set().contains(items@[i as int]));
                }
                return false;
            }
            i += 1;
        }
        proof {
            assert forall|x: T| self@.count(x) == 0 || other@.count(x) == 0 by {
                if self@.count(x) > 0 {
                    assert(items@.to_set().contains(x));
                    let a = choose|a: int| 0 <= a < items@.len() && items@[a] == x;
                    assert(other@.count(items@[a]) == 0);
                }
            }
        }
        true
    }
}

/// A list naming each element of a bag once, with its count, names every
/// element.
pub proof fn lemma_pairs_cover_bag<T>(bag: Multiset<T>, pairs: Seq<(T, usize)>, x: T)
    requires
        bag.dom().finite(),
        pairs.len() == bag.dom().len(),
        forall|a: int| 0 <= a < pairs.len() ==> #[trigger] bag.count(pairs[a].0) == pairs[a].1 && pairs[a].1 > 0,
        forall|a: int, b: int| 0 <= a < pairs.len() && 0 <= b < pairs.len() && a != b ==> pairs[a].0 != pairs[b].0,
        bag.count(x) > 0,
    ensures
        exists|a: int| 0 <= a < pairs.len() && pairs[a].0 == x,
{
    let m = Map::new(|k: T| bag.count(k) > 0, |k: T| pairs[0].1);
    assert(m.dom() =~= bag.dom());
    assert forall|a: int| 0 <= a < pairs.len() implies m.contains_key(#[trigger] pairs[a].0) by {
        assert(bag.count(pairs[a].0) > 0);
    }
    let ps = Seq::new(pairs.len(), |a: int| (pairs[a].0, pairs[0].1));
    assert forall|a: int| 0 <= a < ps.len() implies m.contains_key(#[trigger] ps[a].0) by {
        assert(m.contains_key(pairs[a].0));
    }
    crate::structures::entries::lemma_pairs_cover(m, ps, x);
    let a = choose|a: int| 0 <= a < ps.len() && ps[a].0 == x;
    assert(pairs[a].0 == x);
}

impl<T: Key> Collection for MultiSet<T> {
    type Item = T;

    open spec fn listed(&self) -> Seq<T> {
        self.listing()
    }

    /// Number of distinct elements.
    fn len(&self) -> usize {
        MultiSet::len(self)
    }

    fn contains(&self, item: &T) -> bool {
        self.facts();
        proof {
            self.tally.lemma_key_order();
        }
        MultiSet::contains(self, item)
    }

    fn elements(&self) -> Vec<T> {
        self.distinct()
    }
}

impl<T: Key> CollectionRemove for MultiSet<T> {
    fn remove(&mut self, item: &T) -> bool {
        MultiSet::remove(self, item)
    }

    fn clear(&mut self) {
        MultiSet::clear(self)
    }
}

impl<T: Key> Measured for MultiSet<T> {
    fn measure_of(&self, item: &T) -> usize {
        self.count_of(item)
    }

    fn total_measure(&self) -> usize {
        self.total_count()
    }

    fn distinct_len(&self) -> usize {
        MultiSet::distinct_len(self)
    }
}

} // verus!
