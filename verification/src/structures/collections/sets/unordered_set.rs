//! A unique, unordered collection: the base structure most others build on.
use vstd::prelude::*;
use crate::structures::traits::key::Key;
use crate::structures::traits::collection::{Collection, CollectionInsert, CollectionRemove, UniqueCollection, Choose, SetAlgebra};
use crate::structures::vec_ops::{position_of, copy_vec, lemma_remove_unique, lemma_push_unique, lemma_unique_len};

verus! {

broadcast use {vstd::seq_lib::group_seq_properties, vstd::set::group_set_axioms, vstd::seq_lib::seq_to_set_is_finite};

/// Unordered collection containing at most one of each value.
pub struct UnorderedSet<T> {
    members: Vec<T>,
}

impl<T> View for UnorderedSet<T> {
    type V = Set<T>;

    closed spec fn view(&self) -> Set<T> {
        self.members@.to_set()
    }
}

impl<T> UnorderedSet<T> {
    #[verifier::type_invariant]
    spec fn inv(self) -> bool {
        self.members@.no_duplicates()
    }
}

impl<T> UnorderedSet<T> {
    /// The members in storage order, each once: the order `iter` lists them in.
    pub closed spec fn listing(&self) -> Seq<T> {
        self.members@
    }

    /// The listing holds exactly the members.
    pub proof fn lemma_listing(&self)
        ensures
            forall|x: T| #[trigger] self.listing().contains(x) == self@.contains(x),
    {
    }
}

impl<T: Key> UnorderedSet<T> {
    /// The members of a set always form a finite set.
    pub broadcast proof fn lemma_view_finite(s: &Self)
        ensures
            #[trigger] s@.finite(),
    {
    }

    /// Creates an empty set.
    pub fn new() -> (s: Self)
        ensures
            s@ == Set::<T>::empty(),
    {
        let s = UnorderedSet { members: Vec::new() };
        proof {
            assert(s@ =~= Set::<T>::empty());
        }
        s
    }

    /// Creates an empty set with room for `capacity` members.
    pub fn with_capacity(capacity: usize) -> (s: Self)
        ensures
            s@ == Set::<T>::empty(),
    {
        let s = UnorderedSet { members: Vec::with_capacity(capacity) };
        proof {
            assert(s@ =~= Set::<T>::empty());
        }
        s
    }

    /// A set holding the distinct values of `items`.
    pub fn from_vec(items: Vec<T>) -> (s: Self)
        ensures
            s@ == items@.to_set(),
    {
        let mut s = Self::new();
        let mut i: usize = 0;
        while i < items.len()
            invariant
                i <= items@.len(),
                s@ == items@.subrange(0, i as int).to_set(),
            decreases items@.len() - i,
        {
            s.insert(items[i]);
            proof {
                assert(items@.subrange(0, i + 1) =~= items@.subrange(0, i as int).push(items@[i as int]));
            }
            i += 1;
        }
        proof {
            assert(items@.subrange(0, items@.len() as int) =~= items@);
        }
        s
    }

    /// Number of members.
    pub fn len(&self) -> (n: usize)
        ensures
            n == self@.len(),
    {
        proof {
            use_type_invariant(self);
            lemma_unique_len(self.members@);
        }
        self.members.len()
    }

    /// Whether the set has no members.
    pub fn is_empty(&self) -> (empty: bool)
        ensures
            empty == (self@.len() == 0),
            empty == (self@ == Set::<T>::empty()),
    {
        proof {
            use_type_invariant(self);
            lemma_unique_len(self.members@);
            if self.members@.len() > 0 {
                assert(self@.contains(self.members@[0]));
            } else {
                assert(self@ =~= Set::<T>::empty());
            }
        }
        self.members.len() == 0
    }

    /// The members, each once, in storage order.
    pub fn iter(&self) -> (items: Vec<T>)
        ensures
            items@ == self.listing(),
            items@.to_set() == self@,
            items@.no_duplicates(),
            items@.len() == self@.len(),
    {
        proof {
            use_type_invariant(self);
            lemma_unique_len(self.members@);
        }
        copy_vec(&self.members)
    }

    /// Removes every member.
    pub fn clear(&mut self)
        ensures
            final(self)@ == Set::<T>::empty(),
    {
        self.members = Vec::new();
        proof {
            assert(self@ =~= Set::<T>::empty());
        }
    }

    /// Reserves room for `additional` more members; the members and their
    /// order are unchanged.
    pub fn reserve(&mut self, additional: usize)
        ensures
            final(self)@ == old(self)@,
            final(self).listing() == old(self).listing(),
    {
        proof {
            use_type_invariant(&*self);
        }
        let mut members: Vec<T> = Vec::new();
        std::mem::swap(&mut members, &mut self.members);
        members.reserve(additional);
        self.members = members;
    }

    /// Releases spare room; the members are unchanged.
    pub fn shrink_to_fit(&mut self)
        ensures
            final(self)@ == old(self)@,
    {
    }

    /// Whether `item` is a member.
    pub fn contains(&self, item: &T) -> (found: bool)
        ensures
            found == self@.contains(*item),
    {
        position_of(&self.members, item).is_some()
    }

    /// The stored member equal to `item`.
    pub fn get(&self, item: &T) -> (found: Option<T>)
        ensures
            found == (if self@.contains(*item) { Some(*item) } else { None::<T> }),
    {
        match position_of(&self.members, item) {
            Some(i) => Some(self.members[i]),
            None => None,
        }
    }

    /// Adds `item`; returns whether it was new.
    pub fn insert(&mut self, item: T) -> (added: bool)
        ensures
            added == !old(self)@.contains(item),
            final(self)@ == old(self)@.insert(item),
    {
        proof {
            use_type_invariant(&*self);
        }
        match position_of(&self.members, &item) {
            Some(_) => {
                proof {
                    assert(old(self)@.insert(item) =~= old(self)@);
                }
                false
            },
            None => {
                proof {
                    lemma_push_unique(self.members@, item);
                }
                let mut members: Vec<T> = Vec::new();
                std::mem::swap(&mut members, &mut self.members);
                members.push(item);
                self.members = members;
                true
            },
        }
    }

    /// Inserts `item`, returning the equal member it replaced.
    pub fn replace(&mut self, item: T) -> (replaced: Option<T>)
        ensures
            replaced == (if old(self)@.contains(item) { Some(item) } else { None::<T> }),
            final(self)@ == old(self)@.insert(item),
    {
        if self.insert(item) {
            None
        } else {
            Some(item)
        }
    }

    /// Removes `item`; returns whether it was present.
    pub fn remove(&mut self, item: &T) -> (removed: bool)
        ensures
            removed == old(self)@.contains(*item),
            final(self)@ == old(self)@.remove(*item),
    {
        self.take(item).is_some()
    }

    /// Removes `item` and returns the stored member.
    pub fn take(&mut self, item: &T) -> (taken: Option<T>)
        ensures
            taken == (if old(self)@.contains(*item) { Some(*item) } else { None::<T> }),
            final(self)@ == old(self)@.remove(*item),
    {
        proof {
            use_type_invariant(&*self);
        }
        match position_of(&self.members, item) {
            Some(i) => {
                proof {
                    lemma_remove_unique(self.members@, i as int);
                }
                let mut members: Vec<T> = Vec::new();
                std::mem::swap(&mut members, &mut self.members);
                let taken = members.remove(i);
                self.members = members;
                Some(taken)
            },
            None => {
                proof {
                    assert(old(self)@.remove(*item) =~= old(self)@);
                }
                None
            },
        }
    }

    /// Keeps only the members `keep` accepts.
    pub fn retain<F: Fn(&T) -> bool>(&mut self, keep: F)
        requires
            forall|x: &T| #[trigger] keep.requires((x,)),
        ensures
            forall|x: T| #[trigger] final(self)@.contains(x) ==> old(self)@.contains(x) && keep.ensures((&x,), true),
            forall|x: T| old(self)@.contains(x) && !final(self)@.contains(x) ==> keep.ensures((&x,), false),
    {
        proof {
            use_type_invariant(&*self);
        }
        let ghost old_members = self.members@;
        let mut kept: Vec<T> = Vec::new();
        let mut i: usize = 0;
        while i < self.members.len()
            invariant
                self.members@ == old_members,
                old_members.no_duplicates(),
                i <= old_members.len(),
                forall|x: &T| #[trigger] keep.requires((x,)),
                kept@.no_duplicates(),
                forall|x: T| #[trigger] kept@.contains(x) ==> old_members.subrange(0, i as int).contains(x) && keep.ensures((&x,), true),
                forall|x: T| old_members.subrange(0, i as int).contains(x) && !kept@.contains(x) ==> keep.ensures((&x,), false),
            decreases old_members.len() - i,
        {
            let item = self.members[i];
            let b = keep(&item);
            proof {
                assert(old_members.subrange(0, i + 1) =~= old_members.subrange(0, i as int).push(item));
                assert(!old_members.subrange(0, i as int).contains(item)) by {
                    if old_members.subrange(0, i as int).contains(item) {
                        let k = choose|k: int| 0 <= k < i && old_members.subrange(0, i as int)[k] == item;
                        assert(old_members[k] == old_members[i as int]);
                    }
                }
            }
            if b {
                proof {
                    lemma_push_unique(kept@, item);
                }
                kept.push(item);
            }
            i += 1;
        }
        proof {
            assert(old_members.subrange(0, old_members.len() as int) =~= old_members);
        }
        self.members = kept;
    }

    /// Removes every member and returns them.
    pub fn drain(&mut self) -> (items: Vec<T>)
        ensures
            items@.to_set() == old(self)@,
            items@.no_duplicates(),
            final(self)@ == Set::<T>::empty(),
    {
        proof {
            use_type_invariant(&*self);
        }
        let items = copy_vec(&self.members);
        self.clear();
        items
    }

    /// Every member of either set.
    pub fn union(&self, other: &Self) -> (out: Self)
        ensures
            out@ == self@.union(other@),
    {
        proof {
            use_type_invariant(self);
        }
        let mut out = UnorderedSet { members: copy_vec(&self.members) };
        let others = other.iter();
        let mut i: usize = 0;
        while i < others.len()
            invariant
                i <= others@.len(),
                others@.to_set() == other@,
                out@ == self@.union(others@.subrange(0, i as int).to_set()),
            decreases others@.len() - i,
        {
            out.insert(others[i]);
            proof {
                assert(others@.subrange(0, i + 1) =~= others@.subrange(0, i as int).push(others@[i as int]));
                assert(out@ =~= self@.union(others@.subrange(0, i + 1).to_set()));
            }
            i += 1;
        }
        proof {
            assert(others@.subrange(0, others@.len() as int) =~= others@);
        }
        out
    }

    /// The members of `self` that `pick` selects, where `pick` says for each
    /// member whether `other` contains it.
    fn filter_by(&self, other: &Self, want_present: bool) -> (out: Self)
        ensures
            forall|x: T| #[trigger] out@.contains(x) <==> (self@.contains(x) && (other@.contains(x) == want_present)),
    {
        proof {
            use_type_invariant(self);
        }
        let mut kept: Vec<T> = Vec::new();
        let mut i: usize = 0;
        while i < self.members.len()
            invariant
                i <= self.members@.len(),
                self.members@.no_duplicates(),
                kept@.no_duplicates(),
                forall|x: T| #[trigger] kept@.contains(x) <==> (self.members@.subrange(0, i as int).contains(x) && (other@.contains(x) == want_present)),
            decreases self.members@.len() - i,
        {
            let item = self.members[i];
            proof {
                assert(self.members@.subrange(0, i + 1) =~= self.members@.subrange(0, i as int).push(item));
                assert(!self.members@.subrange(0, i as int).contains(item)) by {
                    if self.members@.subrange(0, i as int).contains(item) {
                        let k = choose|k: int| 0 <= k < i && self.members@.subrange(0, i as int)[k] == item;
                        assert(self.members@[k] == self.members@[i as int]);
                    }
                }
            }
            if other.contains(&item) == want_present {
                proof {
                    lemma_push_unique(kept@, item);
                }
                kept.push(item);
            }
            i += 1;
        }
        proof {
            assert(self.members@.subrange(0, self.members@.len() as int) =~= self.members@);
        }
        UnorderedSet { members: kept }
    }

    /// Members present in both sets.
    pub fn intersection(&self, other: &Self) -> (out: Self)
        ensures
            out@ == self@.intersect(other@),
    {
        let out = self.filter_by(other, true);
        proof {
            assert(out@ =~= self@.intersect(other@));
        }
        out
    }

    /// Members of `self` absent from `other`.
    pub fn difference(&self, other: &Self) -> (out: Self)
        ensures
            out@ == self@.difference(other@),
    {
        let out = self.filter_by(other, false);
        proof {
            assert(out@ =~= self@.difference(other@));
        }
        out
    }

    /// Members present in exactly one of the sets.
    pub fn symmetric_difference(&self, other: &Self) -> (out: Self)
        ensures
            out@ == self@.difference(other@).union(other@.difference(self@)),
    {
        let a = self.difference(other);
        let b = other.difference(self);
        a.union(&b)
    }

    /// Whether every member of `self` is in `other`.
    pub fn is_subset(&self, other: &Self) -> (sub: bool)
        ensures
            sub == self@.subset_of(other@),
    {
        let d = self.difference(other);
        let empty = d.is_empty();
        proof {
            if !empty {
                assert(!(d@ =~= Set::<T>::empty()));
                let x = choose|x: T| d@.contains(x);
                assert(d@.contains(x));
            }
            if empty {
                assert forall|x: T| self@.contains(x) implies other@.contains(x) by {
                    if !other@.contains(x) {
                        assert(d@.contains(x));
                    }
                }
            }
        }
        empty
    }

    /// Whether every member of `other` is in `self`.
    pub fn is_superset(&self, other: &Self) -> (sup: bool)
        ensures
            sup == other@.subset_of(self@),
    {
        other.is_subset(self)
    }

    /// Whether the sets have no member in common.
    pub fn is_disjoint(&self, other: &Self) -> (disjoint: bool)
        ensures
            disjoint == self@.disjoint(other@),
    {
        let both = self.intersection(other);
        let empty = both.is_empty();
        proof {
            if !empty {
                assert(!(both@ =~= Set::<T>::empty()));
                let x = choose|x: T| both@.contains(x);
                assert(both@.contains(x));
            }
            if empty {
                assert forall|x: T| self@.contains(x) implies !other@.contains(x) by {
                    if other@.contains(x) {
                        assert(both@.contains(x));
                    }
                }
            }
        }
        empty
    }

    /// Whether the two sets have the same members.
    pub fn same_members(&self, other: &Self) -> (same: bool)
        ensures
            same == (self@ == other@),
    {
        let a = self.is_subset(other);
        let b = other.is_subset(self);
        proof {
            if a && b {
                assert(self@ =~= other@);
            }
        }
        a && b
    }

    /// Adds every value of `items`.
    pub fn extend(&mut self, items: &Vec<T>)
        ensures
            final(self)@ == old(self)@.union(items@.to_set()),
    {
        let mut i: usize = 0;
        while i < items.len()
            invariant
                i <= items@.len(),
                self@ == old(self)@.union(items@.subrange(0, i as int).to_set()),
            decreases items@.len() - i,
        {
            self.insert(items[i]);
            proof {
                assert(items@.subrange(0, i + 1) =~= items@.subrange(0, i as int).push(items@[i as int]));
                assert(self@ =~= old(self)@.union(items@.subrange(0, i + 1).to_set()));
            }
            i += 1;
        }
        proof {
            assert(items@.subrange(0, items@.len() as int) =~= items@);
        }
    }

    /// A copy of this set.
    pub fn duplicate(&self) -> (out: Self)
        ensures
            out@ == self@,
    {
        proof {
            use_type_invariant(self);
        }
        UnorderedSet { members: copy_vec(&self.members) }
    }

    /// Unites `self` with every set in `others`.
    pub fn union_all(&self, others: &Vec<Self>) -> (out: Self)
        ensures
            forall|x: T| #[trigger] out@.contains(x) <==> (self@.contains(x) || exists|k: int| 0 <= k < others@.len() && #[trigger] others@[k]@.contains(x)),
    {
        let mut out = self.duplicate();
        let mut i: usize = 0;
        while i < others.len()
            invariant
                i <= others@.len(),
                forall|x: T| #[trigger] out@.contains(x) <==> (self@.contains(x) || exists|k: int| 0 <= k < i && #[trigger] others@[k]@.contains(x)),
            decreases others@.len() - i,
        {
            out = out.union(&others[i]);
            proof {
                assert forall|x: T| #[trigger] out@.contains(x) <==> (self@.contains(x) || exists|k: int| 0 <= k < i + 1 && #[trigger] others@[k]@.contains(x)) by {
                    if others@[i as int]@.contains(x) {
                        assert(0 <= i < i + 1);
                    }
                    if exists|k: int| 0 <= k < i + 1 && #[trigger] others@[k]@.contains(x) {
                        let k = choose|k: int| 0 <= k < i + 1 && #[trigger] others@[k]@.contains(x);
                        if k < i {
                        } else {
                            assert(k == i);
                        }
                    }
                }
            }
            i += 1;
        }
        out
    }

    /// Intersects `self` with every set in `others`.
    pub fn intersection_all(&self, others: &Vec<Self>) -> (out: Self)
        ensures
            forall|x: T| #[trigger] out@.contains(x) <==> (self@.contains(x) && forall|k: int| 0 <= k < others@.len() ==> #[trigger] others@[k]@.contains(x)),
    {
        let mut out = self.duplicate();
        let mut i: usize = 0;
        while i < others.len()
            invariant
                i <= others@.len(),
                forall|x: T| #[trigger] out@.contains(x) <==> (self@.contains(x) && forall|k: int| 0 <= k < i ==> #[trigger] others@[k]@.contains(x)),
            decreases others@.len() - i,
        {
            out = out.intersection(&others[i]);
            proof {
                assert forall|x: T| #[trigger] out@.contains(x) <==> (self@.contains(x) && forall|k: int| 0 <= k < i + 1 ==> #[trigger] others@[k]@.contains(x)) by {
                    if self@.contains(x) && forall|k: int| 0 <= k < i + 1 ==> #[trigger] others@[k]@.contains(x) {
                        assert(others@[i as int]@.contains(x));
                    }
                }
            }
            i += 1;
        }
        out
    }
}

/// The tuples that take one member of each set of `sets`, in order.
pub open spec fn product<T>(sets: Seq<Set<T>>) -> Set<Seq<T>> {
    Set::new(|t: Seq<T>| t.len() == sets.len() && forall|i: int| 0 <= i < t.len() ==> #[trigger] sets[i].contains(t[i]))
}

/// The contents of each vector of `vs`.
pub open spec fn contents<T>(vs: Seq<Vec<T>>) -> Seq<Seq<T>> {
    vs.map_values(|v: Vec<T>| v@)
}

/// A tuple of a longer product is a tuple of the shorter one with one
/// member of the last set after it.
proof fn lemma_product_push<T>(sets: Seq<Set<T>>, last: Set<T>, u: Seq<T>)
    ensures
        product(sets.push(last)).contains(u)
            <==> (u.len() > 0 && product(sets).contains(u.drop_last()) && last.contains(u.last())),
{
    let all = sets.push(last);
    if product(all).contains(u) {
        assert forall|i: int| 0 <= i < u.drop_last().len() implies #[trigger] sets[i].contains(u.drop_last()[i]) by {
            assert(all[i] == sets[i]);
            assert(all[i].contains(u[i]));
        }
        assert(all[u.len() - 1].contains(u[u.len() - 1]));
    }
    if u.len() > 0 && product(sets).contains(u.drop_last()) && last.contains(u.last()) {
        assert forall|i: int| 0 <= i < u.len() implies #[trigger] all[i].contains(u[i]) by {
            if i < u.len() - 1 {
                assert(u.drop_last()[i] == u[i]);
                assert(sets[i].contains(u.drop_last()[i]));
            }
        }
    }
}

/// Every tuple of `tuples` followed by every member of `items`, each
/// combination once.
fn extend_all<T: Copy>(tuples: &Vec<Vec<T>>, items: &Vec<T>) -> (out: Vec<Vec<T>>)
    requires
        contents(tuples@).no_duplicates(),
        items@.no_duplicates(),
    ensures
        contents(out@).no_duplicates(),
        forall|u: Seq<T>| #[trigger] contents(out@).contains(u)
            <==> (u.len() > 0 && contents(tuples@).contains(u.drop_last()) && items@.contains(u.last())),
{
    let mut out: Vec<Vec<T>> = Vec::new();
    let mut a: usize = 0;
    while a < tuples.len()
        invariant
            a <= tuples@.len(),
            contents(tuples@).no_duplicates(),
            items@.no_duplicates(),
            contents(out@).no_duplicates(),
            forall|k: int| 0 <= k < out@.len() ==> #[trigger] contents(out@)[k].len() > 0
                && contents(tuples@).take(a as int).contains(contents(out@)[k].drop_last()),
            forall|u: Seq<T>| #[trigger] contents(out@).contains(u)
                <==> (u.len() > 0 && contents(tuples@).take(a as int).contains(u.drop_last()) && items@.contains(u.last())),
        decreases tuples@.len() - a,
    {
        let ghost base = out@;
        let ghost ta = tuples@[a as int]@;
        proof {
            assert(contents(tuples@)[a as int] == ta);
            assert(!contents(tuples@).take(a as int).contains(ta)) by {
                if contents(tuples@).take(a as int).contains(ta) {
                    let j = choose|j: int| 0 <= j < a && #[trigger] contents(tuples@).take(a as int)[j] == ta;
                    assert(contents(tuples@)[j] == contents(tuples@)[a as int]);
                }
            }
        }
        let mut b: usize = 0;
        while b < items.len()
            invariant
                a < tuples@.len(),
                b <= items@.len(),
                ta == tuples@[a as int]@,
                contents(tuples@).no_duplicates(),
                items@.no_duplicates(),
                !contents(tuples@).take(a as int).contains(ta),
                contents(base).no_duplicates(),
                forall|k: int| 0 <= k < base.len() ==> #[trigger] contents(base)[k].len() > 0
                    && contents(tuples@).take(a as int).contains(contents(base)[k].drop_last()),
                forall|u: Seq<T>| #[trigger] contents(base).contains(u)
                    <==> (u.len() > 0 && contents(tuples@).take(a as int).contains(u.drop_last()) && items@.contains(u.last())),
                contents(out@) == contents(base) + Seq::new(b as nat, |c: int| ta.push(items@[c])),
            decreases items@.len() - b,
        {
            let mut extended = copy_vec(&tuples[a]);
            extended.push(items[b]);
            let ghost before = out@;
            out.push(extended);
            proof {
                assert(contents(out@) =~= contents(before).push(ta.push(items@[b as int])));
                assert(Seq::new((b + 1) as nat, |c: int| ta.push(items@[c])) =~= Seq::new(b as nat, |c: int| ta.push(items@[c])).push(ta.push(items@[b as int])));
            }
            b += 1;
        }
        proof {
            let fresh = Seq::new(items@.len(), |c: int| ta.push(items@[c]));
            let whole = contents(base) + fresh;
            assert(contents(out@) == whole);
            assert(contents(tuples@).take(a + 1) =~= contents(tuples@).take(a as int).push(ta));
            assert forall|i: int, j: int| 0 <= i < j < whole.len() implies whole[i] != whole[j] by {
                if j < base.len() {
                    assert(contents(base)[i] != contents(base)[j]);
                } else if i < base.len() {
                    assert(whole[j].drop_last() =~= ta);
                    assert(contents(tuples@).take(a as int).contains(contents(base)[i].drop_last()));
                } else {
                    let ci = i - base.len();
                    let cj = j - base.len();
                    assert(whole[i].last() == items@[ci]);
                    assert(whole[j].last() == items@[cj]);
                    assert(items@[ci] != items@[cj]);
                }
            }
            assert forall|k: int| 0 <= k < whole.len() implies #[trigger] whole[k].len() > 0
                && contents(tuples@).take(a + 1).contains(whole[k].drop_last()) by {
                if k < base.len() {
                    let w = contents(base)[k].drop_last();
                    let j = choose|j: int| 0 <= j < a && #[trigger] contents(tuples@).take(a as int)[j] == w;
                    assert(contents(tuples@).take(a + 1)[j] == w);
                } else {
                    assert(whole[k].drop_last() =~= ta);
                    assert(contents(tuples@).take(a + 1)[a as int] == ta);
                }
            }
            assert forall|u: Seq<T>| #[trigger] whole.contains(u)
                <==> (u.len() > 0 && contents(tuples@).take(a + 1).contains(u.drop_last()) && items@.contains(u.last())) by {
                if whole.contains(u) {
                    let k = choose|k: int| 0 <= k < whole.len() && whole[k] == u;
                    if k < base.len() {
                        assert(contents(base).contains(u));
                    } else {
                        let c = k - base.len();
                        assert(u.drop_last() =~= ta);
                        assert(u.last() == items@[c]);
                        assert(contents(tuples@).take(a + 1)[a as int] == ta);
                    }
                }
                if u.len() > 0 && contents(tuples@).take(a + 1).contains(u.drop_last()) && items@.contains(u.last()) {
                    let j = choose|j: int| 0 <= j < a + 1 && #[trigger] contents(tuples@).take(a + 1)[j] == u.drop_last();
                    if j < a {
                        assert(contents(tuples@).take(a as int)[j] == u.drop_last());
                        assert(contents(base).contains(u));
                        let k = choose|k: int| 0 <= k < base.len() && contents(base)[k] == u;
                        assert(whole[k] == u);
                    } else {
                        let c = choose|c: int| 0 <= c < items@.len() && items@[c] == u.last();
                        assert(u =~= ta.push(items@[c]));
                        assert(whole[base.len() + c] == u);
                    }
                }
            }
        }
        a += 1;
    }
    proof {
        assert(contents(tuples@).take(a as int) =~= contents(tuples@));
    }
    out
}

impl<T: Key> UnorderedSet<T> {
    /// Every combination taking one member of this set, then one of each
    /// of `others` in order, each combination once.
    pub fn cartesian_product(&self, others: &Vec<Self>) -> (tuples: Vec<Vec<T>>)
        ensures
            contents(tuples@).to_set() == product(seq![self@] + others@.map_values(|s: Self| s@)),
            contents(tuples@).no_duplicates(),
    {
        let items = self.iter();
        let mut tuples: Vec<Vec<T>> = Vec::new();
        let mut i: usize = 0;
        while i < items.len()
            invariant
                i <= items@.len(),
                items@.no_duplicates(),
                contents(tuples@) == Seq::new(i as nat, |k: int| seq![items@[k]]),
            decreases items@.len() - i,
        {
            let mut single: Vec<T> = Vec::new();
            single.push(items[i]);
            let ghost before = tuples@;
            tuples.push(single);
            proof {
                assert(single@ =~= seq![items@[i as int]]);
                assert(contents(tuples@) =~= contents(before).push(seq![items@[i as int]]));
                assert(Seq::new((i + 1) as nat, |k: int| seq![items@[k]]) =~= Seq::new(i as nat, |k: int| seq![items@[k]]).push(seq![items@[i as int]]));
            }
            i += 1;
        }
        let ghost firsts = seq![self@];
        proof {
            let singles = contents(tuples@);
            assert forall|x: int, y: int| 0 <= x < y < singles.len() implies singles[x] != singles[y] by {
                assert(singles[x][0] == items@[x]);
                assert(singles[y][0] == items@[y]);
            }
            assert forall|u: Seq<T>| #[trigger] singles.to_set().contains(u) <==> product(firsts).contains(u) by {
                if singles.to_set().contains(u) {
                    let k = choose|k: int| 0 <= k < singles.len() && singles[k] == u;
                    assert(items@.to_set().contains(items@[k]));
                    assert(firsts[0] == self@);
                }
                if product(firsts).contains(u) {
                    assert(firsts[0].contains(u[0]));
                    assert(items@.to_set().contains(u[0]));
                    let k = choose|k: int| 0 <= k < items@.len() && items@[k] == u[0];
                    assert(u =~= singles[k]);
                }
            }
            assert(singles.to_set() =~= product(firsts));
        }
        let mut j: usize = 0;
        while j < others.len()
            invariant
                j <= others@.len(),
                contents(tuples@).no_duplicates(),
                contents(tuples@).to_set() == product(seq![self@] + others@.map_values(|s: Self| s@).take(j as int)),
            decreases others@.len() - j,
        {
            let members = others[j].iter();
            let ghost before = contents(tuples@);
            let ghost sets = seq![self@] + others@.map_values(|s: Self| s@).take(j as int);
            tuples = extend_all(&tuples, &members);
            proof {
                let longer = seq![self@] + others@.map_values(|s: Self| s@).take(j + 1);
                assert(longer =~= sets.push(others@[j as int]@));
                assert forall|u: Seq<T>| #[trigger] contents(tuples@).to_set().contains(u) <==> product(longer).contains(u) by {
                    lemma_product_push(sets, others@[j as int]@, u);
                    assert(contents(tuples@).contains(u) == contents(tuples@).to_set().contains(u));
                    if u.len() > 0 {
                        assert(before.contains(u.drop_last()) == before.to_set().contains(u.drop_last()));
                    }
                }
                assert(contents(tuples@).to_set() =~= product(longer));
            }
            j += 1;
        }
        proof {
            assert(others@.map_values(|s: Self| s@).take(j as int) =~= others@.map_values(|s: Self| s@));
        }
        tuples
    }
}

impl<T: Key> Collection for UnorderedSet<T> {
    type Item = T;

    open spec fn listed(&self) -> Seq<T> {
        self.listing()
    }

    fn len(&self) -> usize {
        UnorderedSet::len(self)
    }

    fn contains(&self, item: &T) -> bool {
        UnorderedSet::contains(self, item)
    }

    fn elements(&self) -> Vec<T> {
        self.iter()
    }
}

impl<T: Key> CollectionInsert for UnorderedSet<T> {
    fn insert(&mut self, item: T) -> bool {
        UnorderedSet::insert(self, item)
    }
}

impl<T: Key> CollectionRemove for UnorderedSet<T> {
    fn remove(&mut self, item: &T) -> bool {
        UnorderedSet::remove(self, item)
    }

    fn clear(&mut self) {
        UnorderedSet::clear(self)
    }
}

impl<T: Key> UniqueCollection for UnorderedSet<T> {

}

impl<T: Key> Choose for UnorderedSet<T> {

}

impl<T: Key> SetAlgebra for UnorderedSet<T> {
    fn union(&self, other: &Self) -> Self {
        UnorderedSet::union(self, other)
    }

    fn intersection(&self, other: &Self) -> Self {
        UnorderedSet::intersection(self, other)
    }

    fn difference(&self, other: &Self) -> Self {
        UnorderedSet::difference(self, other)
    }

    fn symmetric_difference(&self, other: &Self) -> Self {
        UnorderedSet::symmetric_difference(self, other)
    }

    fn is_subset(&self, other: &Self) -> bool {
        UnorderedSet::is_subset(self, other)
    }

    fn is_disjoint(&self, other: &Self) -> bool {
        proof {
            self.lemma_listing();
            other.lemma_listing();
        }
        let disjoint = UnorderedSet::is_disjoint(self, other);
        proof {
            if !disjoint {
                let x = choose|x: T| self@.contains(x) && other@.contains(x);
                assert(self.listed().contains(x) && other.listed().contains(x));
            } else {
                assert forall|x: T| #[trigger] self.listed().contains(x) implies !other.listed().contains(x) by {
                    assert(self@.contains(x));
                }
            }
        }
        disjoint
    }
}

} // verus!
