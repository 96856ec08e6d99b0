//! A unique collection that also files every member under the labels it
//! carries, so members can be fetched by label. The labels come from the
//! members themselves through a labeler function, such as a tag list or a
//! category field.
//!
//! Each member is filed under the labels the labeler gave it when it was
//! inserted (or when `reindex_all` last ran), and removing a member removes
//! exactly those entries.
use vstd::prelude::*;
use crate::structures::traits::key::Key;
use crate::structures::traits::collection::{Choose, Collection, CollectionInsert, CollectionRemove, SetAlgebra, UniqueCollection};
use crate::structures::traits::grouping::{GroupSizes, Grouping};
use crate::structures::relation::{domain, image, preimage, range};
use crate::structures::collections::sets::unordered_set::UnorderedSet;
use crate::structures::mappings::grouped::grouped_multi_map::GroupedMultiMap;

verus! {

broadcast use {vstd::set::group_set_axioms, vstd::seq_lib::group_seq_properties};

/// The `(member, label)` entries that filing `item` under `labels` adds.
pub open spec fn filed<T, L>(item: T, labels: Seq<L>) -> Set<(T, L)> {
    Set::new(|p: (T, L)| p.0 == item && labels.contains(p.1))
}

/// Unique members `T`, each filed under the labels `L` its labeler gives it.
#[verifier::reject_recursive_types(T)]
#[verifier::reject_recursive_types(L)]
pub struct LabelIndexedSet<T: Key, L: Key, F: Fn(&T) -> Vec<L>> {
    members: UnorderedSet<T>,
    index: GroupedMultiMap<T, L>,
    labeler: F,
}

impl<T: Key, L: Key, F: Fn(&T) -> Vec<L>> LabelIndexedSet<T, L, F> {
    #[verifier::type_invariant]
    spec fn inv(self) -> bool {
        &&& domain(self.index@).subset_of(self.members@)
        &&& forall|x: &T| #[trigger] self.labeler.requires((x,))
    }
}

impl<T: Key, L: Key, F: Fn(&T) -> Vec<L>> View for LabelIndexedSet<T, L, F> {
    /// The members, and the `(member, label)` filing entries.
    type V = (Set<T>, Set<(T, L)>);

    closed spec fn view(&self) -> (Set<T>, Set<(T, L)>) {
        (self.members@, self.index@)
    }
}

impl<T: Key, L: Key, F: Fn(&T) -> Vec<L>> LabelIndexedSet<T, L, F> {
    /// The labeler the set files members with.
    pub closed spec fn labeler_spec(&self) -> F {
        self.labeler
    }

    /// Creates an empty set using `labeler` to derive labels for each member.
    pub fn new(labeler: F) -> (set: Self)
        requires
            forall|x: &T| #[trigger] labeler.requires((x,)),
        ensures
            set@ == (Set::<T>::empty(), Set::<(T, L)>::empty()),
            set.labeler_spec() == labeler,
    {
        let index = GroupedMultiMap::new();
        proof {
            assert(domain(index@) =~= Set::<T>::empty());
        }
        LabelIndexedSet { members: UnorderedSet::new(), index, labeler }
    }

    /// Entries only name members, and the labeler accepts every value.
    pub fn check_invariants(&self)
        ensures
            domain(self@.1).subset_of(self@.0),
            self@.0.finite(),
            forall|x: &T| #[trigger] self.labeler_spec().requires((x,)),
    {
        proof {
            use_type_invariant(self);
            UnorderedSet::lemma_view_finite(&self.members);
        }
    }

    /// Number of members.
    pub fn len(&self) -> (n: usize)
        ensures
            n == self@.0.len(),
    {
        self.members.len()
    }

    /// Whether there are no members.
    pub fn is_empty(&self) -> (empty: bool)
        ensures
            empty == (self@.0.len() == 0),
    {
        self.members.is_empty()
    }

    /// Whether `item` is a member.
    pub fn contains(&self, item: &T) -> (found: bool)
        ensures
            found == self@.0.contains(*item),
    {
        self.members.contains(item)
    }

    /// Every member.
    pub fn iter(&self) -> (items: Vec<T>)
        ensures
            items@.to_set() == self@.0,
            items@.no_duplicates(),
    {
        self.members.iter()
    }

    /// A copy of the complete member set.
    pub fn members(&self) -> (members: UnorderedSet<T>)
        ensures
            members@ == self@.0,
    {
        self.members.duplicate()
    }

    /// The label-derivation callback.
    pub fn labeler(&self) -> (labeler: &F)
        ensures
            *labeler == self.labeler_spec(),
    {
        &self.labeler
    }

    /// Files a new member under the labels the labeler gives it. Returns
    /// whether the item was new.
    pub fn insert(&mut self, item: T) -> (added: bool)
        ensures
            added == !old(self)@.0.contains(item),
            final(self)@.0 == old(self)@.0.insert(item),
            final(self).labeler_spec() == old(self).labeler_spec(),
            !added ==> final(self)@ == old(self)@,
            added ==> exists|labels: Vec<L>| old(self).labeler_spec().ensures((&item,), labels)
                && final(self)@.1 == old(self)@.1.union(filed(item, labels@)),
    {
        proof {
            use_type_invariant(&*self);
        }
        if self.members.contains(&item) {
            proof {
                assert(old(self)@.0.insert(item) =~= old(self)@.0);
            }
            return false;
        }
        let labels = (self.labeler)(&item);
        let (mut members, mut index) = self.take_filing();
        members.insert(item);
        index.insert_all(&item, &labels);
        proof {
            assert(index@ =~= old(self)@.1.union(filed(item, labels@)));
            assert forall|e: T| domain(index@).contains(e) implies members@.contains(e) by {
                let l = choose|l: L| index@.contains((e, l));
                if e != item {
                    assert(domain(old(self)@.1).contains(e));
                }
            }
        }
        self.put_filing(members, index);
        true
    }

    /// Refiles an item under fresh labels, adding it if it is not a member.
    /// Returns the previous stored value, if any.
    pub fn replace(&mut self, item: T) -> (previous: Option<T>)
        ensures
            previous == (if old(self)@.0.contains(item) { Some(item) } else { None }),
            final(self)@.0 == old(self)@.0.insert(item),
            final(self).labeler_spec() == old(self).labeler_spec(),
            exists|labels: Vec<L>| old(self).labeler_spec().ensures((&item,), labels)
                && final(self)@.1 == old(self)@.1.filter(|p: (T, L)| p.0 != item).union(filed(item, labels@)),
    {
        proof {
            use_type_invariant(&*self);
        }
        let was_member = self.members.contains(&item);
        let labels = (self.labeler)(&item);
        let (mut members, mut index) = self.take_filing();
        index.remove(&item);
        members.insert(item);
        index.insert_all(&item, &labels);
        proof {
            let expected = old(self)@.1.filter(|p: (T, L)| p.0 != item).union(filed(item, labels@));
            assert(index@ =~= expected);
            assert forall|e: T| domain(index@).contains(e) implies members@.contains(e) by {
                let l = choose|l: L| index@.contains((e, l));
                if e != item {
                    assert(domain(old(self)@.1).contains(e));
                }
            }
        }
        self.put_filing(members, index);
        if was_member {
            Some(item)
        } else {
            None
        }
    }

    /// Removes `item` and its filing entries. Returns whether it was a member.
    pub fn remove(&mut self, item: &T) -> (removed: bool)
        ensures
            removed == old(self)@.0.contains(*item),
            final(self)@.0 == old(self)@.0.remove(*item),
            final(self)@.1 == old(self)@.1.filter(|p: (T, L)| p.0 != *item),
            final(self).labeler_spec() == old(self).labeler_spec(),
    {
        let (mut members, mut index) = self.take_filing();
        index.remove(item);
        let removed = members.remove(item);
        proof {
            assert forall|e: T| domain(index@).contains(e) implies members@.contains(e) by {
                let l = choose|l: L| index@.contains((e, l));
                assert(domain(old(self)@.1).contains(e));
            }
        }
        self.put_filing(members, index);
        removed
    }

    /// Refiles every member under the labels the labeler now gives it.
    pub fn reindex_all(&mut self)
        ensures
            final(self)@.0 == old(self)@.0,
            final(self).labeler_spec() == old(self).labeler_spec(),
            domain(final(self)@.1).subset_of(final(self)@.0),
            forall|m: T| #[trigger] final(self)@.0.contains(m) ==> exists|labels: Vec<L>|
                old(self).labeler_spec().ensures((&m,), labels) && image(final(self)@.1, m) == labels@.to_set(),
    {
        proof {
            use_type_invariant(&*self);
        }
        let items = self.members.iter();
        let (members, _) = self.take_filing();
        let mut index: GroupedMultiMap<T, L> = GroupedMultiMap::new();
        let mut i: usize = 0;
        while i < items.len()
            invariant
                i <= items@.len(),
                items@.to_set() == members@,
                items@.no_duplicates(),
                members@ == old(self)@.0,
                forall|x: &T| #[trigger] self.labeler.requires((x,)),
                self.labeler == old(self).labeler_spec(),
                forall|e: T| #[trigger] domain(index@).contains(e) ==> items@.take(i as int).contains(e),
                forall|j: int| #![trigger items@[j]] 0 <= j < i ==> exists|w: Vec<L>|
                    self.labeler.ensures((&items@[j],), w) && image(index@, items@[j]) == w@.to_set(),
            decreases items@.len() - i,
        {
            let item = items[i];
            let labels = (self.labeler)(&item);
            let ghost before = index@;
            index.insert_all(&item, &labels);
            proof {
                assert(items@.take(i + 1) =~= items@.take(i as int).push(item));
                assert(!items@.take(i as int).contains(item)) by {
                    if items@.take(i as int).contains(item) {
                        let j = choose|j: int| 0 <= j < i && #[trigger] items@.take(i as int)[j] == item;
                        assert(items@[j] == items@[i as int]);
                    }
                }
                assert forall|e: T| #[trigger] domain(index@).contains(e) implies items@.take(i + 1).contains(e) by {
                    let l = choose|l: L| index@.contains((e, l));
                    if e != item {
                        assert(domain(before).contains(e));
                    }
                }
                assert(!domain(before).contains(item));
                assert(image(index@, item) =~= labels@.to_set()) by {
                    assert forall|l: L| image(index@, item).contains(l) == labels@.contains(l) by {
                        if before.contains((item, l)) {
                            assert(domain(before).contains(item));
                        }
                    }
                }
                assert forall|j: int| #![trigger items@[j]] 0 <= j < i + 1 implies exists|w: Vec<L>|
                    self.labeler.ensures((&items@[j],), w) && image(index@, items@[j]) == w@.to_set() by {
                    if j < i {
                        assert(items@[j] != item);
                        assert(image(index@, items@[j]) =~= image(before, items@[j]));
                        let w = choose|w: Vec<L>| self.labeler.ensures((&items@[j],), w) && image(before, items@[j]) == w@.to_set();
                        assert(self.labeler.ensures((&items@[j],), w) && image(index@, items@[j]) == w@.to_set());
                    } else {
                        assert(self.labeler.ensures((&items@[j],), labels) && image(index@, items@[j]) == labels@.to_set());
                    }
                }
            }
            i += 1;
        }
        proof {
            assert(items@.take(i as int) =~= items@);
            assert forall|m: T| #[trigger] members@.contains(m) implies exists|labels: Vec<L>|
                old(self).labeler_spec().ensures((&m,), labels) && image(index@, m) == labels@.to_set() by {
                let j = choose|j: int| 0 <= j < items@.len() && items@[j] == m;
                assert(image(index@, items@[j]) == image(index@, m));
                let w = choose|w: Vec<L>| self.labeler.ensures((&items@[j],), w) && image(index@, items@[j]) == w@.to_set();
                assert(old(self).labeler_spec().ensures((&m,), w) && image(index@, m) == w@.to_set());
            }
        }
        self.put_filing(members, index);
    }

    /// Removes every member and filing entry.
    pub fn clear(&mut self)
        ensures
            final(self)@ == (Set::<T>::empty(), Set::<(T, L)>::empty()),
            final(self).labeler_spec() == old(self).labeler_spec(),
    {
        let _ = self.take_filing();
    }

    /// Keeps only the members `keep` accepts, with their filing entries.
    pub fn retain<P: Fn(&T) -> bool>(&mut self, keep: P)
        requires
            forall|x: &T| #[trigger] keep.requires((x,)),
        ensures
            forall|x: T| #[trigger] final(self)@.0.contains(x) ==> old(self)@.0.contains(x) && keep.ensures((&x,), true),
            forall|x: T| old(self)@.0.contains(x) && !final(self)@.0.contains(x) ==> keep.ensures((&x,), false),
            final(self)@.1 == old(self)@.1.filter(|p: (T, L)| final(self)@.0.contains(p.0)),
            final(self).labeler_spec() == old(self).labeler_spec(),
    {
        proof {
            use_type_invariant(&*self);
        }
        let items = self.members.iter();
        proof {
            assert forall|p: (T, L)| old(self)@.1.contains(p) implies old(self)@.0.contains(p.0) by {
                assert(old(self)@.1.contains((p.0, p.1)));
                assert(domain(old(self)@.1).contains(p.0));
            }
            assert(old(self)@.1 =~= old(self)@.1.filter(|p: (T, L)| old(self)@.0.contains(p.0)));
        }
        let mut i: usize = 0;
        while i < items.len()
            invariant
                i <= items@.len(),
                items@.to_set() == old(self)@.0,
                items@.no_duplicates(),
                forall|x: &T| #[trigger] keep.requires((x,)),
                self.labeler_spec() == old(self).labeler_spec(),
                forall|x: T| #[trigger] self@.0.contains(x) ==> old(self)@.0.contains(x),
                forall|j: int| i <= j < items@.len() ==> self@.0.contains(#[trigger] items@[j]),
                forall|j: int| 0 <= j < i ==> (self@.0.contains(#[trigger] items@[j]) ==> keep.ensures((&items@[j],), true))
                    && (!self@.0.contains(items@[j]) ==> keep.ensures((&items@[j],), false)),
                self@.1 == old(self)@.1.filter(|p: (T, L)| self@.0.contains(p.0)),
            decreases items@.len() - i,
        {
            let item = items[i];
            proof {
                use_type_invariant(&*self);
            }
            if !keep(&item) {
                let ghost before = self@;
                self.remove(&item);
                proof {
                    assert(self@.1 =~= old(self)@.1.filter(|p: (T, L)| self@.0.contains(p.0)));
                    assert forall|j: int| i < j < items@.len() implies self@.0.contains(#[trigger] items@[j]) by {
                        assert(items@[j] != items@[i as int]);
                    }
                    assert forall|j: int| 0 <= j < i implies (self@.0.contains(#[trigger] items@[j]) ==> keep.ensures((&items@[j],), true))
                        && (!self@.0.contains(items@[j]) ==> keep.ensures((&items@[j],), false)) by {
                        assert(items@[j] != items@[i as int]);
                    }
                }
            }
            i += 1;
        }
        proof {
            assert forall|x: T| #[trigger] self@.0.contains(x) implies keep.ensures((&x,), true) by {
                let j = choose|j: int| 0 <= j < items@.len() && items@[j] == x;
            }
            assert forall|x: T| old(self)@.0.contains(x) && !self@.0.contains(x) implies keep.ensures((&x,), false) by {
                let j = choose|j: int| 0 <= j < items@.len() && items@[j] == x;
            }
        }
    }

    /// Members carrying any of `labels`.
    pub fn with_any_label(&self, labels: &Vec<L>) -> (found: UnorderedSet<T>)
        ensures
            forall|x: T| #[trigger] found@.contains(x) == exists|i: int| 0 <= i < labels@.len() && self@.1.contains((x, #[trigger] labels@[i])),
    {
        let mut out = UnorderedSet::new();
        let mut i: usize = 0;
        while i < labels.len()
            invariant
                i <= labels@.len(),
                forall|x: T| #[trigger] out@.contains(x) == exists|j: int| 0 <= j < i && self@.1.contains((x, #[trigger] labels@[j])),
            decreases labels@.len() - i,
        {
            let group = self.index.group(&labels[i]);
            let ghost before = out@;
            out = out.union(&group);
            proof {
                assert forall|x: T| #[trigger] out@.contains(x) == exists|j: int| 0 <= j < i + 1 && self@.1.contains((x, #[trigger] labels@[j])) by {
                    if self@.1.contains((x, labels@[i as int])) {
                        assert(group@.contains(x));
                    }
                    if exists|j: int| 0 <= j < i + 1 && self@.1.contains((x, #[trigger] labels@[j])) {
                        let j = choose|j: int| 0 <= j < i + 1 && self@.1.contains((x, #[trigger] labels@[j]));
                        if j < i {
                            assert(before.contains(x));
                        }
                    }
                }
            }
            i += 1;
        }
        out
    }

    /// Members carrying all of `labels`; with no labels, every member.
    pub fn with_all_labels(&self, labels: &Vec<L>) -> (found: UnorderedSet<T>)
        ensures
            labels@.len() == 0 ==> found@ == self@.0,
            labels@.len() > 0 ==> forall|x: T| #[trigger] found@.contains(x) == forall|i: int| 0 <= i < labels@.len() ==> self@.1.contains((x, #[trigger] labels@[i])),
    {
        if labels.len() == 0 {
            return self.members.duplicate();
        }
        let mut out = self.index.group(&labels[0]);
        let mut i: usize = 1;
        while i < labels.len()
            invariant
                1 <= i <= labels@.len(),
                forall|x: T| #[trigger] out@.contains(x) == forall|j: int| 0 <= j < i ==> self@.1.contains((x, #[trigger] labels@[j])),
            decreases labels@.len() - i,
        {
            let group = self.index.group(&labels[i]);
            let ghost before = out@;
            out = out.intersection(&group);
            proof {
                assert forall|x: T| #[trigger] out@.contains(x) == forall|j: int| 0 <= j < i + 1 ==> self@.1.contains((x, #[trigger] labels@[j])) by {
                    if out@.contains(x) {
                        assert(before.contains(x));
                        assert(group@.contains(x));
                    }
                    if forall|j: int| 0 <= j < i + 1 ==> self@.1.contains((x, #[trigger] labels@[j])) {
                        assert(self@.1.contains((x, labels@[i as int])));
                        assert forall|j: int| 0 <= j < i implies self@.1.contains((x, #[trigger] labels@[j])) by {}
                        assert(before.contains(x));
                    }
                }
            }
            i += 1;
        }
        out
    }

    /// Adds each item in turn.
    pub fn extend(&mut self, items: &Vec<T>)
        ensures
            final(self)@.0 == old(self)@.0.union(items@.to_set()),
            final(self).labeler_spec() == old(self).labeler_spec(),
    {
        let mut i: usize = 0;
        while i < items.len()
            invariant
                i <= items@.len(),
                self@.0 == old(self)@.0.union(items@.take(i as int).to_set()),
                self.labeler_spec() == old(self).labeler_spec(),
            decreases items@.len() - i,
        {
            self.insert(items[i]);
            proof {
                assert(items@.take(i + 1) =~= items@.take(i as int).push(items@[i as int]));
                assert(self@.0 =~= old(self)@.0.union(items@.take(i + 1).to_set()));
            }
            i += 1;
        }
        proof {
            assert(items@.take(i as int) =~= items@);
        }
    }

    /// Takes the members and filing entries out, leaving both empty.
    fn take_filing(&mut self) -> (parts: (UnorderedSet<T>, GroupedMultiMap<T, L>))
        ensures
            parts.0@ == old(self)@.0,
            parts.1@ == old(self)@.1,
            domain(parts.1@).subset_of(parts.0@),
            final(self)@ == (Set::<T>::empty(), Set::<(T, L)>::empty()),
            final(self).labeler_spec() == old(self).labeler_spec(),
    {
        proof {
            use_type_invariant(&*self);
        }
        let mut index = GroupedMultiMap::new();
        proof {
            assert(domain(index@) =~= Set::<T>::empty());
        }
        std::mem::swap(&mut index, &mut self.index);
        let mut members = UnorderedSet::new();
        std::mem::swap(&mut members, &mut self.members);
        (members, index)
    }

    /// Puts members and filing entries back in place of empty ones.
    fn put_filing(&mut self, members: UnorderedSet<T>, index: GroupedMultiMap<T, L>)
        requires
            old(self)@ == (Set::<T>::empty(), Set::<(T, L)>::empty()),
            domain(index@).subset_of(members@),
        ensures
            final(self)@ == (members@, index@),
            final(self).labeler_spec() == old(self).labeler_spec(),
    {
        proof {
            use_type_invariant(&*self);
        }
        let mut members = members;
        let mut index = index;
        std::mem::swap(&mut members, &mut self.members);
        std::mem::swap(&mut index, &mut self.index);
    }
}

impl<T: Key, L: Key, F: Fn(&T) -> Vec<L> + Copy> LabelIndexedSet<T, L, F> {
    /// A set with this set's labeler holding exactly `items`.
    fn with_members(&self, items: &UnorderedSet<T>) -> (out: Self)
        ensures
            out@.0 == items@,
            out.labeler_spec() == self.labeler_spec(),
    {
        proof {
            use_type_invariant(self);
        }
        let mut out = LabelIndexedSet::new(self.labeler);
        let members = items.iter();
        out.extend(&members);
        proof {
            assert(out@.0 =~= items@);
        }
        out
    }
}

impl<T: Key, L: Key, F: Fn(&T) -> Vec<L>> Collection for LabelIndexedSet<T, L, F> {
    type Item = T;

    closed spec fn listed(&self) -> Seq<T> {
        self.members.listing()
    }

    fn len(&self) -> usize {
        self.members.len()
    }

    fn contains(&self, item: &T) -> bool {
        proof {
            self.members.lemma_listing();
        }
        self.members.contains(item)
    }

    fn elements(&self) -> Vec<T> {
        self.members.iter()
    }
}

impl<T: Key, L: Key, F: Fn(&T) -> Vec<L>> CollectionInsert for LabelIndexedSet<T, L, F> {
    fn insert(&mut self, item: T) -> (added: bool)
        ensures
            added == !old(self)@.0.contains(item),
            final(self)@.0 == old(self)@.0.insert(item),
    {
        LabelIndexedSet::insert(self, item)
    }
}

impl<T: Key, L: Key, F: Fn(&T) -> Vec<L>> CollectionRemove for LabelIndexedSet<T, L, F> {
    fn remove(&mut self, item: &T) -> (removed: bool)
        ensures
            removed == old(self)@.0.contains(*item),
            final(self)@.0 == old(self)@.0.remove(*item),
    {
        LabelIndexedSet::remove(self, item)
    }

    fn clear(&mut self) {
        LabelIndexedSet::clear(self)
    }
}

impl<T: Key, L: Key, F: Fn(&T) -> Vec<L>> UniqueCollection for LabelIndexedSet<T, L, F> {

}

impl<T: Key, L: Key, F: Fn(&T) -> Vec<L>> Choose for LabelIndexedSet<T, L, F> {

}

impl<T: Key, L: Key, F: Fn(&T) -> Vec<L>> Grouping for LabelIndexedSet<T, L, F> {
    type Member = T;
    type Label = L;

    open spec fn carries(&self, member: T, label: L) -> bool {
        self@.1.contains((member, label))
    }

    fn group(&self, label: &L) -> (members: Vec<T>)
        ensures
            members@.to_set() == preimage(self@.1, *label),
            members@.no_duplicates(),
    {
        let group = self.index.group(label);
        let items = group.iter();
        proof {
            group.lemma_listing();
            assert forall|m: T| #[trigger] items@.contains(m) == self.carries(m, *label) by {
                assert(group.listing().contains(m) == group@.contains(m));
            }
        }
        items
    }

    fn labels(&self) -> (labels: Vec<L>)
        ensures
            labels@.to_set() == range(self@.1),
            labels@.no_duplicates(),
    {
        Grouping::labels(&self.index)
    }

    fn label_count(&self) -> (n: usize)
        ensures
            n == range(self@.1).len(),
    {
        self.index.label_count()
    }
}

impl<T: Key, L: Key, F: Fn(&T) -> Vec<L>> GroupSizes for LabelIndexedSet<T, L, F> {
    fn labels_with_len(&self, len: usize) -> (labels: Vec<L>)
        ensures
            forall|i: int| 0 <= i < labels@.len() ==> range(self@.1).contains(#[trigger] labels@[i]) && preimage(self@.1, labels@[i]).len() == len,
            forall|l: L| #[trigger] range(self@.1).contains(l) && preimage(self@.1, l).len() == len ==> labels@.contains(l),
    {
        self.index.labels_with_len(len)
    }

    fn largest_group(&self) -> (largest: Option<L>)
        ensures
            match largest {
                Some(l) => range(self@.1).contains(l) && forall|m: L| #[trigger] range(self@.1).contains(m) ==> preimage(self@.1, m).len() <= preimage(self@.1, l).len(),
                None => range(self@.1) == Set::<L>::empty(),
            },
    {
        self.index.largest_group()
    }

    fn smallest_group(&self) -> (smallest: Option<L>)
        ensures
            match smallest {
                Some(l) => range(self@.1).contains(l) && forall|m: L| #[trigger] range(self@.1).contains(m) ==> preimage(self@.1, l).len() <= preimage(self@.1, m).len(),
                None => range(self@.1) == Set::<L>::empty(),
            },
    {
        self.index.smallest_group()
    }
}

/// Results use this set's labeler.
impl<T: Key, L: Key, F: Fn(&T) -> Vec<L> + Copy> SetAlgebra for LabelIndexedSet<T, L, F> {
    fn union(&self, other: &Self) -> (out: Self)
        ensures
            out@.0 == self@.0.union(other@.0),
    {
        self.with_members(&self.members.union(&other.members))
    }

    fn intersection(&self, other: &Self) -> (out: Self)
        ensures
            out@.0 == self@.0.intersect(other@.0),
    {
        self.with_members(&self.members.intersection(&other.members))
    }

    fn difference(&self, other: &Self) -> (out: Self)
        ensures
            out@.0 == self@.0.difference(other@.0),
    {
        self.with_members(&self.members.difference(&other.members))
    }

    fn is_subset(&self, other: &Self) -> (sub: bool)
        ensures
            sub == self@.0.subset_of(other@.0),
    {
        self.members.is_subset(&other.members)
    }
}

} // verus!
