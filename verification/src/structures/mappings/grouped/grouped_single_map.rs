//! Elements partitioned into exactly one labelled group each. The relation
//! is viewed as `(label, element)` pairs, each element appearing once.
use vstd::prelude::*;
use crate::structures::traits::key::Key;
use crate::structures::traits::grouping::Grouping;
use crate::structures::relation::{image, preimage, domain, range, unique_values};
use crate::structures::mappings::multi::unique_multi_map::UniqueMultiMap;
use crate::structures::collections::sets::unordered_set::UnorderedSet;

verus! {

broadcast use {vstd::set::group_set_axioms, vstd::set_lib::group_set_lib_default, vstd::seq_lib::group_seq_properties};

/// A partition of elements into labelled groups.
pub struct GroupedSingleMap<E, L> {
    groups: UniqueMultiMap<L, E>,
}

impl<E: Key, L: Key> View for GroupedSingleMap<E, L> {
    type V = Set<(L, E)>;

    closed spec fn view(&self) -> Set<(L, E)> {
        self.groups@
    }
}

impl<E: Key, L: Key> GroupedSingleMap<E, L> {
    /// Creates an empty partition.
    pub fn new() -> (m: Self)
        ensures
            m@ == Set::<(L, E)>::empty(),
    {
        GroupedSingleMap { groups: UniqueMultiMap::new() }
    }

    /// Each element has at most one label. Always true.
    pub fn check_invariants(&self) -> (ok: bool)
        ensures
            ok,
            unique_values(self@),
            self@.finite(),
    {
        self.groups.check_invariants()
    }

    /// Number of elements.
    pub fn len(&self) -> (n: usize)
        ensures
            n == range(self@).len(),
    {
        self.groups.value_count()
    }

    /// Number of non-empty groups.
    pub fn label_count(&self) -> (n: usize)
        ensures
            n == domain(self@).len(),
    {
        self.groups.len()
    }

    /// Whether there are no elements.
    pub fn is_empty(&self) -> (empty: bool)
        ensures
            empty == (self@ == Set::<(L, E)>::empty()),
    {
        self.groups.is_empty()
    }

    /// Every element with its label.
    pub fn iter(&self) -> (pairs: Vec<(L, E)>)
        ensures
            pairs@.to_set() == self@,
            pairs@.no_duplicates(),
    {
        self.groups.pairs()
    }

    /// Every element.
    pub fn elements(&self) -> (elements: Vec<E>)
        ensures
            elements@.to_set() == range(self@),
            elements@.no_duplicates(),
    {
        self.groups.values()
    }

    /// Removes every element.
    pub fn clear(&mut self)
        ensures
            final(self)@ == Set::<(L, E)>::empty(),
    {
        self.groups.clear();
    }

    /// Whether `element` is in a group.
    pub fn contains(&self, element: &E) -> (found: bool)
        ensures
            found == range(self@).contains(*element),
    {
        self.groups.contains_value(element)
    }

    /// Whether `element` is in the group `label`.
    pub fn contains_pair(&self, element: &E, label: &L) -> (found: bool)
        ensures
            found == self@.contains((*label, *element)),
    {
        self.groups.contains_pair(label, element)
    }

    /// The label of `element`.
    pub fn get(&self, element: &E) -> (label: Option<L>)
        ensures
            match label {
                Some(l) => self@.contains((l, *element)),
                None => !range(self@).contains(*element),
            },
    {
        self.groups.key_of(element)
    }

    /// The whole group of `element`.
    pub fn group_of(&self, element: &E) -> (group: Option<UnorderedSet<E>>)
        ensures
            match group {
                Some(s) => exists|l: L| #[trigger] self@.contains((l, *element)) && s@ == image(self@, l),
                None => !range(self@).contains(*element),
            },
    {
        match self.groups.key_of(element) {
            Some(l) => {
                let s = self.groups.get(&l);
                match s {
                    Some(s) => {
                        proof {
                            assert(self@.contains((l, *element)) && s@ == image(self@, l));
                        }
                        Some(s)
                    },
                    None => {
                        proof {
                            assert(domain(self@).contains(l));
                        }
                        None
                    },
                }
            },
            None => None,
        }
    }

    /// Puts `element` in the group `label`, moving it out of any other
    /// group. Returns its previous label.
    pub fn insert(&mut self, element: E, label: L) -> (previous: Option<L>)
        ensures
            final(self)@ == old(self)@.filter(|p: (L, E)| p.1 != element).insert((label, element)),
            match previous {
                Some(l) => old(self)@.contains((l, element)),
                None => !range(old(self)@).contains(element),
            },
    {
        self.groups.insert_or_move(label, element)
    }

    /// Puts `element` in the group `label` only if it has no group yet.
    pub fn try_insert(&mut self, element: E, label: L) -> (inserted: bool)
        ensures
            inserted == !range(old(self)@).contains(element),
            final(self)@ == (if inserted { old(self)@.insert((label, element)) } else { old(self)@ }),
    {
        self.groups.insert(label, element)
    }

    /// Puts every element of `elements` in the group `label`.
    pub fn insert_group(&mut self, elements: &Vec<E>, label: &L)
        ensures
            forall|e: E| elements@.contains(e) ==> #[trigger] final(self)@.contains((*label, e)),
            forall|p: (L, E)| #[trigger] final(self)@.contains(p) && !elements@.contains(p.1) ==> old(self)@.contains(p),
            forall|p: (L, E)| #[trigger] old(self)@.contains(p) && !elements@.contains(p.1) ==> final(self)@.contains(p),
    {
        let mut i: usize = 0;
        while i < elements.len()
            invariant
                i <= elements@.len(),
                forall|e: E| elements@.subrange(0, i as int).contains(e) ==> #[trigger] self@.contains((*label, e)),
                forall|p: (L, E)| #[trigger] self@.contains(p) && !elements@.subrange(0, i as int).contains(p.1) ==> old(self)@.contains(p),
                forall|p: (L, E)| #[trigger] old(self)@.contains(p) && !elements@.subrange(0, i as int).contains(p.1) ==> self@.contains(p),
            decreases elements@.len() - i,
        {
            let ghost before = self@;
            let e = elements[i];
            self.groups.insert_or_move(*label, e);
            proof {
                assert(elements@.subrange(0, i + 1) =~= elements@.subrange(0, i as int).push(e));
                assert forall|x: E| elements@.subrange(0, i + 1).contains(x) implies #[trigger] self@.contains((*label, x)) by {
                    if x != e {
                        assert(elements@.subrange(0, i as int).contains(x));
                        assert(before.contains((*label, x)));
                    }
                }
                assert forall|p: (L, E)| #[trigger] self@.contains(p) && !elements@.subrange(0, i + 1).contains(p.1) implies old(self)@.contains(p) by {
                    assert(before.contains(p));
                }
                assert forall|p: (L, E)| #[trigger] old(self)@.contains(p) && !elements@.subrange(0, i + 1).contains(p.1) implies self@.contains(p) by {
                    assert(before.contains(p));
                }
            }
            i += 1;
        }
        proof {
            assert(elements@.subrange(0, elements@.len() as int) =~= elements@);
        }
    }

    /// Removes `element`; returns its label.
    pub fn remove(&mut self, element: &E) -> (label: Option<L>)
        ensures
            final(self)@ == old(self)@.filter(|p: (L, E)| p.1 != *element),
            match label {
                Some(l) => old(self)@.contains((l, *element)),
                None => !range(old(self)@).contains(*element),
            },
    {
        self.groups.remove_value(element)
    }

    /// Removes `element` only if its label is `label`.
    pub fn remove_pair(&mut self, element: &E, label: &L) -> (removed: bool)
        ensures
            removed == old(self)@.contains((*label, *element)),
            final(self)@ == old(self)@.remove((*label, *element)),
    {
        self.groups.remove_pair(label, element)
    }

    /// Removes the whole group `label`; returns its elements.
    pub fn remove_group(&mut self, label: &L) -> (group: Option<UnorderedSet<E>>)
        ensures
            final(self)@ == old(self)@.filter(|p: (L, E)| p.0 != *label),
            match group {
                Some(s) => domain(old(self)@).contains(*label) && s@ == image(old(self)@, *label),
                None => !domain(old(self)@).contains(*label),
            },
    {
        self.groups.remove(label)
    }

    /// Keeps only the element-label pairs `keep` accepts.
    pub fn retain<F: Fn(&L, &E) -> bool>(&mut self, keep: F)
        requires
            forall|l: &L, e: &E| #[trigger] keep.requires((l, e)),
        ensures
            final(self)@.subset_of(old(self)@),
            forall|p: (L, E)| #[trigger] final(self)@.contains(p) ==> keep.ensures((&p.0, &p.1), true),
            forall|p: (L, E)| old(self)@.contains(p) && !final(self)@.contains(p) ==> #[trigger] keep.ensures((&p.0, &p.1), false),
    {
        self.groups.retain(keep)
    }

    /// The elements of the group `label`.
    pub fn group(&self, label: &L) -> (members: UnorderedSet<E>)
        ensures
            members@ == image(self@, *label),
    {
        match self.groups.get(label) {
            Some(s) => s,
            None => {
                proof {
                    assert forall|e: E| !image(self@, *label).contains(e) by {
                        if self@.contains((*label, e)) {
                            assert(domain(self@).contains(*label));
                        }
                    }
                    assert(image(self@, *label) =~= Set::<E>::empty());
                }
                UnorderedSet::new()
            },
        }
    }
}

impl<E: Key, L: Key> Grouping for GroupedSingleMap<E, L> {
    type Member = E;
    type Label = L;

    open spec fn carries(&self, member: E, label: L) -> bool {
        self@.contains((label, member))
    }

    fn group(&self, label: &L) -> Vec<E> {
        let group = GroupedSingleMap::group(self, label);
        let items = group.iter();
        proof {
            group.lemma_listing();
            assert forall|m: E| #[trigger] items@.contains(m) == self.carries(m, *label) by {
                assert(group.listing().contains(m) == group@.contains(m));
            }
        }
        items
    }

    fn labels(&self) -> Vec<L> {
        self.groups.keys()
    }

    fn label_count(&self) -> usize {
        GroupedSingleMap::label_count(self)
    }
}

} // verus!
