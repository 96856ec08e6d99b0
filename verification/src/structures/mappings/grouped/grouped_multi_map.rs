//! Elements carrying any number of labels, with each label's group of
//! elements available as well.
use vstd::prelude::*;
use crate::structures::traits::key::Key;
use crate::structures::traits::grouping::{Grouping, GroupSizes};
use crate::structures::relation::{image, preimage, domain, range};
use crate::structures::mappings::multi::multi_map::MultiMap;
use crate::structures::collections::sets::unordered_set::UnorderedSet;

verus! {

broadcast use {vstd::set::group_set_axioms, vstd::set_lib::group_set_lib_default, vstd::seq_lib::group_seq_properties};

/// A many-to-many labelling of elements, indexed by element and by label.
pub struct GroupedMultiMap<E, L> {
    labels: MultiMap<E, L>,
}

impl<E: Key, L: Key> View for GroupedMultiMap<E, L> {
    type V = Set<(E, L)>;

    closed spec fn view(&self) -> Set<(E, L)> {
        self.labels@
    }
}

impl<E: Key, L: Key> GroupedMultiMap<E, L> {
    /// Creates an empty map.
    pub fn new() -> (m: Self)
        ensures
            m@ == Set::<(E, L)>::empty(),
    {
        GroupedMultiMap { labels: MultiMap::new() }
    }

    /// Number of labelled elements.
    pub fn len(&self) -> (n: usize)
        ensures
            n == domain(self@).len(),
    {
        self.labels.len()
    }

    /// Number of labels with a non-empty group.
    pub fn label_count(&self) -> (n: usize)
        ensures
            n == range(self@).len(),
    {
        self.labels.value_count()
    }

    /// Number of element-label pairs.
    pub fn pair_count(&self) -> (n: usize)
        ensures
            n == self@.len(),
            self@.finite(),
    {
        self.labels.pair_count()
    }

    /// Whether no element carries a label.
    pub fn is_empty(&self) -> (empty: bool)
        ensures
            empty == (self@ == Set::<(E, L)>::empty()),
    {
        self.labels.is_empty()
    }

    /// Each element with its labels.
    pub fn iter(&self) -> (groups: Vec<(E, UnorderedSet<L>)>)
        ensures
            groups@.len() == domain(self@).len(),
            forall|i: int| 0 <= i < groups@.len() ==> domain(self@).contains(#[trigger] groups@[i].0) && groups@[i].1@ == image(self@, groups@[i].0),
            forall|e: E| #[trigger] domain(self@).contains(e) ==> exists|i: int| 0 <= i < groups@.len() && groups@[i].0 == e,
    {
        self.labels.iter()
    }

    /// Every element-label pair.
    pub fn pairs(&self) -> (pairs: Vec<(E, L)>)
        ensures
            pairs@.to_set() == self@,
            pairs@.no_duplicates(),
    {
        self.labels.pairs()
    }

    /// Every labelled element.
    pub fn elements(&self) -> (elements: Vec<E>)
        ensures
            elements@.to_set() == domain(self@),
            elements@.no_duplicates(),
    {
        self.labels.keys()
    }

    /// Removes every pair.
    pub fn clear(&mut self)
        ensures
            final(self)@ == Set::<(E, L)>::empty(),
    {
        self.labels.clear();
    }

    /// Whether `element` carries a label.
    pub fn contains(&self, element: &E) -> (found: bool)
        ensures
            found == domain(self@).contains(*element),
    {
        self.labels.contains_key(element)
    }

    /// Whether `element` carries `label`.
    pub fn contains_pair(&self, element: &E, label: &L) -> (found: bool)
        ensures
            found == self@.contains((*element, *label)),
    {
        self.labels.contains_pair(element, label)
    }

    /// The labels of `element`.
    pub fn get(&self, element: &E) -> (labels: Option<UnorderedSet<L>>)
        ensures
            match labels {
                Some(s) => domain(self@).contains(*element) && s@ == image(self@, *element),
                None => !domain(self@).contains(*element),
            },
    {
        self.labels.get(element)
    }

    /// Each label of `element` with its whole group.
    pub fn groups_of(&self, element: &E) -> (groups: Vec<(L, UnorderedSet<E>)>)
        ensures
            forall|i: int| 0 <= i < groups@.len() ==> self@.contains((*element, #[trigger] groups@[i].0)) && groups@[i].1@ == preimage(self@, groups@[i].0),
            forall|l: L| #[trigger] self@.contains((*element, l)) ==> exists|i: int| 0 <= i < groups@.len() && groups@[i].0 == l,
    {
        let labels = match self.labels.get(element) {
            Some(s) => s.iter(),
            None => Vec::new(),
        };
        let mut groups: Vec<(L, UnorderedSet<E>)> = Vec::new();
        let mut i: usize = 0;
        while i < labels.len()
            invariant
                i <= labels@.len(),
                labels@.to_set() == image(self@, *element),
                groups@.len() == i,
                forall|j: int| 0 <= j < i ==> #[trigger] groups@[j].0 == labels@[j] && groups@[j].1@ == preimage(self@, labels@[j]),
            decreases labels@.len() - i,
        {
            let l = labels[i];
            let members = match self.labels.keys_of(&l) {
                Some(s) => s,
                None => UnorderedSet::new(),
            };
            proof {
                if !range(self@).contains(l) {
                    assert(members@ =~= preimage(self@, l)) by {
                        assert forall|e: E| !preimage(self@, l).contains(e) by {
                            if self@.contains((e, l)) {
                                assert(range(self@).contains(l));
                            }
                        }
                    }
                }
            }
            groups.push((l, members));
            i += 1;
        }
        proof {
            assert forall|j: int| 0 <= j < groups@.len() implies self@.contains((*element, #[trigger] groups@[j].0)) && groups@[j].1@ == preimage(self@, groups@[j].0) by {
                assert(labels@.to_set().contains(labels@[j]));
            }
            assert forall|l: L| #[trigger] self@.contains((*element, l)) implies exists|j: int| 0 <= j < groups@.len() && groups@[j].0 == l by {
                assert(image(self@, *element).contains(l));
                assert(labels@.to_set().contains(l));
                let j = choose|j: int| 0 <= j < labels@.len() && labels@[j] == l;
                assert(groups@[j].0 == l);
            }
        }
        groups
    }

    /// Gives `element` the label `label`; returns whether it was new.
    pub fn insert(&mut self, element: E, label: L) -> (added: bool)
        ensures
            added == !old(self)@.contains((element, label)),
            final(self)@ == old(self)@.insert((element, label)),
    {
        self.labels.insert(element, label)
    }

    /// Gives `element` every label of `labels`.
    pub fn insert_all(&mut self, element: &E, labels: &Vec<L>)
        ensures
            forall|p: (E, L)| #[trigger] final(self)@.contains(p) <==> (old(self)@.contains(p) || (p.0 == *element && labels@.contains(p.1))),
    {
        self.labels.insert_all(*element, labels)
    }

    /// Gives every element of `elements` the label `label`.
    pub fn insert_group(&mut self, elements: &Vec<E>, label: &L)
        ensures
            forall|p: (E, L)| #[trigger] final(self)@.contains(p) <==> (old(self)@.contains(p) || (p.1 == *label && elements@.contains(p.0))),
    {
        let mut i: usize = 0;
        while i < elements.len()
            invariant
                i <= elements@.len(),
                forall|p: (E, L)| #[trigger] self@.contains(p) <==> (old(self)@.contains(p) || (p.1 == *label && elements@.subrange(0, i as int).contains(p.0))),
            decreases elements@.len() - i,
        {
            let ghost before = self@;
            self.labels.insert(elements[i], *label);
            proof {
                assert(elements@.subrange(0, i + 1) =~= elements@.subrange(0, i as int).push(elements@[i as int]));
                assert forall|p: (E, L)| #[trigger] self@.contains(p) <==> (old(self)@.contains(p) || (p.1 == *label && elements@.subrange(0, i + 1).contains(p.0))) by {
                    assert(self@.contains(p) <==> (before.contains(p) || p == (elements@[i as int], *label)));
                }
            }
            i += 1;
        }
        proof {
            assert(elements@.subrange(0, elements@.len() as int) =~= elements@);
        }
    }

    /// Makes `labels` exactly the labels of `element`.
    pub fn replace_labels(&mut self, element: &E, labels: &UnorderedSet<L>)
        ensures
            forall|p: (E, L)| #[trigger] final(self)@.contains(p) <==> (if p.0 == *element { labels@.contains(p.1) } else { old(self)@.contains(p) }),
    {
        self.labels.remove(element);
        let items = labels.iter();
        self.labels.insert_all(*element, &items);
        proof {
            assert forall|p: (E, L)| #[trigger] self@.contains(p) <==> (if p.0 == *element { labels@.contains(p.1) } else { old(self)@.contains(p) }) by {
                assert(items@.to_set().contains(p.1) == items@.contains(p.1));
            }
        }
    }

    /// Takes `label` from `element`; returns whether it was there.
    pub fn remove_pair(&mut self, element: &E, label: &L) -> (removed: bool)
        ensures
            removed == old(self)@.contains((*element, *label)),
            final(self)@ == old(self)@.remove((*element, *label)),
    {
        self.labels.remove_pair(element, label)
    }

    /// Removes `element`; returns its labels.
    pub fn remove(&mut self, element: &E) -> (removed: Option<UnorderedSet<L>>)
        ensures
            final(self)@ == old(self)@.filter(|p: (E, L)| p.0 != *element),
            match removed {
                Some(s) => domain(old(self)@).contains(*element) && s@ == image(old(self)@, *element),
                None => !domain(old(self)@).contains(*element),
            },
    {
        self.labels.remove(element)
    }

    /// Removes `label` from every element; returns its group.
    pub fn remove_group(&mut self, label: &L) -> (removed: Option<UnorderedSet<E>>)
        ensures
            final(self)@ == old(self)@.filter(|p: (E, L)| p.1 != *label),
            match removed {
                Some(s) => range(old(self)@).contains(*label) && s@ == preimage(old(self)@, *label),
                None => !range(old(self)@).contains(*label),
            },
    {
        self.labels.remove_value(label)
    }

    /// Keeps only the pairs `keep` accepts.
    pub fn retain<F: Fn(&E, &L) -> bool>(&mut self, keep: F)
        requires
            forall|e: &E, l: &L| #[trigger] keep.requires((e, l)),
        ensures
            final(self)@.subset_of(old(self)@),
            forall|p: (E, L)| #[trigger] final(self)@.contains(p) ==> keep.ensures((&p.0, &p.1), true),
            forall|p: (E, L)| old(self)@.contains(p) && !final(self)@.contains(p) ==> #[trigger] keep.ensures((&p.0, &p.1), false),
    {
        self.labels.retain(keep)
    }

    /// The elements carrying `label`.
    pub fn group(&self, label: &L) -> (members: UnorderedSet<E>)
        ensures
            members@ == preimage(self@, *label),
    {
        match self.labels.keys_of(label) {
            Some(s) => s,
            None => {
                proof {
                    assert forall|e: E| !preimage(self@, *label).contains(e) by {
                        if self@.contains((e, *label)) {
                            assert(range(self@).contains(*label));
                        }
                    }
                    assert(preimage(self@, *label) =~= Set::<E>::empty());
                }
                UnorderedSet::new()
            },
        }
    }

    /// Labels whose group has exactly `len` members.
    pub fn labels_with_len(&self, len: usize) -> (labels: Vec<L>)
        ensures
            forall|i: int| 0 <= i < labels@.len() ==> range(self@).contains(#[trigger] labels@[i]) && preimage(self@, labels@[i]).len() == len,
            forall|l: L| #[trigger] range(self@).contains(l) && preimage(self@, l).len() == len ==> labels@.contains(l),
    {
        let groups = self.labels.iter_by_value();
        let mut out: Vec<L> = Vec::new();
        let mut i: usize = 0;
        while i < groups.len()
            invariant
                i <= groups@.len(),
                forall|j: int| 0 <= j < groups@.len() ==> range(self@).contains(#[trigger] groups@[j].0) && groups@[j].1@ == preimage(self@, groups@[j].0),
                forall|j: int| 0 <= j < out@.len() ==> range(self@).contains(#[trigger] out@[j]) && preimage(self@, out@[j]).len() == len,
                forall|j: int| 0 <= j < i && preimage(self@, #[trigger] groups@[j].0).len() == len ==> out@.contains(groups@[j].0),
            decreases groups@.len() - i,
        {
            if groups[i].1.len() == len {
                out.push(groups[i].0);
            }
            i += 1;
        }
        proof {
            assert forall|l: L| #[trigger] range(self@).contains(l) && preimage(self@, l).len() == len implies out@.contains(l) by {
                let j = choose|j: int| 0 <= j < groups@.len() && groups@[j].0 == l;
                assert(preimage(self@, groups@[j].0).len() == len);
            }
        }
        out
    }

    /// A label with the most members, if any label has members.
    pub fn largest_group(&self) -> (largest: Option<L>)
        ensures
            match largest {
                Some(l) => range(self@).contains(l) && forall|m: L| #[trigger] range(self@).contains(m) ==> preimage(self@, m).len() <= preimage(self@, l).len(),
                None => range(self@) == Set::<L>::empty(),
            },
    {
        self.extreme_group(true)
    }

    /// A label with the fewest members, if any label has members.
    pub fn smallest_group(&self) -> (smallest: Option<L>)
        ensures
            match smallest {
                Some(l) => range(self@).contains(l) && forall|m: L| #[trigger] range(self@).contains(m) ==> preimage(self@, l).len() <= preimage(self@, m).len(),
                None => range(self@) == Set::<L>::empty(),
            },
    {
        self.extreme_group(false)
    }

    fn extreme_group(&self, largest: bool) -> (found: Option<L>)
        ensures
            match found {
                Some(l) => range(self@).contains(l) && forall|m: L| #[trigger] range(self@).contains(m) ==>
                    (if largest { preimage(self@, m).len() <= preimage(self@, l).len() } else { preimage(self@, l).len() <= preimage(self@, m).len() }),
                None => range(self@) == Set::<L>::empty(),
            },
    {
        let groups = self.labels.iter_by_value();
        if groups.len() == 0 {
            proof {
                assert forall|l: L| !range(self@).contains(l) by {
                    if range(self@).contains(l) {
                        let j = choose|j: int| 0 <= j < groups@.len() && groups@[j].0 == l;
                    }
                }
                assert(range(self@) =~= Set::<L>::empty());
            }
            return None;
        }
        let mut best: usize = 0;
        let mut best_len: usize = groups[0].1.len();
        let mut i: usize = 1;
        while i < groups.len()
            invariant
                1 <= i <= groups@.len(),
                best < groups@.len(),
                best_len == preimage(self@, groups@[best as int].0).len(),
                forall|j: int| 0 <= j < groups@.len() ==> range(self@).contains(#[trigger] groups@[j].0) && groups@[j].1@ == preimage(self@, groups@[j].0),
                forall|j: int| 0 <= j < i ==> (if largest { preimage(self@, #[trigger] groups@[j].0).len() <= best_len } else { best_len <= preimage(self@, groups@[j].0).len() }),
            decreases groups@.len() - i,
        {
            let n = groups[i].1.len();
            if (largest && n > best_len) || (!largest && n < best_len) {
                best = i;
                best_len = n;
            }
            i += 1;
        }
        proof {
            assert forall|m: L| #[trigger] range(self@).contains(m) implies
                (if largest { preimage(self@, m).len() <= best_len } else { best_len <= preimage(self@, m).len() }) by {
                let j = choose|j: int| 0 <= j < groups@.len() && groups@[j].0 == m;
                assert(preimage(self@, groups@[j].0).len() == preimage(self@, m).len());
            }
        }
        Some(groups[best].0)
    }
}

impl<E: Key, L: Key> Grouping for GroupedMultiMap<E, L> {
    type Member = E;
    type Label = L;

    open spec fn carries(&self, member: E, label: L) -> bool {
        self@.contains((member, label))
    }

    fn group(&self, label: &L) -> Vec<E> {
        let group = GroupedMultiMap::group(self, label);
        let items = group.iter();
        proof {
            group.lemma_listing();
            assert forall|m: E| #[trigger] items@.contains(m) == self.carries(m, *label) by {
                assert(group.listing().contains(m) == group@.contains(m));
            }
        }
        items
    }

    fn labels(&self) -> (out: Vec<L>)
        ensures
            out@.to_set() == range(self@),
            out@.no_duplicates(),
    {
        self.labels.values()
    }

    fn label_count(&self) -> usize {
        GroupedMultiMap::label_count(self)
    }
}

impl<E: Key, L: Key> GroupSizes for GroupedMultiMap<E, L> {
    fn labels_with_len(&self, len: usize) -> Vec<L> {
        GroupedMultiMap::labels_with_len(self, len)
    }

    fn largest_group(&self) -> Option<L> {
        GroupedMultiMap::largest_group(self)
    }

    fn smallest_group(&self) -> Option<L> {
        GroupedMultiMap::smallest_group(self)
    }
}

} // verus!
