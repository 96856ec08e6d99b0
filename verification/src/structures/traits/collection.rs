//! Traits for element containers, from the most general to the most
//! specific.
use vstd::prelude::*;
use crate::random::{Random, XoState, bounded_draw, redraw_limit};
use crate::structures::sampling;
use crate::structures::sampling::fisher_yates;
use super::key::Key;

verus! {

/// Reservoir choice of one entry of `items`, from entry `seen` on, with
/// `chosen` the choice so far and `state` the generator state: entry `seen`
/// takes the place of the choice when a draw in `0..seen + 1` comes out 0.
/// Returns the final choice and the generator state after the draws.
pub open spec fn reservoir_one<T>(items: Seq<T>, state: XoState, seen: nat, chosen: Option<T>) -> (Option<T>, XoState)
    decreases items.len() - seen,
{
    if seen >= items.len() {
        (chosen, state)
    } else {
        let draw = bounded_draw(state, (seen + 1) as u64, redraw_limit());
        reservoir_one(items, draw.1, seen + 1, if draw.0 == 0 { Some(items[seen as int]) } else { chosen })
    }
}

/// Reservoir sampling of up to `amount` entries of `items`, from entry
/// `seen` on, with `chosen` the sample so far: the first `amount` entries
/// fill the sample; each later entry `seen` draws a position in
/// `0..seen + 1` and replaces the sampled entry there when the position is
/// below `amount`. Returns the sample and the generator state after the draws.
pub open spec fn reservoir<T>(items: Seq<T>, amount: nat, state: XoState, seen: nat, chosen: Seq<T>) -> (Seq<T>, XoState)
    decreases items.len() - seen,
{
    if seen >= items.len() {
        (chosen, state)
    } else if seen < amount {
        reservoir(items, amount, state, seen + 1, chosen.push(items[seen as int]))
    } else if amount == 0 {
        reservoir(items, amount, state, seen + 1, chosen)
    } else {
        let draw = bounded_draw(state, (seen + 1) as u64, redraw_limit());
        let next = if draw.0 < amount { chosen.update(draw.0 as int, items[seen as int]) } else { chosen };
        reservoir(items, amount, draw.1, seen + 1, next)
    }
}

/// The reservoir sample of up to `amount` entries of `items` from generator
/// state `state`, shuffled; with the generator state after all draws.
pub open spec fn sample<T>(items: Seq<T>, amount: nat, state: XoState) -> (Seq<T>, XoState) {
    let picked = reservoir(items, amount, state, 0, Seq::empty());
    fisher_yates(picked.0, picked.1, picked.0.len())
}

/// Read access shared by every element container.
pub trait Collection {
    /// Type of element stored by the collection.
    type Item: Key;

    /// The entries that `elements()` yields, in the order it yields them.
    spec fn listed(&self) -> Seq<Self::Item>;

    /// Number of entries yielded by `elements()`.
    fn len(&self) -> usize;

    /// Whether the collection contains no entries.
    fn is_empty(&self) -> (empty: bool) {
        self.len() == 0
    }

    /// Whether `item` is present.
    fn contains(&self, item: &Self::Item) -> (found: bool)
        ensures
            found == self.listed().contains(*item),
    ;

    /// The stored elements.
    fn elements(&self) -> (items: Vec<Self::Item>)
        ensures
            items@ == self.listed(),
    ;
}

/// Adding elements.
pub trait CollectionInsert: Collection {
    /// Adds one element. Returns whether the collection changed.
    fn insert(&mut self, item: Self::Item) -> bool;
}

/// Removing elements.
pub trait CollectionRemove: Collection {
    /// Removes one occurrence. Returns whether the collection changed.
    fn remove(&mut self, item: &Self::Item) -> bool;

    /// Removes every element.
    fn clear(&mut self);
}

/// Collections supporting both generic insertion and removal.
pub trait CollectionMut: CollectionInsert + CollectionRemove {

}

impl<C: CollectionInsert + CollectionRemove> CollectionMut for C {

}

/// Marker: never holds the same element twice.
pub trait UniqueCollection: Collection {

}

/// Set algebra. Results are new collections.
pub trait SetAlgebra: Collection + Sized {
    /// Every element present in either collection.
    fn union(&self, other: &Self) -> Self;

    /// Every element present in both collections.
    fn intersection(&self, other: &Self) -> Self;

    /// Elements present in `self` but absent from `other`.
    fn difference(&self, other: &Self) -> Self;

    /// Elements present in exactly one collection.
    fn symmetric_difference(&self, other: &Self) -> Self {
        self.difference(other).union(&other.difference(self))
    }

    /// Whether every element of `self` is present in `other`.
    fn is_subset(&self, other: &Self) -> bool;

    /// Whether every element of `other` is present in `self`.
    fn is_superset(&self, other: &Self) -> bool {
        other.is_subset(self)
    }

    /// Whether the collections have no element in common.
    fn is_disjoint(&self, other: &Self) -> (disjoint: bool)
        ensures
            disjoint == !exists|x: Self::Item| #[trigger] self.listed().contains(x) && other.listed().contains(x),
    {
        let items = self.elements();
        let mut i: usize = 0;
        while i < items.len()
            invariant
                i <= items@.len(),
                items@ == self.listed(),
                forall|j: int| 0 <= j < i ==> !other.listed().contains(#[trigger] items@[j]),
            decreases items@.len() - i,
        {
            if other.contains(&items[i]) {
                proof {
                    assert(self.listed().contains(items@[i as int]));
                }
                return false;
            }
            i += 1;
        }
        proof {
            assert forall|x: Self::Item| #[trigger] self.listed().contains(x) implies !other.listed().contains(x) by {
                let j = choose|j: int| 0 <= j < items@.len() && items@[j] == x;
            }
        }
        true
    }
}

/// Random selection: the default picks uniformly among `elements()`.
pub trait Choose: Collection {
    /// Uniformly chooses one element, or `None` when the collection is empty.
    fn choose_one(&self, random: &mut Random) -> (chosen: Option<Self::Item>)
        ensures
            (chosen, final(random).state()) == reservoir_one(self.listed(), old(random).state(), 0, None),
            chosen is Some <==> self.listed().len() > 0,
            chosen matches Some(x) ==> self.listed().contains(x),
            final(random).seed_spec() == old(random).seed_spec(),
    {
        let items = self.elements();
        let mut chosen: Option<Self::Item> = None;
        let mut seen: usize = 0;
        while seen < items.len()
            invariant
                seen <= items@.len(),
                items@ == self.listed(),
                seen > 0 ==> chosen is Some,
                chosen matches Some(x) ==> items@.contains(x),
                reservoir_one(items@, random.state(), seen as nat, chosen) == reservoir_one(items@, old(random).state(), 0, None),
                random.seed_spec() == old(random).seed_spec(),
            decreases items@.len() - seen,
        {
            if random.uniform_index(seen + 1) == 0 {
                chosen = Some(items[seen]);
            }
            seen += 1;
        }
        chosen
    }

    /// Up to `amount` entries chosen by reservoir sampling, in random order.
    fn choose_multiple(&self, random: &mut Random, amount: usize) -> (chosen: Vec<Self::Item>)
        ensures
            (chosen@, final(random).state()) == sample(self.listed(), amount as nat, old(random).state()),
            chosen@.len() == (if self.listed().len() < amount { self.listed().len() } else { amount as nat }),
            final(random).seed_spec() == old(random).seed_spec(),
    {
        let items = self.elements();
        let mut chosen: Vec<Self::Item> = Vec::new();
        let mut seen: usize = 0;
        while seen < items.len()
            invariant
                seen <= items@.len(),
                items@ == self.listed(),
                chosen@.len() <= amount,
                chosen@.len() == (if seen < amount { seen } else { amount }),
                reservoir(items@, amount as nat, random.state(), seen as nat, chosen@)
                    == reservoir(items@, amount as nat, old(random).state(), 0, Seq::empty()),
                random.seed_spec() == old(random).seed_spec(),
            decreases items@.len() - seen,
        {
            if seen < amount {
                chosen.push(items[seen]);
            } else if amount > 0 {
                let replacement = random.uniform_index(seen + 1);
                if replacement < amount {
                    chosen.set(replacement, items[seen]);
                }
            }
            seen += 1;
        }
        sampling::shuffle(&mut chosen, random);
        chosen
    }
}

/// Random removal, available to every removable `Choose` collection.
pub trait ChooseMut: Choose + CollectionRemove {
    /// Uniformly removes and returns one element.
    fn take_random(&mut self, random: &mut Random) -> Option<Self::Item> {
        match self.choose_one(random) {
            Some(item) => {
                self.remove(&item);
                Some(item)
            },
            None => None,
        }
    }

    /// Removes and returns up to `amount` chosen entries: those that
    /// `choose_multiple` picks.
    fn take_multiple_random(&mut self, random: &mut Random, amount: usize) -> (items: Vec<Self::Item>)
        ensures
            (items@, final(random).state()) == sample(old(self).listed(), amount as nat, old(random).state()),
            final(random).seed_spec() == old(random).seed_spec(),
    {
        let items = self.choose_multiple(random, amount);
        let mut i: usize = 0;
        while i < items.len()
            invariant
                (items@, random.state()) == sample(old(self).listed(), amount as nat, old(random).state()),
                random.seed_spec() == old(random).seed_spec(),
            decreases items@.len() - i,
        {
            self.remove(&items[i]);
            i += 1;
        }
        items
    }
}

impl<C: Choose + CollectionRemove> ChooseMut for C {

}

} // verus!
