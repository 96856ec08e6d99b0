//! Traits for collections whose elements have a position.
use vstd::prelude::*;
use crate::random::Random;
use super::collection::{Collection, CollectionRemove};
use super::key::Key;

verus! {

/// Whether the entries of `a` occur in `b` in the same order, not
/// necessarily next to each other.
pub open spec fn is_subsequence<T>(a: Seq<T>, b: Seq<T>) -> bool
    decreases b.len(),
{
    if a.len() == 0 {
        true
    } else if b.len() == 0 {
        false
    } else if a[0] == b[0] {
        is_subsequence(a.drop_first(), b.drop_first())
    } else {
        is_subsequence(a, b.drop_first())
    }
}

/// Elements at dense positions `0..len`.
pub trait Sequence: Collection {
    /// The element at `index`, or `None` if out of bounds.
    fn get(&self, index: usize) -> Option<Self::Item>;

    /// The first element, or `None` when empty.
    fn first(&self) -> Option<Self::Item> {
        self.get(0)
    }

    /// The last element, or `None` when empty.
    fn last(&self) -> Option<Self::Item> {
        let n = self.len();
        if n == 0 {
            None
        } else {
            self.get(n - 1)
        }
    }

    /// Position of the first occurrence.
    fn index_of(&self, item: &Self::Item) -> Option<usize>;

    /// Whether this sequence's elements appear in `other` in the same order,
    /// not necessarily next to each other.
    fn is_subsequence_of(&self, other: &Self) -> (sub: bool)
        ensures
            sub == is_subsequence(self.listed(), other.listed()),
    {
        let mine = self.elements();
        let theirs = other.elements();
        let ghost goal = is_subsequence(self.listed(), other.listed());
        let mut j: usize = 0;
        let mut i: usize = 0;
        proof {
            assert(mine@.skip(0) =~= mine@);
            assert(theirs@.skip(0) =~= theirs@);
        }
        while i < mine.len()
            invariant
                i <= mine@.len(),
                j <= theirs@.len(),
                goal == is_subsequence(mine@.skip(i as int), theirs@.skip(j as int)),
                goal == is_subsequence(self.listed(), other.listed()),
                mine@ == self.listed(),
                theirs@ == other.listed(),
            decreases mine@.len() - i,
        {
            let mut found = false;
            while j < theirs.len() && !found
                invariant
                    j <= theirs@.len(),
                    i < mine@.len(),
                    !found ==> goal == is_subsequence(mine@.skip(i as int), theirs@.skip(j as int)),
                    found ==> goal == is_subsequence(mine@.skip(i + 1), theirs@.skip(j as int)),
                    goal == is_subsequence(self.listed(), other.listed()),
                decreases theirs@.len() - j,
            {
                proof {
                    let a = mine@.skip(i as int);
                    let b = theirs@.skip(j as int);
                    assert(a[0] == mine@[i as int]);
                    assert(b[0] == theirs@[j as int]);
                    assert(a.drop_first() =~= mine@.skip(i + 1));
                    assert(b.drop_first() =~= theirs@.skip(j + 1));
                }
                if theirs[j].key_eq(&mine[i]) {
                    found = true;
                }
                j += 1;
            }
            if !found {
                proof {
                    assert(theirs@.skip(j as int).len() == 0);
                }
                return false;
            }
            i += 1;
        }
        proof {
            assert(mine@.skip(i as int).len() == 0);
        }
        true
    }
}

/// Removing by position.
pub trait SequenceMut: Sequence + CollectionRemove {
    /// Removes and returns the element at `index`, or `None` if out of bounds.
    fn remove_at(&mut self, index: usize) -> Option<Self::Item>;

    /// Removes and returns the first element.
    fn pop_first(&mut self) -> Option<Self::Item> {
        self.remove_at(0)
    }

    /// Removes and returns the last element.
    fn pop_last(&mut self) -> Option<Self::Item> {
        let n = self.len();
        if n == 0 {
            None
        } else {
            self.remove_at(n - 1)
        }
    }
}

/// Inserting at a chosen position.
pub trait InsertAt: SequenceMut {
    /// Inserts at `index` (clamped to the end), shifting later elements back.
    /// Returns whether the sequence changed.
    fn insert_at(&mut self, index: usize, item: Self::Item) -> bool;
}

/// Changing the order of elements without changing which are stored.
pub trait Reorder: Collection {
    /// Reverses the current element order.
    fn reverse(&mut self);

    /// Randomly shuffles the current order.
    fn shuffle(&mut self, random: &mut Random);
}

/// A collection that holds at most a fixed number of elements.
pub trait FixedCapacity: Collection {
    /// Maximum number of elements the collection can retain.
    fn capacity(&self) -> usize;

    /// Whether `len()` has reached `capacity()`.
    fn is_full(&self) -> bool {
        self.len() >= self.capacity()
    }
}

/// Elements stored at arbitrary integer indices, with gaps allowed.
pub trait SparseIndexed: Collection {
    /// Number of occupied indices.
    fn slot_count(&self) -> usize;

    /// Whether `index` is occupied.
    fn has_index(&self, index: i64) -> bool;

    /// The lowest occupied index.
    fn first_index(&self) -> Option<i64>;

    /// The highest occupied index.
    fn last_index(&self) -> Option<i64>;

    /// Whether `index` lies between the first and last occupied index.
    fn spans(&self, index: i64) -> bool {
        match (self.first_index(), self.last_index()) {
            (Some(first), Some(last)) => first <= index && index <= last,
            _ => false,
        }
    }

    /// Occupied indices in ascending order.
    fn indices(&self) -> Vec<i64>;

    /// Every index holding `item`, ascending.
    fn indices_of(&self, item: &Self::Item) -> Vec<i64>;

    /// The first occupied index containing `item`.
    fn first_index_of(&self, item: &Self::Item) -> Option<i64> {
        let found = self.indices_of(item);
        if found.len() == 0 {
            None
        } else {
            Some(found[0])
        }
    }

    /// The last occupied index containing `item`.
    fn last_index_of(&self, item: &Self::Item) -> Option<i64> {
        let found = self.indices_of(item);
        if found.len() == 0 {
            None
        } else {
            Some(found[found.len() - 1])
        }
    }

    /// Whether some index that is zero or above is free.
    spec fn has_free_index(&self) -> bool;

    /// The smallest free index that is zero or above.
    fn next_free_index(&self) -> i64
        requires
            self.has_free_index(),
    ;
}

} // verus!
