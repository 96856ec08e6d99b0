//! Traits for collections that attach a quantity to each element.
use vstd::prelude::*;
use super::collection::{Collection, CollectionInsert, CollectionRemove};

verus! {

/// Read access to collections that associate a count with each element.
pub trait Measured: Collection {
    /// The element's count; zero when absent.
    fn measure_of(&self, item: &Self::Item) -> usize;

    /// Sum of all counts.
    fn total_measure(&self) -> usize;

    /// Number of different elements.
    fn distinct_len(&self) -> usize;
}

/// Mutation operations for measured collections.
pub trait MeasuredMut: Measured + CollectionInsert + CollectionRemove {
    /// Sets the count outright. A zero count removes the element.
    fn set_measure(&mut self, item: Self::Item, measure: usize);

    /// Adds `amount` to the count.
    fn add_measure(&mut self, item: Self::Item, amount: usize);

    /// Takes `amount` away, removing the element if nothing is left.
    fn subtract_measure(&mut self, item: &Self::Item, amount: usize);
}

} // verus!
