//! Collections that attach a count to each element.

pub mod bag;


pub mod tally;
pub mod multi_set;
