//! The capability traits the structures share.

pub mod key;
pub mod collection;
pub mod sequence;
pub mod map;
pub mod grouping;
pub mod measured;
