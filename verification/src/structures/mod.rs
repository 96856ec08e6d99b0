//! General-purpose data structures: sets, sequences, measured collections,
//! sparse sequences, maps and indices.

pub mod traits;
pub mod vec_ops;
pub mod sampling;
pub mod sorting;
pub mod comparing;
pub mod hashing;
pub mod buckets;
pub mod range_end;
pub mod entries;
pub mod map_spec;
pub mod relation;
pub mod collections;
pub mod mappings;
pub mod indices;
