//! Maps with a set of values per key.

pub mod multi_map;
pub mod unique_multi_map;
