//! Maps with one value per key.

pub mod single_map;
pub mod bi_map;
pub mod pair_map;
