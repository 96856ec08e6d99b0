//! Maps from elements to labels that also track each label's group.

pub mod grouped_multi_map;
pub mod grouped_single_map;
