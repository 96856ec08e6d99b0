//! Unordered collections of distinct elements.

pub mod unordered_set;
pub mod subscription_set;
pub mod label_indexed_set;
pub mod nested_set;
