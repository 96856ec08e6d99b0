//! Key -> value relationships.

pub mod single;
pub mod multi;
pub mod grouped;
