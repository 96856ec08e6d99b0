//! Element containers.

pub mod sets;
pub mod sequences;
pub mod measured;
pub mod sparse;
