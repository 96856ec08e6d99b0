//! Sequences with gaps: values at arbitrary integer indices.

pub mod index_runs;
pub mod sparse_core;
pub mod sparse_sequence;
pub mod sparse_set_sequence;
