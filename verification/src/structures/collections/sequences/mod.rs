//! Collections whose elements sit at dense positions.

pub mod ordered_set;
pub mod ring_buffer;
pub mod priority_queue;
pub mod labeled_ordered_set;
