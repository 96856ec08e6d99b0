//! Indices that answer queries over stored data.

pub mod property_storage;
pub mod query_expr;
pub mod property_query;
pub mod tag_index;
