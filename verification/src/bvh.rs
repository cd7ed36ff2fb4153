//! The bounding volume hierarchy: its node types, its builders, its flattened
//! form and the queries on it.

pub mod accel;
pub mod clustered;
pub mod common;
pub mod flatten;
pub mod morton;
pub mod partition;
pub mod recursive;
