//! What the operations of the library come to, for whoever calls them.
//!
//! Each law speaks of the results of operations, and of what stands in the bytes that they are
//! given; none of the notions in which the operations' own contracts are put is needed to read it.

pub mod boxes;
pub mod cursors;
pub mod evlrs;
pub mod headers;
pub mod hierarchy_pages;
pub mod maps;
pub mod masks;
pub mod numbers;
pub mod points;
pub mod queries;
pub mod reader;
pub mod samples;
pub mod temporal_index;
pub mod temporal_pages;
