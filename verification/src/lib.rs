//! Reading [COPC](https://copc.io/) (Cloud-Optimized Point Cloud) files piece by piece.
//!
//! COPC organises LAS/LAZ point cloud data in a spatial octree so that clients can fetch only the
//! regions they need. An optional temporal index holds samples of the GPS times of each octree
//! node, so that clients can also leave out the nodes of other survey passes before anything is
//! decompressed.
//!
//! This library decides what to read and makes sense of what was read. It does no input or output
//! itself: its types say which ranges of the file they need, and take in the bytes.
//!
//! - [`parse_header`] reads the beginning of a file into a [`CopcHeader`].
//! - A [`HierarchyCache`] takes in the pages of the octree hierarchy, all of them or those that a
//!   region needs.
//! - A [`CopcStreamingReader`] holds both, finds the nodes that a region needs, and decompresses
//!   their chunks. A [`Chunk`] gives the points of a node by columns, or as `las::Point`s.
//! - A [`TemporalCache`] takes in the pages of the temporal index, all of them or those that a time
//!   range needs, and finds the nodes, and the points within their chunks, of a time range.
//! - A [`TemporalIndex`] is a temporal index that is read as a whole.
//!
//! Coordinates and times are held as [`Binary64`]s: double-precision numbers by their bit
//! patterns.

pub mod binary64;
pub mod bytes;
pub mod chunk;
pub mod error;
pub mod fields;
pub mod gps_time;
pub mod header;
pub mod hierarchy;
pub mod hierarchy_load;
pub mod laws;
pub mod point_cloud;
pub mod point_list;
pub mod reader;
pub mod temporal_cache;
pub mod temporal_header;
pub mod temporal_index;
pub mod temporal_load;
pub mod temporal_node;
pub mod temporal_page;
pub mod temporal_query;
pub mod types;
pub mod vlr;
pub mod voxel_map;

pub use binary64::{Binary32, Binary64};
pub use chunk::Chunk;
pub use error::{CopcError, TemporalError};
pub use fields::Fields;
pub use gps_time::GpsTime;
pub use header::{parse_header, CopcHeader, CopcInfo};
pub use hierarchy::{HierarchyCache, HierarchyEntry};
pub use reader::CopcStreamingReader;
pub use temporal_cache::TemporalCache;
pub use temporal_header::{EvlrHeader, EvlrSearch, TemporalHeader};
pub use temporal_index::TemporalIndex;
pub use temporal_node::NodeTemporalEntry;
pub use temporal_query::{filter_points_by_time, indices_in_time_range};
pub use types::{Aabb, VoxelKey};
pub use vlr::VlrData;
