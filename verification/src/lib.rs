//! Out-of-core conversion of LAS and LAZ point clouds to COPC 1.0.
//!
//! The library holds the decisions and the formats of the conversion: which files are read and
//! how much of them at a time, which voxel of the octree a point belongs to, what the node files
//! hold, how the overview nodes are sampled, in which order the nodes are written, and the bytes
//! of the output file around the compressed points.
pub mod bounds;
pub mod bytes;
pub mod copc;
pub mod distribute;
pub mod float64;
pub mod hierarchy;
pub mod inputs;
pub mod key_index;
pub mod memory;
pub mod nodes;
pub mod numeral;
pub mod octree;
pub mod point;
pub mod rounding;
pub mod text;
pub mod voxel;
pub mod writer;
