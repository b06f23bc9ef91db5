//! Verified core of a PCB track relaxation simulator: typed indices, Morton keys,
//! resettable settings, the topology of points, edges and curves, the point
//! reordering that keeps every reference intact, and the bucketed quadtree.
pub mod typed_idx;
pub mod morton;
pub mod settings;
pub mod theme;
pub mod physics;
pub mod board;
pub mod permute;
pub mod tree;
pub mod curves;
pub mod control;
pub mod resample;
