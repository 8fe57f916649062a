//! Dependency-graph queries over a flat list of work items ("beads").
//!
//! Each operation takes the whole node set, builds what it needs, and
//! returns a fresh result: there is no state kept between calls.

pub mod model;
pub mod adjacency;
pub mod edges;
pub mod extgraph;
pub mod cycles;
pub mod participants;
pub mod levels;
pub mod ready;

pub use model::BeadNode;
pub use ready::get_ready_beads_impl;
pub use adjacency::build_adjacency_impl;
pub use cycles::{build_graph, has_cycle_impl};
pub use participants::{find_cycle_nodes_impl, find_cycle_nodes_internal};
pub use levels::{compute_levels_impl, compute_levels_internal};
