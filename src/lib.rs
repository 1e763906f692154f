//! Simplification of road-network graphs.
//!
//! - `graph`: the node/link store; every link records the slot of its target
//!   in its source's neighbour list, and every operation keeps that exact.
//! - `topology`: simple graphs, links as a set, and how the store's
//!   operations change them.
//! - `heuristics`: largest component, degree-2 splicing, threshold-driven
//!   node collapse and link contraction.
//! - `discretize`: subdivision of long links into chains of new nodes.
//! - `records`: loading a graph from record lines.
//! - `ids`: the order on ids and the ids of the nodes that rewrites create.
//! - `metrics`: counts and distributions of a graph.
//! - `order`: random visiting orders.
//!
//! Distances and coordinates are computed by the caller, who hands them in
//! through closures: the library decides from what they return.

pub mod discretize;
pub mod graph;
pub mod heuristics;
pub mod ids;
pub mod metrics;
pub mod openstreetmap;
pub mod order;
pub mod records;
pub mod topology;
