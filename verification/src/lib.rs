//! A directed graph that stays acyclic: an edge is only accepted when it
//! closes no cycle. Vertices are plain integer handles that are never reused.

pub mod graph;
pub mod laws;
pub mod model;
pub mod walks;

pub use graph::DirectedAcyclicGraph;
pub use model::{GraphModel, Operation};
