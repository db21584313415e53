//! Immutable directed acyclic graphs: construction with cycle rejection,
//! ancestor, descendant and path queries, and topological traversal.

pub mod algorithm;
mod breadth;
pub mod builder;
pub mod error;
pub mod graph;
pub mod relation;
pub mod topology;
pub mod traversal;
pub mod visited;
pub mod visitor;

pub use builder::Builder;
pub use error::Error;
pub use graph::Graph;
pub use topology::Topology;
