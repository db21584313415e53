//! Graph algorithms.

pub mod ancestor;
pub mod path;

pub use ancestor::lowest_common_ancestor;
pub use path::shortest_path_length;
