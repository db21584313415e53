//! Visitors: searches that hand out one result per call.

pub mod ancestors;
pub mod descendants;
pub mod paths;
pub mod search;

pub use ancestors::Ancestors;
pub use descendants::Descendants;
pub use paths::Paths;
pub use search::Search;
