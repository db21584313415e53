//! Errors of graph construction and traversal.

use vstd::prelude::*;

verus! {

/// What can go wrong while a graph is built or traversed.
#[derive(Clone, Copy, Debug, PartialEq, Eq, Structural)]
pub enum Error {
    /// An index does not address a node.
    InvalidNode,
    /// The edge would close a cycle.
    Cycle,
    /// The node is not in flight.
    NotInFlight,
}

impl Error {
    /// The message of this error.
    pub fn message(&self) -> (text: &'static str)
        ensures
            text@ == match *self {
                Error::InvalidNode => "node not found"@,
                Error::Cycle => "cycle detected"@,
                Error::NotInFlight => "node not in flight"@,
            },
    {
        match self {
            Error::InvalidNode => "node not found",
            Error::Cycle => "cycle detected",
            Error::NotInFlight => "node not in flight",
        }
    }
}

} // verus!
