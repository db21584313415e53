//! Topology.

pub mod adjacency;
pub mod distance;

use crate::builder::{lemma_adjacency_of, lemma_adjacency_simple, Builder};
use crate::relation::{acyclic, in_bounds, simple, transposed};
use std::rc::Rc;
use vstd::prelude::*;

pub use adjacency::Adjacency;
pub use distance::Distance;

verus! {

/// Calls `Rc::clone`.
///
/// Believed without proof: the new pointer points to the same value.
#[verifier::external_body]
fn share<T>(pointer: &Rc<T>) -> (shared: Rc<T>)
    ensures
        shared == *pointer,
{
    Rc::clone(pointer)
}

/// The shape of a graph: the successors and the predecessors of each node,
/// and the distance between each two nodes. The three tables are shared by
/// all clones.
#[derive(Debug)]
pub struct Topology {
    outgoing: Rc<Adjacency>,
    incoming: Rc<Adjacency>,
    distance: Rc<Distance>,
}

impl Topology {
    /// The successors of each node.
    pub closed spec fn outgoing_spec(&self) -> &Adjacency {
        &*self.outgoing
    }

    /// The predecessors of each node.
    pub closed spec fn incoming_spec(&self) -> &Adjacency {
        &*self.incoming
    }

    /// The distance table.
    pub closed spec fn distance_spec(&self) -> &Distance {
        &*self.distance
    }

    /// The number of nodes.
    pub open spec fn count(&self) -> nat {
        self.outgoing()@.len()
    }

    /// The topology is that of a directed acyclic graph: the two adjacency
    /// tables are transposes of each other and list no neighbour twice, no
    /// node can be reached from itself, and the distance table holds the
    /// distances.
    pub open spec fn wf(&self) -> bool {
        &&& in_bounds(self.outgoing()@)
        &&& in_bounds(self.incoming()@)
        &&& simple(self.outgoing()@)
        &&& simple(self.incoming()@)
        &&& transposed(self.outgoing()@, self.incoming()@)
        &&& acyclic(self.outgoing()@)
        &&& self.distance().describes(self.outgoing()@)
    }

    /// Creates the topology of the graph held by the builder.
    pub fn new<T, W>(builder: &Builder<T, W>) -> (topology: Self)
        requires
            builder.wf(),
        ensures
            topology.wf(),
            topology.outgoing()@ == builder.outgoing_view(),
            topology.incoming()@ == builder.incoming_view(),
    {
        proof {
            lemma_adjacency_of(builder.nodes().len(), builder.edges());
            lemma_adjacency_simple(builder.nodes().len(), builder.edges(), true);
            lemma_adjacency_simple(builder.nodes().len(), builder.edges(), false);
        }
        Topology {
            outgoing: Rc::new(Adjacency::outgoing(builder)),
            incoming: Rc::new(Adjacency::incoming(builder)),
            distance: Rc::new(Distance::new(builder)),
        }
    }

    /// Returns a reference to the outgoing edges.
    #[verifier::when_used_as_spec(outgoing_spec)]
    pub fn outgoing(&self) -> (adjacency: &Adjacency)
        ensures
            adjacency == self.outgoing(),
    {
        &self.outgoing
    }

    /// Returns a reference to the incoming edges.
    #[verifier::when_used_as_spec(incoming_spec)]
    pub fn incoming(&self) -> (adjacency: &Adjacency)
        ensures
            adjacency == self.incoming(),
    {
        &self.incoming
    }

    /// Returns a reference to the distance table.
    #[verifier::when_used_as_spec(distance_spec)]
    pub fn distance(&self) -> (distance: &Distance)
        ensures
            distance == self.distance(),
    {
        &self.distance
    }
}

impl Clone for Topology {
    /// Returns a topology that shares the tables of this one.
    fn clone(&self) -> (topology: Self)
        ensures
            topology == *self,
    {
        Topology {
            outgoing: share(&self.outgoing),
            incoming: share(&self.incoming),
            distance: share(&self.distance),
        }
    }
}

} // verus!
