//! Graph.

use crate::builder::Builder;
use crate::topology::Topology;
use crate::traversal::{ascending, roots_of, Event, State, Traversal};
use std::ops::Index;
use std::slice::Iter;
use vstd::prelude::*;

verus! {

/// A directed acyclic graph with a payload of type `T` at each node. Nodes
/// are addressed by their indices, in the order in which they were added.
#[derive(Clone, Debug)]
pub struct Graph<T> {
    data: Vec<T>,
    topology: Topology,
}

impl<T> Graph<T> {
    /// The payloads of the nodes, in the order of their indices.
    pub closed spec fn nodes(&self) -> Seq<T> {
        self.data@
    }

    /// The topology of the graph.
    pub closed spec fn topology_spec(&self) -> &Topology {
        &self.topology
    }

    /// The graph has one payload for each node of a well-formed topology.
    pub open spec fn wf(&self) -> bool {
        self.topology().wf() && self.nodes().len() == self.topology().count()
    }

    /// `node` has no predecessor.
    pub open spec fn is_source(&self, node: int) -> bool {
        0 <= node < self.topology().count() && self.topology().incoming()@[node].len() == 0
    }

    /// `node` has no successor.
    pub open spec fn is_sink(&self, node: int) -> bool {
        0 <= node < self.topology().count() && self.topology().outgoing()@[node].len() == 0
    }

    /// Puts payloads and topology together.
    pub(crate) fn assemble(data: Vec<T>, topology: Topology) -> (graph: Self)
        requires
            topology.wf(),
            data@.len() == topology.count(),
        ensures
            graph.wf(),
            graph.nodes() == data@,
            *graph.topology() == topology,
    {
        Graph { data, topology }
    }

    /// Creates a graph builder.
    pub fn builder<W>() -> (builder: Builder<T, W>) where W: Clone
        ensures
            builder.wf(),
            builder.nodes().len() == 0,
            builder.edges().len() == 0,
    {
        Builder::new()
    }

    /// Creates an empty graph.
    pub fn empty() -> (graph: Self)
        ensures
            graph.wf(),
            graph.nodes().len() == 0,
    {
        Builder::<T>::new().build()
    }

    /// Maps the payloads to a different type, and keeps the topology.
    pub fn map<F, U>(self, f: F) -> (graph: Graph<U>) where F: FnMut(T) -> U
        requires
            forall|i: int| 0 <= i < self.nodes().len() ==> f.requires((#[trigger] self.nodes()[i],)),
        ensures
            graph.topology() == self.topology(),
            graph.nodes().len() == self.nodes().len(),
            forall|i: int|
                0 <= i < self.nodes().len() ==> f.ensures(
                    (self.nodes()[i],),
                    #[trigger] graph.nodes()[i],
                ),
            self.wf() ==> graph.wf(),
    {
        let mut apply = f;
        let ghost before = self.data@;
        let mut data: Vec<U> = Vec::new();
        assert forall|i: int| 0 <= i < before.len() implies f.requires((#[trigger] before[i],)) by {
            assert(f.requires((self.nodes()[i],)));
        }
        for node in it: self.data
            invariant
                apply == f,
                before == it.seq(),
                data@.len() == it.index(),
                forall|i: int| 0 <= i < before.len() ==> f.requires((#[trigger] before[i],)),
                forall|i: int| 0 <= i < data@.len() ==> f.ensures((before[i],), #[trigger] data@[i]),
        {
            data.push(apply(node));
        }
        Graph { data, topology: self.topology }
    }

    /// Creates a topological traversal that starts at the given nodes.
    ///
    /// The traversal visits the nodes that can be reached from them, each
    /// only after every predecessor of it that is visited too. Any number
    /// of traversals can run on one graph, since they share its topology.
    pub fn traverse(&self, initial: &[usize]) -> (traversal: Traversal)
        requires
            self.wf(),
            forall|i: int| 0 <= i < initial@.len() ==> (#[trigger] initial@[i]) < self.nodes().len(),
        ensures
            traversal.wf(),
            traversal.topology() == *self.topology(),
            traversal.roots() == roots_of(initial@),
            traversal.history() == Seq::<Event>::empty(),
            traversal.flights() == 0,
            traversal.states().len() == self.nodes().len(),
            forall|v: int|
                0 <= v < self.nodes().len() ==> #[trigger] traversal.states()[v] == if roots_of(
                    initial@,
                ).contains(v) && traversal.unresolved(v) =~= Set::<int>::empty() {
                    State::Ready
                } else {
                    State::Pending
                },
            ascending(traversal.ready()),
            forall|v: usize| #[trigger]
                traversal.ready().contains(v) <==> v < self.nodes().len() && traversal.states()[v as int]
                    == State::Ready,
    {
        Traversal::new(&self.topology, initial)
    }

    /// Returns the sources of the graph, which are the nodes without
    /// predecessors, in ascending order.
    pub fn sources(&self) -> (nodes: Vec<usize>)
        requires
            self.wf(),
        ensures
            forall|i: int, j: int| 0 <= i < j < nodes@.len() ==> nodes@[i] < nodes@[j],
            forall|node: usize| nodes@.contains(node) <==> self.is_source(node as int),
    {
        let incoming = self.topology.incoming();
        let count = incoming.len();
        let mut nodes: Vec<usize> = Vec::new();
        let mut node: usize = 0;
        while node < count
            invariant
                self.wf(),
                incoming == self.topology().incoming(),
                count == incoming@.len(),
                node <= count,
                forall|i: int, j: int| 0 <= i < j < nodes@.len() ==> nodes@[i] < nodes@[j],
                forall|i: int| 0 <= i < nodes@.len() ==> nodes@[i] < node,
                forall|other: usize|
                    nodes@.contains(other) <==> other < node && self.is_source(other as int),
            decreases count - node,
        {
            let ghost before = nodes@;
            if incoming[node].len() == 0 {
                nodes.push(node);
                proof {
                    assert(nodes@[before.len() as int] == node);
                    assert forall|other: usize| nodes@.contains(other) implies other < node + 1
                        && self.is_source(other as int) by {
                        let i = choose|i: int| 0 <= i < nodes@.len() && nodes@[i] == other;
                        if i < before.len() {
                            assert(before[i] == other);
                            assert(before.contains(other));
                        } else {
                            assert(other == node);
                        }
                    }
                    assert forall|other: usize|
                        other < node + 1 && self.is_source(other as int) implies nodes@.contains(
                        other,
                    ) by {
                        if other < node {
                            assert(before.contains(other));
                            let i = choose|i: int| 0 <= i < before.len() && before[i] == other;
                            assert(nodes@[i] == other);
                        } else {
                            assert(nodes@[before.len() as int] == other);
                        }
                    }
                }
            }
            node = node + 1;
        }
        nodes
    }

    /// Returns the sinks of the graph, which are the nodes without
    /// successors, in ascending order.
    pub fn sinks(&self) -> (nodes: Vec<usize>)
        requires
            self.wf(),
        ensures
            forall|i: int, j: int| 0 <= i < j < nodes@.len() ==> nodes@[i] < nodes@[j],
            forall|node: usize| nodes@.contains(node) <==> self.is_sink(node as int),
    {
        let outgoing = self.topology.outgoing();
        let count = outgoing.len();
        let mut nodes: Vec<usize> = Vec::new();
        let mut node: usize = 0;
        while node < count
            invariant
                self.wf(),
                outgoing == self.topology().outgoing(),
                count == outgoing@.len(),
                node <= count,
                forall|i: int, j: int| 0 <= i < j < nodes@.len() ==> nodes@[i] < nodes@[j],
                forall|i: int| 0 <= i < nodes@.len() ==> nodes@[i] < node,
                forall|other: usize|
                    nodes@.contains(other) <==> other < node && self.is_sink(other as int),
            decreases count - node,
        {
            let ghost before = nodes@;
            if outgoing[node].len() == 0 {
                nodes.push(node);
                proof {
                    assert(nodes@[before.len() as int] == node);
                    assert forall|other: usize| nodes@.contains(other) implies other < node + 1
                        && self.is_sink(other as int) by {
                        let i = choose|i: int| 0 <= i < nodes@.len() && nodes@[i] == other;
                        if i < before.len() {
                            assert(before[i] == other);
                            assert(before.contains(other));
                        } else {
                            assert(other == node);
                        }
                    }
                    assert forall|other: usize|
                        other < node + 1 && self.is_sink(other as int) implies nodes@.contains(
                        other,
                    ) by {
                        if other < node {
                            assert(before.contains(other));
                            let i = choose|i: int| 0 <= i < before.len() && before[i] == other;
                            assert(nodes@[i] == other);
                        } else {
                            assert(nodes@[before.len() as int] == other);
                        }
                    }
                }
            }
            node = node + 1;
        }
        nodes
    }

    /// Creates an iterator over the payloads, in the order of the indices.
    pub fn iter(&self) -> (iter: Iter<'_, T>)
        ensures
            vstd::std_specs::iter::IteratorSpec::remaining(&iter) == self.nodes().as_ref(),
    {
        let slice = self.data.as_slice();
        proof {
            vstd::std_specs::slice::axiom_spec_slice_iter(slice);
        }
        slice.iter()
    }

    /// Returns the graph topology.
    #[verifier::when_used_as_spec(topology_spec)]
    pub fn topology(&self) -> (topology: &Topology)
        ensures
            topology == self.topology(),
    {
        &self.topology
    }

    /// Returns the number of nodes.
    pub fn len(&self) -> (len: usize)
        ensures
            len == self.nodes().len(),
    {
        self.data.len()
    }

    /// Returns whether there are no nodes.
    pub fn is_empty(&self) -> (empty: bool)
        ensures
            empty == (self.nodes().len() == 0),
    {
        self.data.len() == 0
    }

    /// Returns a mutable reference to the payload of the node at the index.
    pub fn index_mut(&mut self, index: usize) -> (payload: &mut T)
        requires
            index < old(self).nodes().len(),
        ensures
            *payload == old(self).nodes()[index as int],
            final(self).nodes() == old(self).nodes().update(index as int, *final(payload)),
            final(self).topology() == old(self).topology(),
    {
        &mut self.data[index]
    }
}

impl<T> Index<usize> for Graph<T> {
    type Output = T;

    /// Returns a reference to the payload of the node at the index.
    fn index(&self, index: usize) -> (payload: &T)
        ensures
            *payload == self.nodes()[index as int],
    {
        &self.data[index]
    }
}

impl<'a, T> IntoIterator for &'a Graph<T> {
    type Item = &'a T;

    type IntoIter = Iter<'a, T>;

    /// Creates an iterator over the payloads, in the order of the indices.
    fn into_iter(self) -> (iter: Iter<'a, T>)
        ensures
            vstd::std_specs::iter::IteratorSpec::remaining(&iter) == self.nodes().as_ref(),
    {
        self.iter()
    }
}

impl<T> vstd::std_specs::core::IndexSpecImpl<usize> for Graph<T> {
    open spec fn index_req(&self, index: &usize) -> bool {
        *index < self.nodes().len()
    }
}

} // verus!
