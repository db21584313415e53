//! Adjacency lists.

use crate::builder::{adjacency_of, Builder, Edge, lemma_neighbors_push, neighbors};
use std::ops::Index;
use vstd::prelude::*;

verus! {

/// For each node, the list of its neighbours in one direction, in the order
/// in which the edges were added.
#[derive(Debug)]
pub struct Adjacency {
    lists: Vec<Vec<usize>>,
}

impl View for Adjacency {
    type V = Seq<Seq<usize>>;

    closed spec fn view(&self) -> Seq<Seq<usize>> {
        Seq::new(self.lists@.len(), |node: int| self.lists@[node]@)
    }
}

impl Adjacency {
    /// Creates the adjacency lists of a graph without nodes.
    pub(crate) fn new() -> (adjacency: Self)
        ensures
            adjacency@ == Seq::<Seq<usize>>::empty(),
    {
        let adjacency = Adjacency { lists: Vec::new() };
        assert(adjacency@ =~= Seq::<Seq<usize>>::empty());
        adjacency
    }

    /// Adds a node without neighbours.
    pub(crate) fn add_node(&mut self)
        ensures
            final(self)@ == old(self)@.push(Seq::<usize>::empty()),
    {
        self.lists.push(Vec::new());
        assert(self@ =~= old(self)@.push(Seq::<usize>::empty()));
    }

    /// Appends `neighbor` to the list of `node`.
    pub(crate) fn add_edge(&mut self, node: usize, neighbor: usize)
        requires
            node < old(self)@.len(),
        ensures
            final(self)@ == old(self)@.update(node as int, old(self)@[node as int].push(neighbor)),
    {
        let mut list = Vec::new();
        std::mem::swap(&mut list, &mut self.lists[node]);
        list.push(neighbor);
        self.lists[node] = list;
        assert(self@ =~= old(self)@.update(node as int, old(self)@[node as int].push(neighbor)));
    }

    /// Lists the edges of one direction under the nodes at their near ends.
    fn collect<W>(count: usize, edges: &Vec<Edge<W>>, forward: bool) -> (adjacency: Self)
        requires
            forall|i: int|
                0 <= i < edges@.len() ==> (#[trigger] edges@[i]).source < count && edges@[i].target
                    < count,
        ensures
            adjacency@ == adjacency_of(count as nat, edges@, forward),
    {
        let mut adjacency = Adjacency::new();
        while adjacency.len() < count
            invariant
                adjacency@.len() <= count,
                forall|node: int| 0 <= node < adjacency@.len() ==> #[trigger] adjacency@[node]
                    == Seq::<usize>::empty(),
            decreases count - adjacency@.len(),
        {
            adjacency.add_node();
        }
        assert(adjacency@ =~= adjacency_of(count as nat, edges@.take(0), forward));
        let mut at: usize = 0;
        while at < edges.len()
            invariant
                at <= edges@.len(),
                adjacency@ == adjacency_of(count as nat, edges@.take(at as int), forward),
                forall|i: int|
                    0 <= i < edges@.len() ==> (#[trigger] edges@[i]).source < count
                        && edges@[i].target < count,
            decreases edges@.len() - at,
        {
            let edge = &edges[at];
            let ghost before = adjacency@;
            if forward {
                adjacency.add_edge(edge.source, edge.target);
            } else {
                adjacency.add_edge(edge.target, edge.source);
            }
            proof {
                let taken = edges@.take(at as int);
                let more = edges@.take(at + 1);
                assert(more =~= taken.push(*edge));
                assert forall|node: int| 0 <= node < count implies #[trigger] adjacency@[node]
                    == neighbors(more, node, forward) by {
                    lemma_neighbors_push(taken, *edge, node, forward);
                }
                assert(adjacency@ =~= adjacency_of(count as nat, more, forward));
            }
            at = at + 1;
        }
        assert(edges@.take(at as int) =~= edges@);
        adjacency
    }

    /// Lists under each node of the builder its successors.
    pub fn outgoing<T, W>(builder: &Builder<T, W>) -> (adjacency: Self)
        requires
            builder.wf(),
        ensures
            adjacency@ == builder.outgoing_view(),
    {
        Adjacency::collect(builder.len(), builder.edge_list(), true)
    }

    /// Lists under each node of the builder its predecessors.
    pub fn incoming<T, W>(builder: &Builder<T, W>) -> (adjacency: Self)
        requires
            builder.wf(),
        ensures
            adjacency@ == builder.incoming_view(),
    {
        Adjacency::collect(builder.len(), builder.edge_list(), false)
    }

    /// Returns the number of nodes.
    pub fn len(&self) -> (len: usize)
        ensures
            len == self@.len(),
    {
        self.lists.len()
    }

    /// Returns whether there are no nodes.
    pub fn is_empty(&self) -> (empty: bool)
        ensures
            empty == (self@.len() == 0),
    {
        self.lists.len() == 0
    }
}

impl Index<usize> for Adjacency {
    type Output = [usize];

    /// Returns the neighbours of the node.
    fn index(&self, node: usize) -> (neighbors: &[usize])
        ensures
            neighbors@ == self@[node as int],
    {
        self.lists[node].as_slice()
    }
}

impl vstd::std_specs::core::IndexSpecImpl<usize> for Adjacency {
    open spec fn index_req(&self, node: &usize) -> bool {
        *node < self@.len()
    }
}

} // verus!
