//! Visitor for descendants of a node.

use crate::graph::Graph;
use crate::topology::Topology;
use crate::visitor::search::{depth_first, Search};
use vstd::prelude::*;

verus! {

/// Visitor for descendants of a node: hands out every descendant once.
pub struct Descendants<'a> {
    topology: &'a Topology,
    search: Search<'a>,
}

impl<'a> Descendants<'a> {
    /// The topology in which the descendants are looked for.
    pub closed spec fn topology(&self) -> &Topology {
        self.topology
    }

    /// The node whose descendants are looked for.
    pub closed spec fn node(&self) -> int {
        self.search.start()
    }

    /// The descendants handed out so far.
    pub closed spec fn visited(&self) -> Set<usize> {
        self.search.found()
    }

    /// The descendants that are still to be handed out, the next one first.
    pub closed spec fn coming(&self) -> Seq<usize> {
        self.search.coming()
    }

    /// The visitor is in a state that `new` and `next` leave it in.
    pub closed spec fn wf(&self) -> bool {
        &&& self.topology.wf()
        &&& self.search.wf()
        &&& self.search.graph() == self.topology.outgoing()@
    }

    /// Every node handed out is a descendant.
    pub proof fn lemma_visited_descendants(&self)
        requires
            self.wf(),
        ensures
            self.topology().wf(),
            0 <= self.node() < self.topology().count(),
            forall|x: usize| #[trigger]
                self.visited().contains(x) ==> self.topology().is_descendant(
                    x as int,
                    self.node(),
                ),
    {
        self.search.lemma_found_connected();
    }

    /// Creates a visitor that hands out all descendants of the given node.
    pub fn new(topology: &'a Topology, node: usize) -> (descendants: Self)
        requires
            topology.wf(),
            node < topology.count(),
        ensures
            descendants.wf(),
            descendants.topology() == topology,
            descendants.node() == node,
            descendants.visited() == Set::<usize>::empty(),
            descendants.coming() == depth_first(topology.outgoing()@, node),
    {
        Descendants { topology, search: Search::new(topology.outgoing(), node) }
    }

    /// Returns the next descendant: one that was not handed out before, or
    /// `None` once every descendant has been.
    pub fn next(&mut self) -> (descendant: Option<usize>)
        requires
            old(self).wf(),
        ensures
            final(self).wf(),
            final(self).topology() == old(self).topology(),
            final(self).node() == old(self).node(),
            match descendant {
                Some(x) => {
                    &&& old(self).coming().len() > 0
                    &&& x == old(self).coming()[0]
                    &&& final(self).coming() == old(self).coming().drop_first()
                    &&& !old(self).visited().contains(x)
                    &&& old(self).topology().is_descendant(x as int, old(self).node())
                    &&& final(self).visited() == old(self).visited().insert(x)
                },
                None => {
                    &&& old(self).coming().len() == 0
                    &&& final(self).coming().len() == 0
                    &&& final(self).visited() == old(self).visited()
                    &&& forall|x: int| #[trigger]
                        old(self).topology().is_descendant(x, old(self).node()) ==> 0 <= x
                            <= usize::MAX && old(self).visited().contains(x as usize)
                },
            },
    {
        self.search.next()
    }
}

impl<T> Graph<T> {
    /// Creates a visitor of the descendants of the given node.
    pub fn descendants(&self, node: usize) -> (descendants: Descendants<'_>)
        requires
            self.wf(),
            node < self.nodes().len(),
        ensures
            descendants.wf(),
            descendants.topology() == self.topology(),
            descendants.node() == node,
            descendants.visited() == Set::<usize>::empty(),
            descendants.coming() == depth_first(self.topology().outgoing()@, node),
    {
        Descendants::new(self.topology(), node)
    }
}

} // verus!
