//! Visitor for ancestors of a node.

use crate::graph::Graph;
use crate::relation::{connected, has_edge, is_walk, lemma_reaches_cases, transposed, walk_between};
use crate::topology::Topology;
use crate::visitor::search::{depth_first, Search};
use vstd::prelude::*;

verus! {

/// The reverse of a walk is a walk in the transposed graph.
pub proof fn lemma_walk_reverse(out: Seq<Seq<usize>>, inc: Seq<Seq<usize>>, p: Seq<int>)
    requires
        transposed(out, inc),
        is_walk(out, p),
    ensures
        is_walk(inc, p.reverse()),
        p.reverse().len() == p.len(),
        p.reverse()[0] == p[p.len() - 1],
        p.reverse()[p.len() - 1] == p[0],
{
    let r = p.reverse();
    let n = p.len() as int;
    assert forall|i: int| 0 <= i < r.len() - 1 implies has_edge(inc, #[trigger] r[i], r[i + 1]) by {
        assert(r[i] == p[n - 1 - i]);
        assert(r[i + 1] == p[n - 2 - i]);
        assert(has_edge(out, p[n - 2 - i], p[n - 2 - i + 1]));
    }
}

/// A node is connected to another in the transposed graph exactly where the
/// other is connected to it.
pub proof fn lemma_connected_transposed(out: Seq<Seq<usize>>, inc: Seq<Seq<usize>>, u: int, v: int)
    requires
        transposed(out, inc),
    ensures
        connected(out, u, v) <==> connected(inc, v, u),
{
    if connected(out, u, v) {
        let p = choose|p: Seq<int>| walk_between(out, p, u, v) && p.len() >= 2;
        lemma_walk_reverse(out, inc, p);
        assert(walk_between(inc, p.reverse(), v, u) && p.reverse().len() >= 2);
    }
    if connected(inc, v, u) {
        let p = choose|p: Seq<int>| walk_between(inc, p, v, u) && p.len() >= 2;
        assert(transposed(inc, out));
        lemma_walk_reverse(inc, out, p);
        assert(walk_between(out, p.reverse(), u, v) && p.reverse().len() >= 2);
    }
}

impl Topology {
    /// `ancestor` is an ancestor of `node`: `node` can be reached from it
    /// along one or more edges.
    pub open spec fn is_ancestor(&self, ancestor: int, node: int) -> bool {
        connected(self.outgoing()@, ancestor, node)
    }

    /// `descendant` is a descendant of `node`: it can be reached from `node`
    /// along one or more edges.
    pub open spec fn is_descendant(&self, descendant: int, node: int) -> bool {
        connected(self.outgoing()@, node, descendant)
    }
}

/// No node is its own ancestor or descendant, and no node is both an
/// ancestor and a descendant of the same node.
pub proof fn lemma_ancestors_apart(topology: &Topology, node: int, other: int)
    requires
        topology.wf(),
    ensures
        !topology.is_ancestor(node, node),
        !topology.is_descendant(node, node),
        !(topology.is_ancestor(other, node) && topology.is_descendant(other, node)),
{
    let out = topology.outgoing()@;
    if topology.is_ancestor(other, node) && topology.is_descendant(other, node) {
        lemma_reaches_cases(out, other, node);
        crate::relation::lemma_reaches_trans(out, node, other, node);
    }
}

/// A node is an ancestor of each of its descendants, and a descendant of
/// each of its ancestors.
pub proof fn lemma_ancestor_of_descendant(topology: &Topology, node: int, other: int)
    ensures
        topology.is_descendant(other, node) <==> topology.is_ancestor(node, other),
{
}

/// A node without descendants is not among the ancestors of its
/// descendants. (A node with a descendant is an ancestor of it.)
pub proof fn lemma_ancestors_of_descendants(topology: &Topology, node: int, descendant: int)
    requires
        topology.wf(),
        forall|x: int| !#[trigger] topology.is_descendant(x, node),
    ensures
        !(topology.is_descendant(descendant, node) && topology.is_ancestor(node, descendant)),
{
}

/// A node without ancestors is not among the descendants of its ancestors.
/// (A node with an ancestor is a descendant of it.)
pub proof fn lemma_descendants_of_ancestors(topology: &Topology, node: int, ancestor: int)
    requires
        topology.wf(),
        forall|x: int| !#[trigger] topology.is_ancestor(x, node),
    ensures
        !(topology.is_ancestor(ancestor, node) && topology.is_descendant(node, ancestor)),
{
}

/// Visitor for ancestors of a node: hands out every ancestor once.
pub struct Ancestors<'a> {
    topology: &'a Topology,
    search: Search<'a>,
}

impl<'a> Ancestors<'a> {
    /// The topology in which the ancestors are looked for.
    pub closed spec fn topology(&self) -> &Topology {
        self.topology
    }

    /// The node whose ancestors are looked for.
    pub closed spec fn node(&self) -> int {
        self.search.start()
    }

    /// The ancestors handed out so far.
    pub closed spec fn visited(&self) -> Set<usize> {
        self.search.found()
    }

    /// The ancestors that are still to be handed out, the next one first.
    pub closed spec fn coming(&self) -> Seq<usize> {
        self.search.coming()
    }

    /// The visitor is in a state that `new` and `next` leave it in.
    pub closed spec fn wf(&self) -> bool {
        &&& self.topology.wf()
        &&& self.search.wf()
        &&& self.search.graph() == self.topology.incoming()@
    }

    /// Every node handed out is an ancestor.
    pub proof fn lemma_visited_ancestors(&self)
        requires
            self.wf(),
        ensures
            self.topology().wf(),
            0 <= self.node() < self.topology().count(),
            forall|x: usize| #[trigger]
                self.visited().contains(x) ==> self.topology().is_ancestor(x as int, self.node()),
    {
        self.search.lemma_found_connected();
        assert forall|x: usize| #[trigger] self.visited().contains(x) implies self.topology().is_ancestor(
            x as int,
            self.node(),
        ) by {
            lemma_connected_transposed(
                self.topology.outgoing()@,
                self.topology.incoming()@,
                x as int,
                self.node(),
            );
        }
    }

    /// Creates a visitor that hands out all ancestors of the given node.
    pub fn new(topology: &'a Topology, node: usize) -> (ancestors: Self)
        requires
            topology.wf(),
            node < topology.count(),
        ensures
            ancestors.wf(),
            ancestors.topology() == topology,
            ancestors.node() == node,
            ancestors.visited() == Set::<usize>::empty(),
            ancestors.coming() == depth_first(topology.incoming()@, node),
    {
        Ancestors { topology, search: Search::new(topology.incoming(), node) }
    }

    /// Returns the next ancestor: one that was not handed out before, or
    /// `None` once every ancestor has been.
    pub fn next(&mut self) -> (ancestor: Option<usize>)
        requires
            old(self).wf(),
        ensures
            final(self).wf(),
            final(self).topology() == old(self).topology(),
            final(self).node() == old(self).node(),
            match ancestor {
                Some(x) => {
                    &&& old(self).coming().len() > 0
                    &&& x == old(self).coming()[0]
                    &&& final(self).coming() == old(self).coming().drop_first()
                    &&& !old(self).visited().contains(x)
                    &&& old(self).topology().is_ancestor(x as int, old(self).node())
                    &&& final(self).visited() == old(self).visited().insert(x)
                },
                None => {
                    &&& old(self).coming().len() == 0
                    &&& final(self).coming().len() == 0
                    &&& final(self).visited() == old(self).visited()
                    &&& forall|x: int| #[trigger]
                        old(self).topology().is_ancestor(x, old(self).node()) ==> 0 <= x
                            <= usize::MAX && old(self).visited().contains(x as usize)
                },
            },
    {
        let ghost out = self.topology.outgoing()@;
        let ghost inc = self.topology.incoming()@;
        let ghost node = self.search.start();
        let ancestor = self.search.next();
        proof {
            match ancestor {
                Some(x) => {
                    lemma_connected_transposed(out, inc, x as int, node);
                },
                None => {
                    assert forall|x: int| #[trigger]
                        old(self).topology().is_ancestor(x, old(self).node()) implies 0 <= x
                        <= usize::MAX && old(self).visited().contains(x as usize) by {
                        lemma_connected_transposed(out, inc, x, node);
                    }
                },
            }
        }
        ancestor
    }
}

impl<T> Graph<T> {
    /// Creates a visitor of the ancestors of the given node.
    pub fn ancestors(&self, node: usize) -> (ancestors: Ancestors<'_>)
        requires
            self.wf(),
            node < self.nodes().len(),
        ensures
            ancestors.wf(),
            ancestors.topology() == self.topology(),
            ancestors.node() == node,
            ancestors.visited() == Set::<usize>::empty(),
            ancestors.coming() == depth_first(self.topology().incoming()@, node),
    {
        Ancestors::new(self.topology(), node)
    }
}

} // verus!
