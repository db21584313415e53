//! Graph builder.

use crate::error::Error;
use crate::graph::Graph;
use crate::topology::Topology;
use crate::relation::{acyclic, connected, has_edge, in_bounds, lemma_bounded_set,
    lemma_new_edge_keeps_acyclic, lemma_reaches_bounds, lemma_reaches_cases, reaches, simple,
    transposed, walk_between};
use crate::topology::adjacency::Adjacency;
use crate::visitor::search::Search;
use vstd::prelude::*;

verus! {

/// A directed edge. The weight tells repeated insertions of one edge apart
/// while the graph is built, and is not kept afterwards.
#[derive(Clone, Debug)]
pub struct Edge<W> {
    /// The node that the edge leaves.
    pub source: usize,
    /// The node that the edge enters.
    pub target: usize,
    /// The weight given when the edge was first added.
    pub weight: W,
}

/// The end at which an edge is listed: its source in the forward direction,
/// its target in the backward one.
pub open spec fn near_end<W>(edge: Edge<W>, forward: bool) -> usize {
    if forward {
        edge.source
    } else {
        edge.target
    }
}

/// The end that is listed: the target in the forward direction, the source
/// in the backward one.
pub open spec fn far_end<W>(edge: Edge<W>, forward: bool) -> usize {
    if forward {
        edge.target
    } else {
        edge.source
    }
}

/// The neighbours of `node` in one direction, in the order of the edges.
pub open spec fn neighbors<W>(edges: Seq<Edge<W>>, node: int, forward: bool) -> Seq<usize>
    decreases edges.len(),
{
    if edges.len() == 0 {
        Seq::empty()
    } else {
        let before = neighbors(edges.drop_last(), node, forward);
        if near_end(edges.last(), forward) == node {
            before.push(far_end(edges.last(), forward))
        } else {
            before
        }
    }
}

/// The adjacency lists of `nodes` nodes and the given edges in one direction.
pub open spec fn adjacency_of<W>(nodes: nat, edges: Seq<Edge<W>>, forward: bool) -> Seq<
    Seq<usize>,
> {
    Seq::new(nodes, |node: int| neighbors(edges, node, forward))
}

/// There is an edge from `source` to `target` among `edges`.
pub open spec fn has_link<W>(edges: Seq<Edge<W>>, source: int, target: int) -> bool {
    exists|i: int|
        0 <= i < edges.len() && (#[trigger] edges[i]).source == source && edges[i].target
            == target
}

/// The edges join nodes, none of them twice, and close no cycle.
pub open spec fn valid_edges<W>(nodes: nat, edges: Seq<Edge<W>>) -> bool {
    &&& forall|i: int|
        0 <= i < edges.len() ==> (#[trigger] edges[i]).source < nodes && edges[i].target < nodes
    &&& forall|i: int, j: int|
        0 <= i < j < edges.len() ==> !((#[trigger] edges[i]).source == (#[trigger] edges[j]).source
            && edges[i].target == edges[j].target)
    &&& acyclic(adjacency_of(nodes, edges, true))
}

/// What one more edge adds to the neighbours of a node.
pub(crate) proof fn lemma_neighbors_push<W>(edges: Seq<Edge<W>>, edge: Edge<W>, node: int, forward: bool)
    ensures
        neighbors(edges.push(edge), node, forward) == if near_end(edge, forward) == node {
            neighbors(edges, node, forward).push(far_end(edge, forward))
        } else {
            neighbors(edges, node, forward)
        },
{
    assert(edges.push(edge).drop_last() =~= edges);
}

/// Some edge is listed at `node` with `other` as its far end.
spec fn listed<W>(edges: Seq<Edge<W>>, node: int, forward: bool, other: usize) -> bool {
    exists|i: int|
        0 <= i < edges.len() && near_end(#[trigger] edges[i], forward) == node && far_end(
            edges[i],
            forward,
        ) == other
}

/// The neighbours of a node are the far ends of the edges listed at it.
proof fn lemma_neighbors_links<W>(edges: Seq<Edge<W>>, node: int, forward: bool)
    ensures
        forall|j: int|
            0 <= j < neighbors(edges, node, forward).len() ==> listed(
                edges,
                node,
                forward,
                #[trigger] neighbors(edges, node, forward)[j],
            ),
        forall|other: usize| #[trigger]
            listed(edges, node, forward, other) ==> neighbors(edges, node, forward).contains(other),
    decreases edges.len(),
{
    if edges.len() > 0 {
        let before = edges.drop_last();
        let last = edges.last();
        lemma_neighbors_links(before, node, forward);
        let old_list = neighbors(before, node, forward);
        let list = neighbors(edges, node, forward);
        assert forall|j: int| 0 <= j < list.len() implies listed(
            edges,
            node,
            forward,
            #[trigger] list[j],
        ) by {
            if j < old_list.len() {
                assert(list[j] == old_list[j]);
                assert(listed(before, node, forward, old_list[j]));
                let i = choose|i: int|
                    0 <= i < before.len() && near_end(#[trigger] before[i], forward) == node
                        && far_end(before[i], forward) == old_list[j];
                assert(edges[i] == before[i]);
            } else {
                assert(edges[edges.len() - 1] == last);
            }
        }
        assert forall|other: usize| #[trigger] listed(edges, node, forward, other) implies list.contains(
            other,
        ) by {
            let i = choose|i: int|
                0 <= i < edges.len() && near_end(#[trigger] edges[i], forward) == node && far_end(
                    edges[i],
                    forward,
                ) == other;
            if i < before.len() {
                assert(edges[i] == before[i]);
                assert(listed(before, node, forward, other));
                let j = choose|j: int| 0 <= j < old_list.len() && old_list[j] == other;
                assert(list[j] == old_list[j]);
            } else {
                assert(list[list.len() - 1] == far_end(last, forward));
            }
        }
    }
}

/// Where no edge occurs twice, no neighbour is listed twice.
proof fn lemma_neighbors_distinct<W>(edges: Seq<Edge<W>>, node: int, forward: bool)
    requires
        forall|i: int, j: int|
            0 <= i < j < edges.len() ==> !((#[trigger] edges[i]).source == (#[trigger] edges[j]).source
                && edges[i].target == edges[j].target),
    ensures
        neighbors(edges, node, forward).no_duplicates(),
    decreases edges.len(),
{
    if edges.len() > 0 {
        let before = edges.drop_last();
        let last = edges.last();
        assert forall|i: int, j: int| 0 <= i < j < before.len() implies !((#[trigger] before[i]).source
            == (#[trigger] before[j]).source && before[i].target == before[j].target) by {
            assert(before[i] == edges[i] && before[j] == edges[j]);
        }
        lemma_neighbors_distinct(before, node, forward);
        lemma_neighbors_links(before, node, forward);
        let old_list = neighbors(before, node, forward);
        if near_end(last, forward) == node {
            assert forall|j: int| 0 <= j < old_list.len() implies old_list[j] != far_end(
                last,
                forward,
            ) by {
                assert(listed(before, node, forward, old_list[j]));
                let i = choose|i: int|
                    0 <= i < before.len() && near_end(#[trigger] before[i], forward) == node
                        && far_end(before[i], forward) == old_list[j];
                assert(before[i] == edges[i]);
                assert(edges[edges.len() - 1] == last);
            }
        }
    }
}

/// The lists of the two directions describe the same edges, each from the
/// other end.
pub proof fn lemma_adjacency_of<W>(nodes: nat, edges: Seq<Edge<W>>)
    requires
        forall|i: int|
            0 <= i < edges.len() ==> (#[trigger] edges[i]).source < nodes && edges[i].target < nodes,
    ensures
        in_bounds(adjacency_of(nodes, edges, true)),
        in_bounds(adjacency_of(nodes, edges, false)),
        transposed(adjacency_of(nodes, edges, true), adjacency_of(nodes, edges, false)),
        forall|u: int, v: int| #[trigger]
            has_edge(adjacency_of(nodes, edges, true), u, v) <==> has_link(edges, u, v),
{
    let out = adjacency_of(nodes, edges, true);
    let inc = adjacency_of(nodes, edges, false);
    assert forall|u: int, v: int| #[trigger] has_edge(out, u, v) <==> has_link(edges, u, v) by {
        lemma_neighbors_links(edges, u, true);
        if has_edge(out, u, v) {
            let j = choose|j: int| 0 <= j < out[u].len() && #[trigger] out[u][j] == v;
            assert(neighbors(edges, u, true)[j] == v);
            assert(listed(edges, u, true, neighbors(edges, u, true)[j]));
        }
        if has_link(edges, u, v) {
            let i = choose|i: int|
                0 <= i < edges.len() && (#[trigger] edges[i]).source == u && edges[i].target == v;
            assert(near_end(edges[i], true) == u);
            assert(listed(edges, u, true, v as usize));
            assert(neighbors(edges, u, true).contains(v as usize));
            let j = choose|j: int|
                0 <= j < neighbors(edges, u, true).len() && neighbors(edges, u, true)[j] == v;
            assert(out[u][j] == v);
        }
    }
    assert forall|u: int, v: int| #[trigger] has_edge(inc, v, u) <==> has_link(edges, u, v) by {
        lemma_neighbors_links(edges, v, false);
        if has_edge(inc, v, u) {
            let j = choose|j: int| 0 <= j < inc[v].len() && #[trigger] inc[v][j] == u;
            assert(neighbors(edges, v, false)[j] == u);
            assert(listed(edges, v, false, neighbors(edges, v, false)[j]));
        }
        if has_link(edges, u, v) {
            let i = choose|i: int|
                0 <= i < edges.len() && (#[trigger] edges[i]).source == u && edges[i].target == v;
            assert(near_end(edges[i], false) == v);
            assert(listed(edges, v, false, u as usize));
            assert(neighbors(edges, v, false).contains(u as usize));
            let j = choose|j: int|
                0 <= j < neighbors(edges, v, false).len() && neighbors(edges, v, false)[j] == u;
            assert(inc[v][j] == u);
        }
    }
    assert forall|u: int, i: int| 0 <= u < out.len() && 0 <= i < out[u].len() implies (#[trigger] out[u][i])
        < out.len() by {
        assert(has_edge(out, u, out[u][i] as int));
    }
    assert forall|u: int, i: int| 0 <= u < inc.len() && 0 <= i < inc[u].len() implies (#[trigger] inc[u][i])
        < inc.len() by {
        assert(has_edge(inc, u, inc[u][i] as int));
    }
}

/// Where no edge occurs twice, neither direction lists a neighbour twice.
pub proof fn lemma_adjacency_simple<W>(nodes: nat, edges: Seq<Edge<W>>, forward: bool)
    requires
        forall|i: int, j: int|
            0 <= i < j < edges.len() ==> !((#[trigger] edges[i]).source == (#[trigger] edges[j]).source
                && edges[i].target == edges[j].target),
    ensures
        simple(adjacency_of(nodes, edges, forward)),
{
    let adj = adjacency_of(nodes, edges, forward);
    assert forall|u: int| 0 <= u < adj.len() implies (#[trigger] adj[u]).no_duplicates() by {
        lemma_neighbors_distinct(edges, u, forward);
    }
}

/// The target of an edge can be reached from its source, so that an edge
/// back from the target to the source would close a cycle.
pub proof fn lemma_edge_reaches<W>(nodes: nat, edges: Seq<Edge<W>>, source: int, target: int)
    requires
        valid_edges(nodes, edges),
        has_link(edges, source, target),
    ensures
        reaches(adjacency_of(nodes, edges, true), source, target),
{
    lemma_adjacency_of(nodes, edges);
    let out = adjacency_of(nodes, edges, true);
    let i = choose|i: int|
        0 <= i < edges.len() && (#[trigger] edges[i]).source == source && edges[i].target == target;
    assert(has_edge(out, source, target));
    crate::relation::lemma_edge_connects(out, source, target);
}

/// Collects nodes and edges, and turns away every edge that would close a
/// cycle.
#[derive(Debug)]
pub struct Builder<T, W = ()> {
    nodes: Vec<T>,
    edges: Vec<Edge<W>>,
    outgoing: Adjacency,
}

impl<T, W> Builder<T, W> {
    /// The payloads of the nodes, in the order of their indices.
    pub closed spec fn nodes(&self) -> Seq<T> {
        self.nodes@
    }

    /// The edges, in the order in which they were added.
    pub closed spec fn edges(&self) -> Seq<Edge<W>> {
        self.edges@
    }

    /// The successors of each node.
    pub open spec fn outgoing_view(&self) -> Seq<Seq<usize>> {
        adjacency_of(self.nodes().len(), self.edges(), true)
    }

    /// The predecessors of each node.
    pub open spec fn incoming_view(&self) -> Seq<Seq<usize>> {
        adjacency_of(self.nodes().len(), self.edges(), false)
    }

    /// The successor lists that the builder keeps are those of its edges.
    pub closed spec fn inv(&self) -> bool {
        self.outgoing@ == adjacency_of(self.nodes@.len(), self.edges@, true)
    }

    /// The builder holds a directed acyclic graph.
    pub open spec fn wf(&self) -> bool {
        self.inv() && valid_edges(self.nodes().len(), self.edges())
    }

    /// Creates a builder without nodes.
    pub fn new() -> (builder: Self)
        ensures
            builder.wf(),
            builder.nodes().len() == 0,
            builder.edges().len() == 0,
    {
        let builder = Builder { nodes: Vec::new(), edges: Vec::new(), outgoing: Adjacency::new() };
        proof {
            assert(builder.outgoing@ =~= adjacency_of(0, builder.edges@, true));
            assert forall|u: int| !connected(builder.outgoing@, u, u) by {
                if connected(builder.outgoing@, u, u) {
                    lemma_reaches_cases(builder.outgoing@, u, u);
                    lemma_reaches_bounds(builder.outgoing@, u, u);
                }
            }
        }
        builder
    }

    /// Adds a node and returns its index, which is the number of nodes
    /// added before it.
    pub fn add_node(&mut self, node: T) -> (index: usize)
        requires
            old(self).wf(),
        ensures
            final(self).wf(),
            index == old(self).nodes().len(),
            final(self).nodes() == old(self).nodes().push(node),
            final(self).edges() == old(self).edges(),
    {
        let index = self.nodes.len();
        self.nodes.push(node);
        self.outgoing.add_node();
        proof {
            let edges = self.edges@;
            let before = adjacency_of(index as nat, edges, true);
            let after = adjacency_of((index + 1) as nat, edges, true);
            lemma_adjacency_of(index as nat, edges);
            lemma_adjacency_of((index + 1) as nat, edges);
            lemma_neighbors_links(edges, index as int, true);
            if neighbors(edges, index as int, true).len() > 0 {
                let other = neighbors(edges, index as int, true)[0];
                assert(listed(edges, index as int, true, other));
                let i = choose|i: int|
                    0 <= i < edges.len() && near_end(#[trigger] edges[i], true) == index && far_end(
                        edges[i],
                        true,
                    ) == other;
                assert(edges[i].source < index);
            }
            assert(neighbors(edges, index as int, true) =~= Seq::<usize>::empty());
            assert(old(self).outgoing@ == before);
            assert(self.outgoing@ =~= after);
            assert forall|u: int| !connected(after, u, u) by {
                if connected(after, u, u) {
                    let p = choose|p: Seq<int>| walk_between(after, p, u, u) && p.len() >= 2;
                    assert forall|i: int| 0 <= i < p.len() implies 0 <= #[trigger] p[i] < before.len() by {
                        if i < p.len() - 1 {
                            assert(has_edge(after, p[i], p[i + 1]));
                            assert(has_link(edges, p[i], p[i + 1]));
                        } else {
                            assert(has_edge(after, p[i - 1], p[i - 1 + 1]));
                            assert(has_link(edges, p[i - 1], p[i]));
                        }
                    }
                    assert forall|i: int| 0 <= i < p.len() - 1 implies has_edge(
                        before,
                        #[trigger] p[i],
                        p[i + 1],
                    ) by {
                        assert(has_edge(after, p[i], p[i + 1]));
                        assert(has_link(edges, p[i], p[i + 1]));
                    }
                    assert(walk_between(before, p, u, u) && p.len() >= 2);
                    assert(connected(before, u, u));
                }
            }
        }
        index
    }

    /// The edges added so far.
    pub(crate) fn edge_list(&self) -> (edges: &Vec<Edge<W>>)
        ensures
            edges@ == self.edges(),
    {
        &self.edges
    }

    /// The successor lists kept for the reachability probe.
    pub(crate) fn successor_lists(&self) -> (adjacency: &Adjacency)
        requires
            self.wf(),
        ensures
            adjacency@ == self.outgoing_view(),
    {
        &self.outgoing
    }

    /// Returns the number of nodes.
    pub fn len(&self) -> (len: usize)
        ensures
            len == self.nodes().len(),
    {
        self.nodes.len()
    }

    /// Returns whether there are no nodes.
    pub fn is_empty(&self) -> (empty: bool)
        ensures
            empty == (self.nodes().len() == 0),
    {
        self.nodes.len() == 0
    }

    /// Builds the graph: the payloads, the successors and the predecessors
    /// of each node, and the distance between each two nodes.
    pub fn build(self) -> (graph: Graph<T>)
        requires
            self.wf(),
        ensures
            graph.wf(),
            graph.nodes() == self.nodes(),
            graph.topology().outgoing()@ == self.outgoing_view(),
            graph.topology().incoming()@ == self.incoming_view(),
    {
        let topology = Topology::new(&self);
        Graph::assemble(self.nodes, topology)
    }

    /// Returns whether there is an edge from `source` to `target`.
    pub fn contains_edge(&self, source: usize, target: usize) -> (found: bool)
        requires
            self.wf(),
        ensures
            found == has_link(self.edges(), source as int, target as int),
    {
        if source >= self.nodes.len() {
            proof {
                if has_link(self.edges(), source as int, target as int) {
                }
            }
            return false;
        }
        let ghost adj = self.outgoing@;
        proof {
            lemma_adjacency_of(self.nodes@.len(), self.edges@);
        }
        let list = &self.outgoing[source];
        let mut at: usize = 0;
        while at < list.len()
            invariant
                source < adj.len(),
                list@ == adj[source as int],
                at <= list@.len(),
                forall|j: int| 0 <= j < at ==> list@[j] != target,
                has_edge(adj, source as int, target as int) == has_link(
                    self.edges(),
                    source as int,
                    target as int,
                ),
            decreases list@.len() - at,
        {
            if list[at] == target {
                assert(adj[source as int][at as int] == target);
                return true;
            }
            at = at + 1;
        }
        false
    }

    /// Returns whether `to` can be reached from `from` along the edges added
    /// so far.
    pub fn reaches(&self, from: usize, to: usize) -> (found: bool)
        requires
            self.wf(),
            from < self.nodes().len(),
            to < self.nodes().len(),
        ensures
            found == reaches(self.outgoing_view(), from as int, to as int),
    {
        let ghost adj = self.outgoing@;
        proof {
            lemma_adjacency_of(self.nodes@.len(), self.edges@);
            lemma_reaches_cases(adj, from as int, to as int);
        }
        if from == to {
            return true;
        }
        let mut search = Search::new(&self.outgoing, from);
        let mut found = false;
        let mut done = false;
        while !done
            invariant
                search.wf(),
                search.graph() == adj,
                search.start() == from,
                from != to,
                reaches(adj, from as int, to as int) <==> connected(adj, from as int, to as int),
                !done ==> !found && !search.found().contains(to),
                done ==> found == connected(adj, from as int, to as int),
            decreases adj.len() - search.found().len() + if done { 0int } else { 1int },
        {
            proof {
                search.lemma_found_connected();
                assert forall|x: usize| #[trigger] search.found().contains(x) implies x < adj.len() by {
                    lemma_reaches_cases(adj, from as int, x as int);
                    lemma_reaches_bounds(adj, from as int, x as int);
                }
                lemma_bounded_set(search.found(), adj.len());
            }
            let ghost before = search.found();
            match search.next() {
                Some(node) => {
                    proof {
                        lemma_reaches_cases(adj, from as int, node as int);
                        lemma_reaches_bounds(adj, from as int, node as int);
                        assert forall|x: usize| #[trigger] search.found().contains(x) implies x
                            < adj.len() by {
                            if x != node {
                                assert(before.contains(x));
                            }
                        }
                        lemma_bounded_set(search.found(), adj.len());
                    }
                    if node == to {
                        found = true;
                        done = true;
                    }
                },
                None => {
                    proof {
                        if connected(adj, from as int, to as int) {
                            assert(before.contains((to as int) as usize));
                        }
                    }
                    done = true;
                },
            }
        }
        found
    }

    /// Adds an edge from `source` to `target`.
    ///
    /// Fails with `InvalidNode` where one of the two is no node, and with
    /// `Cycle` where `source` can be reached from `target`, so that the edge
    /// would close a cycle. An edge that is there already is not added again,
    /// and keeps the weight it was first given.
    pub fn add_edge(&mut self, source: usize, target: usize, weight: W) -> (result: Result<
        (),
        Error,
    >)
        requires
            old(self).wf(),
        ensures
            final(self).wf(),
            final(self).nodes() == old(self).nodes(),
            match result {
                Ok(()) => {
                    &&& source < old(self).nodes().len()
                    &&& target < old(self).nodes().len()
                    &&& !reaches(old(self).outgoing_view(), target as int, source as int)
                    &&& final(self).edges() == if has_link(
                        old(self).edges(),
                        source as int,
                        target as int,
                    ) {
                        old(self).edges()
                    } else {
                        old(self).edges().push(Edge { source, target, weight })
                    }
                },
                Err(Error::InvalidNode) => {
                    &&& source >= old(self).nodes().len() || target >= old(self).nodes().len()
                    &&& final(self).edges() == old(self).edges()
                },
                Err(Error::Cycle) => {
                    &&& source < old(self).nodes().len()
                    &&& target < old(self).nodes().len()
                    &&& reaches(old(self).outgoing_view(), target as int, source as int)
                    &&& final(self).edges() == old(self).edges()
                },
                Err(Error::NotInFlight) => false,
            },
    {
        let count = self.nodes.len();
        if source >= count || target >= count {
            return Err(Error::InvalidNode);
        }
        if self.reaches(target, source) {
            return Err(Error::Cycle);
        }
        if self.contains_edge(source, target) {
            return Ok(());
        }
        let ghost before = self.edges@;
        let ghost adj = self.outgoing@;
        let ghost edge = Edge { source, target, weight };
        self.outgoing.add_edge(source, target);
        self.edges.push(Edge { source, target, weight });
        proof {
            let after = self.edges@;
            let wider = adjacency_of(count as nat, after, true);
            assert(after == before.push(edge));
            assert(self.outgoing@ =~= wider) by {
                assert forall|node: int| 0 <= node < count implies #[trigger] self.outgoing@[node]
                    == wider[node] by {
                    lemma_neighbors_push(before, edge, node, true);
                }
            }
            assert forall|i: int| 0 <= i < after.len() implies (#[trigger] after[i]).source < count
                && after[i].target < count by {
                if i < before.len() {
                    assert(after[i] == before[i]);
                }
            }
            assert forall|i: int, j: int| 0 <= i < j < after.len() implies !((#[trigger] after[i]).source
                == (#[trigger] after[j]).source && after[i].target == after[j].target) by {
                assert(after[i] == before[i]);
                if j < before.len() {
                    assert(after[j] == before[j]);
                }
            }
            lemma_adjacency_of(count as nat, before);
            lemma_adjacency_of(count as nat, after);
            assert forall|x: int, y: int| #[trigger]
                has_edge(wider, x, y) <==> has_edge(adj, x, y) || (x == source && y == target) by {
                if has_link(after, x, y) {
                    let i = choose|i: int|
                        0 <= i < after.len() && (#[trigger] after[i]).source == x && after[i].target
                            == y;
                    if i < before.len() {
                        assert(after[i] == before[i]);
                    }
                }
                if has_link(before, x, y) {
                    let i = choose|i: int|
                        0 <= i < before.len() && (#[trigger] before[i]).source == x
                            && before[i].target == y;
                    assert(after[i] == before[i]);
                }
                if x == source && y == target {
                    assert(after[after.len() - 1] == edge);
                }
            }
            lemma_new_edge_keeps_acyclic(adj, wider, source as int, target as int);
        }
        Ok(())
    }
}

} // verus!
