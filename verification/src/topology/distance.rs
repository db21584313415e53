//! Distance table.

use crate::breadth::{bfs_inv, lemma_bfs_done, lemma_bfs_finish, lemma_bfs_init, lemma_bfs_pop,
    lemma_bfs_visit, settled};
use crate::builder::{lemma_adjacency_of, Builder};
use crate::relation::{has_edge, in_bounds, is_distance, reaches};
use crate::topology::adjacency::Adjacency;
use std::collections::VecDeque;
use std::ops::Index;
use vstd::prelude::*;
use vstd::set_lib::{lemma_int_range, lemma_len_subset, set_int_range};

verus! {

/// `hops` is the least number of edges from `u` to `v`, or `None` where `v`
/// cannot be reached from `u`.
pub open spec fn is_hops(adj: Seq<Seq<usize>>, u: int, v: int, hops: Option<usize>) -> bool {
    match hops {
        Some(k) => is_distance(adj, u, v, k as int),
        None => !reaches(adj, u, v),
    }
}

/// The nodes of a queue as integers.
spec fn as_ints(queue: Seq<usize>) -> Seq<int> {
    Seq::new(queue.len(), |i: int| queue[i] as int)
}

/// For each pair of nodes, the least number of edges from the first to the
/// second.
#[derive(Debug)]
pub struct Distance {
    rows: Vec<Vec<Option<usize>>>,
}

impl View for Distance {
    type V = Seq<Seq<Option<usize>>>;

    closed spec fn view(&self) -> Seq<Seq<Option<usize>>> {
        Seq::new(self.rows@.len(), |node: int| self.rows@[node]@)
    }
}

impl Distance {
    /// The table holds the distances in `adj`.
    pub open spec fn describes(&self, adj: Seq<Seq<usize>>) -> bool {
        &&& self@.len() == adj.len()
        &&& forall|u: int| 0 <= u < adj.len() ==> (#[trigger] self@[u]).len() == adj.len()
        &&& forall|u: int, v: int|
            0 <= u < adj.len() && 0 <= v < adj.len() ==> is_hops(adj, u, v, #[trigger] self@[u][v])
    }

    /// Searches breadth-first from `source` and returns the distance to each
    /// node.
    fn row(outgoing: &Adjacency, source: usize) -> (row: Vec<Option<usize>>)
        requires
            in_bounds(outgoing@),
            source < outgoing@.len(),
        ensures
            row@.len() == outgoing@.len(),
            forall|v: int|
                0 <= v < outgoing@.len() ==> is_hops(outgoing@, source as int, v, #[trigger] row@[v]),
    {
        let ghost adj = outgoing@;
        let count = outgoing.len();
        let mut row: Vec<Option<usize>> = Vec::new();
        while row.len() < count
            invariant
                row@.len() <= count,
                forall|v: int| 0 <= v < row@.len() ==> #[trigger] row@[v] is None,
            decreases count - row@.len(),
        {
            row.push(None);
        }
        row[source] = Some(0);
        let mut queue: VecDeque<usize> = VecDeque::new();
        queue.push_back(source);
        let ghost mut label: Map<int, int> = map![source as int => 0int];
        let ghost mut level: int = 0;
        proof {
            lemma_bfs_init(adj, source as int);
            assert(as_ints(queue@) =~= seq![source as int]);
            lemma_int_range(0, count as int);
            assert(label.dom() =~= set![source as int]);
        }
        while queue.len() > 0
            invariant
                adj == outgoing@,
                count == adj.len(),
                row@.len() == count,
                bfs_inv(adj, source as int, label, as_ints(queue@), level, None),
                label.dom().finite(),
                label.dom().len() <= count,
                forall|x: int| #[trigger] label.dom().contains(x) ==> label[x] + 1 <= label.dom().len(),
                forall|x: int|
                    0 <= x < count ==> match #[trigger] row@[x] {
                        Some(k) => label.dom().contains(x) && label[x] == k,
                        None => !label.dom().contains(x),
                    },
            decreases 2 * (count - label.dom().len()) + queue@.len(),
        {
            let ghost waiting = as_ints(queue@);
            let ghost budget = 2 * (count - label.dom().len()) + queue@.len();
            let node = queue.pop_front().unwrap();
            proof {
                lemma_bfs_pop(adj, source as int, label, waiting, level);
                level = label[node as int];
                assert(as_ints(queue@) =~= waiting.subrange(1, waiting.len() as int));
                assert(waiting[0] == node);
            }
            let hops = match row[node] {
                Some(k) => k,
                None => 0,
            };
            let list = &outgoing[node];
            let mut at: usize = 0;
            while at < list.len()
                invariant
                    adj == outgoing@,
                    count == adj.len(),
                    row@.len() == count,
                    node < count,
                    list@ == adj[node as int],
                    at <= list@.len(),
                    hops == level,
                    bfs_inv(adj, source as int, label, as_ints(queue@), level, Some(node as int)),
                    label.dom().finite(),
                    label.dom().len() <= count,
                    forall|x: int| #[trigger]
                        label.dom().contains(x) ==> label[x] + 1 <= label.dom().len(),
                    forall|x: int|
                        0 <= x < count ==> match #[trigger] row@[x] {
                            Some(k) => label.dom().contains(x) && label[x] == k,
                            None => !label.dom().contains(x),
                        },
                    forall|j: int| 0 <= j < at ==> label.dom().contains(#[trigger] adj[node as int][j] as int),
                    2 * (count - label.dom().len()) + queue@.len() < budget,
                decreases list@.len() - at,
            {
                let neighbor = list[at];
                assert(adj[node as int][at as int] == neighbor);
                assert(has_edge(adj, node as int, neighbor as int));
                if row[neighbor].is_none() {
                    proof {
                        lemma_bfs_visit(
                            adj,
                            source as int,
                            label,
                            as_ints(queue@),
                            level,
                            node as int,
                            neighbor as int,
                        );
                        let wider = label.insert(neighbor as int, level + 1);
                        assert(wider.dom() =~= label.dom().insert(neighbor as int));
                        assert(wider.dom().subset_of(set_int_range(0, count as int))) by {
                            assert forall|x: int| wider.dom().contains(x) implies set_int_range(
                                0,
                                count as int,
                            ).contains(x) by {}
                        }
                        lemma_int_range(0, count as int);
                        lemma_len_subset(wider.dom(), set_int_range(0, count as int));
                        assert(as_ints(queue@.push(neighbor)) =~= as_ints(queue@).push(neighbor as int));
                        label = wider;
                    }
                    row[neighbor] = Some(hops + 1);
                    queue.push_back(neighbor);
                }
                at = at + 1;
            }
            proof {
                assert(settled(adj, label, node as int));
                lemma_bfs_finish(adj, source as int, label, as_ints(queue@), level, node as int);
            }
        }
        proof {
            assert(as_ints(queue@) =~= Seq::<int>::empty());
            lemma_bfs_done(adj, source as int, label, level);
        }
        row
    }

    /// Computes the table of a graph whose successor lists are `outgoing`.
    pub(crate) fn of(outgoing: &Adjacency) -> (distance: Self)
        requires
            in_bounds(outgoing@),
        ensures
            distance.describes(outgoing@),
    {
        let count = outgoing.len();
        let mut rows: Vec<Vec<Option<usize>>> = Vec::new();
        while rows.len() < count
            invariant
                count == outgoing@.len(),
                in_bounds(outgoing@),
                rows@.len() <= count,
                forall|u: int| 0 <= u < rows@.len() ==> (#[trigger] rows@[u])@.len() == count,
                forall|u: int, v: int|
                    0 <= u < rows@.len() && 0 <= v < count ==> is_hops(
                        outgoing@,
                        u,
                        v,
                        #[trigger] rows@[u]@[v],
                    ),
            decreases count - rows@.len(),
        {
            let row = Distance::row(outgoing, rows.len());
            rows.push(row);
        }
        Distance { rows }
    }

    /// Computes the table of the graph held by the builder, by a
    /// breadth-first search from every node.
    pub fn new<T, W>(builder: &Builder<T, W>) -> (distance: Self)
        requires
            builder.wf(),
        ensures
            distance.describes(builder.outgoing_view()),
    {
        proof {
            lemma_adjacency_of(builder.nodes().len(), builder.edges());
        }
        Distance::of(builder.successor_lists())
    }

    /// Returns the number of nodes.
    pub fn len(&self) -> (len: usize)
        ensures
            len == self@.len(),
    {
        self.rows.len()
    }

    /// Returns whether there are no nodes.
    pub fn is_empty(&self) -> (empty: bool)
        ensures
            empty == (self@.len() == 0),
    {
        self.rows.len() == 0
    }
}

impl Index<usize> for Distance {
    type Output = [Option<usize>];

    /// Returns the distances from the node to every node.
    fn index(&self, node: usize) -> (row: &[Option<usize>])
        ensures
            row@ == self@[node as int],
    {
        self.rows[node].as_slice()
    }
}

impl vstd::std_specs::core::IndexSpecImpl<usize> for Distance {
    open spec fn index_req(&self, node: &usize) -> bool {
        *node < self@.len()
    }
}

} // verus!
