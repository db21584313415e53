//! Graph algorithms related to paths.

use crate::breadth::{bfs_inv, lemma_bfs_done, lemma_bfs_finish, lemma_bfs_init, lemma_bfs_pop,
    lemma_bfs_visit, lemma_reaches_in_some, settled};
use crate::graph::Graph;
use crate::relation::{acyclic, connected, distance, has_edge, is_distance, lemma_distance_is,
    lemma_edge_connects, lemma_reaches_cases, lemma_reaches_trans, lemma_walk_single, reaches_in};
use crate::topology::Topology;
use crate::topology::distance::is_hops;
use crate::visited;
use ahash::RandomState;
use std::collections::HashSet;
use std::collections::VecDeque;
use vstd::prelude::*;
use vstd::set_lib::{lemma_int_range, lemma_len_subset, set_int_range};

verus! {

/// The nodes of a queue of nodes and lengths.
spec fn firsts(queue: Seq<(usize, usize)>) -> Seq<int> {
    Seq::new(queue.len(), |i: int| queue[i].0 as int)
}

/// Returns the length of the shortest path between two nodes in the graph:
/// the least number of edges that lead from `source` to `target`, or `None`
/// where no path leads there.
pub fn shortest_path_length<T>(graph: &Graph<T>, source: usize, target: usize) -> (length: Option<
    usize,
>)
    requires
        graph.wf(),
        source < graph.nodes().len(),
    ensures
        is_hops(graph.topology().outgoing()@, source as int, target as int, length),
        source == target ==> length == Some(0usize),
        length is None <==> !(target == source || graph.topology().is_descendant(
            target as int,
            source as int,
        )),
{
    proof {
        lemma_reaches_cases(graph.topology().outgoing()@, source as int, target as int);
        assert(graph.topology().count() == graph.nodes().len());
    }
    let outgoing = graph.topology().outgoing();
    let ghost adj = outgoing@;
    let count = outgoing.len();

    // Initialize set to track visited nodes
    let mut visited: HashSet<usize, RandomState> = HashSet::default();

    // Perform a breadth-first search, starting at the source node. The
    // nodes leave the queue in the order of their distance from the source,
    // so the target is first met on a shortest path.
    let mut queue: VecDeque<(usize, usize)> = VecDeque::new();
    queue.push_back((source, 0));
    let ghost mut label: Map<int, int> = map![source as int => 0int];
    let ghost mut level: int = 0;
    proof {
        lemma_bfs_init(adj, source as int);
        assert(firsts(queue@) =~= seq![source as int]);
        lemma_int_range(0, count as int);
        assert(label.dom() =~= set![source as int]);
        assert(firsts(queue@)[0] == source);
    }
    while queue.len() > 0
        invariant
            graph.wf(),
            outgoing == graph.topology().outgoing(),
            adj == outgoing@,
            count == adj.len(),
            source < count,
            bfs_inv(adj, source as int, label, firsts(queue@), level, None),
            forall|i: int| 0 <= i < queue@.len() ==> label[(#[trigger] queue@[i]).0 as int] == queue@[i].1,
            label.dom().finite(),
            label.dom().len() <= count,
            forall|x: int| #[trigger] label.dom().contains(x) ==> label[x] + 1 <= label.dom().len(),
            forall|x: int| #[trigger]
                label.dom().contains(x) <==> x == source || (0 <= x <= usize::MAX
                    && visited@.contains(x as usize)),
            label.dom().contains(target as int) ==> firsts(queue@).contains(target as int),
        decreases 2 * (count - label.dom().len()) + queue@.len(),
    {
        let ghost waiting = firsts(queue@);
        let ghost pairs = queue@;
        let ghost budget = 2 * (count - label.dom().len()) + queue@.len();
        let (node, len) = queue.pop_front().unwrap();
        proof {
            lemma_bfs_pop(adj, source as int, label, waiting, level);
            level = label[node as int];
            assert(firsts(queue@) =~= waiting.subrange(1, waiting.len() as int));
            assert(waiting[0] == node);
            assert(pairs[0] == (node, len));
            assert forall|i: int| 0 <= i < queue@.len() implies label[(#[trigger] queue@[i]).0 as int]
                == queue@[i].1 by {
                assert(queue@[i] == pairs[i + 1]);
            }
        }
        if node == target {
            proof {
                if source == target {
                    lemma_walk_single(adj, source as int);
                }
                lemma_reaches_in_some(adj, source as int, target as int);
            }
            return Some(len);
        }
        proof {
            if label.dom().contains(target as int) {
                let i = choose|i: int| 0 <= i < waiting.len() && waiting[i] == target as int;
                assert(firsts(queue@)[i - 1] == target as int);
            }
        }

        // Add unvisited descendants to the queue, and mark them as visited
        let list = &outgoing[node];
        let mut at: usize = 0;
        while at < list.len()
            invariant
                graph.wf(),
                outgoing == graph.topology().outgoing(),
                adj == outgoing@,
                count == adj.len(),
                source < count,
                node < count,
                list@ == adj[node as int],
                at <= list@.len(),
                len == level,
                bfs_inv(adj, source as int, label, firsts(queue@), level, Some(node as int)),
                forall|i: int|
                    0 <= i < queue@.len() ==> label[(#[trigger] queue@[i]).0 as int] == queue@[i].1,
                label.dom().finite(),
                label.dom().len() <= count,
                forall|x: int| #[trigger]
                    label.dom().contains(x) ==> label[x] + 1 <= label.dom().len(),
                forall|x: int| #[trigger]
                    label.dom().contains(x) <==> x == source || (0 <= x <= usize::MAX
                        && visited@.contains(x as usize)),
                label.dom().contains(target as int) ==> firsts(queue@).contains(target as int),
                forall|j: int| 0 <= j < at ==> label.dom().contains(#[trigger] adj[node as int][j] as int),
                2 * (count - label.dom().len()) + queue@.len() < budget,
            decreases list@.len() - at,
        {
            let descendant = list[at];
            let ghost seen = visited@;
            let ghost lined = queue@;
            let ghost narrow = label;
            proof {
                assert(adj[node as int][at as int] == descendant);
                assert(has_edge(adj, node as int, descendant as int));
                assert(label.dom().contains(node as int));
                assert(reaches_in(adj, source as int, node as int, label[node as int]));
                lemma_reaches_in_some(adj, source as int, node as int);
                lemma_edge_connects(adj, node as int, descendant as int);
                lemma_reaches_trans(adj, source as int, node as int, descendant as int);
                assert(acyclic(adj));
                assert(!connected(adj, source as int, source as int));
                assert(descendant != source);
            }
            if visited::insert(&mut visited, descendant) {
                proof {
                    assert(!label.dom().contains(descendant as int));
                    lemma_bfs_visit(
                        adj,
                        source as int,
                        label,
                        firsts(lined),
                        level,
                        node as int,
                        descendant as int,
                    );
                    let wider = label.insert(descendant as int, level + 1);
                    assert(wider.dom() =~= label.dom().insert(descendant as int));
                    assert(wider.dom().subset_of(set_int_range(0, count as int))) by {
                        assert forall|x: int| wider.dom().contains(x) implies set_int_range(
                            0,
                            count as int,
                        ).contains(x) by {}
                    }
                    lemma_int_range(0, count as int);
                    lemma_len_subset(wider.dom(), set_int_range(0, count as int));
                    label = wider;
                }
                queue.push_back((descendant, len + 1));
                proof {
                    assert(queue@ == lined.push((descendant, (len + 1) as usize)));
                    assert(firsts(queue@) =~= firsts(lined).push(descendant as int));
                    assert forall|i: int| 0 <= i < queue@.len() implies label[(#[trigger] queue@[i]).0 as int]
                        == queue@[i].1 by {
                        if i < lined.len() {
                            assert(queue@[i] == lined[i]);
                            assert(narrow.dom().contains(firsts(lined)[i]));
                            assert(narrow[lined[i].0 as int] == lined[i].1);
                        }
                    }
                    if label.dom().contains(target as int) {
                        if target == descendant {
                            assert(firsts(queue@)[lined.len() as int] == target as int);
                        } else {
                            let i = choose|i: int|
                                0 <= i < firsts(lined).len() && firsts(lined)[i] == target as int;
                            assert(firsts(queue@)[i] == target as int);
                        }
                    }
                }
            } else {
                assert(visited@ =~= seen);
            }
            at = at + 1;
        }
        proof {
            assert(settled(adj, label, node as int));
            lemma_bfs_finish(adj, source as int, label, firsts(queue@), level, node as int);
        }
    }

    // No path between nodes found
    proof {
        assert(firsts(queue@) =~= Seq::<int>::empty());
        lemma_bfs_done(adj, source as int, label, level);
    }
    None
}

/// Every node is at distance 0 from itself, and a node has no distance from
/// another exactly where it is neither that node nor one of its descendants.
pub proof fn lemma_distance_descendants(topology: &Topology, source: int, target: int)
    requires
        topology.wf(),
        0 <= source < topology.count(),
    ensures
        distance(topology.outgoing()@, source, source) == Some(0nat),
        distance(topology.outgoing()@, source, target) is None <==> !(target == source
            || topology.is_descendant(target, source)),
{
    let out = topology.outgoing()@;
    lemma_reaches_cases(out, source, target);
    lemma_walk_single(out, source);
    assert(is_distance(out, source, source, 0));
    lemma_distance_is(out, source, source, 0);
}

} // verus!
