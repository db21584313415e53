//! Graph algorithms related to ancestors.

use crate::algorithm::path::shortest_path_length;
use crate::graph::Graph;
use crate::relation::{connected, distance, lemma_distance_is, lemma_reaches_bounds,
    lemma_reaches_cases, reaches};
use crate::topology::Topology;
use crate::visited;
use crate::visitor::ancestors::{lemma_connected_transposed, Ancestors};
use crate::visitor::search::{depth_first, lemma_depth_first};
use ahash::RandomState;
use std::collections::HashSet;
use vstd::prelude::*;

verus! {

/// `candidate` is an ancestor of every one of `nodes`.
pub open spec fn is_common_ancestor(topology: &Topology, nodes: Seq<usize>, candidate: int) -> bool {
    forall|i: int| 0 <= i < nodes.len() ==> topology.is_ancestor(candidate, #[trigger] nodes[i] as int)
}

/// The lesser of two distances, where `None` stands for no path.
pub open spec fn nearer(a: Option<nat>, b: Option<nat>) -> Option<nat> {
    match (a, b) {
        (None, _) => b,
        (_, None) => a,
        (Some(x), Some(y)) => if x <= y {
            a
        } else {
            b
        },
    }
}

/// The least distance from `candidate` to one of `nodes`, or `None` where it
/// reaches none of them.
pub open spec fn closeness(adj: Seq<Seq<usize>>, candidate: int, nodes: Seq<usize>) -> Option<nat>
    decreases nodes.len(),
{
    if nodes.len() == 0 {
        None
    } else {
        nearer(
            closeness(adj, candidate, nodes.drop_last()),
            distance(adj, candidate, nodes.last() as int),
        )
    }
}

/// A distance as a natural number.
spec fn lift(hops: Option<usize>) -> Option<nat> {
    match hops {
        Some(k) => Some(k as nat),
        None => None,
    }
}

/// The candidates in the order in which they are looked at: the ancestors
/// of the first node, as a depth-first search finds them.
pub open spec fn candidates(topology: &Topology, nodes: Seq<usize>) -> Seq<usize> {
    depth_first(topology.incoming()@, nodes[0])
}

/// The candidate at position `i` comes before the one at position `j` where
/// it is closer to the nodes, or as close and not behind.
pub open spec fn precedes(
    adj: Seq<Seq<usize>>,
    nodes: Seq<usize>,
    order: Seq<usize>,
    i: int,
    j: int,
) -> bool {
    match (closeness(adj, order[i] as int, nodes), closeness(adj, order[j] as int, nodes)) {
        (Some(k), Some(l)) => k < l || (k == l && i <= j),
        _ => false,
    }
}

/// `found` is the common ancestor, at position `i` among the candidates,
/// that comes before every other.
pub open spec fn is_lowest(topology: &Topology, nodes: Seq<usize>, found: usize, i: int) -> bool {
    let order = candidates(topology, nodes);
    &&& 0 <= i < order.len()
    &&& order[i] == found
    &&& is_common_ancestor(topology, nodes, found as int)
    &&& forall|j: int|
        0 <= j < order.len() && is_common_ancestor(topology, nodes, #[trigger] order[j] as int)
            ==> precedes(topology.outgoing()@, nodes, order, i, j)
}

/// A candidate that reaches one of the nodes has a closeness.
proof fn lemma_closeness_some(adj: Seq<Seq<usize>>, candidate: int, nodes: Seq<usize>, i: int)
    requires
        0 <= i < nodes.len(),
        reaches(adj, candidate, nodes[i] as int),
    ensures
        closeness(adj, candidate, nodes) is Some,
    decreases nodes.len(),
{
    if i < nodes.len() - 1 {
        assert(nodes.drop_last()[i] == nodes[i]);
        lemma_closeness_some(adj, candidate, nodes.drop_last(), i);
    }
}

/// Collects the ancestors of a node into a set.
fn ancestor_set(topology: &Topology, node: usize) -> (set: HashSet<usize, RandomState>)
    requires
        topology.wf(),
        node < topology.count(),
    ensures
        forall|x: usize| set@.contains(x) <==> topology.is_ancestor(x as int, node as int),
{
    let list = ancestor_list(topology, node);
    let mut set: HashSet<usize, RandomState> = HashSet::default();
    let mut at: usize = 0;
    while at < list.len()
        invariant
            at <= list@.len(),
            forall|x: usize| set@.contains(x) <==> list@.take(at as int).contains(x),
        decreases list@.len() - at,
    {
        let ghost before = set@;
        visited::insert(&mut set, list[at]);
        proof {
            let front = list@.take(at as int);
            let more = list@.take(at + 1);
            assert forall|x: usize| set@.contains(x) <==> more.contains(x) by {
                if more.contains(x) {
                    let i = choose|i: int| 0 <= i < more.len() && more[i] == x;
                    if i < at {
                        assert(front[i] == x);
                    }
                }
                if front.contains(x) {
                    let i = choose|i: int| 0 <= i < front.len() && front[i] == x;
                    assert(more[i] == x);
                }
                if x == list@[at as int] {
                    assert(more[at as int] == x);
                }
            }
        }
        at = at + 1;
    }
    proof {
        assert(list@.take(at as int) =~= list@);
        lemma_depth_first(topology.incoming()@, node);
        assert forall|x: usize| set@.contains(x) <==> topology.is_ancestor(
            x as int,
            node as int,
        ) by {
            lemma_connected_transposed(
                topology.outgoing()@,
                topology.incoming()@,
                x as int,
                node as int,
            );
        }
    }
    set
}

/// Collects the ancestors of a node in the order in which its visitor hands
/// them out.
fn ancestor_list(topology: &Topology, node: usize) -> (list: Vec<usize>)
    requires
        topology.wf(),
        node < topology.count(),
    ensures
        list@ == depth_first(topology.incoming()@, node),
{
    let mut ancestors = Ancestors::new(topology, node);
    let mut list: Vec<usize> = Vec::new();
    let mut done = false;
    let ghost order = depth_first(topology.incoming()@, node);
    while !done
        invariant
            ancestors.wf(),
            list@ + ancestors.coming() == order,
            done ==> ancestors.coming().len() == 0,
        decreases ancestors.coming().len() + if done { 0int } else { 1int },
    {
        let ghost before = list@;
        let ghost coming = ancestors.coming();
        match ancestors.next() {
            Some(ancestor) => {
                list.push(ancestor);
                assert(list@ + ancestors.coming() =~= before + coming);
            },
            None => {
                done = true;
            },
        }
    }
    assert(list@ + ancestors.coming() =~= list@);
    list
}

/// Returns the least distance from `candidate` to one of `nodes`.
fn nearest<T>(graph: &Graph<T>, candidate: usize, nodes: &[usize]) -> (key: Option<usize>)
    requires
        graph.wf(),
        candidate < graph.nodes().len(),
    ensures
        lift(key) == closeness(graph.topology().outgoing()@, candidate as int, nodes@),
{
    let ghost adj = graph.topology().outgoing()@;
    let mut key: Option<usize> = None;
    let mut at: usize = 0;
    assert(nodes@.take(0) =~= Seq::<usize>::empty());
    while at < nodes.len()
        invariant
            graph.wf(),
            candidate < graph.nodes().len(),
            adj == graph.topology().outgoing()@,
            at <= nodes@.len(),
            lift(key) == closeness(adj, candidate as int, nodes@.take(at as int)),
        decreases nodes@.len() - at,
    {
        let length = shortest_path_length(graph, candidate, nodes[at]);
        proof {
            let more = nodes@.take(at + 1);
            assert(more.drop_last() =~= nodes@.take(at as int));
            assert(more.last() == nodes@[at as int]);
            match length {
                Some(k) => {
                    lemma_distance_is(adj, candidate as int, nodes@[at as int] as int, k as int);
                },
                None => {},
            }
            assert(lift(length) == distance(adj, candidate as int, nodes@[at as int] as int));
        }
        key = match (key, length) {
            (None, _) => length,
            (_, None) => key,
            (Some(x), Some(y)) => if x <= y {
                key
            } else {
                length
            },
        };
        at = at + 1;
    }
    assert(nodes@.take(at as int) =~= nodes@);
    key
}

/// Returns the lowest common ancestor of the given nodes in the graph.
///
/// With fewer than two nodes, or where no node is an ancestor of them all,
/// there is none. Else it is the common ancestor with the least distance to
/// one of the nodes, and among several of these the one that comes first
/// among the ancestors of the first node, in the order of their visitor.
pub fn lowest_common_ancestor<T>(graph: &Graph<T>, nodes: &[usize]) -> (ancestor: Option<usize>)
    requires
        graph.wf(),
        forall|i: int| 0 <= i < nodes@.len() ==> (#[trigger] nodes@[i]) < graph.nodes().len(),
    ensures
        nodes@.len() < 2 ==> ancestor is None,
        nodes@.len() >= 2 ==> match ancestor {
            Some(found) => exists|i: int| #[trigger] is_lowest(graph.topology(), nodes@, found, i),
            None => forall|other: int|
                !#[trigger] is_common_ancestor(graph.topology(), nodes@, other),
        },
{
    let topology = graph.topology();
    let ghost adj = topology.outgoing()@;

    // If there are fewer than two nodes, we return immediately
    if nodes.len() < 2 {
        return None;
    }

    // Collect all ancestors for each node
    let mut sets: Vec<HashSet<usize, RandomState>> = Vec::new();
    let mut at: usize = 0;
    while at < nodes.len()
        invariant
            graph.wf(),
            topology == graph.topology(),
            forall|i: int| 0 <= i < nodes@.len() ==> (#[trigger] nodes@[i]) < graph.nodes().len(),
            at <= nodes@.len(),
            sets@.len() == at,
            forall|i: int, x: usize|
                0 <= i < at ==> ((#[trigger] sets@[i])@.contains(x) <==> #[trigger] topology.is_ancestor(
                    x as int,
                    nodes@[i] as int,
                )),
        decreases nodes@.len() - at,
    {
        let set = ancestor_set(topology, nodes[at]);
        sets.push(set);
        at = at + 1;
    }

    // Find the common ancestor with the shortest path to any of the nodes,
    // among the ancestors of the first node
    let list = ancestor_list(topology, nodes[0]);
    let ghost order = candidates(topology, nodes@);
    let count = graph.len();
    proof {
        lemma_depth_first(topology.incoming()@, nodes@[0]);
        assert forall|i: int| 0 <= i < order.len() implies (#[trigger] order[i]) < count by {
            assert(order.contains(order[i]));
            assert(connected(topology.incoming()@, nodes@[0] as int, order[i] as int));
            lemma_reaches_cases(topology.incoming()@, nodes@[0] as int, order[i] as int);
            lemma_reaches_bounds(topology.incoming()@, nodes@[0] as int, order[i] as int);
        }
    }
    let mut best: Option<(usize, Option<usize>)> = None;
    let ghost mut position: int = 0;
    let mut next: usize = 0;
    while next < list.len()
        invariant
            graph.wf(),
            topology == graph.topology(),
            adj == topology.outgoing()@,
            count == graph.nodes().len(),
            nodes@.len() >= 2,
            forall|i: int| 0 <= i < nodes@.len() ==> (#[trigger] nodes@[i]) < graph.nodes().len(),
            sets@.len() == nodes@.len(),
            forall|i: int, x: usize|
                0 <= i < nodes@.len() ==> ((#[trigger] sets@[i])@.contains(x) <==> #[trigger] topology.is_ancestor(
                    x as int,
                    nodes@[i] as int,
                )),
            list@ == order,
            order == candidates(topology, nodes@),
            forall|i: int| 0 <= i < order.len() ==> (#[trigger] order[i]) < count,
            next <= order.len(),
            match best {
                Some((found, key)) => {
                    &&& 0 <= position < next
                    &&& order[position] == found
                    &&& is_common_ancestor(topology, nodes@, found as int)
                    &&& lift(key) == closeness(adj, found as int, nodes@)
                    &&& forall|j: int|
                        0 <= j < next && is_common_ancestor(
                            topology,
                            nodes@,
                            #[trigger] order[j] as int,
                        ) ==> precedes(adj, nodes@, order, position, j)
                },
                None => forall|j: int|
                    0 <= j < next ==> !is_common_ancestor(
                        topology,
                        nodes@,
                        #[trigger] order[j] as int,
                    ),
            },
        decreases order.len() - next,
    {
        let candidate = list[next];
        let mut common = true;
        let mut index: usize = 0;
        while index < sets.len() && common
            invariant
                sets@.len() == nodes@.len(),
                index <= sets@.len(),
                forall|i: int, x: usize|
                    0 <= i < nodes@.len() ==> ((#[trigger] sets@[i])@.contains(x) <==> #[trigger] topology.is_ancestor(
                        x as int,
                        nodes@[i] as int,
                    )),
                common ==> forall|i: int|
                    0 <= i < index ==> topology.is_ancestor(candidate as int, #[trigger] nodes@[i] as int),
                !common ==> !is_common_ancestor(topology, nodes@, candidate as int),
            decreases sets@.len() - index + if common { 1int } else { 0int },
        {
            if !visited::contains(&sets[index], candidate) {
                common = false;
                assert(!topology.is_ancestor(candidate as int, nodes@[index as int] as int));
            } else {
                assert(sets@[index as int]@.contains(candidate));
                index = index + 1;
            }
        }
        if common {
            assert(is_common_ancestor(topology, nodes@, candidate as int));
            let key = nearest(graph, candidate, nodes);
            proof {
                assert(topology.is_ancestor(candidate as int, nodes@[0] as int));
                lemma_reaches_cases(adj, candidate as int, nodes@[0] as int);
                lemma_closeness_some(adj, candidate as int, nodes@, 0);
            }
            let better = match best {
                None => true,
                Some((_, None)) => false,
                Some((_, Some(least))) => match key {
                    None => true,
                    Some(k) => k < least,
                },
            };
            if better {
                proof {
                    assert forall|j: int|
                        0 <= j < next + 1 && is_common_ancestor(
                            topology,
                            nodes@,
                            #[trigger] order[j] as int,
                        ) implies precedes(adj, nodes@, order, next as int, j) by {
                        if j < next {
                            match best {
                                Some((found, _)) => {
                                    assert(precedes(adj, nodes@, order, position, j));
                                },
                                None => {},
                            }
                        }
                    }
                    position = next as int;
                }
                best = Some((candidate, key));
            } else {
                proof {
                    match best {
                        Some((found, _)) => {
                            assert(is_common_ancestor(topology, nodes@, order[position] as int));
                        },
                        None => {},
                    }
                }
            }
        }
        next = next + 1;
    }
    proof {
        assert forall|other: int| #[trigger]
            is_common_ancestor(topology, nodes@, other) implies 0 <= other <= usize::MAX
            && order.contains(other as usize) by {
            assert(topology.is_ancestor(other, nodes@[0] as int));
            lemma_connected_transposed(adj, topology.incoming()@, other, nodes@[0] as int);
        }
        if best is None {
            assert forall|other: int| !#[trigger] is_common_ancestor(topology, nodes@, other) by {
                if is_common_ancestor(topology, nodes@, other) {
                    let j = choose|j: int| 0 <= j < order.len() && order[j] == other as usize;
                    assert(is_common_ancestor(topology, nodes@, order[j] as int));
                }
            }
        }
    }
    let ancestor = match best {
        Some((found, _)) => Some(found),
        None => None,
    };
    proof {
        if let Some(found) = ancestor {
            assert(is_lowest(topology, nodes@, found, position));
        }
    }
    ancestor
}

} // verus!
