//! Visitor for paths between two nodes.

use crate::graph::Graph;
use crate::relation::{acyclic, as_walk, has_edge, in_bounds, is_walk, lemma_walk_bound,
    lemma_walk_part, lemma_walk_prepend, lemma_walk_push, lemma_walk_simple, lemma_walk_single,
    simple};
use vstd::seq_lib::lemma_no_dup_in_concat;
use crate::topology::Topology;
use vstd::prelude::*;

verus! {

/// Each of `paths` with `prefix` in front of it.
pub open spec fn prepend_all(prefix: Seq<usize>, paths: Seq<Seq<usize>>) -> Seq<Seq<usize>> {
    Seq::new(paths.len(), |i: int| prefix + paths[i])
}

/// The paths of at most `fuel` nodes that lead from `node` to `target`, in
/// the order of a depth-first search that follows the successors of each node
/// in their order.
pub open spec fn paths_from(adj: Seq<Seq<usize>>, node: usize, target: usize, fuel: nat) -> Seq<
    Seq<usize>,
>
    decreases fuel, 0nat,
{
    if fuel == 0 || node >= adj.len() {
        Seq::empty()
    } else if node == target {
        seq![seq![node]]
    } else {
        prepend_all(seq![node], paths_through(adj, adj[node as int], target, (fuel - 1) as nat))
    }
}

/// The paths of at most `fuel` nodes that lead from one of `nodes` to
/// `target`: first those from the first node, then those from the next.
pub open spec fn paths_through(
    adj: Seq<Seq<usize>>,
    nodes: Seq<usize>,
    target: usize,
    fuel: nat,
) -> Seq<Seq<usize>>
    decreases fuel, 1 + nodes.len(),
{
    if nodes.len() == 0 {
        Seq::empty()
    } else {
        paths_from(adj, nodes[0], target, fuel) + paths_through(
            adj,
            nodes.drop_first(),
            target,
            fuel,
        )
    }
}

/// All paths from `source` to `target`, in the order in which a depth-first
/// search finds them.
pub open spec fn all_paths(adj: Seq<Seq<usize>>, source: usize, target: usize) -> Seq<Seq<usize>> {
    paths_from(adj, source, target, adj.len())
}

/// The number of nodes that a search from `node` with `fuel` takes off its
/// stack.
spec fn work_from(adj: Seq<Seq<usize>>, node: usize, target: usize, fuel: nat) -> nat
    decreases fuel, 0nat,
{
    if fuel == 0 || node >= adj.len() || node == target {
        1
    } else {
        1 + work_through(adj, adj[node as int], target, (fuel - 1) as nat)
    }
}

/// The number of nodes that the searches from `nodes` take off the stack.
spec fn work_through(adj: Seq<Seq<usize>>, nodes: Seq<usize>, target: usize, fuel: nat) -> nat
    decreases fuel, 1 + nodes.len(),
{
    if nodes.len() == 0 {
        0
    } else {
        work_from(adj, nodes[0], target, fuel) + work_through(adj, nodes.drop_first(), target, fuel)
    }
}

/// The paths that a search with the given stack and path buffer has still to
/// find: those of the frame on top first.
spec fn pending(
    adj: Seq<Seq<usize>>,
    target: usize,
    stack: Seq<(usize, usize)>,
    path: Seq<usize>,
) -> Seq<Seq<usize>>
    decreases stack.len(),
{
    if stack.len() == 0 {
        Seq::empty()
    } else {
        let (node, depth) = stack.last();
        prepend_all(
            path.take(depth as int),
            paths_from(adj, node, target, (adj.len() - depth) as nat),
        ) + pending(adj, target, stack.drop_last(), path)
    }
}

/// The number of nodes that a search with the given stack has still to take
/// off it.
spec fn stack_work(adj: Seq<Seq<usize>>, target: usize, stack: Seq<(usize, usize)>) -> nat
    decreases stack.len(),
{
    if stack.len() == 0 {
        0
    } else {
        let (node, depth) = stack.last();
        work_from(adj, node, target, (adj.len() - depth) as nat) + stack_work(
            adj,
            target,
            stack.drop_last(),
        )
    }
}

/// The frames are nodes, each at a depth within the path buffer, under which
/// the buffer and the node make a walk; no frame lies deeper than one above
/// it.
spec fn frames_ok(adj: Seq<Seq<usize>>, stack: Seq<(usize, usize)>, path: Seq<usize>) -> bool {
    &&& forall|k: int|
        0 <= k < stack.len() ==> {
            let frame = #[trigger] stack[k];
            &&& frame.0 < adj.len()
            &&& frame.1 <= path.len()
            &&& is_walk(adj, as_walk(path.take(frame.1 as int).push(frame.0)))
        }
    &&& forall|i: int, j: int|
        0 <= i <= j < stack.len() ==> (#[trigger] stack[i]).1 <= (#[trigger] stack[j]).1
}

/// What a buffer holds beyond the depth of every frame does not matter.
proof fn lemma_pending_prefix(
    adj: Seq<Seq<usize>>,
    target: usize,
    stack: Seq<(usize, usize)>,
    path: Seq<usize>,
    other: Seq<usize>,
    depth: int,
)
    requires
        forall|k: int| 0 <= k < stack.len() ==> (#[trigger] stack[k]).1 <= depth,
        0 <= depth <= path.len(),
        depth <= other.len(),
        path.take(depth) == other.take(depth),
    ensures
        pending(adj, target, stack, path) == pending(adj, target, stack, other),
        frames_ok(adj, stack, path) ==> frames_ok(adj, stack, other),
    decreases stack.len(),
{
    if stack.len() > 0 {
        let below = stack.drop_last();
        assert forall|k: int| 0 <= k < below.len() implies (#[trigger] below[k]).1 <= depth by {
            assert(below[k] == stack[k]);
        }
        lemma_pending_prefix(adj, target, below, path, other, depth);
        let d = stack.last().1 as int;
        assert(stack[stack.len() - 1].1 <= depth);
        assert(path.take(d) =~= path.take(depth).take(d));
        assert(other.take(d) =~= other.take(depth).take(d));
    }
    if frames_ok(adj, stack, path) {
        assert forall|k: int| 0 <= k < stack.len() implies {
            let frame = #[trigger] stack[k];
            &&& frame.0 < adj.len()
            &&& frame.1 <= other.len()
            &&& is_walk(adj, as_walk(other.take(frame.1 as int).push(frame.0)))
        } by {
            let d = stack[k].1 as int;
            assert(path.take(d) =~= path.take(depth).take(d));
            assert(other.take(d) =~= other.take(depth).take(d));
        }
    }
}

/// Putting a prefix in front goes through concatenation.
proof fn lemma_prepend_concat(prefix: Seq<usize>, a: Seq<Seq<usize>>, b: Seq<Seq<usize>>)
    ensures
        prepend_all(prefix, a + b) == prepend_all(prefix, a) + prepend_all(prefix, b),
{
    assert(prepend_all(prefix, a + b) =~= prepend_all(prefix, a) + prepend_all(prefix, b));
}

/// Putting two prefixes in front, one after the other, is putting their
/// concatenation in front.
proof fn lemma_prepend_twice(first: Seq<usize>, second: Seq<usize>, paths: Seq<Seq<usize>>)
    ensures
        prepend_all(first, prepend_all(second, paths)) == prepend_all(first + second, paths),
{
    assert forall|i: int| 0 <= i < paths.len() implies first + (second + paths[i]) == (first
        + second) + paths[i] by {
        assert(first + (second + paths[i]) =~= (first + second) + paths[i]);
    }
    assert(prepend_all(first, prepend_all(second, paths)) =~= prepend_all(first + second, paths));
}

/// `path` leads from `node` to `target` along edges, in at most `fuel` nodes.
spec fn leads(adj: Seq<Seq<usize>>, path: Seq<usize>, node: usize, target: usize, fuel: nat) -> bool {
    &&& 1 <= path.len() <= fuel
    &&& path[0] == node
    &&& path[path.len() - 1] == target
    &&& is_walk(adj, as_walk(path))
}

/// Every path found from a node leads from it to the target.
proof fn lemma_paths_from_sound(
    adj: Seq<Seq<usize>>,
    node: usize,
    target: usize,
    fuel: nat,
    i: int,
)
    requires
        in_bounds(adj),
        0 <= i < paths_from(adj, node, target, fuel).len(),
    ensures
        leads(adj, paths_from(adj, node, target, fuel)[i], node, target, fuel),
    decreases fuel, 0nat,
{
    if node == target {
        lemma_walk_single(adj, node as int);
        assert(as_walk(seq![node]) =~= seq![node as int]);
    } else {
        let less = (fuel - 1) as nat;
        let through = paths_through(adj, adj[node as int], target, less);
        lemma_paths_through_sound(adj, adj[node as int], target, less, i);
        let rest = through[i];
        let path = seq![node] + rest;
        assert(paths_from(adj, node, target, fuel)[i] == path);
        let j = choose|j: int| 0 <= j < adj[node as int].len() && adj[node as int][j] == rest[0];
        assert(has_edge(adj, node as int, as_walk(rest)[0]));
        lemma_walk_prepend(adj, node as int, as_walk(rest));
        assert(as_walk(path) =~= seq![node as int] + as_walk(rest));
    }
}

/// Every path found from one of `nodes` leads from one of them to the
/// target.
proof fn lemma_paths_through_sound(
    adj: Seq<Seq<usize>>,
    nodes: Seq<usize>,
    target: usize,
    fuel: nat,
    i: int,
)
    requires
        in_bounds(adj),
        0 <= i < paths_through(adj, nodes, target, fuel).len(),
    ensures
        nodes.contains(paths_through(adj, nodes, target, fuel)[i][0]),
        leads(
            adj,
            paths_through(adj, nodes, target, fuel)[i],
            paths_through(adj, nodes, target, fuel)[i][0],
            target,
            fuel,
        ),
    decreases fuel, 1 + nodes.len(),
{
    let first = paths_from(adj, nodes[0], target, fuel);
    let others = paths_through(adj, nodes.drop_first(), target, fuel);
    if i < first.len() {
        lemma_paths_from_sound(adj, nodes[0], target, fuel, i);
        assert(nodes.contains(nodes[0]));
    } else {
        lemma_paths_through_sound(adj, nodes.drop_first(), target, fuel, i - first.len());
        let head = others[i - first.len()][0];
        let j = choose|j: int| 0 <= j < nodes.drop_first().len() && nodes.drop_first()[j] == head;
        assert(nodes[j + 1] == head);
    }
}

/// What is found from one of `nodes` is found from `nodes`.
proof fn lemma_paths_through_holds(
    adj: Seq<Seq<usize>>,
    nodes: Seq<usize>,
    target: usize,
    fuel: nat,
    j: int,
    path: Seq<usize>,
)
    requires
        0 <= j < nodes.len(),
        paths_from(adj, nodes[j], target, fuel).contains(path),
    ensures
        paths_through(adj, nodes, target, fuel).contains(path),
    decreases nodes.len(),
{
    let first = paths_from(adj, nodes[0], target, fuel);
    let others = paths_through(adj, nodes.drop_first(), target, fuel);
    let all = paths_through(adj, nodes, target, fuel);
    if j == 0 {
        let i = choose|i: int| 0 <= i < first.len() && first[i] == path;
        assert(all[i] == path);
    } else {
        assert(nodes.drop_first()[j - 1] == nodes[j]);
        lemma_paths_through_holds(adj, nodes.drop_first(), target, fuel, j - 1, path);
        let i = choose|i: int| 0 <= i < others.len() && others[i] == path;
        assert(all[first.len() + i] == path);
    }
}

/// Every path that leads from a node to the target, and meets the target
/// at its end only, is found.
proof fn lemma_paths_from_complete(adj: Seq<Seq<usize>>, path: Seq<usize>, target: usize, fuel: nat)
    requires
        path.len() >= 1,
        leads(adj, path, path[0], target, fuel),
        forall|i: int| 0 <= i < path.len() - 1 ==> path[i] != target,
    ensures
        paths_from(adj, path[0], target, fuel).contains(path),
    decreases path.len(),
{
    let node = path[0];
    let found = paths_from(adj, node, target, fuel);
    assert(as_walk(path)[0] == node);
    assert(node < adj.len());
    if node == target {
        assert(path.len() == 1);
        assert(path =~= seq![node]);
        assert(found[0] == path);
    } else {
        let less = (fuel - 1) as nat;
        let rest = path.drop_first();
        let walk = as_walk(path);
        lemma_walk_part(adj, walk, 1, walk.len() as int);
        assert(as_walk(rest) =~= walk.subrange(1, walk.len() as int));
        assert forall|i: int| 0 <= i < rest.len() - 1 implies rest[i] != target by {
            assert(rest[i] == path[i + 1]);
        }
        assert(rest[rest.len() - 1] == path[path.len() - 1]);
        lemma_paths_from_complete(adj, rest, target, less);
        assert(has_edge(adj, walk[0], walk[0int + 1]));
        let j = choose|j: int| 0 <= j < adj[node as int].len() && #[trigger] adj[node as int][j] == walk[1];
        assert(adj[node as int][j] == rest[0]);
        lemma_paths_through_holds(adj, adj[node as int], target, less, j, rest);
        let through = paths_through(adj, adj[node as int], target, less);
        let i = choose|i: int| 0 <= i < through.len() && through[i] == rest;
        assert(found[i] == seq![node] + rest);
        assert(seq![node] + rest =~= path);
    }
}

/// No path is found twice from a node.
proof fn lemma_paths_from_distinct(adj: Seq<Seq<usize>>, node: usize, target: usize, fuel: nat)
    requires
        in_bounds(adj),
        simple(adj),
    ensures
        paths_from(adj, node, target, fuel).no_duplicates(),
    decreases fuel, 0nat,
{
    let found = paths_from(adj, node, target, fuel);
    if fuel == 0 || node >= adj.len() || node == target {
    } else {
        let less = (fuel - 1) as nat;
        let through = paths_through(adj, adj[node as int], target, less);
        lemma_paths_through_distinct(adj, adj[node as int], target, less);
        assert forall|i: int, j: int|
            0 <= i < found.len() && 0 <= j < found.len() && i != j implies found[i] != found[j] by {
            if found[i] == found[j] {
                assert((seq![node] + through[i]).drop_first() =~= through[i]);
                assert((seq![node] + through[j]).drop_first() =~= through[j]);
            }
        }
    }
}

/// No path is found twice from nodes that are all different.
proof fn lemma_paths_through_distinct(
    adj: Seq<Seq<usize>>,
    nodes: Seq<usize>,
    target: usize,
    fuel: nat,
)
    requires
        in_bounds(adj),
        simple(adj),
        nodes.no_duplicates(),
    ensures
        paths_through(adj, nodes, target, fuel).no_duplicates(),
    decreases fuel, 1 + nodes.len(),
{
    if nodes.len() > 0 {
        let first = paths_from(adj, nodes[0], target, fuel);
        let others = paths_through(adj, nodes.drop_first(), target, fuel);
        lemma_paths_from_distinct(adj, nodes[0], target, fuel);
        assert(nodes.drop_first().no_duplicates()) by {
            assert forall|i: int, j: int|
                0 <= i < nodes.drop_first().len() && 0 <= j < nodes.drop_first().len() && i
                    != j implies nodes.drop_first()[i] != nodes.drop_first()[j] by {
                assert(nodes.drop_first()[i] == nodes[i + 1]);
                assert(nodes.drop_first()[j] == nodes[j + 1]);
            }
        }
        lemma_paths_through_distinct(adj, nodes.drop_first(), target, fuel);
        assert forall|i: int, j: int| 0 <= i < first.len() && 0 <= j < others.len() implies first[i]
            != others[j] by {
            lemma_paths_from_sound(adj, nodes[0], target, fuel, i);
            lemma_paths_through_sound(adj, nodes.drop_first(), target, fuel, j);
            let head = others[j][0];
            let k = choose|k: int| 0 <= k < nodes.drop_first().len() && nodes.drop_first()[k] == head;
            assert(nodes[k + 1] == head);
        }
        lemma_no_dup_in_concat(first, others);
    }
}

/// The paths of a directed acyclic graph from `source` to `target` are the
/// sequences of nodes that start at `source`, end at `target` and follow an
/// edge at each step; each of them occurs once among `all_paths`.
pub proof fn lemma_all_paths(topology: &Topology, source: usize, target: usize, path: Seq<usize>)
    requires
        topology.wf(),
    ensures
        all_paths(topology.outgoing()@, source, target).contains(path) <==> (path.len() >= 1
            && path[0] == source && path[path.len() - 1] == target && is_walk(
            topology.outgoing()@,
            as_walk(path),
        )),
        all_paths(topology.outgoing()@, source, target).no_duplicates(),
{
    let adj = topology.outgoing()@;
    let all = all_paths(adj, source, target);
    lemma_paths_from_distinct(adj, source, target, adj.len());
    if all.contains(path) {
        let i = choose|i: int| 0 <= i < all.len() && all[i] == path;
        lemma_paths_from_sound(adj, source, target, adj.len(), i);
    }
    if path.len() >= 1 && path[0] == source && path[path.len() - 1] == target && is_walk(
        adj,
        as_walk(path),
    ) {
        let walk = as_walk(path);
        lemma_walk_bound(adj, walk);
        lemma_walk_simple(adj, walk);
        assert forall|i: int| 0 <= i < path.len() - 1 implies path[i] != target by {
            assert(walk[i] == path[i]);
            assert(walk[path.len() - 1] == path[path.len() - 1]);
        }
        lemma_paths_from_complete(adj, path, target, adj.len());
    }
}

/// Visitor for paths between two nodes: hands out every path once, in the
/// order of a depth-first search.
pub struct Paths<'a> {
    topology: &'a Topology,
    target: usize,
    stack: Vec<(usize, usize)>,
    path: Vec<usize>,
}

impl<'a> Paths<'a> {
    /// The topology in which the paths are looked for.
    pub closed spec fn topology(&self) -> &Topology {
        self.topology
    }

    /// The node at which the paths end.
    pub closed spec fn target(&self) -> usize {
        self.target
    }

    /// The paths that are still to be handed out, the next one first.
    pub closed spec fn remaining(&self) -> Seq<Seq<usize>> {
        pending(self.topology.outgoing()@, self.target, self.stack@, self.path@)
    }

    /// The visitor is in a state that `new` and `next` leave it in.
    pub closed spec fn wf(&self) -> bool {
        &&& self.topology.wf()
        &&& frames_ok(self.topology.outgoing()@, self.stack@, self.path@)
    }

    /// Creates a visitor that hands out all paths from `source` to `target`.
    pub fn new(topology: &'a Topology, source: usize, target: usize) -> (paths: Self)
        requires
            topology.wf(),
            source < topology.count(),
        ensures
            paths.wf(),
            paths.topology() == topology,
            paths.target() == target,
            paths.remaining() == all_paths(topology.outgoing()@, source, target),
    {
        let mut stack: Vec<(usize, usize)> = Vec::new();
        stack.push((source, 0));
        let mut path: Vec<usize> = Vec::new();
        path.push(source);
        let paths = Paths { topology, target, stack, path };
        proof {
            let adj = topology.outgoing()@;
            let found = paths_from(adj, source, target, adj.len());
            assert(paths.stack@.drop_last() =~= Seq::<(usize, usize)>::empty());
            assert(paths.stack@.last() == (source, 0usize));
            assert(paths.path@.take(0) =~= Seq::<usize>::empty());
            assert(prepend_all(Seq::<usize>::empty(), found) =~= found) by {
                assert forall|i: int| 0 <= i < found.len() implies Seq::<usize>::empty() + found[i]
                    == found[i] by {
                    assert(Seq::<usize>::empty() + found[i] =~= found[i]);
                }
            }
            assert(pending(adj, target, Seq::<(usize, usize)>::empty(), paths.path@)
                =~= Seq::<Seq<usize>>::empty());
            assert(paths.remaining() =~= found);
            lemma_walk_single(adj, source as int);
            assert(as_walk(paths.path@.take(0).push(source)) =~= seq![source as int]);
        }
        paths
    }

    /// Returns the next path, or `None` once every path has been handed out.
    pub fn next(&mut self) -> (path: Option<Vec<usize>>)
        requires
            old(self).wf(),
        ensures
            final(self).wf(),
            final(self).topology() == old(self).topology(),
            final(self).target() == old(self).target(),
            match path {
                Some(found) => {
                    &&& old(self).remaining().len() > 0
                    &&& found@ == old(self).remaining()[0]
                    &&& final(self).remaining() == old(self).remaining().drop_first()
                },
                None => {
                    &&& old(self).remaining().len() == 0
                    &&& final(self).remaining().len() == 0
                },
            },
    {
        let outgoing = self.topology.outgoing();
        let ghost adj = outgoing@;
        let ghost target = self.target;
        let count = outgoing.len();

        // Perform a depth-first search to find all paths from the source to
        // the target, and hand them out in the order of discovery
        while self.stack.len() > 0
            invariant
                self.topology == old(self).topology,
                self.target == old(self).target,
                target == self.target,
                self.topology.wf(),
                outgoing == self.topology.outgoing(),
                adj == outgoing@,
                count == adj.len(),
                frames_ok(adj, self.stack@, self.path@),
                pending(adj, target, self.stack@, self.path@) == old(self).remaining(),
            decreases stack_work(adj, target, self.stack@),
        {
            let ghost stack0 = self.stack@;
            let ghost path0 = self.path@;
            let (node, depth) = self.stack.pop().unwrap();
            let ghost rest = self.stack@;

            // Backtrack by truncating the current path to the depth of the
            // current node, and then add the current node to the path
            self.path.truncate(depth);
            self.path.push(node);
            let ghost path1 = self.path@;
            let ghost fuel = (count - depth) as nat;
            proof {
                assert(stack0.last() == (node, depth));
                assert(stack0[stack0.len() - 1] == (node, depth));
                assert(rest =~= stack0.drop_last());
                assert(path1 =~= path0.take(depth as int).push(node));
                assert(path1.take(depth as int) =~= path0.take(depth as int));
                lemma_walk_bound(adj, as_walk(path1));
                assert(depth < count);
                assert forall|k: int| 0 <= k < rest.len() implies (#[trigger] rest[k]).1 <= depth by {
                    assert(rest[k] == stack0[k]);
                }
                assert(frames_ok(adj, rest, path0)) by {
                    assert forall|k: int| 0 <= k < rest.len() implies {
                        let frame = #[trigger] rest[k];
                        &&& frame.0 < adj.len()
                        &&& frame.1 <= path0.len()
                        &&& is_walk(adj, as_walk(path0.take(frame.1 as int).push(frame.0)))
                    } by {
                        assert(rest[k] == stack0[k]);
                    }
                    assert forall|i: int, j: int| 0 <= i <= j < rest.len() implies (#[trigger] rest[i]).1
                        <= (#[trigger] rest[j]).1 by {
                        assert(rest[i] == stack0[i]);
                        assert(rest[j] == stack0[j]);
                    }
                }
                lemma_pending_prefix(adj, target, rest, path0, path1, depth as int);
            }

            // In case we've reached the target, hand out the current path
            if node == self.target {
                let found = self.path.clone();
                proof {
                    assert(found@ =~= path1);
                    let here = paths_from(adj, node, target, fuel);
                    assert(here =~= seq![seq![node]]);
                    let front = prepend_all(path0.take(depth as int), here);
                    assert(front.len() == 1);
                    assert(front[0] =~= path1);
                    let below = pending(adj, target, rest, path1);
                    assert(old(self).remaining() == front + below);
                    assert((front + below)[0] == front[0]);
                    assert((front + below).drop_first() =~= below);
                }
                return Some(found);
            }

            // Add descendants to stack in reverse order for consistent depth-
            // first ordering
            let list = &outgoing[node];
            let mut at: usize = list.len();
            proof {
                assert(list@.subrange(at as int, list@.len() as int) =~= Seq::<usize>::empty());
                assert(prepend_all(
                    path1,
                    paths_through(adj, Seq::<usize>::empty(), target, (fuel - 1) as nat),
                ) =~= Seq::<Seq<usize>>::empty());
                assert(Seq::<Seq<usize>>::empty() + pending(adj, target, rest, path1)
                    =~= pending(adj, target, rest, path1));
            }
            while at > 0
                invariant
                    self.topology == old(self).topology,
                    self.target == old(self).target,
                    target == self.target,
                    self.topology.wf(),
                    outgoing == self.topology.outgoing(),
                    adj == outgoing@,
                    count == adj.len(),
                    node < count,
                    depth < count,
                    fuel == count - depth,
                    list@ == adj[node as int],
                    at <= list@.len(),
                    self.path@ == path1,
                    path1.len() == depth + 1,
                    path1[depth as int] == node,
                    is_walk(adj, as_walk(path1)),
                    frames_ok(adj, rest, path1),
                    forall|k: int| 0 <= k < rest.len() ==> (#[trigger] rest[k]).1 <= depth,
                    frames_ok(adj, self.stack@, path1),
                    pending(adj, target, self.stack@, path1) == prepend_all(
                        path1,
                        paths_through(
                            adj,
                            list@.subrange(at as int, list@.len() as int),
                            target,
                            (fuel - 1) as nat,
                        ),
                    ) + pending(adj, target, rest, path1),
                    stack_work(adj, target, self.stack@) == work_through(
                        adj,
                        list@.subrange(at as int, list@.len() as int),
                        target,
                        (fuel - 1) as nat,
                    ) + stack_work(adj, target, rest),
                decreases at,
            {
                at = at - 1;
                let descendant = list[at];
                let ghost before = self.stack@;
                self.stack.push((descendant, depth + 1));
                proof {
                    let now = self.stack@;
                    let tail = list@.subrange(at as int + 1, list@.len() as int);
                    let more = list@.subrange(at as int, list@.len() as int);
                    let less = (fuel - 1) as nat;
                    assert(more.drop_first() =~= tail);
                    assert(more[0] == descendant);
                    assert(now.drop_last() =~= before);
                    assert(now.last() == (descendant, (depth + 1) as usize));
                    assert(path1.take(depth + 1) =~= path1);
                    assert(adj[node as int][at as int] == descendant);
                    assert(has_edge(adj, node as int, descendant as int));
                    assert(descendant < count);
                    lemma_walk_push(adj, as_walk(path1), descendant as int);
                    assert(as_walk(path1.push(descendant)) =~= as_walk(path1).push(descendant as int));
                    lemma_prepend_concat(
                        path1,
                        paths_from(adj, descendant, target, less),
                        paths_through(adj, tail, target, less),
                    );
                    assert(frames_ok(adj, now, path1)) by {
                        assert forall|k: int| 0 <= k < now.len() implies {
                            let frame = #[trigger] now[k];
                            &&& frame.0 < adj.len()
                            &&& frame.1 <= path1.len()
                            &&& is_walk(adj, as_walk(path1.take(frame.1 as int).push(frame.0)))
                        } by {
                            if k < before.len() {
                                assert(now[k] == before[k]);
                            }
                        }
                        assert forall|i: int, j: int| 0 <= i <= j < now.len() implies (#[trigger] now[i]).1
                            <= (#[trigger] now[j]).1 by {
                            if j < before.len() {
                                assert(now[i] == before[i]);
                                assert(now[j] == before[j]);
                            } else if i < before.len() {
                                assert(now[i] == before[i]);
                                assert(before[i].1 <= depth + 1);
                            }
                        }
                    }
                }
            }
            proof {
                assert(list@.subrange(0, list@.len() as int) =~= list@);
                let here = paths_from(adj, node, target, fuel);
                let through = paths_through(adj, adj[node as int], target, (fuel - 1) as nat);
                assert(here == prepend_all(seq![node], through));
                lemma_prepend_twice(path0.take(depth as int), seq![node], through);
                assert(path0.take(depth as int) + seq![node] =~= path1);
                assert(work_from(adj, node, target, fuel) == 1 + work_through(
                    adj,
                    adj[node as int],
                    target,
                    (fuel - 1) as nat,
                ));
            }
        }

        // No more paths to visit
        None
    }
}

impl<T> Graph<T> {
    /// Creates a visitor of all paths between the given nodes.
    pub fn paths(&self, source: usize, target: usize) -> (paths: Paths<'_>)
        requires
            self.wf(),
            source < self.nodes().len(),
        ensures
            paths.wf(),
            paths.topology() == self.topology(),
            paths.target() == target,
            paths.remaining() == all_paths(self.topology().outgoing()@, source, target),
    {
        Paths::new(self.topology(), source, target)
    }
}

} // verus!
