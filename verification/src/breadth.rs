//! The invariant of breadth-first search, and the steps that keep it.
//!
//! A search from `source` labels each node it meets with a number of edges,
//! keeps the met nodes whose neighbours it has not looked at in a queue, and
//! looks at one node, `current`, at a time. `level` is the label of the node
//! last taken from the queue.

use crate::relation::{has_edge, in_bounds, is_distance, lemma_closed_holds_connected,
    lemma_reaches_cases, lemma_walk_part, lemma_walk_push, lemma_walk_single, reaches, reaches_in,
    walk_between};
use vstd::prelude::*;

verus! {

/// Every neighbour of `x` has a label.
pub open spec fn settled(adj: Seq<Seq<usize>>, label: Map<int, int>, x: int) -> bool {
    forall|j: int| 0 <= j < adj[x].len() ==> label.dom().contains(#[trigger] adj[x][j] as int)
}

/// What holds of a breadth-first search between two of its steps.
pub open spec fn bfs_inv(
    adj: Seq<Seq<usize>>,
    source: int,
    label: Map<int, int>,
    queue: Seq<int>,
    level: int,
    current: Option<int>,
) -> bool {
    &&& in_bounds(adj)
    &&& 0 <= source < adj.len()
    &&& 0 <= level
    &&& label.dom().contains(source)
    &&& forall|x: int| #[trigger]
        label.dom().contains(x) ==> 0 <= x < adj.len() && is_distance(adj, source, x, label[x])
    &&& forall|i: int|
        0 <= i < queue.len() ==> label.dom().contains(#[trigger] queue[i]) && level
            <= label[queue[i]] <= level + 1
    &&& forall|i: int, j: int|
        0 <= i <= j < queue.len() ==> label[#[trigger] queue[i]] <= label[#[trigger] queue[j]]
    &&& current matches Some(c) ==> label.dom().contains(c) && label[c] == level
    &&& forall|x: int| #[trigger]
        label.dom().contains(x) ==> current == Some(x) || queue.contains(x) || settled(
            adj,
            label,
            x,
        )
    &&& forall|y: int, k: int|
        0 <= k <= level && #[trigger] reaches_in(adj, source, y, k) ==> label.dom().contains(y)
}

/// A walk of more than one node ends with an edge out of a node that is
/// reached with one edge less.
proof fn lemma_last_step(adj: Seq<Seq<usize>>, u: int, v: int, k: int)
    requires
        k >= 1,
        reaches_in(adj, u, v, k),
    ensures
        exists|z: int| #[trigger] reaches_in(adj, u, z, k - 1) && has_edge(adj, z, v),
{
    let p = choose|p: Seq<int>| walk_between(adj, p, u, v) && p.len() == k + 1;
    lemma_walk_part(adj, p, 0, k);
    let q = p.subrange(0, k);
    let z = p[k - 1];
    assert(walk_between(adj, q, u, z) && q.len() == k - 1 + 1);
    assert(has_edge(adj, p[k - 1], p[k - 1 + 1]));
    assert(reaches_in(adj, u, z, k - 1) && has_edge(adj, z, v));
}

/// An edge out of a node reached with `k` edges reaches with `k + 1`.
proof fn lemma_next_step(adj: Seq<Seq<usize>>, u: int, z: int, v: int, k: int)
    requires
        reaches_in(adj, u, z, k),
        has_edge(adj, z, v),
        0 <= v < adj.len(),
    ensures
        reaches_in(adj, u, v, k + 1),
{
    let p = choose|p: Seq<int>| walk_between(adj, p, u, z) && p.len() == k + 1;
    lemma_walk_push(adj, p, v);
    let q = p.push(v);
    assert(walk_between(adj, q, u, v) && q.len() == k + 1 + 1);
}

/// Reaching is reaching with some number of edges.
pub proof fn lemma_reaches_in_some(adj: Seq<Seq<usize>>, u: int, v: int)
    ensures
        reaches(adj, u, v) <==> exists|k: int| 0 <= k && #[trigger] reaches_in(adj, u, v, k),
{
    if reaches(adj, u, v) {
        let p = choose|p: Seq<int>| walk_between(adj, p, u, v);
        assert(reaches_in(adj, u, v, p.len() - 1));
    }
    if exists|k: int| 0 <= k && #[trigger] reaches_in(adj, u, v, k) {
        let k = choose|k: int| 0 <= k && #[trigger] reaches_in(adj, u, v, k);
        let p = choose|p: Seq<int>| walk_between(adj, p, u, v) && p.len() == k + 1;
        assert(walk_between(adj, p, u, v));
    }
}

/// The search starts with the source alone, labelled 0.
pub proof fn lemma_bfs_init(adj: Seq<Seq<usize>>, source: int)
    requires
        in_bounds(adj),
        0 <= source < adj.len(),
    ensures
        bfs_inv(adj, source, map![source => 0int], seq![source], 0, None),
{
    let label = map![source => 0int];
    let queue = seq![source];
    lemma_walk_single(adj, source);
    assert(queue[0] == source);
    assert(queue.contains(source));
    assert forall|y: int, k: int| 0 <= k <= 0 && #[trigger] reaches_in(adj, source, y, k) implies label.dom().contains(
        y,
    ) by {
        let p = choose|p: Seq<int>| walk_between(adj, p, source, y) && p.len() == k + 1;
        assert(p[0] == y);
    }
}

/// Taking the first node from the queue makes it the current one.
pub proof fn lemma_bfs_pop(
    adj: Seq<Seq<usize>>,
    source: int,
    label: Map<int, int>,
    queue: Seq<int>,
    level: int,
)
    requires
        bfs_inv(adj, source, label, queue, level, None),
        queue.len() > 0,
    ensures
        bfs_inv(
            adj,
            source,
            label,
            queue.subrange(1, queue.len() as int),
            label[queue[0]],
            Some(queue[0]),
        ),
{
    let first = queue[0];
    let rest = queue.subrange(1, queue.len() as int);
    let next = label[first];
    assert forall|i: int| 0 <= i < rest.len() implies label.dom().contains(#[trigger] rest[i])
        && next <= label[rest[i]] <= next + 1 by {
        assert(rest[i] == queue[i + 1]);
        assert(label[queue[0]] <= label[queue[i + 1]]);
    }
    assert forall|i: int, j: int| 0 <= i <= j < rest.len() implies label[#[trigger] rest[i]]
        <= label[#[trigger] rest[j]] by {
        assert(rest[i] == queue[i + 1]);
        assert(rest[j] == queue[j + 1]);
    }
    assert forall|x: int| #[trigger] label.dom().contains(x) implies Some(first) == Some(x)
        || rest.contains(x) || settled(adj, label, x) by {
        if queue.contains(x) && x != first {
            let i = choose|i: int| 0 <= i < queue.len() && queue[i] == x;
            assert(rest[i - 1] == x);
        }
    }
    assert forall|y: int, k: int| 0 <= k <= next && #[trigger] reaches_in(
        adj,
        source,
        y,
        k,
    ) implies label.dom().contains(y) by {
        if k > level {
            lemma_last_step(adj, source, y, k);
            let z = choose|z: int| #[trigger] reaches_in(adj, source, z, k - 1) && has_edge(adj, z, y);
            assert(label.dom().contains(z));
            assert(label[z] <= level);
            if queue.contains(z) {
                let i = choose|i: int| 0 <= i < queue.len() && queue[i] == z;
                assert(label[queue[0]] <= label[queue[i]]);
            }
            assert(settled(adj, label, z));
            let j = choose|j: int| 0 <= j < adj[z].len() && #[trigger] adj[z][j] == y;
            assert(label.dom().contains(adj[z][j] as int));
        }
    }
}

/// A neighbour of the current node that has no label yet gets the next one
/// and joins the queue.
pub proof fn lemma_bfs_visit(
    adj: Seq<Seq<usize>>,
    source: int,
    label: Map<int, int>,
    queue: Seq<int>,
    level: int,
    current: int,
    neighbor: int,
)
    requires
        bfs_inv(adj, source, label, queue, level, Some(current)),
        has_edge(adj, current, neighbor),
        !label.dom().contains(neighbor),
    ensures
        bfs_inv(
            adj,
            source,
            label.insert(neighbor, level + 1),
            queue.push(neighbor),
            level,
            Some(current),
        ),
{
    let wider = label.insert(neighbor, level + 1);
    let longer = queue.push(neighbor);
    let j = choose|j: int| 0 <= j < adj[current].len() && #[trigger] adj[current][j] == neighbor;
    assert(adj[current][j] < adj.len());
    lemma_next_step(adj, source, current, neighbor, level);
    assert(is_distance(adj, source, neighbor, level + 1));
    assert forall|x: int| #[trigger] wider.dom().contains(x) implies 0 <= x < adj.len()
        && is_distance(adj, source, x, wider[x]) by {
        if x != neighbor {
            assert(label.dom().contains(x));
        }
    }
    assert forall|i: int| 0 <= i < longer.len() implies wider.dom().contains(#[trigger] longer[i])
        && level <= wider[longer[i]] <= level + 1 by {
        if i < queue.len() {
            assert(longer[i] == queue[i]);
        }
    }
    assert forall|i: int, j: int| 0 <= i <= j < longer.len() implies wider[#[trigger] longer[i]]
        <= wider[#[trigger] longer[j]] by {
        if i < queue.len() {
            assert(longer[i] == queue[i]);
        }
        if j < queue.len() {
            assert(longer[j] == queue[j]);
        }
    }
    assert forall|x: int| #[trigger] wider.dom().contains(x) implies Some(current) == Some(x)
        || longer.contains(x) || settled(adj, wider, x) by {
        if x == neighbor {
            assert(longer[queue.len() as int] == x);
        } else {
            assert(label.dom().contains(x));
            if queue.contains(x) {
                let i = choose|i: int| 0 <= i < queue.len() && queue[i] == x;
                assert(longer[i] == x);
            } else if x != current {
                assert(settled(adj, label, x));
                assert forall|j: int| 0 <= j < adj[x].len() implies wider.dom().contains(
                    #[trigger] adj[x][j] as int,
                ) by {
                    assert(label.dom().contains(adj[x][j] as int));
                }
            }
        }
    }
    assert forall|y: int, k: int| 0 <= k <= level && #[trigger] reaches_in(
        adj,
        source,
        y,
        k,
    ) implies wider.dom().contains(y) by {
        assert(label.dom().contains(y));
    }
}

/// Once every neighbour of the current node has a label, the node is done
/// with.
pub proof fn lemma_bfs_finish(
    adj: Seq<Seq<usize>>,
    source: int,
    label: Map<int, int>,
    queue: Seq<int>,
    level: int,
    current: int,
)
    requires
        bfs_inv(adj, source, label, queue, level, Some(current)),
        settled(adj, label, current),
    ensures
        bfs_inv(adj, source, label, queue, level, None),
{
}

/// With the queue empty, every node that can be reached has a label.
pub proof fn lemma_bfs_done(adj: Seq<Seq<usize>>, source: int, label: Map<int, int>, level: int)
    requires
        bfs_inv(adj, source, label, Seq::<int>::empty(), level, None),
    ensures
        forall|y: int| #[trigger] reaches(adj, source, y) ==> label.dom().contains(y),
{
    let closed = label.dom();
    assert forall|x: int, y: int|
        (x == source || closed.contains(x)) && #[trigger] has_edge(adj, x, y) implies closed.contains(
        y,
    ) by {
        assert(closed.contains(x));
        assert(!Seq::<int>::empty().contains(x));
        assert(settled(adj, label, x));
        let j = choose|j: int| 0 <= j < adj[x].len() && #[trigger] adj[x][j] == y;
        assert(closed.contains(adj[x][j] as int));
    }
    lemma_closed_holds_connected(adj, source, closed);
    assert forall|y: int| #[trigger] reaches(adj, source, y) implies closed.contains(y) by {
        lemma_reaches_cases(adj, source, y);
    }
}

} // verus!
