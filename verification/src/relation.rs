//! Directed graphs as adjacency sequences: walks, reachability, acyclicity
//! and hop distance, together with the lemmas the rest of the crate builds on.
//!
//! A graph over the nodes `0..adj.len()` is a `Seq<Seq<usize>>`: `adj[u]` lists
//! the neighbours of `u`. Nodes are `int` in every definition here.

use vstd::prelude::*;

verus! {

/// Every listed neighbour is itself a node.
pub open spec fn in_bounds(adj: Seq<Seq<usize>>) -> bool {
    forall|u: int, i: int|
        0 <= u < adj.len() && 0 <= i < adj[u].len() ==> (#[trigger] adj[u][i]) < adj.len()
}

/// No neighbour is listed twice under the same node.
pub open spec fn simple(adj: Seq<Seq<usize>>) -> bool {
    forall|u: int| 0 <= u < adj.len() ==> (#[trigger] adj[u]).no_duplicates()
}

/// There is an edge from `u` to `v`.
pub open spec fn has_edge(adj: Seq<Seq<usize>>, u: int, v: int) -> bool {
    0 <= u < adj.len() && exists|i: int| 0 <= i < adj[u].len() && #[trigger] adj[u][i] == v
}

/// `p` is a non-empty sequence of nodes in which each follows the one before
/// it along an edge.
pub open spec fn is_walk(adj: Seq<Seq<usize>>, p: Seq<int>) -> bool {
    &&& p.len() > 0
    &&& forall|i: int| 0 <= i < p.len() ==> 0 <= #[trigger] p[i] < adj.len()
    &&& forall|i: int| 0 <= i < p.len() - 1 ==> has_edge(adj, #[trigger] p[i], p[i + 1])
}

/// `p` is a walk that starts at `u` and ends at `v`.
pub open spec fn walk_between(adj: Seq<Seq<usize>>, p: Seq<int>, u: int, v: int) -> bool {
    is_walk(adj, p) && p[0] == u && p[p.len() - 1] == v
}

/// `v` can be reached from `u` along zero or more edges.
pub open spec fn reaches(adj: Seq<Seq<usize>>, u: int, v: int) -> bool {
    exists|p: Seq<int>| walk_between(adj, p, u, v)
}

/// `v` can be reached from `u` along exactly `k` edges.
pub open spec fn reaches_in(adj: Seq<Seq<usize>>, u: int, v: int, k: int) -> bool {
    exists|p: Seq<int>| walk_between(adj, p, u, v) && p.len() == k + 1
}

/// `v` can be reached from `u` along one or more edges.
pub open spec fn connected(adj: Seq<Seq<usize>>, u: int, v: int) -> bool {
    exists|p: Seq<int>| walk_between(adj, p, u, v) && p.len() >= 2
}

/// No node can be reached from itself along one or more edges.
pub open spec fn acyclic(adj: Seq<Seq<usize>>) -> bool {
    forall|u: int| !connected(adj, u, u)
}

/// `inc` lists under each node exactly the sources of the edges that `out`
/// has into it.
pub open spec fn transposed(out: Seq<Seq<usize>>, inc: Seq<Seq<usize>>) -> bool {
    &&& out.len() == inc.len()
    &&& forall|u: int, v: int| has_edge(out, u, v) <==> has_edge(inc, v, u)
}

/// `k` is the least number of edges along which `v` can be reached from `u`.
pub open spec fn is_distance(adj: Seq<Seq<usize>>, u: int, v: int, k: int) -> bool {
    &&& 0 <= k
    &&& reaches_in(adj, u, v, k)
    &&& forall|j: int| 0 <= j < k ==> !reaches_in(adj, u, v, j)
}

/// The least number of edges from `u` to `v`, or `None` where `v` cannot be
/// reached from `u`.
pub open spec fn distance(adj: Seq<Seq<usize>>, u: int, v: int) -> Option<nat> {
    if reaches(adj, u, v) {
        Some(choose|k: nat| is_distance(adj, u, v, k as int))
    } else {
        None
    }
}

/// A single node is a walk from itself to itself.
pub proof fn lemma_walk_single(adj: Seq<Seq<usize>>, u: int)
    requires
        0 <= u < adj.len(),
    ensures
        walk_between(adj, seq![u], u, u),
        reaches(adj, u, u),
        reaches_in(adj, u, u, 0),
{
    let p = seq![u];
    assert(walk_between(adj, p, u, u));
}

/// A walk can be extended along an edge out of its last node.
pub proof fn lemma_walk_push(adj: Seq<Seq<usize>>, p: Seq<int>, w: int)
    requires
        is_walk(adj, p),
        has_edge(adj, p[p.len() - 1], w),
        0 <= w < adj.len(),
    ensures
        is_walk(adj, p.push(w)),
        p.push(w)[0] == p[0],
{
    let q = p.push(w);
    assert forall|i: int| 0 <= i < q.len() - 1 implies has_edge(adj, #[trigger] q[i], q[i + 1]) by {
        if i < p.len() - 1 {
            assert(q[i] == p[i]);
            assert(q[i + 1] == p[i + 1]);
        }
    }
}

/// A walk can be extended along an edge into its first node.
pub proof fn lemma_walk_prepend(adj: Seq<Seq<usize>>, u: int, p: Seq<int>)
    requires
        is_walk(adj, p),
        has_edge(adj, u, p[0]),
    ensures
        is_walk(adj, seq![u] + p),
        (seq![u] + p).len() == p.len() + 1,
        (seq![u] + p)[0] == u,
        (seq![u] + p)[p.len() as int] == p[p.len() - 1],
{
    let q = seq![u] + p;
    assert forall|i: int| 0 <= i < q.len() implies 0 <= #[trigger] q[i] < adj.len() by {
        if i > 0 {
            assert(q[i] == p[i - 1]);
        }
    }
    assert forall|i: int| 0 <= i < q.len() - 1 implies has_edge(adj, #[trigger] q[i], q[i + 1]) by {
        if i > 0 {
            assert(q[i] == p[i - 1]);
            assert(q[i + 1] == p[i - 1 + 1]);
        } else {
            assert(q[1] == p[0]);
        }
    }
}

/// Two walks that meet end to start join into one.
pub proof fn lemma_walk_join(adj: Seq<Seq<usize>>, p: Seq<int>, q: Seq<int>)
    requires
        is_walk(adj, p),
        is_walk(adj, q),
        p[p.len() - 1] == q[0],
    ensures
        is_walk(adj, p + q.subrange(1, q.len() as int)),
        (p + q.subrange(1, q.len() as int)).len() == p.len() + q.len() - 1,
        (p + q.subrange(1, q.len() as int))[0] == p[0],
        (p + q.subrange(1, q.len() as int))[p.len() + q.len() - 2] == q[q.len() - 1],
{
    let r = p + q.subrange(1, q.len() as int);
    assert forall|i: int| 0 <= i < r.len() implies 0 <= #[trigger] r[i] < adj.len() by {
        if i >= p.len() {
            assert(r[i] == q[i - p.len() + 1]);
        } else {
            assert(r[i] == p[i]);
        }
    }
    assert forall|i: int| 0 <= i < r.len() - 1 implies has_edge(adj, #[trigger] r[i], r[i + 1]) by {
        if i < p.len() - 1 {
            assert(r[i] == p[i]);
            assert(r[i + 1] == p[i + 1]);
        } else if i == p.len() - 1 {
            assert(r[i] == q[0]);
            assert(r[i + 1] == q[0int + 1]);
        } else {
            let j = i - p.len() + 1;
            assert(r[i] == q[j]);
            assert(r[i + 1] == q[j + 1]);
        }
    }
    if q.len() == 1 {
        assert(r =~= p);
    }
}

/// Every stretch of a walk is a walk.
pub proof fn lemma_walk_part(adj: Seq<Seq<usize>>, p: Seq<int>, from: int, to: int)
    requires
        is_walk(adj, p),
        0 <= from < to <= p.len(),
    ensures
        is_walk(adj, p.subrange(from, to)),
{
    let q = p.subrange(from, to);
    assert forall|i: int| 0 <= i < q.len() implies 0 <= #[trigger] q[i] < adj.len() by {
        assert(q[i] == p[from + i]);
    }
    assert forall|i: int| 0 <= i < q.len() - 1 implies has_edge(adj, #[trigger] q[i], q[i + 1]) by {
        assert(q[i] == p[from + i]);
        assert(q[i + 1] == p[from + i + 1]);
    }
}

/// An edge is a walk of two nodes.
pub proof fn lemma_edge_connects(adj: Seq<Seq<usize>>, u: int, v: int)
    requires
        has_edge(adj, u, v),
        0 <= v < adj.len(),
    ensures
        connected(adj, u, v),
        reaches(adj, u, v),
        reaches_in(adj, u, v, 1),
{
    let p = seq![u, v];
    assert(walk_between(adj, p, u, v) && p.len() == 2) by {
        assert forall|i: int| 0 <= i < p.len() - 1 implies has_edge(adj, #[trigger] p[i], p[i + 1]) by {
            assert(i == 0);
        }
    }
}

/// Reachability composes.
pub proof fn lemma_reaches_trans(adj: Seq<Seq<usize>>, u: int, v: int, w: int)
    requires
        reaches(adj, u, v),
        reaches(adj, v, w),
    ensures
        reaches(adj, u, w),
        connected(adj, u, v) || connected(adj, v, w) ==> connected(adj, u, w),
{
    let p = choose|p: Seq<int>| walk_between(adj, p, u, v);
    let q = choose|q: Seq<int>| walk_between(adj, q, v, w);
    lemma_walk_join(adj, p, q);
    let r = p + q.subrange(1, q.len() as int);
    assert(walk_between(adj, r, u, w));
    if connected(adj, u, v) {
        let p2 = choose|p: Seq<int>| walk_between(adj, p, u, v) && p.len() >= 2;
        lemma_walk_join(adj, p2, q);
        let r2 = p2 + q.subrange(1, q.len() as int);
        assert(walk_between(adj, r2, u, w) && r2.len() >= 2);
    }
    if connected(adj, v, w) {
        let q2 = choose|q: Seq<int>| walk_between(adj, q, v, w) && q.len() >= 2;
        lemma_walk_join(adj, p, q2);
        let r2 = p + q2.subrange(1, q2.len() as int);
        assert(walk_between(adj, r2, u, w) && r2.len() >= 2);
    }
}

/// Being connected is reaching through a first edge, and through a last one.
pub proof fn lemma_connected_steps(adj: Seq<Seq<usize>>, u: int, v: int)
    requires
        connected(adj, u, v),
    ensures
        reaches(adj, u, v),
        exists|w: int| has_edge(adj, u, w) && 0 <= w < adj.len() && #[trigger] reaches(adj, w, v),
        exists|w: int| has_edge(adj, w, v) && 0 <= w < adj.len() && #[trigger] reaches(adj, u, w),
{
    let p = choose|p: Seq<int>| walk_between(adj, p, u, v) && p.len() >= 2;
    assert(walk_between(adj, p, u, v));
    let n = p.len() as int;
    lemma_walk_part(adj, p, 1, n);
    let q = p.subrange(1, n);
    assert(walk_between(adj, q, p[1], v));
    assert(has_edge(adj, p[0], p[0int + 1]));
    assert(has_edge(adj, u, p[1]) && reaches(adj, p[1], v));
    lemma_walk_part(adj, p, 0, n - 1);
    let r = p.subrange(0, n - 1);
    assert(walk_between(adj, r, u, p[n - 2]));
    assert(has_edge(adj, p[n - 2], p[n - 2 + 1]));
    assert(has_edge(adj, p[n - 2], v) && reaches(adj, u, p[n - 2]));
}

/// Reaching is being the same node or being connected.
pub proof fn lemma_reaches_cases(adj: Seq<Seq<usize>>, u: int, v: int)
    ensures
        reaches(adj, u, v) <==> (u == v && 0 <= u < adj.len()) || connected(adj, u, v),
{
    if reaches(adj, u, v) {
        let p = choose|p: Seq<int>| walk_between(adj, p, u, v);
        if p.len() >= 2 {
            assert(walk_between(adj, p, u, v) && p.len() >= 2);
        } else {
            assert(p[0] == u);
        }
    }
    if u == v && 0 <= u < adj.len() {
        lemma_walk_single(adj, u);
    }
    if connected(adj, u, v) {
        let p = choose|p: Seq<int>| walk_between(adj, p, u, v) && p.len() >= 2;
        assert(walk_between(adj, p, u, v));
    }
}

/// Reachable nodes, and the nodes they are reached from, are nodes.
pub proof fn lemma_reaches_bounds(adj: Seq<Seq<usize>>, u: int, v: int)
    requires
        reaches(adj, u, v),
    ensures
        0 <= u < adj.len(),
        0 <= v < adj.len(),
{
    let p = choose|p: Seq<int>| walk_between(adj, p, u, v);
    assert(0 <= p[0] < adj.len());
    assert(0 <= p[p.len() - 1] < adj.len());
}

/// A set that holds every neighbour of `start` and of each of its own members
/// holds every node connected to `start`.
pub proof fn lemma_closed_holds_connected(adj: Seq<Seq<usize>>, start: int, closed: Set<int>)
    requires
        forall|x: int, y: int|
            (x == start || closed.contains(x)) && #[trigger] has_edge(adj, x, y)
                ==> closed.contains(y),
    ensures
        forall|y: int| #[trigger] connected(adj, start, y) ==> closed.contains(y),
{
    assert forall|y: int| #[trigger] connected(adj, start, y) implies closed.contains(y) by {
        let p = choose|p: Seq<int>| walk_between(adj, p, start, y) && p.len() >= 2;
        lemma_closed_holds_walk(adj, start, closed, p);
    }
}

/// The induction behind `lemma_closed_holds_connected`, along one walk.
proof fn lemma_closed_holds_walk(
    adj: Seq<Seq<usize>>,
    start: int,
    closed: Set<int>,
    p: Seq<int>,
)
    requires
        forall|x: int, y: int|
            (x == start || closed.contains(x)) && #[trigger] has_edge(adj, x, y)
                ==> closed.contains(y),
        is_walk(adj, p),
        p[0] == start,
        p.len() >= 2,
    ensures
        closed.contains(p[p.len() - 1]),
    decreases p.len(),
{
    let n = p.len() as int;
    assert(has_edge(adj, p[n - 2], p[n - 2 + 1]));
    if n > 2 {
        lemma_walk_part(adj, p, 0, n - 1);
        let q = p.subrange(0, n - 1);
        assert(q[0] == p[0]);
        lemma_closed_holds_walk(adj, start, closed, q);
        assert(q[q.len() - 1] == p[n - 2]);
    }
}

/// A set of indices below `bound` is finite and has at most `bound` members.
pub proof fn lemma_bounded_set(s: Set<usize>, bound: nat)
    requires
        forall|x: usize| #[trigger] s.contains(x) ==> x < bound,
    ensures
        s.finite(),
        s.len() <= bound,
    decreases bound,
{
    if bound == 0 {
        assert(s =~= Set::<usize>::empty());
    } else {
        let top = (bound - 1) as usize;
        if bound - 1 <= usize::MAX {
            let rest = s.remove(top);
            lemma_bounded_set(rest, (bound - 1) as nat);
            if s.contains(top) {
                assert(s =~= rest.insert(top));
            } else {
                assert(s =~= rest);
            }
        } else {
            lemma_bounded_set(s, (bound - 1) as nat);
        }
    }
}

/// What one more edge can connect: a walk in `wider`, which has the edge from
/// `u` to `v` besides those of `adj`, either connects its ends in `adj` too,
/// or leads over `u` and `v`.
proof fn lemma_walk_over_new_edge(
    adj: Seq<Seq<usize>>,
    wider: Seq<Seq<usize>>,
    u: int,
    v: int,
    p: Seq<int>,
)
    requires
        adj.len() == wider.len(),
        0 <= u < adj.len(),
        0 <= v < adj.len(),
        forall|x: int, y: int| #[trigger]
            has_edge(wider, x, y) <==> has_edge(adj, x, y) || (x == u && y == v),
        is_walk(wider, p),
        p.len() >= 2,
    ensures
        connected(adj, p[0], p[p.len() - 1]) || (reaches(adj, p[0], u) && reaches(
            adj,
            v,
            p[p.len() - 1],
        )),
    decreases p.len(),
{
    let n = p.len() as int;
    let a = p[0];
    let c = p[n - 2];
    let b = p[n - 1];
    assert(has_edge(wider, p[n - 2], p[n - 2 + 1]));
    assert(0 <= a < adj.len() && 0 <= b < adj.len() && 0 <= c < adj.len());
    lemma_walk_single(adj, a);
    lemma_walk_single(adj, v);
    lemma_walk_single(adj, u);
    if n == 2 {
        if has_edge(adj, c, b) {
            lemma_edge_connects(adj, a, b);
        }
    } else {
        lemma_walk_part(wider, p, 0, n - 1);
        let q = p.subrange(0, n - 1);
        assert(q[0] == a && q[q.len() - 1] == c);
        lemma_walk_over_new_edge(adj, wider, u, v, q);
        if has_edge(adj, c, b) {
            lemma_edge_connects(adj, c, b);
            if connected(adj, a, c) {
                lemma_reaches_cases(adj, a, c);
                lemma_reaches_trans(adj, a, c, b);
            } else {
                lemma_reaches_trans(adj, v, c, b);
            }
        } else {
            if connected(adj, a, c) {
                lemma_reaches_cases(adj, a, c);
            }
        }
    }
}

/// An edge from `u` to `v` closes no cycle where `u` cannot be reached from `v`.
pub proof fn lemma_new_edge_keeps_acyclic(
    adj: Seq<Seq<usize>>,
    wider: Seq<Seq<usize>>,
    u: int,
    v: int,
)
    requires
        adj.len() == wider.len(),
        0 <= u < adj.len(),
        0 <= v < adj.len(),
        forall|x: int, y: int| #[trigger]
            has_edge(wider, x, y) <==> has_edge(adj, x, y) || (x == u && y == v),
        acyclic(adj),
        !reaches(adj, v, u),
    ensures
        acyclic(wider),
{
    assert forall|a: int| !connected(wider, a, a) by {
        if connected(wider, a, a) {
            let p = choose|p: Seq<int>| walk_between(wider, p, a, a) && p.len() >= 2;
            lemma_walk_over_new_edge(adj, wider, u, v, p);
            assert(!connected(adj, a, a));
            lemma_reaches_trans(adj, v, a, u);
        }
    }
}

/// The distance is the one number of edges that is least.
pub proof fn lemma_distance_is(adj: Seq<Seq<usize>>, u: int, v: int, k: int)
    requires
        is_distance(adj, u, v, k),
    ensures
        distance(adj, u, v) == Some(k as nat),
{
    let p = choose|p: Seq<int>| walk_between(adj, p, u, v) && p.len() == k + 1;
    assert(walk_between(adj, p, u, v));
    assert(is_distance(adj, u, v, (k as nat) as int));
    let chosen = choose|c: nat| is_distance(adj, u, v, c as int);
    assert(is_distance(adj, u, v, chosen as int));
    if chosen < k {
        assert(!reaches_in(adj, u, v, chosen as int));
    }
    if k < chosen {
        assert(!reaches_in(adj, u, v, k));
    }
}

/// In an acyclic graph no walk comes by a node twice.
pub proof fn lemma_walk_simple(adj: Seq<Seq<usize>>, p: Seq<int>)
    requires
        acyclic(adj),
        is_walk(adj, p),
    ensures
        p.no_duplicates(),
{
    assert forall|i: int, j: int| 0 <= i < p.len() && 0 <= j < p.len() && i != j implies p[i]
        != p[j] by {
        if p[i] == p[j] {
            let (lo, hi) = if i < j {
                (i, j)
            } else {
                (j, i)
            };
            lemma_walk_part(adj, p, lo, hi + 1);
            let q = p.subrange(lo, hi + 1);
            assert(q[0] == p[lo]);
            assert(q[q.len() - 1] == p[hi]);
            assert(walk_between(adj, q, p[lo], p[lo]) && q.len() >= 2);
            assert(connected(adj, p[lo], p[lo]));
        }
    }
}

/// In an acyclic graph no walk has more nodes than the graph.
pub proof fn lemma_walk_bound(adj: Seq<Seq<usize>>, p: Seq<int>)
    requires
        acyclic(adj),
        is_walk(adj, p),
    ensures
        p.len() <= adj.len(),
{
    lemma_walk_simple(adj, p);
    p.unique_seq_to_set();
    let all = vstd::set_lib::set_int_range(0, adj.len() as int);
    vstd::set_lib::lemma_int_range(0, adj.len() as int);
    assert(p.to_set().subset_of(all)) by {
        assert forall|x: int| p.to_set().contains(x) implies all.contains(x) by {
            let i = choose|i: int| 0 <= i < p.len() && p[i] == x;
            assert(0 <= p[i] < adj.len());
        }
    }
    vstd::set_lib::lemma_len_subset(p.to_set(), all);
}

/// The nodes of a path as integers.
pub open spec fn as_walk(path: Seq<usize>) -> Seq<int> {
    Seq::new(path.len(), |i: int| path[i] as int)
}

} // verus!
