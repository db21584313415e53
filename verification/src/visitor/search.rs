//! Depth-first search over adjacency lists, one node per step.

use crate::relation::{connected, has_edge, in_bounds, lemma_bounded_set,
    lemma_closed_holds_connected, lemma_edge_connects, lemma_reaches_cases, lemma_reaches_trans,
    lemma_walk_single, reaches};
use crate::topology::adjacency::Adjacency;
use crate::visited;
use ahash::RandomState;
use std::collections::HashSet;
use vstd::prelude::*;
use vstd::seq_lib::seq_to_set_distributes_over_add;

verus! {

/// The nodes that are not in `seen`.
pub open spec fn unseen(adj: Seq<Seq<usize>>, seen: Set<usize>) -> Set<usize> {
    Set::new(|x: usize| x < adj.len() && !seen.contains(x))
}

/// What is left unseen once `first` and `below` are seen too is less than
/// what was unseen before.
pub proof fn lemma_unseen_less(adj: Seq<Seq<usize>>, seen: Set<usize>, first: usize, below: Seq<usize>)
    requires
        first < adj.len(),
        !seen.contains(first),
    ensures
        unseen(adj, seen.insert(first)).len() < unseen(adj, seen).len(),
        unseen(adj, seen.union((seq![first] + below).to_set())).len() < unseen(adj, seen).len(),
{
    let before = unseen(adj, seen);
    lemma_bounded_set(before, adj.len());
    assert(before.contains(first));
    let narrow = unseen(adj, seen.insert(first));
    assert(narrow =~= before.remove(first));
    let found = seq![first] + below;
    let after = unseen(adj, seen.union(found.to_set()));
    assert(found[0] == first);
    assert(found.to_set().contains(first));
    assert(after.subset_of(narrow));
    vstd::set_lib::lemma_len_subset(after, narrow);
}

/// The nodes that a depth-first search finds when it goes through `list`
/// with `seen` found already, in the order in which it finds them: each
/// node of the list that is new, followed at once by what is found from its
/// own neighbours.
pub open spec fn scan(adj: Seq<Seq<usize>>, list: Seq<usize>, seen: Set<usize>) -> Seq<usize>
    decreases unseen(adj, seen).len(), list.len(),
{
    if list.len() == 0 {
        Seq::empty()
    } else if list[0] >= adj.len() || seen.contains(list[0]) {
        scan(adj, list.drop_first(), seen)
    } else {
        proof {
            lemma_unseen_less(adj, seen, list[0], Seq::empty());
        }
        let below = scan(adj, adj[list[0] as int], seen.insert(list[0]));
        proof {
            lemma_unseen_less(adj, seen, list[0], below);
        }
        let found = seq![list[0]] + below;
        found + scan(adj, list.drop_first(), seen.union(found.to_set()))
    }
}

/// The nodes that a search with the given stack has still to find, in the
/// order in which it finds them.
spec fn yet(adj: Seq<Seq<usize>>, stack: Seq<(usize, usize)>, seen: Set<usize>) -> Seq<usize>
    decreases stack.len(),
{
    if stack.len() == 0 {
        Seq::empty()
    } else {
        let here = scan(adj, adj[stack.last().0 as int].skip(stack.last().1 as int), seen);
        here + yet(adj, stack.drop_last(), seen.union(here.to_set()))
    }
}

/// The nodes connected to `start` in the order in which a depth-first search
/// finds them, which follows the neighbours of each node in their order.
pub open spec fn depth_first(adj: Seq<Seq<usize>>, start: usize) -> Seq<usize> {
    scan(adj, adj[start as int], Set::empty())
}

/// `node` can be reached from one of `list`.
spec fn reached_from(adj: Seq<Seq<usize>>, list: Seq<usize>, node: usize) -> bool {
    exists|j: int|
        0 <= j < list.len() && #[trigger] reaches(adj, list[j] as int, node as int)
}

/// What a scan of `list` finds is new, is found once, and is reached from
/// the list; afterwards every node of the list is seen, and so is every
/// neighbour of what was found.
proof fn lemma_scan(adj: Seq<Seq<usize>>, list: Seq<usize>, seen: Set<usize>)
    requires
        in_bounds(adj),
        forall|j: int| 0 <= j < list.len() ==> list[j] < adj.len(),
    ensures
        scan(adj, list, seen).no_duplicates(),
        forall|i: int|
            0 <= i < scan(adj, list, seen).len() ==> {
                let x = #[trigger] scan(adj, list, seen)[i];
                &&& x < adj.len()
                &&& !seen.contains(x)
                &&& reached_from(adj, list, x)
            },
        forall|j: int|
            0 <= j < list.len() ==> seen.contains(#[trigger] list[j]) || scan(
                adj,
                list,
                seen,
            ).contains(list[j]),
        forall|i: int, k: int|
            0 <= i < scan(adj, list, seen).len() && 0 <= k < adj[scan(
                adj,
                list,
                seen,
            )[i] as int].len() ==> {
                let y = #[trigger] adj[scan(adj, list, seen)[i] as int][k];
                seen.contains(y) || scan(adj, list, seen).contains(y)
            },
    decreases unseen(adj, seen).len(), list.len(),
{
    let all = scan(adj, list, seen);
    if list.len() == 0 {
    } else {
        let first = list[0];
        let others = list.drop_first();
        assert forall|j: int| 0 <= j < others.len() implies others[j] < adj.len() by {
            assert(others[j] == list[j + 1]);
        }
        if seen.contains(first) {
            lemma_scan(adj, others, seen);
            assert forall|i: int| 0 <= i < all.len() implies reached_from(
                adj,
                list,
                #[trigger] all[i],
            ) by {
                assert(reached_from(adj, others, all[i]));
                let j = choose|j: int|
                    0 <= j < others.len() && #[trigger] reaches(
                        adj,
                        others[j] as int,
                        all[i] as int,
                    );
                assert(list[j + 1] == others[j]);
                assert(reaches(adj, list[j + 1] as int, all[i] as int));
            }
            assert forall|j: int| 0 <= j < list.len() implies seen.contains(#[trigger] list[j])
                || all.contains(list[j]) by {
                if j > 0 {
                    assert(others[j - 1] == list[j]);
                }
            }
        } else {
            let wider = seen.insert(first);
            let below = scan(adj, adj[first as int], wider);
            let found = seq![first] + below;
            let widest = seen.union(found.to_set());
            let beside = scan(adj, others, widest);
            lemma_unseen_less(adj, seen, first, below);
            assert forall|j: int| 0 <= j < adj[first as int].len() implies adj[first as int][j]
                < adj.len() by {}
            lemma_scan(adj, adj[first as int], wider);
            lemma_scan(adj, others, widest);
            assert(all == found + beside);
            lemma_walk_single(adj, first as int);
            assert forall|i: int| 0 <= i < found.len() implies found.to_set().contains(
                #[trigger] found[i],
            ) by {}
            assert forall|i: int| 0 <= i < all.len() implies {
                let x = #[trigger] all[i];
                &&& x < adj.len()
                &&& !seen.contains(x)
                &&& reaches(adj, first as int, x as int) || reached_from(
                    adj,
                    others,
                    x,
                )
            } by {
                let x = all[i];
                if i == 0 {
                } else if i < found.len() {
                    assert(x == below[i - 1]);
                    assert(reached_from(adj, adj[first as int], below[i - 1]));
                    let j = choose|j: int|
                        0 <= j < adj[first as int].len() && #[trigger] reaches(
                            adj,
                            adj[first as int][j] as int,
                            x as int,
                        );
                    assert(has_edge(adj, first as int, adj[first as int][j] as int));
                    lemma_edge_connects(adj, first as int, adj[first as int][j] as int);
                    lemma_reaches_trans(adj, first as int, adj[first as int][j] as int, x as int);
                } else {
                    assert(x == beside[i - found.len()]);
                }
            }
            assert forall|i: int| 0 <= i < all.len() implies reached_from(
                adj,
                list,
                #[trigger] all[i],
            ) by {
                if reaches(adj, first as int, all[i] as int) {
                    assert(reaches(adj, list[0] as int, all[i] as int));
                } else {
                    let j = choose|j: int|
                        0 <= j < others.len() && #[trigger] reaches(
                            adj,
                            others[j] as int,
                            all[i] as int,
                        );
                    assert(list[j + 1] == others[j]);
                    assert(reaches(adj, list[j + 1] as int, all[i] as int));
                }
            }
            assert(all.no_duplicates()) by {
                assert forall|i: int, j: int|
                    0 <= i < all.len() && 0 <= j < all.len() && i != j implies all[i] != all[j] by {
                    let (lo, hi) = if i < j {
                        (i, j)
                    } else {
                        (j, i)
                    };
                    if hi < found.len() {
                        if lo > 0 {
                            assert(all[lo] == below[lo - 1] && all[hi] == below[hi - 1]);
                        } else {
                            assert(all[hi] == below[hi - 1]);
                            assert(wider.contains(first));
                        }
                    } else if lo >= found.len() {
                        assert(all[lo] == beside[lo - found.len()]);
                        assert(all[hi] == beside[hi - found.len()]);
                    } else {
                        assert(all[lo] == found[lo]);
                        assert(all[hi] == beside[hi - found.len()]);
                        assert(widest.contains(found[lo]));
                    }
                }
            }
            assert forall|x: usize| found.contains(x) || beside.contains(x) implies all.contains(
                x,
            ) by {
                if found.contains(x) {
                    let i = choose|i: int| 0 <= i < found.len() && found[i] == x;
                    assert(all[i] == x);
                } else {
                    let i = choose|i: int| 0 <= i < beside.len() && beside[i] == x;
                    assert(all[found.len() + i] == x);
                }
            }
            assert forall|x: usize| below.contains(x) implies found.contains(x) by {
                let i = choose|i: int| 0 <= i < below.len() && below[i] == x;
                assert(found[i + 1] == x);
            }
            assert(found[0] == first);
            assert(found.contains(first));
            assert forall|x: usize| widest.contains(x) implies seen.contains(x) || found.contains(
                x,
            ) by {}
            assert forall|j: int| 0 <= j < list.len() implies seen.contains(#[trigger] list[j])
                || all.contains(list[j]) by {
                if j > 0 {
                    assert(others[j - 1] == list[j]);
                }
            }
            assert forall|i: int, k: int| 0 <= i < all.len() && 0 <= k < adj[all[i] as int].len() implies {
                let y = #[trigger] adj[all[i] as int][k];
                seen.contains(y) || all.contains(y)
            } by {
                let y = adj[all[i] as int][k];
                if i == 0 {
                    assert(wider.contains(y) || below.contains(y));
                } else if i < found.len() {
                    assert(all[i] == below[i - 1]);
                    assert(wider.contains(adj[below[i - 1] as int][k]) || below.contains(
                        adj[below[i - 1] as int][k],
                    ));
                } else {
                    assert(all[i] == beside[i - found.len()]);
                    assert(widest.contains(adj[beside[i - found.len()] as int][k])
                        || beside.contains(adj[beside[i - found.len()] as int][k]));
                }
            }
        }
    }
}

/// A depth-first search from `start` finds every node connected to it, and
/// each of them once.
pub proof fn lemma_depth_first(adj: Seq<Seq<usize>>, start: usize)
    requires
        in_bounds(adj),
        start < adj.len(),
    ensures
        depth_first(adj, start).no_duplicates(),
        forall|x: int|
            connected(adj, start as int, x) <==> 0 <= x <= usize::MAX && depth_first(
                adj,
                start,
            ).contains(x as usize),
{
    let list = adj[start as int];
    let none = Set::<usize>::empty();
    let order = depth_first(adj, start);
    assert forall|j: int| 0 <= j < list.len() implies list[j] < adj.len() by {}
    lemma_scan(adj, list, none);
    let closed = Set::new(|x: int| 0 <= x <= usize::MAX && order.contains(x as usize));
    assert forall|x: int, y: int|
        (x == start || closed.contains(x)) && #[trigger] has_edge(adj, x, y) implies closed.contains(
        y,
    ) by {
        let k = choose|k: int| 0 <= k < adj[x].len() && #[trigger] adj[x][k] == y;
        if x == start {
            assert(none.contains(list[k]) || order.contains(list[k]));
        } else {
            let i = choose|i: int| 0 <= i < order.len() && order[i] == x as usize;
            assert(none.contains(adj[order[i] as int][k]) || order.contains(
                adj[order[i] as int][k],
            ));
        }
    }
    lemma_closed_holds_connected(adj, start as int, closed);
    assert forall|x: int|
        connected(adj, start as int, x) <==> 0 <= x <= usize::MAX && order.contains(
            x as usize,
        ) by {
        if connected(adj, start as int, x) {
            assert(closed.contains(x));
        }
        if 0 <= x <= usize::MAX && order.contains(x as usize) {
            let i = choose|i: int| 0 <= i < order.len() && order[i] == x as usize;
            assert(reached_from(adj, list, order[i]));
            let j = choose|j: int|
                0 <= j < list.len() && #[trigger] reaches(
                    adj,
                    list[j] as int,
                    order[i] as int,
                );
            assert(has_edge(adj, start as int, list[j] as int));
            lemma_edge_connects(adj, start as int, list[j] as int);
            lemma_reaches_trans(adj, start as int, list[j] as int, x);
        }
    }
}

/// A depth-first search that starts at one node and hands out, one per call,
/// every node connected to it.
///
/// The stack holds the nodes whose neighbours are not all looked at yet, each
/// with the position at which to go on.
pub struct Search<'a> {
    adjacency: &'a Adjacency,
    start: usize,
    stack: Vec<(usize, usize)>,
    visited: HashSet<usize, RandomState>,
}

/// `x` is the start or was handed out.
spec fn known(start: int, visited: Set<usize>, x: int) -> bool {
    x == start || (0 <= x <= usize::MAX && visited.contains(x as usize))
}

/// Every neighbour of `x` was handed out.
spec fn settled(adj: Seq<Seq<usize>>, visited: Set<usize>, x: int) -> bool {
    forall|j: int| 0 <= j < adj[x].len() ==> visited.contains(#[trigger] adj[x][j])
}

/// `x` waits on the stack.
spec fn on_stack(stack: Seq<(usize, usize)>, x: int) -> bool {
    exists|k: int| 0 <= k < stack.len() && (#[trigger] stack[k]).0 == x
}

/// The frame is a known node with a position in its list before which every
/// neighbour was handed out.
spec fn frame_ok(
    adj: Seq<Seq<usize>>,
    start: int,
    visited: Set<usize>,
    frame: (usize, usize),
) -> bool {
    &&& frame.0 < adj.len()
    &&& frame.1 <= adj[frame.0 as int].len()
    &&& known(start, visited, frame.0 as int)
    &&& forall|j: int| 0 <= j < frame.1 ==> visited.contains(#[trigger] adj[frame.0 as int][j])
}

/// What holds of a search between two steps, and of one that has taken `current`
/// off its stack.
spec fn search_inv(
    adj: Seq<Seq<usize>>,
    start: int,
    stack: Seq<(usize, usize)>,
    visited: Set<usize>,
    current: Option<int>,
) -> bool {
    &&& in_bounds(adj)
    &&& 0 <= start < adj.len()
    &&& forall|k: int| 0 <= k < stack.len() ==> frame_ok(adj, start, visited, #[trigger] stack[k])
    &&& forall|x: usize| #[trigger] visited.contains(x) ==> connected(adj, start, x as int)
    &&& forall|x: int| #[trigger]
        known(start, visited, x) ==> current == Some(x) || on_stack(stack, x) || settled(
            adj,
            visited,
            x,
        )
}

impl<'a> Search<'a> {
    /// The graph that is searched.
    pub closed spec fn graph(&self) -> Seq<Seq<usize>> {
        self.adjacency@
    }

    /// The node at which the search started.
    pub closed spec fn start(&self) -> int {
        self.start as int
    }

    /// The nodes handed out so far.
    pub closed spec fn found(&self) -> Set<usize> {
        self.visited@
    }

    /// The nodes that are still to be handed out, the next one first.
    pub closed spec fn coming(&self) -> Seq<usize> {
        yet(self.adjacency@, self.stack@, self.visited@)
    }

    /// The search is in a state that `new` and `next` leave it in.
    pub closed spec fn wf(&self) -> bool {
        search_inv(self.adjacency@, self.start as int, self.stack@, self.visited@, None)
    }

    /// Every node handed out is connected to the start, and so is a node.
    pub proof fn lemma_found_connected(&self)
        requires
            self.wf(),
        ensures
            forall|x: usize| #[trigger]
                self.found().contains(x) ==> connected(self.graph(), self.start(), x as int),
            in_bounds(self.graph()),
            0 <= self.start() < self.graph().len(),
    {
    }

    /// Starts a search at `start`.
    pub fn new(adjacency: &'a Adjacency, start: usize) -> (search: Self)
        requires
            in_bounds(adjacency@),
            start < adjacency@.len(),
        ensures
            search.wf(),
            search.graph() == adjacency@,
            search.start() == start,
            search.found() == Set::<usize>::empty(),
            search.coming() == depth_first(adjacency@, start),
    {
        let mut stack: Vec<(usize, usize)> = Vec::new();
        stack.push((start, 0));
        let search = Search { adjacency, start, stack, visited: HashSet::default() };
        proof {
            let adj = adjacency@;
            let none = Set::<usize>::empty();
            assert(search.stack@[0].0 == start);
            assert(on_stack(search.stack@, start as int));
            assert(search.stack@.last() == (start, 0usize));
            assert(search.stack@.drop_last() =~= Seq::<(usize, usize)>::empty());
            assert(adj[start as int].skip(0) =~= adj[start as int]);
            let here = scan(adj, adj[start as int], none);
            assert(yet(adj, Seq::<(usize, usize)>::empty(), none.union(here.to_set()))
                =~= Seq::<usize>::empty());
            assert(here + Seq::<usize>::empty() =~= here);
        }
        search
    }

    /// Hands out a node that is connected to the start and was not handed out
    /// before, or `None` once every such node has been.
    pub fn next(&mut self) -> (node: Option<usize>)
        requires
            old(self).wf(),
        ensures
            final(self).wf(),
            final(self).graph() == old(self).graph(),
            final(self).start() == old(self).start(),
            match node {
                Some(x) => {
                    &&& old(self).coming().len() > 0
                    &&& x == old(self).coming()[0]
                    &&& final(self).coming() == old(self).coming().drop_first()
                    &&& !old(self).found().contains(x)
                    &&& connected(old(self).graph(), old(self).start(), x as int)
                    &&& final(self).found() == old(self).found().insert(x)
                },
                None => {
                    &&& old(self).coming().len() == 0
                    &&& final(self).coming().len() == 0
                    &&& final(self).found() == old(self).found()
                    &&& forall|x: int| #[trigger]
                        connected(old(self).graph(), old(self).start(), x) ==> 0 <= x
                            <= usize::MAX && old(self).found().contains(x as usize)
                },
            },
    {
        let ghost adj = self.adjacency@;
        let ghost order = yet(self.adjacency@, self.stack@, self.visited@);
        let ghost start = self.start as int;
        while self.stack.len() > 0
            invariant
                adj == old(self).adjacency@,
                start == old(self).start as int,
                self.adjacency == old(self).adjacency,
                self.start == old(self).start,
                self.visited@ == old(self).visited@,
                search_inv(adj, start, self.stack@, self.visited@, None),
                order == old(self).coming(),
                yet(adj, self.stack@, self.visited@) == order,
            decreases self.stack.len(),
        {
            let ghost before = self.stack@;
            let (node, from) = self.stack.pop().unwrap();
            let list = &self.adjacency[node];
            let mut at: usize = from;
            proof {
                let stack = self.stack@;
                let seen = self.visited@;
                assert(before.last() == (node, from));
                assert(stack =~= before.drop_last());
                assert(before[before.len() - 1] == (node, from));
                assert(frame_ok(adj, start, seen, before[before.len() - 1]));
                assert forall|k: int| 0 <= k < stack.len() implies frame_ok(
                    adj,
                    start,
                    seen,
                    #[trigger] stack[k],
                ) by {
                    assert(stack[k] == before[k]);
                }
                assert forall|x: int| #[trigger] known(start, seen, x) implies Some(node as int)
                    == Some(x) || on_stack(stack, x) || settled(adj, seen, x) by {
                    if x != node && on_stack(before, x) {
                        let k = choose|k: int| 0 <= k < before.len() && (#[trigger] before[k]).0 == x;
                        assert(stack[k] == before[k]);
                    }
                }
            }
            while at < list.len()
                invariant
                    adj == old(self).adjacency@,
                    start == old(self).start as int,
                    self.adjacency == old(self).adjacency,
                    self.start == old(self).start,
                    self.visited@ == old(self).visited@,
                    node < adj.len(),
                    list@ == adj[node as int],
                    at <= list@.len(),
                    known(start, self.visited@, node as int),
                    forall|j: int| 0 <= j < at ==> self.visited@.contains(#[trigger] adj[node as int][j]),
                    search_inv(adj, start, self.stack@, self.visited@, Some(node as int)),
                    self.stack@.len() == before.len() - 1,
                    in_bounds(adj),
                    order == old(self).coming(),
                    order == scan(adj, list@.skip(at as int), self.visited@) + yet(
                        adj,
                        self.stack@,
                        self.visited@.union(scan(adj, list@.skip(at as int), self.visited@).to_set()),
                    ),
                decreases list@.len() - at,
            {
                let candidate = list[at];
                let ghost tail = list@.skip(at as int);
                proof {
                    assert(tail[0] == candidate);
                    assert(tail.drop_first() =~= list@.skip(at + 1));
                    assert(adj[node as int][at as int] == candidate);
                    assert(candidate < adj.len());
                }
                at = at + 1;
                let ghost seen = self.visited@;
                let ghost rest = self.stack@;
                if visited::insert(&mut self.visited, candidate) {
                    self.stack.push((node, at));
                    self.stack.push((candidate, 0));
                    proof {
                        let now = self.visited@;
                        let stack = self.stack@;
                        let middle = rest.push((node, at));
                        let below = scan(adj, adj[candidate as int], now);
                        let found = seq![candidate] + below;
                        let beside = scan(adj, list@.skip(at as int), seen.union(found.to_set()));
                        let here = found + beside;
                        assert(scan(adj, tail, seen) == here);
                        assert(stack.last() == (candidate, 0usize));
                        assert(stack.drop_last() =~= middle);
                        assert(middle.last() == (node, at));
                        assert(middle.drop_last() =~= rest);
                        assert(adj[candidate as int].skip(0) =~= adj[candidate as int]);
                        seq_to_set_distributes_over_add(seq![candidate], below);
                        seq_to_set_distributes_over_add(found, beside);
                        assert(seq![candidate].to_set() =~= set![candidate]) by {
                            assert(seq![candidate][0] == candidate);
                        }
                        assert(seen.union(found.to_set()) =~= now.union(below.to_set()));
                        assert(seen.union(here.to_set()) =~= now.union(below.to_set()).union(
                            beside.to_set(),
                        ));
                        let after = yet(adj, stack, now);
                        let between = now.union(below.to_set());
                        assert(adj[stack.last().0 as int].skip(stack.last().1 as int)
                            == adj[candidate as int]);
                        assert(after == below + yet(adj, middle, between));
                        assert(adj[middle.last().0 as int].skip(middle.last().1 as int)
                            == list@.skip(at as int));
                        assert(yet(adj, middle, between) == beside + yet(
                            adj,
                            rest,
                            between.union(beside.to_set()),
                        ));
                        assert(after == below + (beside + yet(
                            adj,
                            rest,
                            now.union(below.to_set()).union(beside.to_set()),
                        )));
                        assert(order =~= seq![candidate] + after);
                        assert(order[0] == candidate);
                        assert(order.drop_first() =~= after);
                        assert(has_edge(adj, node as int, candidate as int));
                        assert(candidate < adj.len());
                        lemma_edge_connects(adj, node as int, candidate as int);
                        lemma_reaches_cases(adj, start, node as int);
                        if node as int != start {
                            assert(seen.contains(node));
                            assert(connected(adj, start, node as int));
                        }
                        lemma_reaches_trans(adj, start, node as int, candidate as int);
                        assert(stack[rest.len() as int] == (node, at));
                        assert(stack[rest.len() as int + 1] == (candidate, 0usize));
                        assert forall|k: int| 0 <= k < stack.len() implies frame_ok(
                            adj,
                            start,
                            now,
                            #[trigger] stack[k],
                        ) by {
                            if k < rest.len() {
                                assert(stack[k] == rest[k]);
                                assert(frame_ok(adj, start, seen, rest[k]));
                            }
                        }
                        assert forall|x: int| #[trigger] known(start, now, x) implies on_stack(
                            stack,
                            x,
                        ) || settled(adj, now, x) by {
                            if x == node {
                                assert(stack[rest.len() as int].0 == x);
                            } else if x == candidate {
                                assert(stack[rest.len() as int + 1].0 == x);
                            } else {
                                assert(known(start, seen, x));
                                if on_stack(rest, x) {
                                    let k = choose|k: int|
                                        0 <= k < rest.len() && (#[trigger] rest[k]).0 == x;
                                    assert(stack[k] == rest[k]);
                                } else {
                                    assert(settled(adj, seen, x));
                                }
                            }
                        }
                    }
                    return Some(candidate);
                }
                assert(self.visited@ =~= seen);
            }
            proof {
                assert(list@.skip(at as int) =~= Seq::<usize>::empty());
                let none = scan(adj, Seq::<usize>::empty(), self.visited@);
                assert(none =~= Seq::<usize>::empty());
                assert(self.visited@.union(none.to_set()) =~= self.visited@);
                assert(none + yet(adj, self.stack@, self.visited@) =~= yet(
                    adj,
                    self.stack@,
                    self.visited@,
                ));
            }
            proof {
                let seen = self.visited@;
                assert(settled(adj, seen, node as int));
                assert forall|x: int| #[trigger] known(start, seen, x) implies on_stack(
                    self.stack@,
                    x,
                ) || settled(adj, seen, x) by {
                }
            }
        }
        proof {
            let found = self.visited@;
            let closed = Set::new(|x: int| 0 <= x <= usize::MAX && found.contains(x as usize));
            assert forall|x: int, y: int|
                (x == start || closed.contains(x)) && #[trigger] has_edge(adj, x, y)
                implies closed.contains(y) by {
                assert(known(start, found, x));
                assert(!on_stack(self.stack@, x));
                assert(settled(adj, found, x));
                let j = choose|j: int| 0 <= j < adj[x].len() && #[trigger] adj[x][j] == y;
                assert(found.contains(adj[x][j]));
            }
            lemma_closed_holds_connected(adj, start, closed);
            assert forall|x: int| #[trigger] connected(adj, start, x) implies 0 <= x <= usize::MAX
                && found.contains(x as usize) by {
                assert(closed.contains(x));
            }
        }
        None
    }
}

} // verus!
