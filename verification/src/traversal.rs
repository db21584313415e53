//! Topological traversal.

use crate::error::Error;
use crate::relation::{acyclic, has_edge, in_bounds, is_walk, lemma_connected_steps,
    lemma_edge_connects, lemma_reaches_cases, lemma_reaches_trans, lemma_walk_bound,
    lemma_walk_prepend, lemma_walk_single, reaches};
use crate::topology::distance::is_hops;
use crate::topology::Topology;
use std::collections::VecDeque;
use vstd::prelude::*;
use vstd::set_lib::{lemma_int_range, lemma_len_subset, set_int_range};

verus! {

/// Where a node stands in a traversal.
#[derive(Clone, Copy, Debug, PartialEq, Eq, Structural)]
pub enum State {
    /// The node waits for predecessors, or is not part of the traversal.
    Pending,
    /// The node can be taken.
    Ready,
    /// The node was taken and is not completed yet.
    InFlight,
    /// The node was completed.
    Completed,
}

/// How far a node has come: a node is pending, then ready, then in flight,
/// then completed.
pub open spec fn rank(state: State) -> int {
    match state {
        State::Pending => 0,
        State::Ready => 1,
        State::InFlight => 2,
        State::Completed => 3,
    }
}

/// From one sequence of states to the other, every node has stayed where it
/// was or has moved on to the next state.
pub open spec fn advanced(before: Seq<State>, after: Seq<State>) -> bool {
    &&& before.len() == after.len()
    &&& forall|v: int|
        0 <= v < before.len() ==> rank(before[v]) <= rank(#[trigger] after[v]) <= rank(before[v])
            + 1
}

/// What happened in a traversal.
#[derive(Clone, Copy, Debug)]
pub enum Event {
    /// The node was handed out by `take`.
    Take(usize),
    /// The node was reported to `complete`.
    Complete(usize),
}

/// The nodes among `initial`.
pub open spec fn roots_of(initial: Seq<usize>) -> Set<int> {
    Set::new(|root: int| exists|i: int| 0 <= i < initial.len() && #[trigger] initial[i] == root)
}

/// `node` can be reached from one of the roots. These nodes are the ones that
/// the traversal visits.
pub open spec fn explored_from(out: Seq<Seq<usize>>, roots: Set<int>, node: int) -> bool {
    exists|root: int| roots.contains(root) && #[trigger] reaches(out, root, node)
}

/// The predecessors of `node` that the traversal visits and that are not
/// completed.
pub open spec fn unresolved_of(
    out: Seq<Seq<usize>>,
    roots: Set<int>,
    states: Seq<State>,
    node: int,
) -> Set<int> {
    Set::new(
        |p: int| has_edge(out, p, node) && explored_from(out, roots, p) && states[p] != State::Completed,
    )
}

/// The nodes that are in flight.
pub open spec fn flying(states: Seq<State>) -> Set<int> {
    Set::new(|v: int| 0 <= v < states.len() && states[v] == State::InFlight)
}

/// The sequence is strictly ascending.
pub open spec fn ascending(nodes: Seq<usize>) -> bool {
    forall|i: int, j: int| 0 <= i < j < nodes.len() ==> nodes[i] < nodes[j]
}

/// The sets of predecessors are finite.
pub proof fn lemma_unresolved_finite(
    out: Seq<Seq<usize>>,
    roots: Set<int>,
    states: Seq<State>,
    node: int,
)
    ensures
        unresolved_of(out, roots, states, node).finite(),
        unresolved_of(out, roots, states, node).len() <= out.len(),
{
    let all = set_int_range(0, out.len() as int);
    lemma_int_range(0, out.len() as int);
    let set = unresolved_of(out, roots, states, node);
    assert(set.subset_of(all));
    lemma_len_subset(set, all);
}

/// The set of nodes in flight is finite.
pub proof fn lemma_flying_finite(states: Seq<State>)
    ensures
        flying(states).finite(),
        flying(states).len() <= states.len(),
{
    let all = set_int_range(0, states.len() as int);
    lemma_int_range(0, states.len() as int);
    assert(flying(states).subset_of(all));
    lemma_len_subset(flying(states), all);
}

/// Marks the nodes that can be reached from one of `initial`, by the
/// distance table.
fn explore(topology: &Topology, initial: &[usize]) -> (flags: Vec<bool>)
    requires
        topology.wf(),
        forall|i: int| 0 <= i < initial@.len() ==> (#[trigger] initial@[i]) < topology.count(),
    ensures
        flags@.len() == topology.count(),
        forall|x: int|
            0 <= x < topology.count() ==> #[trigger] flags@[x] == explored_from(
                topology.outgoing()@,
                roots_of(initial@),
                x,
            ),
{
    let distance = topology.distance();
    let count = distance.len();
    let ghost out = topology.outgoing()@;
    let ghost roots = roots_of(initial@);
    let mut flags: Vec<bool> = Vec::new();
    while flags.len() < count
        invariant
            topology.wf(),
            distance == topology.distance(),
            out == topology.outgoing()@,
            count == out.len(),
            roots == roots_of(initial@),
            forall|i: int| 0 <= i < initial@.len() ==> (#[trigger] initial@[i]) < count,
            flags@.len() <= count,
            forall|x: int| 0 <= x < flags@.len() ==> #[trigger] flags@[x] == explored_from(out, roots, x),
        decreases count - flags@.len(),
    {
        let node = flags.len();
        let mut found = false;
        let mut at: usize = 0;
        while at < initial.len()
            invariant
                topology.wf(),
                distance == topology.distance(),
                out == topology.outgoing()@,
                count == out.len(),
                node < count,
                at <= initial@.len(),
                forall|i: int| 0 <= i < initial@.len() ==> (#[trigger] initial@[i]) < count,
                found == exists|i: int| 0 <= i < at && reaches(out, #[trigger] initial@[i] as int, node as int),
            decreases initial@.len() - at,
        {
            let root = initial[at];
            let row = &distance[root];
            assert(is_hops(out, root as int, node as int, distance@[root as int][node as int]));
            if row[node].is_some() {
                proof {
                    crate::breadth::lemma_reaches_in_some(out, root as int, node as int);
                }
                found = true;
            }
            at = at + 1;
        }
        proof {
            if found {
                let i = choose|i: int| 0 <= i < at && reaches(out, #[trigger] initial@[i] as int, node as int);
                assert(roots.contains(initial@[i] as int));
            }
            if explored_from(out, roots, node as int) {
                let root = choose|root: int| roots.contains(root) && #[trigger] reaches(out, root, node as int);
                let i = choose|i: int| 0 <= i < initial@.len() && #[trigger] initial@[i] == root;
                assert(reaches(out, initial@[i] as int, node as int));
            }
        }
        flags.push(found);
    }
    flags
}

/// Counts, for each node, the predecessors that are marked.
fn count_marked(topology: &Topology, flags: &Vec<bool>, Ghost(roots): Ghost<Set<int>>) -> (counters: Vec<usize>)
    requires
        topology.wf(),
        flags@.len() == topology.count(),
        forall|x: int|
            0 <= x < topology.count() ==> #[trigger] flags@[x] == explored_from(
                topology.outgoing()@,
                roots,
                x,
            ),
    ensures
        counters@.len() == topology.count(),
        forall|v: int|
            0 <= v < topology.count() ==> (#[trigger] counters@[v]) == unresolved_of(
                topology.outgoing()@,
                roots,
                Seq::new(topology.count(), |x: int| State::Pending),
                v,
            ).len(),
{
    let incoming = topology.incoming();
    let count = incoming.len();
    let ghost out = topology.outgoing()@;
    let ghost inc = incoming@;
    let ghost states = Seq::new(topology.count(), |x: int| State::Pending);
    let mut counters: Vec<usize> = Vec::new();
    while counters.len() < count
        invariant
            topology.wf(),
            incoming == topology.incoming(),
            out == topology.outgoing()@,
            inc == incoming@,
            count == out.len(),
            states == Seq::new(topology.count(), |x: int| State::Pending),
            flags@.len() == count,
            forall|x: int| 0 <= x < count ==> #[trigger] flags@[x] == explored_from(out, roots, x),
            counters@.len() <= count,
            forall|v: int|
                0 <= v < counters@.len() ==> (#[trigger] counters@[v]) == unresolved_of(
                    out,
                    roots,
                    states,
                    v,
                ).len(),
        decreases count - counters@.len(),
    {
        let node = counters.len();
        let list = &incoming[node];
        let mut counter: usize = 0;
        let mut at: usize = 0;
        let ghost mut counted: Set<int> = Set::empty();
        while at < list.len()
            invariant
                topology.wf(),
                out == topology.outgoing()@,
                inc == topology.incoming()@,
                count == out.len(),
                node < count,
                list@ == inc[node as int],
                at <= list@.len(),
                flags@.len() == count,
                forall|x: int| 0 <= x < count ==> #[trigger] flags@[x] == explored_from(out, roots, x),
                counted.finite(),
                counter == counted.len(),
                counter <= at,
                forall|p: int|
                    counted.contains(p) <==> explored_from(out, roots, p) && exists|j: int|
                        0 <= j < at && #[trigger] list@[j] == p,
            decreases list@.len() - at,
        {
            let p = list[at];
            assert(inc[node as int][at as int] == p);
            assert(p < count);
            if flags[p] {
                proof {
                    assert(!counted.contains(p as int)) by {
                        if counted.contains(p as int) {
                            let j = choose|j: int| 0 <= j < at && #[trigger] list@[j] == p as int;
                            assert(inc[node as int].no_duplicates());
                        }
                    }
                    let wider = counted.insert(p as int);
                    assert forall|q: int|
                        wider.contains(q) <==> explored_from(out, roots, q) && exists|j: int|
                            0 <= j < at + 1 && #[trigger] list@[j] == q by {
                        if counted.contains(q) {
                            let j = choose|j: int| 0 <= j < at && #[trigger] list@[j] == q;
                            assert(0 <= j < at + 1 && list@[j] == q);
                        }
                        if q == p {
                            assert(list@[at as int] == q);
                        }
                    }
                    counted = wider;
                }
                counter = counter + 1;
            } else {
                proof {
                    assert forall|q: int|
                        counted.contains(q) <==> explored_from(out, roots, q) && exists|j: int|
                            0 <= j < at + 1 && #[trigger] list@[j] == q by {
                        if counted.contains(q) {
                            let j = choose|j: int| 0 <= j < at && #[trigger] list@[j] == q;
                            assert(0 <= j < at + 1 && list@[j] == q);
                        }
                        if explored_from(out, roots, q) && exists|j: int|
                            0 <= j < at + 1 && #[trigger] list@[j] == q {
                            let j = choose|j: int| 0 <= j < at + 1 && #[trigger] list@[j] == q;
                            if j == at {
                                assert(flags@[p as int] == explored_from(out, roots, p as int));
                            }
                        }
                    }
                }
            }
            at = at + 1;
        }
        proof {
            let set = unresolved_of(out, roots, states, node as int);
            assert(counted =~= set) by {
                assert forall|p: int| counted.contains(p) <==> set.contains(p) by {
                    if counted.contains(p) {
                        let j = choose|j: int| 0 <= j < at && #[trigger] list@[j] == p;
                        assert(inc[node as int][j] == p);
                        assert(has_edge(inc, node as int, p));
                        assert(has_edge(out, p, node as int));
                    }
                    if set.contains(p) {
                        assert(has_edge(inc, node as int, p));
                        let j = choose|j: int|
                            0 <= j < inc[node as int].len() && #[trigger] inc[node as int][j] == p;
                        assert(list@[j] == p);
                    }
                }
            }
        }
        counters.push(counter);
    }
    counters
}

/// Marks the nodes among `initial`.
fn mark(count: usize, initial: &[usize]) -> (flags: Vec<bool>)
    requires
        forall|i: int| 0 <= i < initial@.len() ==> (#[trigger] initial@[i]) < count,
    ensures
        flags@.len() == count,
        forall|x: int| 0 <= x < count ==> #[trigger] flags@[x] == roots_of(initial@).contains(x),
{
    let mut flags: Vec<bool> = Vec::new();
    while flags.len() < count
        invariant
            flags@.len() <= count,
            forall|x: int| 0 <= x < flags@.len() ==> !#[trigger] flags@[x],
        decreases count - flags@.len(),
    {
        flags.push(false);
    }
    let mut at: usize = 0;
    while at < initial.len()
        invariant
            at <= initial@.len(),
            flags@.len() == count,
            forall|i: int| 0 <= i < initial@.len() ==> (#[trigger] initial@[i]) < count,
            forall|x: int|
                0 <= x < count ==> #[trigger] flags@[x] == exists|i: int|
                    0 <= i < at && #[trigger] initial@[i] == x,
        decreases initial@.len() - at,
    {
        let root = initial[at];
        let ghost before = flags@;
        flags[root] = true;
        proof {
            assert forall|x: int| 0 <= x < count implies #[trigger] flags@[x] == exists|i: int|
                0 <= i < at + 1 && #[trigger] initial@[i] == x by {
                if x == root {
                    assert(initial@[at as int] == x);
                } else {
                    assert(flags@[x] == before[x]);
                    if before[x] {
                        let i = choose|i: int| 0 <= i < at && #[trigger] initial@[i] == x;
                        assert(0 <= i < at + 1 && initial@[i] == x);
                    }
                }
            }
        }
        at = at + 1;
    }
    flags
}

/// The event says that `node` was completed.
pub open spec fn completes(event: Event, node: int) -> bool {
    event == Event::Complete(node as usize) && 0 <= node <= usize::MAX
}

/// `node` was completed before the event at `index`.
pub open spec fn completed_before(history: Seq<Event>, node: int, index: int) -> bool {
    exists|j: int| 0 <= j < index && j < history.len() && completes(#[trigger] history[j], node)
}

/// `node` was handed out by `take`.
pub open spec fn was_taken(history: Seq<Event>, node: int) -> bool {
    history.contains(Event::Take(node as usize))
}

/// `node` was reported to `complete`.
pub open spec fn was_completed(history: Seq<Event>, node: int) -> bool {
    history.contains(Event::Complete(node as usize))
}

/// The history fits the states: a node was taken exactly where it is in
/// flight or completed, was completed exactly where its state says so, no
/// event occurs twice, and before a node was taken, every predecessor of it
/// that the traversal visits was completed.
spec fn history_inv(
    out: Seq<Seq<usize>>,
    roots: Set<int>,
    states: Seq<State>,
    history: Seq<Event>,
) -> bool {
    &&& history.no_duplicates()
    &&& forall|i: int|
        0 <= i < history.len() ==> match #[trigger] history[i] {
            Event::Take(v) => v < states.len() && (states[v as int] == State::InFlight
                || states[v as int] == State::Completed),
            Event::Complete(v) => v < states.len() && states[v as int] == State::Completed,
        }
    &&& forall|v: int|
        0 <= v < states.len() && (states[v] == State::InFlight || states[v] == State::Completed)
            ==> #[trigger] was_taken(history, v)
    &&& forall|v: int|
        0 <= v < states.len() && states[v] == State::Completed ==> #[trigger] was_completed(
            history,
            v,
        )
    &&& forall|i: int, u: int|
        0 <= i < history.len() && history[i] is Take && has_edge(out, u, history[i]->Take_0 as int)
            && explored_from(out, roots, u) ==> #[trigger] completed_before(history, u, i)
}

/// What holds of a traversal between two calls.
spec fn traversal_inv(
    out: Seq<Seq<usize>>,
    roots: Set<int>,
    states: Seq<State>,
    counters: Seq<usize>,
    ready: Seq<usize>,
    history: Seq<Event>,
) -> bool {
    &&& states.len() == out.len()
    &&& states.len() <= usize::MAX
    &&& counters.len() == out.len()
    &&& forall|r: int| roots.contains(r) ==> 0 <= r < out.len()
    &&& forall|v: int|
        0 <= v < out.len() ==> (#[trigger] counters[v]) == unresolved_of(out, roots, states, v).len()
    &&& forall|v: int|
        0 <= v < out.len() && #[trigger] states[v] == State::Pending && explored_from(out, roots, v)
            ==> counters[v] > 0
    &&& forall|v: int|
        0 <= v < out.len() && #[trigger] states[v] != State::Pending ==> explored_from(out, roots, v)
            && counters[v] == 0
    &&& ready.no_duplicates()
    &&& forall|v: usize|
        #[trigger] ready.contains(v) <==> v < out.len() && states[v as int] == State::Ready
    &&& history_inv(out, roots, states, history)
}

/// A topological traversal: hands out each node that can be reached from its
/// roots, and only once every predecessor of the node that it visits was
/// reported as completed.
pub struct Traversal {
    topology: Topology,
    states: Vec<State>,
    counters: Vec<usize>,
    ready: VecDeque<usize>,
    in_flight: usize,
    roots: Ghost<Set<int>>,
    history: Ghost<Seq<Event>>,
}

impl Traversal {
    /// The topology that is traversed.
    pub closed spec fn topology(&self) -> Topology {
        self.topology
    }

    /// The nodes at which the traversal started.
    pub closed spec fn roots(&self) -> Set<int> {
        self.roots@
    }

    /// The states of the nodes.
    pub closed spec fn states(&self) -> Seq<State> {
        self.states@
    }

    /// The nodes that are ready, in the order in which `take` hands them out.
    pub closed spec fn ready(&self) -> Seq<usize> {
        self.ready@
    }

    /// What has happened so far: every node taken and every node completed,
    /// in the order of the calls.
    pub closed spec fn history(&self) -> Seq<Event> {
        self.history@
    }

    /// The number of nodes in flight.
    pub closed spec fn flights(&self) -> nat {
        self.in_flight as nat
    }

    /// `node` is visited by the traversal: it can be reached from a root.
    pub open spec fn explored(&self, node: int) -> bool {
        explored_from(self.topology().outgoing()@, self.roots(), node)
    }

    /// The predecessors of `node` that the traversal visits and that are not
    /// completed.
    pub open spec fn unresolved(&self, node: int) -> Set<int> {
        unresolved_of(self.topology().outgoing()@, self.roots(), self.states(), node)
    }

    /// The counters that the traversal keeps are those of its states.
    pub closed spec fn inv(&self) -> bool {
        &&& traversal_inv(
            self.topology.outgoing()@,
            self.roots@,
            self.states@,
            self.counters@,
            self.ready@,
            self.history@,
        )
        &&& self.in_flight == flying(self.states@).len()
    }

    /// The traversal is in a state that `new`, `take` and `complete` leave it
    /// in.
    pub open spec fn wf(&self) -> bool {
        &&& self.topology().wf()
        &&& self.inv()
    }

    /// Creates a traversal that starts at the given nodes.
    ///
    /// It visits the nodes that can be reached from them. Those among the
    /// given nodes that have no predecessor among the visited nodes are ready
    /// at once, in ascending order.
    pub fn new(topology: &Topology, initial: &[usize]) -> (traversal: Self)
        requires
            topology.wf(),
            forall|i: int| 0 <= i < initial@.len() ==> (#[trigger] initial@[i]) < topology.count(),
        ensures
            traversal.wf(),
            traversal.topology() == *topology,
            traversal.roots() == roots_of(initial@),
            traversal.history() == Seq::<Event>::empty(),
            traversal.flights() == 0,
            traversal.states().len() == topology.count(),
            forall|v: int|
                0 <= v < topology.count() ==> #[trigger] traversal.states()[v] == if roots_of(
                    initial@,
                ).contains(v) && traversal.unresolved(v) =~= Set::<int>::empty() {
                    State::Ready
                } else {
                    State::Pending
                },
            ascending(traversal.ready()),
            forall|v: usize| #[trigger]
                traversal.ready().contains(v) <==> v < topology.count() && traversal.states()[v as int]
                    == State::Ready,
    {
        let ghost out = topology.outgoing()@;
        let ghost roots = roots_of(initial@);
        let count = topology.outgoing().len();
        let is_root = mark(count, initial);
        let flags = explore(topology, initial);
        let counters = count_marked(topology, &flags, Ghost(roots));
        let ghost blank = Seq::new(count as nat, |x: int| State::Pending);
        let mut states: Vec<State> = Vec::new();
        let mut ready: VecDeque<usize> = VecDeque::new();
        while states.len() < count
            invariant
                count == out.len(),
                is_root@.len() == count,
                counters@.len() == count,
                states@.len() <= count,
                forall|x: int| 0 <= x < count ==> #[trigger] is_root@[x] == roots.contains(x),
                forall|v: int|
                    0 <= v < states@.len() ==> #[trigger] states@[v] == if roots.contains(v)
                        && counters@[v] == 0 {
                        State::Ready
                    } else {
                        State::Pending
                    },
                ascending(ready@),
                forall|i: int| 0 <= i < ready@.len() ==> ready@[i] < states@.len(),
                forall|v: usize| #[trigger]
                    ready@.contains(v) <==> v < states@.len() && states@[v as int] == State::Ready,
            decreases count - states@.len(),
        {
            let node = states.len();
            let ghost lined = ready@;
            let ghost marked = states@;
            if is_root[node] && counters[node] == 0 {
                states.push(State::Ready);
                ready.push_back(node);
                proof {
                    assert(ready@[lined.len() as int] == node);
                    assert forall|v: usize| #[trigger]
                        ready@.contains(v) <==> v < states@.len() && states@[v as int]
                            == State::Ready by {
                        if ready@.contains(v) {
                            let i = choose|i: int| 0 <= i < ready@.len() && ready@[i] == v;
                            if i < lined.len() {
                                assert(lined[i] == v);
                                assert(lined.contains(v));
                                assert(states@[v as int] == marked[v as int]);
                            }
                        }
                        if v < states@.len() && states@[v as int] == State::Ready && v != node {
                            assert(marked[v as int] == states@[v as int]);
                            assert(lined.contains(v));
                            let i = choose|i: int| 0 <= i < lined.len() && lined[i] == v;
                            assert(ready@[i] == v);
                        }
                    }
                }
            } else {
                states.push(State::Pending);
                proof {
                    assert forall|v: usize| #[trigger]
                        ready@.contains(v) <==> v < states@.len() && states@[v as int]
                            == State::Ready by {
                        if v < marked.len() {
                            assert(states@[v as int] == marked[v as int]);
                        }
                    }
                }
            }
        }
        let traversal = Traversal {
            topology: topology.clone(),
            states,
            counters,
            ready,
            in_flight: 0,
            roots: Ghost(roots),
            history: Ghost(Seq::empty()),
        };
        proof {
            let marked = traversal.states@;
            assert forall|v: int| 0 <= v < count implies unresolved_of(out, roots, marked, v)
                == unresolved_of(out, roots, blank, v) by {
                assert(unresolved_of(out, roots, marked, v) =~= unresolved_of(out, roots, blank, v));
            }
            assert forall|v: int| 0 <= v < count implies unresolved_of(out, roots, marked, v).finite() by {
                lemma_unresolved_finite(out, roots, marked, v);
            }
            assert forall|v: int|
                0 <= v < count && #[trigger] marked[v] == State::Pending && explored_from(
                    out,
                    roots,
                    v,
                ) implies traversal.counters@[v] > 0 by {
                if !roots.contains(v) {
                    let root = choose|root: int| roots.contains(root) && #[trigger] reaches(out, root, v);
                    lemma_reaches_cases(out, root, v);
                    lemma_connected_steps(out, root, v);
                    let w = choose|w: int|
                        has_edge(out, w, v) && 0 <= w < out.len() && #[trigger] reaches(out, root, w);
                    assert(unresolved_of(out, roots, marked, v).contains(w));
                }
            }
            assert forall|v: int|
                0 <= v < count && #[trigger] marked[v] != State::Pending implies explored_from(
                out,
                roots,
                v,
            ) && traversal.counters@[v] == 0 by {
                lemma_walk_single(out, v);
            }
            assert(traversal.ready@.no_duplicates());
            assert(flying(marked) =~= Set::<int>::empty());
            assert(traversal.history@.no_duplicates());
            assert(history_inv(out, roots, marked, traversal.history@));
            assert forall|v: int|
                0 <= v < count implies ((roots.contains(v) && traversal.counters@[v] == 0) <==> (
                roots.contains(v) && unresolved_of(out, roots, marked, v) =~= Set::<int>::empty())) by {
                lemma_unresolved_finite(out, roots, marked, v);
            }
        }
        traversal
    }

    /// Takes the next ready node: the one that became ready first.
    ///
    /// Returns `None` where no node is ready, which is the end of the
    /// traversal only if no node is in flight either.
    pub fn take(&mut self) -> (node: Option<usize>)
        requires
            old(self).wf(),
        ensures
            final(self).wf(),
            final(self).topology() == old(self).topology(),
            final(self).roots() == old(self).roots(),
            advanced(old(self).states(), final(self).states()),
            match node {
                Some(v) => {
                    &&& old(self).ready().len() > 0
                    &&& v == old(self).ready()[0]
                    &&& final(self).ready() == old(self).ready().drop_first()
                    &&& v < old(self).states().len()
                    &&& old(self).states()[v as int] == State::Ready
                    &&& final(self).states() == old(self).states().update(v as int, State::InFlight)
                    &&& final(self).history() == old(self).history().push(Event::Take(v))
                    &&& final(self).flights() == old(self).flights() + 1
                    &&& forall|u: int|
                        has_edge(old(self).topology().outgoing()@, u, v as int) && old(
                            self,
                        ).explored(u) ==> #[trigger] old(self).states()[u] == State::Completed
                },
                None => {
                    &&& old(self).ready().len() == 0
                    &&& final(self).ready() == old(self).ready()
                    &&& final(self).states() == old(self).states()
                    &&& final(self).history() == old(self).history()
                    &&& final(self).flights() == old(self).flights()
                },
            },
    {
        let ghost out = self.topology.outgoing()@;
        let ghost roots = self.roots@;
        let ghost states0 = self.states@;
        let ghost ready0 = self.ready@;
        let ghost history0 = self.history@;
        let ghost counters = self.counters@;
        let count = self.states.len();
        match self.ready.pop_front() {
            None => None,
            Some(node) => {
                proof {
                    assert(ready0.contains(node)) by {
                        assert(ready0[0] == node);
                    }
                    lemma_flying_finite(states0);
                    lemma_unresolved_finite(out, roots, states0, node as int);
                    assert(counters[node as int] == 0) by {
                        assert(states0[node as int] != State::Pending);
                    }
                    let next = states0.update(node as int, State::InFlight);
                    lemma_flying_finite(next);
                    assert(flying(next) =~= flying(states0).insert(node as int));
                }
                self.states[node] = State::InFlight;
                self.in_flight = self.in_flight + 1;
                proof {
                    self.history@ = history0.push(Event::Take(node));
                    let states1 = self.states@;
                    let ready1 = self.ready@;
                    let history1 = self.history@;
                    assert(states1 == states0.update(node as int, State::InFlight));
                    assert(ready1 =~= ready0.drop_first());
                    assert(flying(states1) =~= flying(states0).insert(node as int));
                    assert forall|v: int| 0 <= v < out.len() implies unresolved_of(out, roots, states1, v)
                        == unresolved_of(out, roots, states0, v) by {
                        assert(unresolved_of(out, roots, states1, v) =~= unresolved_of(
                            out,
                            roots,
                            states0,
                            v,
                        ));
                    }
                    assert forall|u: int|
                        has_edge(out, u, node as int) && explored_from(
                            out,
                            roots,
                            u,
                        ) implies #[trigger] states0[u] == State::Completed by {
                        if states0[u] != State::Completed {
                            assert(unresolved_of(out, roots, states0, node as int).contains(u));
                        }
                    }
                    assert forall|v: int|
                        0 <= v < out.len() && #[trigger] states1[v] == State::Pending
                            && explored_from(out, roots, v) implies counters[v] > 0 by {
                        assert(states0[v] == State::Pending);
                    }
                    assert forall|v: int|
                        0 <= v < out.len() && #[trigger] states1[v] != State::Pending implies explored_from(
                        out,
                        roots,
                        v,
                    ) && counters[v] == 0 by {
                        if v != node {
                            assert(states0[v] != State::Pending);
                        } else {
                            assert(states0[node as int] != State::Pending);
                        }
                    }
                    assert forall|i: int, j: int|
                        0 <= i < ready1.len() && 0 <= j < ready1.len() && i != j implies ready1[i]
                        != ready1[j] by {
                        assert(ready1[i] == ready0[i + 1]);
                        assert(ready1[j] == ready0[j + 1]);
                    }
                    assert forall|v: usize| #[trigger]
                        ready1.contains(v) <==> v < out.len() && states1[v as int]
                            == State::Ready by {
                        if ready1.contains(v) {
                            let i = choose|i: int| 0 <= i < ready1.len() && ready1[i] == v;
                            assert(ready0[i + 1] == v);
                            assert(ready0.contains(v));
                            assert(v != node);
                        }
                        if v < out.len() && states1[v as int] == State::Ready {
                            assert(states0[v as int] == State::Ready);
                            assert(ready0.contains(v));
                            let i = choose|i: int| 0 <= i < ready0.len() && ready0[i] == v;
                            assert(i > 0);
                            assert(ready1[i - 1] == v);
                        }
                    }
                    lemma_history_take(out, roots, states0, history0, node);
                }
                Some(node)
            },
        }
    }

    /// Completing `node` makes `successor` ready: it is a successor of
    /// `node`, and every other predecessor of it that the traversal visits
    /// is completed.
    pub open spec fn releases(&self, node: int, successor: int) -> bool {
        &&& has_edge(self.topology().outgoing()@, node, successor)
        &&& self.unresolved(successor).remove(node) =~= Set::<int>::empty()
    }

    /// Reports a node in flight as completed.
    ///
    /// Fails with `NotInFlight` where the node is not in flight. Else the
    /// successors of the node whose visited predecessors are now all
    /// completed become ready, and join the queue behind the nodes that were
    /// ready before, in ascending order.
    pub fn complete(&mut self, node: usize) -> (result: Result<(), Error>)
        requires
            old(self).wf(),
        ensures
            final(self).wf(),
            final(self).topology() == old(self).topology(),
            final(self).roots() == old(self).roots(),
            final(self).states().len() == old(self).states().len(),
            advanced(old(self).states(), final(self).states()),
            match result {
                Ok(()) => {
                    &&& node < old(self).states().len()
                    &&& old(self).states()[node as int] == State::InFlight
                    &&& final(self).history() == old(self).history().push(Event::Complete(node))
                    &&& final(self).flights() == old(self).flights() - 1
                    &&& forall|v: int|
                        0 <= v < old(self).states().len() ==> #[trigger] final(self).states()[v]
                            == if v == node {
                            State::Completed
                        } else if old(self).releases(node as int, v) {
                            State::Ready
                        } else {
                            old(self).states()[v]
                        }
                    &&& final(self).ready().len() >= old(self).ready().len()
                    &&& final(self).ready().take(old(self).ready().len() as int) == old(
                        self,
                    ).ready()
                    &&& ascending(final(self).ready().skip(old(self).ready().len() as int))
                    &&& forall|v: usize| #[trigger]
                        final(self).ready().skip(old(self).ready().len() as int).contains(v)
                            <==> old(self).releases(node as int, v as int)
                },
                Err(Error::NotInFlight) => {
                    &&& !(node < old(self).states().len() && old(self).states()[node as int]
                        == State::InFlight)
                    &&& final(self).states() == old(self).states()
                    &&& final(self).ready() == old(self).ready()
                    &&& final(self).history() == old(self).history()
                    &&& final(self).flights() == old(self).flights()
                },
                Err(_) => false,
            },
    {
        let count = self.states.len();
        if node >= count {
            return Err(Error::NotInFlight);
        }
        match self.states[node] {
            State::InFlight => {},
            _ => {
                return Err(Error::NotInFlight);
            },
        }
        let ghost out = self.topology.outgoing()@;
        let ghost roots = self.roots@;
        let ghost states0 = self.states@;
        let ghost counters0 = self.counters@;
        let ghost ready0 = self.ready@;
        let ghost history0 = self.history@;
        let ghost history1 = history0.push(Event::Complete(node));
        let ghost states1 = states0.update(node as int, State::Completed);
        proof {
            lemma_complete_start(out, roots, states0, counters0, ready0, history0, node);
            lemma_flying_finite(states0);
            assert(flying(states0).contains(node as int));
        }
        self.states[node] = State::Completed;
        self.in_flight = self.in_flight - 1;
        proof {
            self.history@ = history1;
        }
        let start = self.ready.len();
        let outgoing = self.topology.outgoing();
        let list = &outgoing[node];
        let mut at: usize = 0;
        proof {
            assert(list@.take(0) =~= Seq::<usize>::empty());
            assert(list@.skip(0) =~= list@);
            assert(self.ready@.skip(start as int) =~= Seq::<usize>::empty());
            assert(self.ready@.take(start as int) =~= ready0);
            assert forall|v: int| 0 <= v < count implies (list@.contains(v as usize) <==> has_edge(
                out,
                node as int,
                v,
            )) by {
                if list@.contains(v as usize) {
                    let j = choose|j: int| 0 <= j < list@.len() && list@[j] == v as usize;
                    assert(out[node as int][j] == v);
                }
                if has_edge(out, node as int, v) {
                    let j = choose|j: int|
                        0 <= j < out[node as int].len() && #[trigger] out[node as int][j] == v;
                    assert(list@[j] == v as usize);
                }
            }
            assert forall|v: int|
                0 <= v < count && #[trigger] states1[v] != State::Pending implies explored_from(
                out,
                roots,
                v,
            ) && counters0[v] == 0 by {
                assert(states0[v] != State::Pending);
            }
            assert forall|v: int|
                0 <= v < count && #[trigger] states1[v] == State::Pending && explored_from(
                    out,
                    roots,
                    v,
                ) implies counters0[v] > 0 by {
                assert(states0[v] == State::Pending);
            }
            assert forall|v: usize| #[trigger]
                ready0.contains(v) <==> v < count && states1[v as int] == State::Ready by {
                if v < count {
                    assert(states0[v as int] == State::Ready <==> states1[v as int] == State::Ready);
                }
            }
        }
        while at < list.len()
            invariant
                self.topology == old(self).topology,
                self.topology.wf(),
                self.roots@ == roots,
                self.history@ == history1,
                out == self.topology.outgoing()@,
                count == out.len(),
                count == states0.len(),
                node < count,
                list@ == out[node as int],
                list@.no_duplicates(),
                at <= list@.len(),
                start == ready0.len(),
                states1 == states0.update(node as int, State::Completed),
                forall|r: int| roots.contains(r) ==> 0 <= r < out.len(),
                explored_from(out, roots, node as int),
                forall|v: int|
                    0 <= v < count ==> (list@.contains(v as usize) <==> has_edge(out, node as int, v)),
                forall|v: int|
                    0 <= v < count ==> #[trigger] unresolved_of(out, roots, states1, v)
                        == unresolved_of(out, roots, states0, v).remove(node as int),
                self.states@.len() == count,
                self.counters@.len() == count,
                forall|v: int| #[trigger]
                    unresolved_of(out, roots, self.states@, v) == unresolved_of(out, roots, states1, v),
                forall|v: int|
                    0 <= v < count ==> #[trigger] self.states@[v] == if v == node {
                        State::Completed
                    } else if list@.take(at as int).contains(v as usize) && unresolved_of(
                        out,
                        roots,
                        states1,
                        v,
                    ) =~= Set::<int>::empty() {
                        State::Ready
                    } else {
                        states0[v]
                    },
                forall|v: int|
                    0 <= v < count ==> (#[trigger] self.counters@[v]) == unresolved_of(
                        out,
                        roots,
                        states1,
                        v,
                    ).len() + if list@.skip(at as int).contains(v as usize) {
                        1int
                    } else {
                        0int
                    },
                forall|v: int|
                    0 <= v < count && #[trigger] self.states@[v] == State::Pending && explored_from(
                        out,
                        roots,
                        v,
                    ) ==> self.counters@[v] > 0,
                forall|v: int|
                    0 <= v < count && #[trigger] self.states@[v] != State::Pending ==> explored_from(
                        out,
                        roots,
                        v,
                    ) && self.counters@[v] == 0,
                self.ready@.len() >= start,
                self.ready@.take(start as int) == ready0,
                ascending(self.ready@.skip(start as int)),
                self.ready@.no_duplicates(),
                forall|v: usize| #[trigger]
                    self.ready@.contains(v) <==> v < count && self.states@[v as int]
                        == State::Ready,
                forall|v: usize| #[trigger]
                    self.ready@.skip(start as int).contains(v) <==> list@.take(at as int).contains(v)
                        && unresolved_of(out, roots, states1, v as int) =~= Set::<int>::empty(),
                history_inv(out, roots, self.states@, history1),
                self.in_flight == flying(self.states@).len(),
                self.in_flight == old(self).in_flight - 1,
                advanced(states0, self.states@),
            decreases list@.len() - at,
        {
            let successor = list[at];
            let ghost marked = self.states@;
            let ghost counted = self.counters@;
            let ghost lined = self.ready@;
            proof {
                lemma_list_step(list@, at as int);
                assert(out[node as int][at as int] == successor);
                assert(successor < count);
                assert(list@.skip(at as int).contains(successor));
                lemma_unresolved_finite(out, roots, states1, successor as int);
                assert(counted[successor as int] >= 1);
                assert(marked[successor as int] == State::Pending);
                assert(has_edge(out, node as int, successor as int));
                lemma_explored_step(out, roots, node as int, successor as int);
            }
            self.counters[successor] = self.counters[successor] - 1;
            if self.counters[successor] == 0 {
                self.states[successor] = State::Ready;
                proof {
                    assert(!lined.contains(successor));
                    lemma_release(out, roots, marked, history1, successor);
                    assert(unresolved_of(out, roots, states1, successor as int).len() == 0);
                    assert(unresolved_of(out, roots, states1, successor as int) =~= Set::<int>::empty());
                }
                insert_sorted(&mut self.ready, start, successor);
                proof {
                    assert forall|v: int| #[trigger]
                        unresolved_of(out, roots, self.states@, v) == unresolved_of(
                            out,
                            roots,
                            states1,
                            v,
                        ) by {
                        assert(unresolved_of(out, roots, marked, v) == unresolved_of(
                            out,
                            roots,
                            states1,
                            v,
                        ));
                    }
                    assert forall|v: usize| #[trigger]
                        self.ready@.contains(v) <==> v < count && self.states@[v as int]
                            == State::Ready by {
                        if v != successor {
                            assert(lined.contains(v) <==> v < count && marked[v as int]
                                == State::Ready);
                        }
                    }
                    assert forall|v: int|
                        0 <= v < count && #[trigger] self.states@[v] != State::Pending implies explored_from(
                        out,
                        roots,
                        v,
                    ) && self.counters@[v] == 0 by {
                        if v != successor {
                            assert(marked[v] != State::Pending);
                        }
                    }
                    assert forall|v: int|
                        0 <= v < count && #[trigger] self.states@[v] == State::Pending
                            && explored_from(out, roots, v) implies self.counters@[v] > 0 by {
                        assert(marked[v] == State::Pending);
                    }
                    assert forall|v: usize| #[trigger]
                        self.ready@.skip(start as int).contains(v) <==> list@.take(at + 1).contains(v)
                            && unresolved_of(out, roots, states1, v as int)
                            =~= Set::<int>::empty() by {
                        assert(self.ready@.skip(start as int).contains(v) <==> v == successor
                            || lined.skip(start as int).contains(v));
                        assert(list@.take(at + 1).contains(v) <==> list@.take(at as int).contains(v)
                            || v == successor);
                        assert(lined.skip(start as int).contains(v) <==> list@.take(at as int).contains(v)
                            && unresolved_of(out, roots, states1, v as int)
                            =~= Set::<int>::empty());
                    }
                }
            } else {
                proof {
                    assert(unresolved_of(out, roots, states1, successor as int).len() > 0);
                    assert(!(unresolved_of(out, roots, states1, successor as int)
                        =~= Set::<int>::empty()));
                    assert forall|v: usize| #[trigger]
                        self.ready@.skip(start as int).contains(v) <==> list@.take(at + 1).contains(v)
                            && unresolved_of(out, roots, states1, v as int)
                            =~= Set::<int>::empty() by {
                        assert(list@.take(at + 1).contains(v) <==> list@.take(at as int).contains(v)
                            || v == successor);
                        assert(lined.skip(start as int).contains(v) <==> list@.take(at as int).contains(v)
                            && unresolved_of(out, roots, states1, v as int)
                            =~= Set::<int>::empty());
                    }
                    assert forall|v: int|
                        0 <= v < count && #[trigger] self.states@[v] != State::Pending implies explored_from(
                        out,
                        roots,
                        v,
                    ) && self.counters@[v] == 0 by {
                        assert(marked[v] != State::Pending);
                    }
                    assert forall|v: int|
                        0 <= v < count && #[trigger] self.states@[v] == State::Pending
                            && explored_from(out, roots, v) implies self.counters@[v] > 0 by {
                        assert(marked[v] == State::Pending);
                    }
                }
            }
            at = at + 1;
        }
        proof {
            assert(list@.take(at as int) =~= list@);
            assert(list@.skip(at as int) =~= Seq::<usize>::empty());
            assert forall|v: int| 0 <= v < count implies (old(self).releases(node as int, v) <==> (
            list@.contains(v as usize) && unresolved_of(out, roots, states1, v)
                =~= Set::<int>::empty())) by {
            }
            assert forall|v: usize| #[trigger]
                self.ready@.skip(start as int).contains(v) <==> old(self).releases(
                    node as int,
                    v as int,
                ) by {
                if old(self).releases(node as int, v as int) {
                    assert(has_edge(out, node as int, v as int));
                    assert(v < count);
                }
                if self.ready@.skip(start as int).contains(v) {
                    assert(list@.take(at as int).contains(v));
                    assert(list@.contains(v));
                    let j = choose|j: int| 0 <= j < list@.len() && list@[j] == v;
                    assert(out[node as int][j] == v);
                    assert(v < count);
                }
            }
        }
        Ok(())
    }

    /// Returns the state of a node.
    pub fn state(&self, node: usize) -> (state: State)
        requires
            node < self.states().len(),
        ensures
            state == self.states()[node as int],
    {
        self.states[node]
    }

    /// Returns the number of nodes that were taken and are not completed.
    pub fn in_flight(&self) -> (count: usize)
        ensures
            count == self.flights(),
    {
        self.in_flight
    }

    /// No node is ready and none is in flight: nothing is left to do.
    pub open spec fn is_drained(&self) -> bool {
        forall|v: int|
            0 <= v < self.states().len() ==> #[trigger] self.states()[v] != State::Ready
                && self.states()[v] != State::InFlight
    }

    /// Returns whether the traversal has come to its end: no node is ready
    /// and none is in flight.
    pub fn is_done(&self) -> (done: bool)
        requires
            self.wf(),
        ensures
            done == self.is_drained(),
            done == (self.ready().len() == 0 && self.flights() == 0),
    {
        proof {
            let states = self.states@;
            lemma_flying_finite(states);
            if self.ready@.len() > 0 {
                assert(self.ready@.contains(self.ready@[0]));
            }
            if self.in_flight > 0 {
                let v = flying(states).choose();
                assert(flying(states).contains(v));
            }
            if self.ready@.len() == 0 && self.in_flight == 0 {
                assert forall|v: int| 0 <= v < states.len() implies #[trigger] states[v]
                    != State::Ready && states[v] != State::InFlight by {
                    if states[v] == State::Ready {
                        assert(self.ready@.contains(v as usize));
                    }
                    if states[v] == State::InFlight {
                        assert(flying(states).contains(v));
                    }
                }
            }
        }
        self.ready.len() == 0 && self.in_flight == 0
    }

    /// What the states say of the nodes: there is one state for each node, a
    /// node that is not pending is visited, the ready nodes are those in
    /// the queue, and as many nodes are in flight as `in_flight` tells.
    pub proof fn lemma_states(&self)
        requires
            self.wf(),
        ensures
            self.states().len() == self.topology().count(),
            forall|v: int|
                0 <= v < self.states().len() && #[trigger] self.states()[v] != State::Pending
                    ==> self.explored(v),
            forall|v: usize| #[trigger]
                self.ready().contains(v) <==> v < self.states().len() && self.states()[v as int]
                    == State::Ready,
            self.ready().no_duplicates(),
            self.flights() == flying(self.states()).len(),
            forall|v: int|
                0 <= v < self.states().len() && #[trigger] self.states()[v] == State::Ready
                    ==> self.unresolved(v) =~= Set::<int>::empty(),
    {
        assert forall|v: int|
            0 <= v < self.states().len() && #[trigger] self.states()[v]
                == State::Ready implies self.unresolved(v) =~= Set::<int>::empty() by {
            lemma_unresolved_finite(self.topology().outgoing()@, self.roots(), self.states(), v);
            assert(self.states()[v] != State::Pending);
        }
    }

    /// What the history says of the nodes: a node was taken exactly where
    /// it is in flight or completed, and was completed exactly where its
    /// state says so; no event occurs twice.
    pub proof fn lemma_history(&self)
        requires
            self.wf(),
        ensures
            self.history().no_duplicates(),
            forall|v: int|
                0 <= v < self.states().len() ==> (#[trigger] was_taken(self.history(), v) <==> (
                self.states()[v] == State::InFlight || self.states()[v] == State::Completed)),
            forall|v: int|
                0 <= v < self.states().len() ==> (#[trigger] was_completed(self.history(), v)
                    <==> self.states()[v] == State::Completed),
    {
        let history = self.history();
        assert forall|v: int| 0 <= v < self.states().len() implies (#[trigger] was_taken(history, v)
            <==> (self.states()[v] == State::InFlight || self.states()[v] == State::Completed)) by {
            if was_taken(history, v) {
                let i = choose|i: int| 0 <= i < history.len() && history[i] == Event::Take(v as usize);
                assert(history[i] is Take);
            }
        }
        assert forall|v: int| 0 <= v < self.states().len() implies (#[trigger] was_completed(
            history,
            v,
        ) <==> self.states()[v] == State::Completed) by {
            if was_completed(history, v) {
                let i = choose|i: int|
                    0 <= i < history.len() && history[i] == Event::Complete(v as usize);
                assert(history[i] is Complete);
            }
        }
    }

    /// Whenever a node was taken, every predecessor of it that the traversal
    /// visits had been completed before.
    pub proof fn lemma_complete_precedes_take(&self, index: int, predecessor: int)
        requires
            self.wf(),
            0 <= index < self.history().len(),
            self.history()[index] is Take,
            has_edge(
                self.topology().outgoing()@,
                predecessor,
                self.history()[index]->Take_0 as int,
            ),
            self.explored(predecessor),
        ensures
            completed_before(self.history(), predecessor, index),
    {
    }

    /// A walk of `length` edges that ends at a visited pending node of a
    /// drained traversal, and starts at one.
    proof fn lemma_pending_chain(&self, node: int, length: nat) -> (walk: Seq<int>)
        requires
            self.wf(),
            self.is_drained(),
            0 <= node < self.states().len(),
            self.explored(node),
            self.states()[node] == State::Pending,
        ensures
            is_walk(self.topology().outgoing()@, walk),
            walk.len() == length + 1,
            walk[walk.len() - 1] == node,
            0 <= walk[0] < self.states().len(),
            self.explored(walk[0]),
            self.states()[walk[0]] == State::Pending,
        decreases length,
    {
        let out = self.topology().outgoing()@;
        if length == 0 {
            lemma_walk_single(out, node);
            seq![node]
        } else {
            let rest = self.lemma_pending_chain(node, (length - 1) as nat);
            let first = rest[0];
            let waiting = self.unresolved(first);
            lemma_unresolved_finite(out, self.roots(), self.states(), first);
            assert(self.counters@[first] > 0);
            assert(waiting.len() > 0);
            let before = waiting.choose();
            assert(waiting.contains(before));
            assert(self.states()[before] != State::Ready && self.states()[before]
                != State::InFlight);
            lemma_walk_prepend(out, before, rest);
            seq![before] + rest
        }
    }

    /// Once no node is ready and none is in flight, every node that the
    /// traversal visits has been taken exactly once, and completed.
    pub proof fn lemma_drained_visits_once(&self, node: int)
        requires
            self.wf(),
            self.is_drained(),
            0 <= node < self.states().len(),
            self.explored(node),
        ensures
            self.states()[node] == State::Completed,
            was_taken(self.history(), node),
            was_completed(self.history(), node),
            forall|i: int, j: int|
                0 <= i < self.history().len() && 0 <= j < self.history().len()
                    && self.history()[i] == Event::Take(node as usize) && self.history()[j]
                    == Event::Take(node as usize) ==> i == j,
    {
        let out = self.topology().outgoing()@;
        if self.states()[node] == State::Pending {
            let walk = self.lemma_pending_chain(node, out.len());
            lemma_walk_bound(out, walk);
        }
        self.lemma_history();
    }

    /// A traversal that starts at every source of the graph visits every
    /// node; once it is drained, each node has been taken exactly once.
    pub proof fn lemma_drain_from_sources(&self, node: int)
        requires
            self.wf(),
            self.is_drained(),
            forall|source: int|
                0 <= source < self.topology().count() && (
                #[trigger] self.topology().incoming()@[source]).len() == 0 ==> self.roots().contains(
                    source,
                ),
            0 <= node < self.topology().count(),
        ensures
            self.explored(node),
            self.states()[node] == State::Completed,
            was_taken(self.history(), node),
            forall|i: int, j: int|
                0 <= i < self.history().len() && 0 <= j < self.history().len()
                    && self.history()[i] == Event::Take(node as usize) && self.history()[j]
                    == Event::Take(node as usize) ==> i == j,
    {
        lemma_sources_reach_all(&self.topology(), self.roots(), node);
        self.lemma_drained_visits_once(node);
    }
}

/// A walk of `length` edges that ends at a node which no root reaches, and
/// starts at one.
proof fn lemma_unreached_chain(topology: &Topology, roots: Set<int>, node: int, length: nat) -> (walk:
    Seq<int>)
    requires
        topology.wf(),
        forall|source: int|
            0 <= source < topology.count() && (#[trigger] topology.incoming()@[source]).len() == 0
                ==> roots.contains(source),
        0 <= node < topology.count(),
        !explored_from(topology.outgoing()@, roots, node),
    ensures
        is_walk(topology.outgoing()@, walk),
        walk.len() == length + 1,
        walk[walk.len() - 1] == node,
        0 <= walk[0] < topology.count(),
        !explored_from(topology.outgoing()@, roots, walk[0]),
    decreases length,
{
    let out = topology.outgoing()@;
    let inc = topology.incoming()@;
    if length == 0 {
        lemma_walk_single(out, node);
        seq![node]
    } else {
        let rest = lemma_unreached_chain(topology, roots, node, (length - 1) as nat);
        let first = rest[0];
        if inc[first].len() == 0 {
            lemma_walk_single(out, first);
            assert(roots.contains(first) && reaches(out, first, first));
        }
        let before = inc[first][0] as int;
        assert(has_edge(inc, first, before));
        assert(has_edge(out, before, first));
        if explored_from(out, roots, before) {
            lemma_explored_step(out, roots, before, first);
        }
        lemma_walk_prepend(out, before, rest);
        seq![before] + rest
    }
}

/// In a directed acyclic graph every node can be reached from a source: a
/// set of roots that holds every source reaches every node.
pub proof fn lemma_sources_reach_all(topology: &Topology, roots: Set<int>, node: int)
    requires
        topology.wf(),
        forall|source: int|
            0 <= source < topology.count() && (#[trigger] topology.incoming()@[source]).len() == 0
                ==> roots.contains(source),
        0 <= node < topology.count(),
    ensures
        explored_from(topology.outgoing()@, roots, node),
{
    if !explored_from(topology.outgoing()@, roots, node) {
        let walk = lemma_unreached_chain(topology, roots, node, topology.count());
        lemma_walk_bound(topology.outgoing()@, walk);
    }
}

/// A successor of a visited node is visited.
pub proof fn lemma_explored_step(out: Seq<Seq<usize>>, roots: Set<int>, node: int, successor: int)
    requires
        explored_from(out, roots, node),
        has_edge(out, node, successor),
        0 <= successor < out.len(),
    ensures
        explored_from(out, roots, successor),
{
    let root = choose|root: int| roots.contains(root) && #[trigger] reaches(out, root, node);
    lemma_edge_connects(out, node, successor);
    lemma_reaches_trans(out, root, node, successor);
}

/// Taking a ready node whose visited predecessors are all completed keeps
/// the history fitting.
proof fn lemma_history_take(
    out: Seq<Seq<usize>>,
    roots: Set<int>,
    states: Seq<State>,
    history: Seq<Event>,
    node: usize,
)
    requires
        history_inv(out, roots, states, history),
        node < states.len(),
        states[node as int] == State::Ready,
        forall|u: int|
            has_edge(out, u, node as int) && explored_from(out, roots, u) ==> #[trigger] states[u]
                == State::Completed,
        states.len() == out.len(),
        states.len() <= usize::MAX,
    ensures
        history_inv(
            out,
            roots,
            states.update(node as int, State::InFlight),
            history.push(Event::Take(node)),
        ),
{
    let states1 = states.update(node as int, State::InFlight);
    let history1 = history.push(Event::Take(node));
    let last = history.len() as int;
    assert forall|i: int| 0 <= i < history.len() implies history[i] != Event::Take(node) by {
        if history[i] == Event::Take(node) {
            assert(states[node as int] == State::InFlight || states[node as int]
                == State::Completed);
        }
    }
    assert forall|i: int, j: int|
        0 <= i < history1.len() && 0 <= j < history1.len() && i != j implies history1[i]
        != history1[j] by {
        if i < last {
            assert(history1[i] == history[i]);
        }
        if j < last {
            assert(history1[j] == history[j]);
        }
    }
    assert forall|i: int| 0 <= i < history1.len() implies match #[trigger] history1[i] {
        Event::Take(v) => v < states1.len() && (states1[v as int] == State::InFlight
            || states1[v as int] == State::Completed),
        Event::Complete(v) => v < states1.len() && states1[v as int] == State::Completed,
    } by {
        if i < last {
            assert(history1[i] == history[i]);
        }
    }
    assert forall|v: int|
        0 <= v < states1.len() && (states1[v] == State::InFlight || states1[v]
            == State::Completed) implies #[trigger] was_taken(history1, v) by {
        if v == node {
            assert(history1[last] == Event::Take(node));
        } else {
            assert(was_taken(history, v));
            let i = choose|i: int| 0 <= i < history.len() && history[i] == Event::Take(v as usize);
            assert(history1[i] == history[i]);
        }
    }
    assert forall|v: int|
        0 <= v < states1.len() && states1[v] == State::Completed implies #[trigger] was_completed(
        history1,
        v,
    ) by {
        assert(was_completed(history, v));
        let i = choose|i: int| 0 <= i < history.len() && history[i] == Event::Complete(v as usize);
        assert(history1[i] == history[i]);
    }
    assert forall|i: int, u: int|
        0 <= i < history1.len() && history1[i] is Take && has_edge(
            out,
            u,
            history1[i]->Take_0 as int,
        ) && explored_from(out, roots, u) implies #[trigger] completed_before(history1, u, i) by {
        if i < last {
            assert(history1[i] == history[i]);
            assert(completed_before(history, u, i));
            let j = choose|j: int|
                0 <= j < i && j < history.len() && completes(#[trigger] history[j], u);
            assert(history1[j] == history[j]);
        } else {
            assert(states[u] == State::Completed);
            assert(was_completed(history, u));
            let j = choose|j: int| 0 <= j < history.len() && history[j] == Event::Complete(u as usize);
            assert(history1[j] == history[j]);
            assert(completes(history1[j], u));
        }
    }
}

/// Puts `node` into the part of the queue from `start` on, which is in
/// ascending order, at its place in that order.
fn insert_sorted(ready: &mut VecDeque<usize>, start: usize, node: usize)
    requires
        start <= old(ready)@.len(),
        ascending(old(ready)@.skip(start as int)),
        !old(ready)@.contains(node),
    ensures
        final(ready)@.len() == old(ready)@.len() + 1,
        final(ready)@.take(start as int) == old(ready)@.take(start as int),
        ascending(final(ready)@.skip(start as int)),
        forall|x: usize|
            final(ready)@.contains(x) <==> x == node || old(ready)@.contains(x),
        forall|x: usize|
            final(ready)@.skip(start as int).contains(x) <==> x == node || old(ready)@.skip(
                start as int,
            ).contains(x),
        old(ready)@.no_duplicates() ==> final(ready)@.no_duplicates(),
{
    let ghost before = ready@;
    let mut at: usize = ready.len();
    while at > start && ready[at - 1] > node
        invariant
            ready@ == before,
            start <= at <= before.len(),
            forall|k: int| at <= k < before.len() ==> before[k] > node,
        decreases at,
    {
        at = at - 1;
    }
    ready.insert(at, node);
    proof {
        let after = ready@;
        let tail0 = before.skip(start as int);
        let tail1 = after.skip(start as int);
        assert(after == before.insert(at as int, node));
        assert(after.take(start as int) =~= before.take(start as int));
        assert forall|k: int| start <= k < at implies before[k] < node by {
            assert(tail0[k - start] == before[k]);
            assert(tail0[at - 1 - start] == before[at - 1]);
            if k < at - 1 {
                assert(tail0[k - start] < tail0[at - 1 - start]);
            }
            assert(before.contains(before[at - 1]));
        }
        assert forall|i: int, j: int| 0 <= i < j < tail1.len() implies tail1[i] < tail1[j] by {
            let a = i + start;
            let b = j + start;
            assert(tail1[i] == after[a]);
            assert(tail1[j] == after[b]);
            if b < at {
                assert(after[a] == before[a] && after[b] == before[b]);
                assert(tail0[i] == before[a] && tail0[j] == before[b]);
            } else if b == at {
                assert(after[a] == before[a]);
            } else if a < at {
                assert(after[a] == before[a] && after[b] == before[b - 1]);
            } else if a == at {
                assert(after[b] == before[b - 1]);
            } else {
                assert(after[a] == before[a - 1] && after[b] == before[b - 1]);
                assert(tail0[i - 1] == before[a - 1] && tail0[j - 1] == before[b - 1]);
            }
        }
        assert forall|x: usize| after.contains(x) <==> x == node || before.contains(x) by {
            if after.contains(x) {
                let k = choose|k: int| 0 <= k < after.len() && after[k] == x;
                if k < at {
                    assert(before[k] == x);
                } else if k > at {
                    assert(before[k - 1] == x);
                }
            }
            if before.contains(x) {
                let k = choose|k: int| 0 <= k < before.len() && before[k] == x;
                if k < at {
                    assert(after[k] == x);
                } else {
                    assert(after[k + 1] == x);
                }
            }
            if x == node {
                assert(after[at as int] == x);
            }
        }
        assert forall|x: usize| tail1.contains(x) <==> x == node || tail0.contains(x) by {
            if tail1.contains(x) {
                let k = choose|k: int| 0 <= k < tail1.len() && tail1[k] == x;
                assert(after[k + start] == x);
                if k + start < at {
                    assert(tail0[k] == x);
                } else if k + start > at {
                    assert(tail0[k - 1] == x);
                }
            }
            if tail0.contains(x) {
                let k = choose|k: int| 0 <= k < tail0.len() && tail0[k] == x;
                assert(before[k + start] == x);
                if k + start < at {
                    assert(tail1[k] == x);
                } else {
                    assert(tail1[k + 1] == x);
                }
            }
            if x == node {
                assert(tail1[at - start] == x);
            }
        }
        if before.no_duplicates() {
            assert forall|i: int, j: int|
                0 <= i < after.len() && 0 <= j < after.len() && i != j implies after[i]
                != after[j] by {
                let a = if i < at { i } else { i - 1 };
                let b = if j < at { j } else { j - 1 };
                if i != at {
                    assert(after[i] == before[a]);
                    assert(before.contains(before[a]));
                }
                if j != at {
                    assert(after[j] == before[b]);
                    assert(before.contains(before[b]));
                }
            }
        }
    }
}

/// Completing a node in flight takes it out of the unresolved predecessors
/// of its successors, and of no other node.
proof fn lemma_complete_start(
    out: Seq<Seq<usize>>,
    roots: Set<int>,
    states: Seq<State>,
    counters: Seq<usize>,
    ready: Seq<usize>,
    history: Seq<Event>,
    node: usize,
)
    requires
        in_bounds(out),
        traversal_inv(out, roots, states, counters, ready, history),
        node < states.len(),
        states[node as int] == State::InFlight,
    ensures
        forall|v: int|
            0 <= v < out.len() ==> #[trigger] unresolved_of(
                out,
                roots,
                states.update(node as int, State::Completed),
                v,
            ) == unresolved_of(out, roots, states, v).remove(node as int),
        forall|v: int|
            0 <= v < out.len() ==> (#[trigger] counters[v]) == unresolved_of(
                out,
                roots,
                states.update(node as int, State::Completed),
                v,
            ).len() + if has_edge(out, node as int, v) {
                1int
            } else {
                0int
            },
        history_inv(
            out,
            roots,
            states.update(node as int, State::Completed),
            history.push(Event::Complete(node)),
        ),
        flying(states.update(node as int, State::Completed)) == flying(states).remove(node as int),
        explored_from(out, roots, node as int),
{
    let states1 = states.update(node as int, State::Completed);
    let history1 = history.push(Event::Complete(node));
    let last = history.len() as int;
    assert(states[node as int] != State::Pending);
    assert(explored_from(out, roots, node as int));
    assert forall|v: int| 0 <= v < out.len() implies #[trigger] unresolved_of(out, roots, states1, v)
        == unresolved_of(out, roots, states, v).remove(node as int) by {
        assert(unresolved_of(out, roots, states1, v) =~= unresolved_of(out, roots, states, v).remove(
            node as int,
        ));
    }
    assert forall|v: int| 0 <= v < out.len() implies (#[trigger] counters[v]) == unresolved_of(
        out,
        roots,
        states1,
        v,
    ).len() + if has_edge(out, node as int, v) {
        1int
    } else {
        0int
    } by {
        lemma_unresolved_finite(out, roots, states, v);
        if has_edge(out, node as int, v) {
            assert(unresolved_of(out, roots, states, v).contains(node as int));
        } else {
            assert(!unresolved_of(out, roots, states, v).contains(node as int));
        }
    }
    assert(flying(states1) =~= flying(states).remove(node as int));
    assert forall|i: int| 0 <= i < history.len() implies history[i] != Event::Complete(node) by {
        if history[i] == Event::Complete(node) {
            assert(states[node as int] == State::Completed);
        }
    }
    assert forall|i: int, j: int|
        0 <= i < history1.len() && 0 <= j < history1.len() && i != j implies history1[i]
        != history1[j] by {
        if i < last {
            assert(history1[i] == history[i]);
        }
        if j < last {
            assert(history1[j] == history[j]);
        }
    }
    assert forall|i: int| 0 <= i < history1.len() implies match #[trigger] history1[i] {
        Event::Take(v) => v < states1.len() && (states1[v as int] == State::InFlight
            || states1[v as int] == State::Completed),
        Event::Complete(v) => v < states1.len() && states1[v as int] == State::Completed,
    } by {
        if i < last {
            assert(history1[i] == history[i]);
        }
    }
    assert forall|v: int|
        0 <= v < states1.len() && (states1[v] == State::InFlight || states1[v]
            == State::Completed) implies #[trigger] was_taken(history1, v) by {
        assert(was_taken(history, v));
        let i = choose|i: int| 0 <= i < history.len() && history[i] == Event::Take(v as usize);
        assert(history1[i] == history[i]);
    }
    assert forall|v: int|
        0 <= v < states1.len() && states1[v] == State::Completed implies #[trigger] was_completed(
        history1,
        v,
    ) by {
        if v == node {
            assert(history1[last] == Event::Complete(node));
        } else {
            assert(was_completed(history, v));
            let i = choose|i: int|
                0 <= i < history.len() && history[i] == Event::Complete(v as usize);
            assert(history1[i] == history[i]);
        }
    }
    assert forall|i: int, u: int|
        0 <= i < history1.len() && history1[i] is Take && has_edge(
            out,
            u,
            history1[i]->Take_0 as int,
        ) && explored_from(out, roots, u) implies #[trigger] completed_before(history1, u, i) by {
        assert(i < last);
        assert(history1[i] == history[i]);
        assert(completed_before(history, u, i));
        let j = choose|j: int| 0 <= j < i && j < history.len() && completes(#[trigger] history[j], u);
        assert(history1[j] == history[j]);
    }
}

/// A pending node that becomes ready changes neither the unresolved
/// predecessors of any node, nor the nodes in flight, nor what the history
/// says.
proof fn lemma_release(
    out: Seq<Seq<usize>>,
    roots: Set<int>,
    states: Seq<State>,
    history: Seq<Event>,
    node: usize,
)
    requires
        history_inv(out, roots, states, history),
        states.len() == out.len(),
        node < states.len(),
        states[node as int] == State::Pending,
    ensures
        history_inv(out, roots, states.update(node as int, State::Ready), history),
        flying(states.update(node as int, State::Ready)) == flying(states),
        forall|v: int| #[trigger]
            unresolved_of(out, roots, states.update(node as int, State::Ready), v)
                == unresolved_of(out, roots, states, v),
{
    let states1 = states.update(node as int, State::Ready);
    assert(flying(states1) =~= flying(states));
    assert forall|v: int| #[trigger]
        unresolved_of(out, roots, states1, v) == unresolved_of(out, roots, states, v) by {
        assert(unresolved_of(out, roots, states1, v) =~= unresolved_of(out, roots, states, v));
    }
    assert forall|i: int| 0 <= i < history.len() implies match #[trigger] history[i] {
        Event::Take(v) => v < states1.len() && (states1[v as int] == State::InFlight
            || states1[v as int] == State::Completed),
        Event::Complete(v) => v < states1.len() && states1[v as int] == State::Completed,
    } by {
    }
    assert forall|v: int|
        0 <= v < states1.len() && (states1[v] == State::InFlight || states1[v]
            == State::Completed) implies #[trigger] was_taken(history, v) by {
        assert(states[v] == states1[v]);
    }
    assert forall|v: int|
        0 <= v < states1.len() && states1[v] == State::Completed implies #[trigger] was_completed(
        history,
        v,
    ) by {
        assert(states[v] == states1[v]);
    }
}

/// What the first `at + 1` entries of a list without duplicates hold, and
/// what the entries from `at + 1` on.
proof fn lemma_list_step(list: Seq<usize>, at: int)
    requires
        list.no_duplicates(),
        0 <= at < list.len(),
    ensures
        forall|x: usize|
            list.take(at + 1).contains(x) <==> list.take(at).contains(x) || x == list[at],
        forall|x: usize| list.skip(at).contains(x) <==> list.skip(at + 1).contains(x) || x == list[at],
        !list.skip(at + 1).contains(list[at]),
        !list.take(at).contains(list[at]),
{
    let front = list.take(at);
    let front1 = list.take(at + 1);
    let back = list.skip(at);
    let back1 = list.skip(at + 1);
    assert forall|x: usize| front1.contains(x) <==> front.contains(x) || x == list[at] by {
        if front1.contains(x) {
            let k = choose|k: int| 0 <= k < front1.len() && front1[k] == x;
            if k < at {
                assert(front[k] == x);
            }
        }
        if front.contains(x) {
            let k = choose|k: int| 0 <= k < front.len() && front[k] == x;
            assert(front1[k] == x);
        }
        if x == list[at] {
            assert(front1[at] == x);
        }
    }
    assert forall|x: usize| back.contains(x) <==> back1.contains(x) || x == list[at] by {
        if back.contains(x) {
            let k = choose|k: int| 0 <= k < back.len() && back[k] == x;
            if k > 0 {
                assert(back1[k - 1] == x);
            }
        }
        if back1.contains(x) {
            let k = choose|k: int| 0 <= k < back1.len() && back1[k] == x;
            assert(back[k + 1] == x);
        }
        if x == list[at] {
            assert(back[0] == x);
        }
    }
    if back1.contains(list[at]) {
        let k = choose|k: int| 0 <= k < back1.len() && back1[k] == list[at];
        assert(list[k + at + 1] == list[at]);
    }
    if front.contains(list[at]) {
        let k = choose|k: int| 0 <= k < front.len() && front[k] == list[at];
        assert(list[k] == list[at]);
    }
}

} // verus!
