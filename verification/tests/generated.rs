use zrx_graph::algorithm::{lowest_common_ancestor, shortest_path_length};
use zrx_graph::builder::Builder;
use zrx_graph::error::Error;
use zrx_graph::graph::Graph;
use zrx_graph::traversal::State;

/// Returns the next number of a fixed sequence that looks random.
fn next(state: &mut u64) -> usize {
    *state = state.wrapping_mul(6364136223846793005).wrapping_add(1442695040888963407);
    (*state >> 33) as usize
}

/// Builds a graph of `count` nodes from `tries` edges picked from the
/// sequence, and returns it with the edges that were accepted.
fn generate(state: &mut u64, count: usize, tries: usize) -> (Graph<usize>, Vec<(usize, usize)>) {
    let mut builder: Builder<usize, usize> = Graph::builder();
    for node in 0..count {
        assert_eq!(builder.add_node(node * 10), node);
    }
    let mut edges: Vec<(usize, usize)> = Vec::new();
    for weight in 0..tries {
        let u = next(state) % (count + 1);
        let v = next(state) % (count + 1);
        // Whether u can be reached from v along the edges so far
        let mut reached = vec![v];
        let mut at = 0;
        while at < reached.len() {
            for &(a, b) in &edges {
                if a == reached[at] && !reached.contains(&b) {
                    reached.push(b);
                }
            }
            at += 1;
        }
        let expected = if u >= count || v >= count {
            Err(Error::InvalidNode)
        } else if reached.contains(&u) {
            Err(Error::Cycle)
        } else {
            Ok(())
        };
        assert_eq!(builder.add_edge(u, v, weight), expected);
        if expected.is_ok() && !edges.contains(&(u, v)) {
            edges.push((u, v));
        }
    }
    (builder.build(), edges)
}

/// Returns the distances between all nodes, computed by relaxing every
/// edge until nothing changes.
fn distances(count: usize, edges: &[(usize, usize)]) -> Vec<Vec<Option<usize>>> {
    let mut table = vec![vec![None; count]; count];
    for node in 0..count {
        table[node][node] = Some(0);
    }
    let mut changed = true;
    while changed {
        changed = false;
        for &(u, v) in edges {
            for from in 0..count {
                if let Some(length) = table[from][u] {
                    if table[from][v].map_or(true, |known| known > length + 1) {
                        table[from][v] = Some(length + 1);
                        changed = true;
                    }
                }
            }
        }
    }
    table
}

#[test]
fn generated_graphs_have_matching_tables() {
    let mut state = 7;
    for round in 0..150 {
        let count = 1 + round % 8;
        let (graph, edges) = generate(&mut state, count, 2 * count);
        let table = distances(count, &edges);
        assert_eq!(graph.len(), count);
        for u in 0..count {
            let successors: Vec<usize> =
                edges.iter().filter(|edge| edge.0 == u).map(|edge| edge.1).collect();
            let predecessors: Vec<usize> =
                edges.iter().filter(|edge| edge.1 == u).map(|edge| edge.0).collect();
            assert_eq!(&graph.topology().outgoing()[u], &successors[..]);
            assert_eq!(&graph.topology().incoming()[u], &predecessors[..]);
            assert_eq!(&graph.topology().distance()[u], &table[u][..]);
            assert_eq!(graph[u], u * 10);
            for v in 0..count {
                assert_eq!(shortest_path_length(&graph, u, v), table[u][v]);
            }
        }
    }
}

#[test]
fn generated_graphs_have_matching_visitors() {
    let mut state = 11;
    for round in 0..150 {
        let count = 1 + round % 8;
        let (graph, edges) = generate(&mut state, count, 2 * count);
        let table = distances(count, &edges);
        for u in 0..count {
            let mut descendants = Vec::new();
            let mut visitor = graph.descendants(u);
            while let Some(node) = visitor.next() {
                assert!(!descendants.contains(&node));
                descendants.push(node);
            }
            let mut ancestors = Vec::new();
            let mut visitor = graph.ancestors(u);
            while let Some(node) = visitor.next() {
                assert!(!ancestors.contains(&node));
                ancestors.push(node);
            }
            for v in 0..count {
                assert_eq!(descendants.contains(&v), v != u && table[u][v].is_some());
                assert_eq!(ancestors.contains(&v), v != u && table[v][u].is_some());
            }
            for v in 0..count {
                let mut found: Vec<Vec<usize>> = Vec::new();
                let mut paths = graph.paths(u, v);
                while let Some(path) = paths.next() {
                    assert_eq!(path[0], u);
                    assert_eq!(path[path.len() - 1], v);
                    for step in path.windows(2) {
                        assert!(edges.contains(&(step[0], step[1])));
                    }
                    assert!(!found.contains(&path));
                    found.push(path);
                }
                assert_eq!(found.is_empty(), table[u][v].is_none());
                let shortest = found.iter().map(|path| path.len() - 1).min();
                assert_eq!(shortest, table[u][v]);
            }
        }
    }
}

#[test]
fn generated_graphs_have_matching_common_ancestors() {
    let mut state = 13;
    for round in 0..150 {
        let count = 2 + round % 7;
        let (graph, edges) = generate(&mut state, count, 2 * count);
        let table = distances(count, &edges);
        let u = next(&mut state) % count;
        let v = next(&mut state) % count;
        let mut order = Vec::new();
        let mut visitor = graph.ancestors(u);
        while let Some(node) = visitor.next() {
            order.push(node);
        }
        let mut expected: Option<(usize, usize)> = None;
        for &candidate in &order {
            if candidate != v && table[candidate][v].is_some() {
                let near = table[candidate][u].unwrap().min(table[candidate][v].unwrap());
                if expected.map_or(true, |best| near < best.1) {
                    expected = Some((candidate, near));
                }
            }
        }
        let found = lowest_common_ancestor(&graph, &[u, v]);
        assert_eq!(found, expected.map(|best| best.0));
    }
}

#[test]
fn generated_graphs_drain_in_topological_order() {
    let mut state = 17;
    for round in 0..150 {
        let count = 1 + round % 8;
        let (graph, edges) = generate(&mut state, count, 2 * count);
        let mut traversal = graph.traverse(&graph.sources());
        let mut taken: Vec<usize> = Vec::new();
        let mut flying: Vec<usize> = Vec::new();
        let mut completed: Vec<usize> = Vec::new();
        while !traversal.is_done() {
            // Take some of the ready nodes, then complete some in flight
            let take = 1 + next(&mut state) % 3;
            for _ in 0..take {
                if let Some(node) = traversal.take() {
                    assert!(!taken.contains(&node));
                    for &(u, v) in &edges {
                        if v == node {
                            assert!(completed.contains(&u));
                        }
                    }
                    taken.push(node);
                    flying.push(node);
                }
            }
            assert_eq!(traversal.in_flight(), flying.len());
            if !flying.is_empty() {
                let node = flying.remove(next(&mut state) % flying.len());
                assert_eq!(traversal.complete(node), Ok(()));
                assert_eq!(traversal.complete(node), Err(Error::NotInFlight));
                completed.push(node);
            }
        }
        assert_eq!(taken.len(), count);
        assert_eq!(completed.len(), count);
        for node in 0..count {
            assert_eq!(traversal.state(node), State::Completed);
        }
    }
}

#[test]
fn generated_graphs_traverse_from_any_roots() {
    let mut state = 19;
    for round in 0..150 {
        let count = 1 + round % 8;
        let (graph, edges) = generate(&mut state, count, 2 * count);
        let table = distances(count, &edges);
        let mut roots = Vec::new();
        for _ in 0..1 + next(&mut state) % 3 {
            roots.push(next(&mut state) % count);
        }
        let explored: Vec<bool> =
            (0..count).map(|node| roots.iter().any(|&root| table[root][node].is_some())).collect();
        let mut traversal = graph.traverse(&roots);
        let mut taken: Vec<usize> = Vec::new();
        while let Some(node) = traversal.take() {
            assert!(explored[node]);
            assert!(!taken.contains(&node));
            for &(u, v) in &edges {
                if v == node && explored[u] {
                    assert!(taken.contains(&u));
                }
            }
            taken.push(node);
            traversal.complete(node).unwrap();
        }
        assert!(traversal.is_done());
        for node in 0..count {
            assert_eq!(taken.contains(&node), explored[node]);
        }
    }
}
