use zrx_graph::builder::Builder;
use zrx_graph::error::Error;
use zrx_graph::graph::Graph;
use zrx_graph::topology::adjacency::Adjacency;
use zrx_graph::topology::distance::Distance;
use zrx_graph::topology::Topology;

#[test]
fn add_node_returns_indices_in_order() {
    let mut builder: Builder<&str, u32> = Builder::new();
    assert!(builder.is_empty());
    assert_eq!(builder.add_node("a"), 0);
    assert_eq!(builder.add_node("b"), 1);
    assert_eq!(builder.add_node("c"), 2);
    assert_eq!(builder.len(), 3);
    assert!(!builder.is_empty());
}

#[test]
fn add_edge_rejects_unknown_nodes() {
    let mut builder: Builder<&str, u32> = Graph::builder();
    let a = builder.add_node("a");
    let b = builder.add_node("b");
    assert_eq!(builder.add_edge(a, 2, 0), Err(Error::InvalidNode));
    assert_eq!(builder.add_edge(2, b, 0), Err(Error::InvalidNode));
    assert_eq!(builder.add_edge(7, 9, 0), Err(Error::InvalidNode));
    // The builder remains usable afterwards
    assert_eq!(builder.add_edge(a, b, 0), Ok(()));
    assert!(builder.contains_edge(a, b));
    assert!(!builder.contains_edge(b, a));
    assert!(!builder.contains_edge(5, a));
}

#[test]
fn add_edge_rejects_edge_back() {
    let mut builder: Builder<&str, u32> = Graph::builder();
    let u = builder.add_node("u");
    let v = builder.add_node("v");
    assert_eq!(builder.add_edge(u, v, 0), Ok(()));
    assert_eq!(builder.add_edge(v, u, 0), Err(Error::Cycle));
    // The rejected edge has left no trace
    assert!(!builder.contains_edge(v, u));
    let graph = builder.build();
    assert_eq!(&graph.topology().outgoing()[v], &[] as &[usize]);
    assert_eq!(&graph.topology().incoming()[u], &[] as &[usize]);
}

#[test]
fn add_edge_rejects_cycle_of_three() {
    let mut builder: Builder<&str, u32> = Graph::builder();
    let a = builder.add_node("a");
    let b = builder.add_node("b");
    let c = builder.add_node("c");
    assert_eq!(builder.add_edge(a, b, 0), Ok(()));
    assert_eq!(builder.add_edge(b, c, 0), Ok(()));
    assert_eq!(builder.add_edge(c, a, 0), Err(Error::Cycle));
    // An edge along the same direction is still accepted
    assert_eq!(builder.add_edge(a, c, 0), Ok(()));
}

#[test]
fn add_edge_rejects_loop() {
    let mut builder: Builder<&str, u32> = Graph::builder();
    let a = builder.add_node("a");
    assert_eq!(builder.add_edge(a, a, 0), Err(Error::Cycle));
}

#[test]
fn reaches_follows_edges() {
    let mut builder: Builder<u8, ()> = Builder::new();
    let a = builder.add_node(0);
    let b = builder.add_node(1);
    let c = builder.add_node(2);
    let d = builder.add_node(3);
    builder.add_edge(a, b, ()).unwrap();
    builder.add_edge(b, c, ()).unwrap();
    assert!(builder.reaches(a, a));
    assert!(builder.reaches(a, b));
    assert!(builder.reaches(a, c));
    assert!(!builder.reaches(c, a));
    assert!(!builder.reaches(a, d));
    assert!(!builder.reaches(d, a));
}

#[test]
fn repeated_edge_is_kept_once() {
    let mut builder: Builder<&str, u32> = Graph::builder();
    let a = builder.add_node("a");
    let b = builder.add_node("b");
    assert_eq!(builder.add_edge(a, b, 1), Ok(()));
    assert_eq!(builder.add_edge(a, b, 2), Ok(()));
    assert_eq!(builder.add_edge(a, b, 3), Ok(()));
    let graph = builder.build();
    assert_eq!(&graph.topology().outgoing()[a], &[b]);
    assert_eq!(&graph.topology().incoming()[b], &[a]);
}

#[test]
fn adjacency_keeps_insertion_order() {
    let mut builder: Builder<&str, u32> = Graph::builder();
    let a = builder.add_node("a");
    let b = builder.add_node("b");
    let c = builder.add_node("c");
    let d = builder.add_node("d");
    builder.add_edge(a, d, 0).unwrap();
    builder.add_edge(a, b, 0).unwrap();
    builder.add_edge(c, d, 0).unwrap();
    builder.add_edge(a, c, 0).unwrap();
    builder.add_edge(b, d, 0).unwrap();
    let outgoing = Adjacency::outgoing(&builder);
    let incoming = Adjacency::incoming(&builder);
    assert_eq!(outgoing.len(), 4);
    assert!(!outgoing.is_empty());
    assert_eq!(&outgoing[a], &[d, b, c]);
    assert_eq!(&outgoing[b], &[d]);
    assert_eq!(&outgoing[c], &[d]);
    assert_eq!(&outgoing[d], &[] as &[usize]);
    assert_eq!(&incoming[a], &[] as &[usize]);
    assert_eq!(&incoming[b], &[a]);
    assert_eq!(&incoming[c], &[a]);
    assert_eq!(&incoming[d], &[a, c, b]);
}

#[test]
fn distance_counts_edges_of_shortest_path() {
    let mut builder: Builder<&str, u32> = Graph::builder();
    let a = builder.add_node("a");
    let b = builder.add_node("b");
    let c = builder.add_node("c");
    let d = builder.add_node("d");
    builder.add_edge(a, b, 0).unwrap();
    builder.add_edge(b, c, 0).unwrap();
    builder.add_edge(c, d, 0).unwrap();
    builder.add_edge(a, c, 0).unwrap();
    let distance = Distance::new(&builder);
    assert_eq!(distance.len(), 4);
    assert!(!distance.is_empty());
    assert_eq!(&distance[a], &[Some(0), Some(1), Some(1), Some(2)]);
    assert_eq!(&distance[b], &[None, Some(0), Some(1), Some(2)]);
    assert_eq!(&distance[c], &[None, None, Some(0), Some(1)]);
    assert_eq!(&distance[d], &[None, None, None, Some(0)]);
}

#[test]
fn topology_tables_are_transposes() {
    let mut builder: Builder<&str, u32> = Graph::builder();
    let a = builder.add_node("a");
    let b = builder.add_node("b");
    let c = builder.add_node("c");
    builder.add_edge(a, b, 0).unwrap();
    builder.add_edge(b, c, 0).unwrap();
    builder.add_edge(a, c, 0).unwrap();
    let topology = Topology::new(&builder);
    for u in 0..3 {
        for v in 0..3 {
            let forward = topology.outgoing()[u].contains(&v);
            let backward = topology.incoming()[v].contains(&u);
            assert_eq!(forward, backward);
        }
    }
    assert_eq!(topology.distance()[a][c], Some(1));
    assert_eq!(topology.distance()[c][a], None);
}

#[test]
fn topology_clone_shares_tables() {
    let mut builder: Builder<&str, u32> = Graph::builder();
    let a = builder.add_node("a");
    let b = builder.add_node("b");
    builder.add_edge(a, b, 0).unwrap();
    let topology = Topology::new(&builder);
    let clone = topology.clone();
    assert!(std::ptr::eq(topology.outgoing(), clone.outgoing()));
    assert!(std::ptr::eq(topology.incoming(), clone.incoming()));
    assert!(std::ptr::eq(topology.distance(), clone.distance()));
    assert_eq!(&clone.outgoing()[a], &[b]);
}

#[test]
fn empty_graph_has_nothing() {
    let graph: Graph<()> = Graph::empty();
    assert!(graph.is_empty());
    assert_eq!(graph.len(), 0);
    assert_eq!(graph.sources(), Vec::<usize>::new());
    assert_eq!(graph.sinks(), Vec::<usize>::new());
    assert!(graph.topology().outgoing().is_empty());
    assert!(graph.topology().distance().is_empty());
    let mut traversal = graph.traverse(&[]);
    assert_eq!(traversal.take(), None);
    assert!(traversal.is_done());
}

#[test]
fn graph_holds_payloads_by_index() {
    let mut builder: Builder<&str, u32> = Graph::builder();
    let a = builder.add_node("a");
    let b = builder.add_node("b");
    let c = builder.add_node("c");
    builder.add_edge(a, b, 0).unwrap();
    builder.add_edge(b, c, 0).unwrap();
    let mut graph = builder.build();
    assert_eq!(graph.len(), 3);
    assert!(!graph.is_empty());
    assert_eq!(graph[a], "a");
    assert_eq!(graph[b], "b");
    assert_eq!(graph[c], "c");
    *graph.index_mut(b) = "x";
    assert_eq!(graph[b], "x");
    assert_eq!(graph[a], "a");
    let payloads: Vec<&str> = graph.iter().copied().collect();
    assert_eq!(payloads, vec!["a", "x", "c"]);
    let mut seen = Vec::new();
    for payload in &graph {
        seen.push(*payload);
    }
    assert_eq!(seen, vec!["a", "x", "c"]);
    assert_eq!(&graph.topology().outgoing()[a], &[b]);
}

#[test]
fn map_keeps_topology() {
    let mut builder: Builder<&str, u32> = Graph::builder();
    let a = builder.add_node("a");
    let b = builder.add_node("b");
    let c = builder.add_node("c");
    builder.add_edge(a, b, 0).unwrap();
    builder.add_edge(b, c, 0).unwrap();
    let graph = builder.build();
    let mut calls = 0;
    let mapped = graph.map(|name| {
        calls += 1;
        name.to_uppercase()
    });
    assert_eq!(calls, 3);
    assert_eq!(mapped.len(), 3);
    assert_eq!(mapped[a], "A");
    assert_eq!(mapped[b], "B");
    assert_eq!(mapped[c], "C");
    assert_eq!(&mapped.topology().outgoing()[a], &[b]);
    assert_eq!(&mapped.topology().outgoing()[b], &[c]);
    assert_eq!(mapped.sources(), vec![a]);
    assert_eq!(mapped.sinks(), vec![c]);
}

#[test]
fn error_messages() {
    assert_eq!(Error::InvalidNode.message(), "node not found");
    assert_eq!(Error::Cycle.message(), "cycle detected");
    assert_eq!(Error::NotInFlight.message(), "node not in flight");
}
