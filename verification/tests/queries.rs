use zrx_graph::algorithm::{lowest_common_ancestor, shortest_path_length};
use zrx_graph::builder::Builder;
use zrx_graph::graph::Graph;
use zrx_graph::visitor::{Ancestors, Descendants, Paths, Search};

#[test]
fn scenario_triangle() {
    let mut builder: Builder<&str, u32> = Graph::builder();
    let a = builder.add_node("a");
    let b = builder.add_node("b");
    let c = builder.add_node("c");
    builder.add_edge(a, b, 0).unwrap();
    builder.add_edge(b, c, 0).unwrap();
    builder.add_edge(a, c, 0).unwrap();
    let graph = builder.build();

    assert_eq!(graph.sources(), vec![a]);
    assert_eq!(graph.sinks(), vec![c]);

    let mut ancestors = Vec::new();
    let mut visitor = graph.ancestors(c);
    while let Some(node) = visitor.next() {
        ancestors.push(node);
    }
    ancestors.sort();
    assert_eq!(ancestors, vec![a, b]);

    let mut descendants = Vec::new();
    let mut visitor = graph.descendants(a);
    while let Some(node) = visitor.next() {
        descendants.push(node);
    }
    descendants.sort();
    assert_eq!(descendants, vec![b, c]);

    let mut paths = graph.paths(a, c);
    assert_eq!(paths.next(), Some(vec![a, b, c]));
    assert_eq!(paths.next(), Some(vec![a, c]));
    assert_eq!(paths.next(), None);
    assert_eq!(paths.next(), None);

    assert_eq!(shortest_path_length(&graph, a, c), Some(1));
    assert_eq!(lowest_common_ancestor(&graph, &[b, c]), Some(a));
}

#[test]
fn ancestors_of_node_with_two_predecessors() {
    // Both predecessors are handed out, whichever is listed first
    let mut builder: Builder<(), ()> = Graph::builder();
    let a = builder.add_node(());
    let b = builder.add_node(());
    let c = builder.add_node(());
    builder.add_edge(a, c, ()).unwrap();
    builder.add_edge(b, c, ()).unwrap();
    let graph = builder.build();
    let mut found = Vec::new();
    let mut visitor = Ancestors::new(graph.topology(), c);
    while let Some(node) = visitor.next() {
        found.push(node);
    }
    found.sort();
    assert_eq!(found, vec![a, b]);
    assert_eq!(visitor.next(), None);
}

#[test]
fn ancestors_and_descendants_yield_each_node_once() {
    // a -> b -> d, a -> c -> d, d -> e
    let mut builder: Builder<(), ()> = Graph::builder();
    let a = builder.add_node(());
    let b = builder.add_node(());
    let c = builder.add_node(());
    let d = builder.add_node(());
    let e = builder.add_node(());
    builder.add_edge(a, b, ()).unwrap();
    builder.add_edge(a, c, ()).unwrap();
    builder.add_edge(b, d, ()).unwrap();
    builder.add_edge(c, d, ()).unwrap();
    builder.add_edge(d, e, ()).unwrap();
    let graph = builder.build();

    let mut found = Vec::new();
    let mut visitor = graph.ancestors(e);
    while let Some(node) = visitor.next() {
        found.push(node);
    }
    assert_eq!(found.len(), 4);
    found.sort();
    assert_eq!(found, vec![a, b, c, d]);

    let mut found = Vec::new();
    let mut visitor = Descendants::new(graph.topology(), a);
    while let Some(node) = visitor.next() {
        found.push(node);
    }
    assert_eq!(found.len(), 4);
    found.sort();
    assert_eq!(found, vec![b, c, d, e]);

    let mut visitor = graph.ancestors(a);
    assert_eq!(visitor.next(), None);
    let mut visitor = graph.descendants(e);
    assert_eq!(visitor.next(), None);
}

#[test]
fn ancestors_and_descendants_are_apart() {
    let mut builder: Builder<(), ()> = Graph::builder();
    let mut nodes = Vec::new();
    for _ in 0..6 {
        nodes.push(builder.add_node(()));
    }
    builder.add_edge(0, 1, ()).unwrap();
    builder.add_edge(0, 2, ()).unwrap();
    builder.add_edge(1, 3, ()).unwrap();
    builder.add_edge(2, 3, ()).unwrap();
    builder.add_edge(3, 4, ()).unwrap();
    builder.add_edge(2, 5, ()).unwrap();
    let graph = builder.build();
    for &node in &nodes {
        let mut ancestors = Vec::new();
        let mut visitor = graph.ancestors(node);
        while let Some(found) = visitor.next() {
            ancestors.push(found);
        }
        let mut descendants = Vec::new();
        let mut visitor = graph.descendants(node);
        while let Some(found) = visitor.next() {
            descendants.push(found);
        }
        assert!(!ancestors.contains(&node));
        assert!(!descendants.contains(&node));
        for found in &ancestors {
            assert!(!descendants.contains(found));
        }
    }
}

#[test]
fn search_follows_given_lists() {
    let mut builder: Builder<(), ()> = Graph::builder();
    let a = builder.add_node(());
    let b = builder.add_node(());
    let c = builder.add_node(());
    builder.add_edge(a, b, ()).unwrap();
    builder.add_edge(b, c, ()).unwrap();
    let graph = builder.build();
    let mut search = Search::new(graph.topology().outgoing(), a);
    assert_eq!(search.next(), Some(b));
    assert_eq!(search.next(), Some(c));
    assert_eq!(search.next(), None);
    let mut search = Search::new(graph.topology().incoming(), c);
    assert_eq!(search.next(), Some(b));
    assert_eq!(search.next(), Some(a));
    assert_eq!(search.next(), None);
}

#[test]
fn paths_in_depth_first_order() {
    // a -> b, a -> c, b -> d, c -> d, b -> c
    let mut builder: Builder<(), ()> = Graph::builder();
    let a = builder.add_node(());
    let b = builder.add_node(());
    let c = builder.add_node(());
    let d = builder.add_node(());
    builder.add_edge(a, b, ()).unwrap();
    builder.add_edge(a, c, ()).unwrap();
    builder.add_edge(b, d, ()).unwrap();
    builder.add_edge(c, d, ()).unwrap();
    builder.add_edge(b, c, ()).unwrap();
    let graph = builder.build();
    let mut paths = Paths::new(graph.topology(), a, d);
    assert_eq!(paths.next(), Some(vec![a, b, d]));
    assert_eq!(paths.next(), Some(vec![a, b, c, d]));
    assert_eq!(paths.next(), Some(vec![a, c, d]));
    assert_eq!(paths.next(), None);
}

#[test]
fn paths_to_itself_and_to_nowhere() {
    let mut builder: Builder<(), ()> = Graph::builder();
    let a = builder.add_node(());
    let b = builder.add_node(());
    let c = builder.add_node(());
    builder.add_edge(a, b, ()).unwrap();
    let graph = builder.build();
    let mut paths = graph.paths(a, a);
    assert_eq!(paths.next(), Some(vec![a]));
    assert_eq!(paths.next(), None);
    let mut paths = graph.paths(b, a);
    assert_eq!(paths.next(), None);
    let mut paths = graph.paths(a, c);
    assert_eq!(paths.next(), None);
    // A target that is no node is never reached
    let mut paths = graph.paths(a, 17);
    assert_eq!(paths.next(), None);
}

#[test]
fn shortest_path_length_of_node_to_itself() {
    let mut builder: Builder<(), ()> = Graph::builder();
    let a = builder.add_node(());
    let b = builder.add_node(());
    let c = builder.add_node(());
    builder.add_edge(a, b, ()).unwrap();
    builder.add_edge(b, c, ()).unwrap();
    let graph = builder.build();
    for node in [a, b, c] {
        assert_eq!(shortest_path_length(&graph, node, node), Some(0));
    }
}

#[test]
fn shortest_path_length_is_none_off_descendants() {
    // a -> b -> c -> e, a -> d -> e, f alone
    let mut builder: Builder<(), ()> = Graph::builder();
    let a = builder.add_node(());
    let b = builder.add_node(());
    let c = builder.add_node(());
    let d = builder.add_node(());
    let e = builder.add_node(());
    let f = builder.add_node(());
    builder.add_edge(a, b, ()).unwrap();
    builder.add_edge(b, c, ()).unwrap();
    builder.add_edge(c, e, ()).unwrap();
    builder.add_edge(a, d, ()).unwrap();
    builder.add_edge(d, e, ()).unwrap();
    let graph = builder.build();
    assert_eq!(shortest_path_length(&graph, a, e), Some(2));
    assert_eq!(shortest_path_length(&graph, a, c), Some(2));
    assert_eq!(shortest_path_length(&graph, b, e), Some(2));
    assert_eq!(shortest_path_length(&graph, a, b), Some(1));
    assert_eq!(shortest_path_length(&graph, e, a), None);
    assert_eq!(shortest_path_length(&graph, b, d), None);
    assert_eq!(shortest_path_length(&graph, a, f), None);
    assert_eq!(shortest_path_length(&graph, f, a), None);
    assert_eq!(shortest_path_length(&graph, a, 99), None);
    for x in [a, b, c, d, e, f] {
        let mut within = vec![x];
        let mut visitor = graph.descendants(x);
        while let Some(node) = visitor.next() {
            within.push(node);
        }
        for y in [a, b, c, d, e, f] {
            let length = shortest_path_length(&graph, x, y);
            assert_eq!(length.is_none(), !within.contains(&y));
            assert_eq!(length, graph.topology().distance()[x][y]);
        }
    }
}

#[test]
fn lowest_common_ancestor_needs_two_nodes() {
    let mut builder: Builder<(), ()> = Graph::builder();
    let a = builder.add_node(());
    let b = builder.add_node(());
    builder.add_edge(a, b, ()).unwrap();
    let graph = builder.build();
    assert_eq!(lowest_common_ancestor(&graph, &[]), None);
    assert_eq!(lowest_common_ancestor(&graph, &[a]), None);
    assert_eq!(lowest_common_ancestor(&graph, &[b]), None);
}

#[test]
fn lowest_common_ancestor_is_closest() {
    // r -> a -> b -> x, b -> y, r -> y
    let mut builder: Builder<(), ()> = Graph::builder();
    let r = builder.add_node(());
    let a = builder.add_node(());
    let b = builder.add_node(());
    let x = builder.add_node(());
    let y = builder.add_node(());
    builder.add_edge(r, a, ()).unwrap();
    builder.add_edge(a, b, ()).unwrap();
    builder.add_edge(b, x, ()).unwrap();
    builder.add_edge(b, y, ()).unwrap();
    builder.add_edge(r, y, ()).unwrap();
    let graph = builder.build();
    // The common ancestors are b, a and r, at distances 1, 2 and 1; of b
    // and r, as close as each other, b is met first among the ancestors
    // of the first node
    assert_eq!(lowest_common_ancestor(&graph, &[x, y]), Some(b));
    assert_eq!(lowest_common_ancestor(&graph, &[y, x]), Some(b));
    // The same node twice has its own ancestors in common
    assert_eq!(lowest_common_ancestor(&graph, &[x, x]), Some(b));
    // Nodes without any common ancestor
    assert_eq!(lowest_common_ancestor(&graph, &[r, x]), None);
    assert_eq!(lowest_common_ancestor(&graph, &[a, b]), Some(r));
    // a is at distance 1 from b, r at distance 1 from y; a is met first
    assert_eq!(lowest_common_ancestor(&graph, &[b, x, y]), Some(a));
    assert_eq!(lowest_common_ancestor(&graph, &[b, x]), Some(a));
}

#[test]
fn lowest_common_ancestor_ties_follow_first_node() {
    // p -> u, q -> u, p -> v, q -> v: both p and q are at distance 1
    let mut builder: Builder<(), ()> = Graph::builder();
    let q = builder.add_node(());
    let p = builder.add_node(());
    let u = builder.add_node(());
    let v = builder.add_node(());
    builder.add_edge(p, u, ()).unwrap();
    builder.add_edge(q, u, ()).unwrap();
    builder.add_edge(q, v, ()).unwrap();
    builder.add_edge(p, v, ()).unwrap();
    let graph = builder.build();
    // The predecessors of u are p, then q; those of v are q, then p
    assert_eq!(lowest_common_ancestor(&graph, &[u, v]), Some(p));
    assert_eq!(lowest_common_ancestor(&graph, &[v, u]), Some(q));
}

#[test]
fn lowest_common_ancestor_of_unrelated_nodes() {
    let mut builder: Builder<(), ()> = Graph::builder();
    let a = builder.add_node(());
    let b = builder.add_node(());
    let c = builder.add_node(());
    let d = builder.add_node(());
    builder.add_edge(a, b, ()).unwrap();
    builder.add_edge(c, d, ()).unwrap();
    let graph = builder.build();
    assert_eq!(lowest_common_ancestor(&graph, &[b, d]), None);
    assert_eq!(lowest_common_ancestor(&graph, &[a, c]), None);
}

#[test]
fn sources_and_sinks_ascend() {
    let mut builder: Builder<(), ()> = Graph::builder();
    for _ in 0..5 {
        builder.add_node(());
    }
    builder.add_edge(4, 2, ()).unwrap();
    builder.add_edge(0, 2, ()).unwrap();
    builder.add_edge(2, 1, ()).unwrap();
    let graph = builder.build();
    assert_eq!(graph.sources(), vec![0, 3, 4]);
    assert_eq!(graph.sinks(), vec![1, 3]);
}

#[test]
fn visitors_go_depth_first() {
    // a -> b, a -> c, b -> d, d -> f, c -> e, c -> d
    let mut builder: Builder<(), ()> = Graph::builder();
    let a = builder.add_node(());
    let b = builder.add_node(());
    let c = builder.add_node(());
    let d = builder.add_node(());
    let e = builder.add_node(());
    let f = builder.add_node(());
    builder.add_edge(a, b, ()).unwrap();
    builder.add_edge(a, c, ()).unwrap();
    builder.add_edge(b, d, ()).unwrap();
    builder.add_edge(d, f, ()).unwrap();
    builder.add_edge(c, e, ()).unwrap();
    builder.add_edge(c, d, ()).unwrap();
    let graph = builder.build();

    let mut order = Vec::new();
    let mut visitor = graph.descendants(a);
    while let Some(node) = visitor.next() {
        order.push(node);
    }
    // What lies below b comes before c, and d is not handed out again
    assert_eq!(order, vec![b, d, f, c, e]);

    let mut order = Vec::new();
    let mut visitor = graph.ancestors(f);
    while let Some(node) = visitor.next() {
        order.push(node);
    }
    // The predecessors of d are b, then c
    assert_eq!(order, vec![d, b, a, c]);
}
