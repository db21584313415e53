use zrx_graph::builder::Builder;
use zrx_graph::error::Error;
use zrx_graph::graph::Graph;
use zrx_graph::traversal::{State, Traversal};

#[test]
fn scenario_diamond() {
    let mut builder: Builder<&str, u32> = Graph::builder();
    let a = builder.add_node("a");
    let b = builder.add_node("b");
    let c = builder.add_node("c");
    let d = builder.add_node("d");
    builder.add_edge(a, b, 0).unwrap();
    builder.add_edge(a, c, 0).unwrap();
    builder.add_edge(b, d, 0).unwrap();
    builder.add_edge(c, d, 0).unwrap();
    let graph = builder.build();
    let mut traversal = graph.traverse(&[a]);

    assert_eq!(traversal.state(a), State::Ready);
    assert_eq!(traversal.state(b), State::Pending);
    assert_eq!(traversal.take(), Some(a));
    assert_eq!(traversal.state(a), State::InFlight);
    // Nothing else is ready before a is completed
    assert_eq!(traversal.take(), None);
    assert!(!traversal.is_done());
    assert_eq!(traversal.in_flight(), 1);

    assert_eq!(traversal.complete(a), Ok(()));
    assert_eq!(traversal.state(a), State::Completed);
    assert_eq!(traversal.state(b), State::Ready);
    assert_eq!(traversal.state(c), State::Ready);
    assert_eq!(traversal.state(d), State::Pending);
    let first = traversal.take().unwrap();
    let second = traversal.take().unwrap();
    assert_eq!((first, second), (b, c));
    assert_eq!(traversal.take(), None);
    assert_eq!(traversal.in_flight(), 2);

    // d is ready only once both b and c are completed
    assert_eq!(traversal.complete(c), Ok(()));
    assert_eq!(traversal.state(d), State::Pending);
    assert_eq!(traversal.take(), None);
    assert_eq!(traversal.complete(b), Ok(()));
    assert_eq!(traversal.state(d), State::Ready);
    assert_eq!(traversal.take(), Some(d));
    assert_eq!(traversal.take(), None);
    assert!(!traversal.is_done());
    assert_eq!(traversal.complete(d), Ok(()));
    assert_eq!(traversal.take(), None);
    assert!(traversal.is_done());
    assert_eq!(traversal.in_flight(), 0);
    for node in [a, b, c, d] {
        assert_eq!(traversal.state(node), State::Completed);
    }
}

#[test]
fn complete_fails_unless_in_flight() {
    let mut builder: Builder<&str, u32> = Graph::builder();
    let a = builder.add_node("a");
    let b = builder.add_node("b");
    builder.add_edge(a, b, 0).unwrap();
    let graph = builder.build();
    let mut traversal = graph.traverse(&[a]);
    // Before the node is taken
    assert_eq!(traversal.complete(a), Err(Error::NotInFlight));
    // A node that is pending
    assert_eq!(traversal.complete(b), Err(Error::NotInFlight));
    // No node at all
    assert_eq!(traversal.complete(2), Err(Error::NotInFlight));
    assert_eq!(traversal.complete(usize::MAX), Err(Error::NotInFlight));
    // The failed calls have changed nothing
    assert_eq!(traversal.state(a), State::Ready);
    assert_eq!(traversal.take(), Some(a));
    assert_eq!(traversal.complete(a), Ok(()));
    // A second time
    assert_eq!(traversal.complete(a), Err(Error::NotInFlight));
    assert_eq!(traversal.take(), Some(b));
    assert_eq!(traversal.take(), None);
    assert_eq!(traversal.complete(b), Ok(()));
    assert_eq!(traversal.complete(b), Err(Error::NotInFlight));
    assert!(traversal.is_done());
}

#[test]
fn drain_from_sources_visits_every_node_once() {
    // Two components and a lone node
    let mut builder: Builder<(), ()> = Graph::builder();
    for _ in 0..9 {
        builder.add_node(());
    }
    let edges = [(0, 1), (0, 2), (1, 3), (2, 3), (3, 4), (5, 6), (6, 4), (5, 7), (2, 7)];
    for &(u, v) in &edges {
        builder.add_edge(u, v, ()).unwrap();
    }
    let graph = builder.build();
    let sources = graph.sources();
    assert_eq!(sources, vec![0, 5, 8]);
    let mut traversal = graph.traverse(&sources);
    let mut order = Vec::new();
    while let Some(node) = traversal.take() {
        // Every predecessor has been completed before
        for &(u, v) in &edges {
            if v == node {
                assert_eq!(traversal.state(u), State::Completed);
            }
        }
        order.push(node);
        traversal.complete(node).unwrap();
    }
    assert!(traversal.is_done());
    assert_eq!(order.len(), 9);
    let mut sorted = order.clone();
    sorted.sort();
    assert_eq!(sorted, vec![0, 1, 2, 3, 4, 5, 6, 7, 8]);
    for &(u, v) in &edges {
        let before = order.iter().position(|&node| node == u).unwrap();
        let after = order.iter().position(|&node| node == v).unwrap();
        assert!(before < after);
    }
}

#[test]
fn drain_with_late_completions() {
    // Take all that is ready before anything is completed
    let mut builder: Builder<(), ()> = Graph::builder();
    for _ in 0..6 {
        builder.add_node(());
    }
    let edges = [(0, 2), (1, 2), (2, 3), (2, 4), (1, 5), (4, 5)];
    for &(u, v) in &edges {
        builder.add_edge(u, v, ()).unwrap();
    }
    let graph = builder.build();
    let mut traversal = Traversal::new(graph.topology(), &graph.sources());
    let mut taken = Vec::new();
    let mut completed = Vec::new();
    while !traversal.is_done() {
        let mut batch = Vec::new();
        while let Some(node) = traversal.take() {
            for &(u, v) in &edges {
                if v == node {
                    assert!(completed.contains(&u));
                }
            }
            batch.push(node);
        }
        assert!(!batch.is_empty());
        assert_eq!(traversal.in_flight(), batch.len());
        for &node in batch.iter().rev() {
            traversal.complete(node).unwrap();
            completed.push(node);
        }
        taken.extend(batch);
    }
    assert_eq!(taken, vec![0, 1, 2, 3, 4, 5]);
    assert_eq!(completed.len(), 6);
}

#[test]
fn roots_are_ready_in_ascending_order() {
    let mut builder: Builder<(), ()> = Graph::builder();
    for _ in 0..4 {
        builder.add_node(());
    }
    let graph = builder.build();
    let mut traversal = graph.traverse(&[3, 1, 2, 1]);
    assert_eq!(traversal.take(), Some(1));
    assert_eq!(traversal.take(), Some(2));
    assert_eq!(traversal.take(), Some(3));
    assert_eq!(traversal.take(), None);
    assert_eq!(traversal.state(0), State::Pending);
    assert_eq!(traversal.in_flight(), 3);
}

#[test]
fn released_nodes_queue_behind_ready_ones() {
    // 0 -> 4, 0 -> 3, 1 -> 2: completing 0 releases 3 and 4 in ascending
    // order, behind 1, which was ready before
    let mut builder: Builder<(), ()> = Graph::builder();
    for _ in 0..5 {
        builder.add_node(());
    }
    builder.add_edge(0, 4, ()).unwrap();
    builder.add_edge(0, 3, ()).unwrap();
    builder.add_edge(1, 2, ()).unwrap();
    let graph = builder.build();
    let mut traversal = graph.traverse(&[0, 1]);
    assert_eq!(traversal.take(), Some(0));
    assert_eq!(traversal.complete(0), Ok(()));
    assert_eq!(traversal.take(), Some(1));
    assert_eq!(traversal.take(), Some(3));
    assert_eq!(traversal.complete(1), Ok(()));
    assert_eq!(traversal.take(), Some(4));
    assert_eq!(traversal.take(), Some(2));
    assert_eq!(traversal.take(), None);
}

#[test]
fn traversal_of_part_of_the_graph() {
    // a -> c, b -> c, c -> d; started at b: a is not visited, and c does
    // not wait for it
    let mut builder: Builder<(), ()> = Graph::builder();
    let a = builder.add_node(());
    let b = builder.add_node(());
    let c = builder.add_node(());
    let d = builder.add_node(());
    builder.add_edge(a, c, ()).unwrap();
    builder.add_edge(b, c, ()).unwrap();
    builder.add_edge(c, d, ()).unwrap();
    let graph = builder.build();
    let mut traversal = graph.traverse(&[b]);
    let mut order = Vec::new();
    while let Some(node) = traversal.take() {
        order.push(node);
        traversal.complete(node).unwrap();
    }
    assert_eq!(order, vec![b, c, d]);
    assert!(traversal.is_done());
    assert_eq!(traversal.state(a), State::Pending);

    // Started in the middle: a root is ready whatever lies before it
    let mut traversal = graph.traverse(&[c]);
    assert_eq!(traversal.take(), Some(c));
    assert_eq!(traversal.complete(c), Ok(()));
    assert_eq!(traversal.take(), Some(d));
    assert_eq!(traversal.complete(d), Ok(()));
    assert!(traversal.is_done());
}

#[test]
fn root_behind_another_root_waits() {
    // a -> b, started at both: b waits for a
    let mut builder: Builder<(), ()> = Graph::builder();
    let a = builder.add_node(());
    let b = builder.add_node(());
    builder.add_edge(a, b, ()).unwrap();
    let graph = builder.build();
    let mut traversal = graph.traverse(&[b, a]);
    assert_eq!(traversal.state(b), State::Pending);
    assert_eq!(traversal.take(), Some(a));
    assert_eq!(traversal.take(), None);
    assert_eq!(traversal.complete(a), Ok(()));
    assert_eq!(traversal.take(), Some(b));
}

#[test]
fn traversals_share_one_graph() {
    let mut builder: Builder<(), ()> = Graph::builder();
    let a = builder.add_node(());
    let b = builder.add_node(());
    builder.add_edge(a, b, ()).unwrap();
    let graph = builder.build();
    let mut first = graph.traverse(&[a]);
    let mut second = graph.traverse(&[a]);
    assert_eq!(first.take(), Some(a));
    assert_eq!(first.complete(a), Ok(()));
    assert_eq!(second.take(), Some(a));
    assert_eq!(first.take(), Some(b));
    assert_eq!(second.take(), None);
    assert_eq!(second.complete(a), Ok(()));
    assert_eq!(second.take(), Some(b));
}
