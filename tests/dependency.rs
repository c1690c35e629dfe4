use diecast::graph::Graph;

fn helper_graph() -> Graph {
    let mut graph = Graph::new();

    graph.add_edge(8, 7);
    graph.add_edge(7, 6);

    graph.add_edge(6, 9);
    graph.add_edge(9, 10);
    graph.add_edge(9, 12);

    graph.add_edge(9, 11);
    graph.add_edge(11, 12);

    graph.add_edge(6, 4);

    graph.add_edge(0, 6);
    graph.add_edge(0, 1);
    graph.add_edge(0, 5);

    graph.add_edge(5, 4);

    graph.add_edge(2, 0);
    graph.add_edge(2, 3);
    graph.add_edge(3, 5);

    graph
}

fn position(order: &[u64], node: u64) -> usize {
    order.iter().position(|&n| n == node).unwrap()
}

const HELPER_EDGES: [(u64, u64); 15] = [
    (8, 7),
    (7, 6),
    (6, 9),
    (9, 10),
    (9, 12),
    (9, 11),
    (11, 12),
    (6, 4),
    (0, 6),
    (0, 1),
    (0, 5),
    (5, 4),
    (2, 0),
    (2, 3),
    (3, 5),
];

#[test]
fn detect_cycles() {
    let mut graph = Graph::new();

    graph.add_edge(1, 2);
    graph.add_edge(2, 3);
    graph.add_edge(3, 1);

    let cycle = graph.resolve();

    assert!(cycle.is_err());
}

#[test]
fn resolve_all() {
    let graph = helper_graph();

    let decomposed = graph.resolve();

    assert!(decomposed.is_ok());
}

#[test]
fn resolve_only() {
    let graph = helper_graph();

    let resolve_single = graph.resolve_only(6);

    assert!(resolve_single.is_ok());
}

#[test]
fn resolve_orders_every_edge() {
    let graph = helper_graph();
    let order = graph.resolve().unwrap();
    assert_eq!(order.len(), 13);
    for (a, b) in HELPER_EDGES.iter() {
        assert!(position(&order, *a) < position(&order, *b), "{} before {}", a, b);
    }
}

#[test]
fn cycle_path_is_closed() {
    let mut graph = Graph::new();
    graph.add_edge(10, 1);
    graph.add_edge(1, 2);
    graph.add_edge(2, 3);
    graph.add_edge(3, 1);
    let cycle = graph.resolve().unwrap_err();
    assert!(cycle.len() >= 2);
    assert_eq!(cycle.first(), cycle.last());
    for pair in cycle.windows(2) {
        let dependents = graph.dependents_of(pair[0]).unwrap();
        assert!(dependents.contains(&pair[1]));
    }
    assert!(!cycle.contains(&10));
}

#[test]
fn self_loop_is_a_cycle() {
    let mut graph = Graph::new();
    graph.add_edge(4, 4);
    assert_eq!(graph.resolve(), Err(vec![4, 4]));
}

#[test]
fn resolve_only_gives_the_dependents_closure() {
    let graph = helper_graph();
    let order = graph.resolve_only(6).unwrap();
    let mut sorted = order.clone();
    sorted.sort();
    assert_eq!(sorted, vec![4, 6, 9, 10, 11, 12]);
    for (a, b) in HELPER_EDGES.iter() {
        if order.contains(a) && order.contains(b) {
            assert!(position(&order, *a) < position(&order, *b));
        }
    }
}

#[test]
fn resolve_only_on_a_missing_node() {
    let graph = helper_graph();
    assert_eq!(graph.resolve_only(99), Ok(vec![99]));
}

#[test]
fn resolve_from_a_set() {
    let graph = helper_graph();
    let order = graph.resolve_from(&vec![11, 5]).unwrap();
    let mut sorted = order.clone();
    sorted.sort();
    assert_eq!(sorted, vec![4, 5, 11, 12]);
    assert!(position(&order, 11) < position(&order, 12));
    assert!(position(&order, 5) < position(&order, 4));
}

#[test]
fn dependency_count_matches_dependencies() {
    let graph = helper_graph();
    assert_eq!(graph.dependency_count(12), 2);
    assert_eq!(graph.dependency_count(4), 2);
    assert_eq!(graph.dependency_count(8), 0);
    assert_eq!(graph.dependency_count(99), 0);
    for node in graph.nodes() {
        let deps = graph.dependencies_of(node).unwrap();
        assert_eq!(graph.dependency_count(node), deps.len());
    }
    let mut deps = graph.dependencies_of(12).unwrap();
    deps.sort();
    assert_eq!(deps, vec![9, 11]);
    assert_eq!(graph.dependencies_of(99), None);
}

#[test]
fn repeated_edges_collapse() {
    let mut graph = Graph::new();
    graph.add_edge(1, 2);
    graph.add_edge(1, 2);
    graph.add_node(1);
    graph.add_node(3);
    assert_eq!(graph.dependency_count(2), 1);
    assert_eq!(graph.dependents_of(1), Some(vec![2]));
    assert_eq!(graph.dependents_of(3), Some(vec![]));
    let mut nodes = graph.nodes();
    nodes.sort();
    assert_eq!(nodes, vec![1, 2, 3]);
}

#[test]
fn neighbors_are_the_dependents() {
    let graph = helper_graph();
    let mut n = graph.neighbors_of(9).unwrap();
    n.sort();
    assert_eq!(n, vec![10, 11, 12]);
    assert_eq!(graph.neighbors_of(12), None);
    assert_eq!(graph.neighbors_of(99), None);
}
