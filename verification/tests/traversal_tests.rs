use varant::graph::NeighborOptions;
use varant::traversal::{EdgeView, GraphView};

/// A graph of the named nodes with the given (source, target, type) edges,
/// numbered e0, e1, ... in order.
fn graph(names: &[&str], edges: &[(usize, usize, &str)]) -> GraphView {
    let n = names.len();
    let mut incident: Vec<Vec<EdgeView>> = vec![Vec::new(); n];
    let mut outgoing: Vec<Vec<EdgeView>> = vec![Vec::new(); n];
    for (k, &(s, t, ty)) in edges.iter().enumerate() {
        let e = EdgeView {
            id: format!("e{}", k),
            source: s,
            target: t,
            edge_type: ty.to_string(),
        };
        incident[s].push(e.clone());
        if t != s {
            incident[t].push(e.clone());
        }
        outgoing[s].push(e);
    }
    GraphView {
        ids: names.iter().map(|s| s.to_string()).collect(),
        incident,
        outgoing,
    }
}

// A -> B -> C -> D
fn chain() -> GraphView {
    graph(
        &["A", "B", "C", "D"],
        &[(0, 1, "KNOWS"), (1, 2, "KNOWS"), (2, 3, "KNOWS")],
    )
}

//     B
//    / \
//   A   D
//    \ /
//     C
fn diamond() -> GraphView {
    graph(
        &["A", "B", "C", "D"],
        &[(0, 1, "KNOWS"), (0, 2, "KNOWS"), (1, 3, "KNOWS"), (2, 3, "KNOWS")],
    )
}

fn opts(depth: usize) -> NeighborOptions {
    NeighborOptions {
        depth,
        edge_types: Vec::new(),
        include_self: false,
    }
}

#[test]
fn test_neighbors_depth_1() {
    let g = chain();
    let neighbors = g.neighbors(1, &opts(0));
    // B should have neighbors A and C
    assert_eq!(neighbors.len(), 2);
    assert!(neighbors.contains(&0));
    assert!(neighbors.contains(&2));
}

#[test]
fn test_neighbors_depth_2() {
    let g = chain();
    let neighbors = g.neighbors(0, &opts(2));
    // A at depth 2 should reach B and C
    assert!(neighbors.len() >= 2);
    assert!(neighbors.contains(&1));
    assert!(neighbors.contains(&2));
}

#[test]
fn neighbors_come_in_breadth_first_order() {
    let g = chain();
    assert_eq!(g.neighbors(0, &opts(3)), vec![1, 2, 3]);
    assert_eq!(g.neighbors(0, &opts(10)), vec![1, 2, 3]);
    assert_eq!(g.neighbors(3, &opts(2)), vec![2, 1]);
}

#[test]
fn neighbors_follow_only_the_asked_types() {
    let g = graph(
        &["A", "B", "C"],
        &[(0, 1, "KNOWS"), (0, 2, "OWNS"), (1, 2, "KNOWS")],
    );
    let only_owns = NeighborOptions {
        depth: 1,
        edge_types: vec!["OWNS".to_string()],
        include_self: false,
    };
    assert_eq!(g.neighbors(0, &only_owns), vec![2]);
    let knows_two_deep = NeighborOptions {
        depth: 2,
        edge_types: vec!["KNOWS".to_string()],
        include_self: false,
    };
    assert_eq!(g.neighbors(0, &knows_two_deep), vec![1, 2]);
}

#[test]
fn neighbors_of_an_isolated_node_are_none() {
    let g = graph(&["A", "B"], &[]);
    assert!(g.neighbors(0, &opts(3)).is_empty());
}

#[test]
fn test_shortest_path_direct() {
    let g = chain();
    let path = g.shortest_path_manual(0, 1).unwrap();
    assert_eq!(path.length, 1);
    assert_eq!(path.nodes.len(), 2);
    assert_eq!(path.nodes[0], "A");
    assert_eq!(path.nodes[1], "B");
    assert_eq!(path.edges, vec!["e0".to_string()]);
}

#[test]
fn test_shortest_path_multi_hop() {
    let g = chain();
    let path = g.shortest_path_manual(0, 3).unwrap();
    // A -> B -> C -> D = 3 hops
    assert_eq!(path.length, 3);
    assert_eq!(path.nodes.len(), 4);
    assert_eq!(path.nodes, vec!["A", "B", "C", "D"]);
    assert_eq!(path.edges, vec!["e0", "e1", "e2"]);
}

#[test]
fn test_shortest_path_diamond() {
    let g = diamond();
    let path = g.shortest_path_manual(0, 3).unwrap();
    // Should find path of length 2 (A->B->D or A->C->D)
    assert_eq!(path.length, 2);
    // The first discovery wins: B is found before C
    assert_eq!(path.nodes, vec!["A", "B", "D"]);
}

#[test]
fn test_shortest_path_not_found() {
    let g = graph(&["A", "B"], &[]);
    // No edge between A and B
    assert!(g.shortest_path_manual(0, 1).is_none());
}

#[test]
fn shortest_path_walks_edges_backwards_and_to_itself() {
    let g = chain();
    let back = g.shortest_path_manual(3, 0).unwrap();
    assert_eq!(back.nodes, vec!["D", "C", "B", "A"]);
    assert_eq!(back.edges, vec!["e2", "e1", "e0"]);
    let same = g.shortest_path_manual(2, 2).unwrap();
    assert_eq!(same.nodes, vec!["C"]);
    assert_eq!(same.length, 0);
    assert!(same.edges.is_empty());
}

#[test]
fn test_all_paths() {
    let g = diamond();
    let paths = g.all_paths(0, 3, 3);
    // Should find 2 paths: A->B->D and A->C->D
    assert_eq!(paths.len(), 2);
    assert!(paths.iter().all(|p| p.length == 2));
    assert_eq!(paths[0].nodes, vec!["A", "B", "D"]);
    assert_eq!(paths[1].nodes, vec!["A", "C", "D"]);
}

#[test]
fn all_paths_respect_the_depth_limit() {
    let g = diamond();
    assert!(g.all_paths(0, 3, 1).is_empty());
    // B to C: through A or through D, two steps each
    let paths = g.all_paths(1, 2, 2);
    assert_eq!(paths.len(), 2);
    let same = g.all_paths(1, 1, 0);
    assert_eq!(same.len(), 1);
    assert_eq!(same[0].nodes, vec!["B"]);
}

#[test]
fn test_subgraph() {
    let g = diamond();
    let edges = g.subgraph(&vec![0, 1, 3]);
    // Should have edges A->B and B->D
    assert_eq!(edges.len(), 2);
    assert_eq!(edges, vec![(0, 0), (1, 0)]);
}

#[test]
fn subgraph_lists_a_repeated_node_once() {
    let g = diamond();
    let edges = g.subgraph(&vec![0, 1, 0, 3]);
    assert_eq!(edges, vec![(0, 0), (1, 0)]);
}

#[test]
fn test_common_neighbors() {
    let g = diamond();
    // B and C share neighbor D (via edges B->D and C->D)
    // And they share neighbor A (via edges A->B and A->C)
    let common = g.common_neighbors(1, 2);
    assert!(common.contains(&0) || common.contains(&3));
    assert_eq!(common, vec![0, 3]);
}

#[test]
fn neighborhood_counts_hops() {
    let g = chain();
    assert_eq!(g.neighborhood(1, 2), vec![(0, 1), (2, 1), (3, 2)]);
    assert_eq!(g.neighborhood(1, 1), vec![(0, 1), (2, 1)]);
    assert!(g.neighborhood(1, 0).is_empty());
    let lonely = graph(&["A"], &[]);
    assert!(lonely.neighborhood(0, 5).is_empty());
}

#[test]
fn neighbors_can_include_the_start() {
    let g = chain();
    let with_self = NeighborOptions {
        depth: 1,
        edge_types: Vec::new(),
        include_self: true,
    };
    assert_eq!(g.neighbors(1, &with_self), vec![1, 0, 2]);
}

#[test]
fn checked_snapshot_and_id_lookup() {
    let g = chain();
    let ok = GraphView::checked(g.ids.clone(), g.incident.clone(), g.outgoing.clone());
    let ok = ok.expect("the chain is well formed");
    assert_eq!(ok.node_of("C"), Some(2));
    assert_eq!(ok.node_of("Z"), None);
    // an edge to a node that does not exist is refused
    let mut bad = g.incident.clone();
    bad[0].push(EdgeView { id: "x".to_string(), source: 0, target: 9, edge_type: "KNOWS".to_string() });
    assert!(GraphView::checked(g.ids.clone(), bad, g.outgoing.clone()).is_none());
    // a missing list is refused
    assert!(GraphView::checked(g.ids.clone(), Vec::new(), g.outgoing.clone()).is_none());
}
