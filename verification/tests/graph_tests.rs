use varant::communities::{communities, connected_components, rank_by_degree};
use varant::graph::{
    CreatedBy, GraphError, NodeData, NodeKind, RelationSource, ResolvedRelation, ScannerBridge,
    ScannerEntity,
};

fn ids(names: &[&str]) -> Vec<String> {
    names.iter().map(|s| s.to_string()).collect()
}

#[test]
fn algorithms_test_community_detection() {
    // Cluster 1: A-B-C, cluster 2: D-E-F, bridge C-D
    let nodes = ids(&["A", "B", "C", "D", "E", "F"]);
    let edges = [(0, 1), (1, 2), (0, 2), (3, 4), (4, 5), (3, 5), (2, 3)];
    let mut both = vec![Vec::new(); 6];
    let mut outgoing = vec![Vec::new(); 6];
    for &(s, t) in &edges {
        both[s].push(t);
        both[t].push(s);
        outgoing[s].push(t);
    }
    let communities = communities(&nodes, &both, &outgoing);

    assert!(!communities.is_empty());

    let total_members: usize = communities.iter().map(|c| c.members.len()).sum();
    assert_eq!(total_members, 6);
}

#[test]
fn communities_of_isolated_nodes_and_pairs() {
    let nodes = ids(&["x", "y", "z"]);
    let both = vec![vec![1], vec![0], vec![]];
    let outgoing = vec![vec![1], vec![], vec![]];
    let cs = communities(&nodes, &both, &outgoing);
    // x and y end in one community (label 0); z alone
    assert_eq!(cs.len(), 2);
    assert_eq!(cs[0].members, vec!["x".to_string(), "y".to_string()]);
    assert_eq!(cs[0].id, 1);
    assert_eq!(cs[0].internal_edges, 1);
    assert_eq!(cs[1].members, vec!["z".to_string()]);
    assert_eq!(cs[1].internal_edges, 0);
    assert!(communities(&Vec::new(), &Vec::new(), &Vec::new()).is_empty());
}

#[test]
fn node_kind_names() {
    assert_eq!(NodeKind::from_str("character"), NodeKind::Character);
    assert_eq!(NodeKind::from_str("Time_Unit"), NodeKind::TimeUnit);
    assert_eq!(NodeKind::from_str("dragon"), NodeKind::Custom);
    assert_eq!(NodeKind::Organization.as_str(), "ORGANIZATION");
    assert_eq!(CreatedBy::from_str("USER"), CreatedBy::User);
    assert_eq!(CreatedBy::from_str("other"), CreatedBy::Auto);
    assert_eq!(CreatedBy::Extraction.as_str(), "extraction");
    for k in [NodeKind::Character, NodeKind::Location, NodeKind::Item, NodeKind::Event, NodeKind::Concept, NodeKind::Organization, NodeKind::TimeUnit, NodeKind::Custom] {
        assert_eq!(NodeKind::from_str(k.as_str()), k);
    }
}

#[test]
fn graph_error_messages() {
    assert_eq!(GraphError::NotInitialized.message(), "GraphRegistry not initialized");
    assert_eq!(GraphError::NodeNotFound("n1".to_string()).message(), "Node not found: n1");
    assert_eq!(GraphError::StorageError("disk".to_string()).message(), "Storage error: disk");
}

#[test]
fn node_data_normalizes_label() {
    let d = NodeData::new("id1", "  Frodo Baggins ", "CHARACTER");
    assert_eq!(d.normalized, "frodo baggins");
    assert_eq!(d.label, "  Frodo Baggins ");
    assert_eq!(d.source_note, "");
}

fn scanner_entity(id: &str, label: &str) -> ScannerEntity {
    ScannerEntity { id: id.to_string(), label: label.to_string(), kind: "CHARACTER".to_string(), aliases: vec![] }
}

#[test]
fn bridge_detects_entity_set_changes() {
    let mut bridge = ScannerBridge::new();
    assert!(!bridge.is_hydrated());
    let first = bridge.entities_if_changed(vec![scanner_entity("1", "Frodo")]);
    assert_eq!(first.unwrap().len(), 1);
    assert!(bridge.is_hydrated());
    assert!(bridge.entities_if_changed(vec![scanner_entity("1", "Frodo")]).is_none());
    let third = bridge.entities_if_changed(vec![scanner_entity("1", "Frodo"), scanner_entity("2", "Sam")]);
    assert_eq!(third.unwrap().len(), 2);
    let r = bridge.record_mentions(&[true, false, true]);
    assert_eq!(r.entities_created, 2);
    assert_eq!(r.entities_updated, 1);
    // A created entity forces the next check to re-hydrate
    assert!(bridge.entities_if_changed(vec![scanner_entity("1", "Frodo"), scanner_entity("2", "Sam")]).is_some());
    bridge.invalidate();
    assert!(!bridge.is_hydrated());
}

fn resolved(head: Option<&str>, tail: Option<&str>, ty: &str, source: RelationSource, existing: &[(&str, &str)]) -> ResolvedRelation {
    ResolvedRelation {
        head_id: head.map(|h| h.to_string()),
        tail_id: tail.map(|t| t.to_string()),
        relation_type: ty.to_string(),
        source,
        existing: existing.iter().map(|(t, ty)| (t.to_string(), ty.to_string())).collect(),
    }
}

#[test]
fn test_ingest_relations() {
    let bridge = ScannerBridge::new();
    let relations = vec![resolved(Some("frodo"), Some("ring"), "OWNS", RelationSource::CstInference, &[])];
    let (edges, result) = bridge.ingest_relations(&relations);
    assert_eq!(result.edges_created, 1);
    assert_eq!(edges.len(), 1);
    assert_eq!(edges[0].edge_type, "OWNS");
    assert_eq!(edges[0].source_id, "frodo");
    assert_eq!(edges[0].target_id, "ring");
    assert_eq!(edges[0].created_by, CreatedBy::Extraction);
}

#[test]
fn test_ingest_skips_unknown_entities() {
    let bridge = ScannerBridge::new();
    let relations = vec![resolved(None, None, "KNOWS", RelationSource::GraphInference, &[])];
    let (edges, result) = bridge.ingest_relations(&relations);
    // Should skip, not error
    assert_eq!(result.edges_created, 0);
    assert_eq!(result.edges_updated, 0);
    assert!(edges.is_empty());
}

#[test]
fn test_full_ingest() {
    let mut bridge = ScannerBridge::new();
    let relations = vec![resolved(Some("aragorn"), Some("anduril"), "WIELDS", RelationSource::Explicit, &[])];
    let (edges, result) = bridge.ingest_scan_result(&[true, true], &relations);
    assert_eq!(result.entities_created, 2);
    assert_eq!(result.edges_created, 1);
    assert_eq!(edges[0].created_by, CreatedBy::User);
}

#[test]
fn ingest_counts_edges_that_already_exist() {
    let bridge = ScannerBridge::new();
    let relations = vec![
        // already stored
        resolved(Some("a"), Some("b"), "KNOWS", RelationSource::CstInference, &[("b", "KNOWS")]),
        // a different type between the same ends is new
        resolved(Some("a"), Some("b"), "OWNS", RelationSource::CstInference, &[("b", "KNOWS")]),
        // the same relation again in this scan: planned above
        resolved(Some("a"), Some("b"), "OWNS", RelationSource::Explicit, &[("b", "KNOWS")]),
        // one end unknown
        resolved(Some("a"), None, "OWNS", RelationSource::Explicit, &[]),
    ];
    let (edges, result) = bridge.ingest_relations(&relations);
    assert_eq!(result.edges_created, 1);
    assert_eq!(result.edges_updated, 2);
    assert_eq!(edges.len(), 1);
    assert_eq!(edges[0].relation, 1);
}

#[test]
fn degree_ranking_orders_by_count_then_node() {
    // node 0 has one edge, node 1 three, node 2 one, node 3 none
    let lists = vec![vec![1], vec![0, 2, 2], vec![1], vec![]];
    assert_eq!(rank_by_degree(&lists), vec![(1, 3), (0, 1), (2, 1), (3, 0)]);
    assert!(rank_by_degree(&Vec::new()).is_empty());
}

#[test]
fn test_degree_centrality() {
    // star graph: node 0 is the centre, joined to the four leaves 1..=4
    let edges: Vec<(usize, usize)> = (1..5).map(|leaf| (0, leaf)).collect();
    let mut touching: Vec<Vec<usize>> = vec![Vec::new(); 5];
    for (k, &(s, t)) in edges.iter().enumerate() {
        touching[s].push(k);
        touching[t].push(k);
    }
    let scores = rank_by_degree(&touching);
    assert!(!scores.is_empty());
    assert_eq!(scores[0].0, 0);
}

#[test]
fn test_connected_components() {
    // two disconnected pairs: a-b and c-d
    let edges = vec![(0, 1), (2, 3)];
    let components = connected_components(4, &edges);
    assert_eq!(components.len(), 2);
    assert_eq!(components[0].len(), 2);
    assert_eq!(components[1].len(), 2);
}

#[test]
fn components_follow_edges_either_way_and_order_by_size() {
    // 4 -> 1, 1 -> 3 form one component; 0 and 2 are alone; an edge to a
    // node outside the graph is left out
    let edges = vec![(4, 1), (1, 3), (2, 9)];
    let components = connected_components(5, &edges);
    assert_eq!(components, vec![vec![1, 3, 4], vec![0], vec![2]]);
    assert!(connected_components(0, &edges).is_empty());
}

#[test]
fn test_get_entities_detects_changes() {
    let mut bridge = ScannerBridge::new();
    // First call should return entities
    let result1 = bridge.entities_if_changed(vec![scanner_entity("1", "Frodo")]);
    assert!(result1.is_some());
    assert_eq!(result1.unwrap().len(), 1);
    // Second call with no changes should return None
    let result2 = bridge.entities_if_changed(vec![scanner_entity("1", "Frodo")]);
    assert!(result2.is_none());
    // Add entity, should detect change
    let result3 = bridge.entities_if_changed(vec![scanner_entity("1", "Frodo"), scanner_entity("2", "Sam")]);
    assert!(result3.is_some());
    assert_eq!(result3.unwrap().len(), 2);
}

#[test]
fn test_ingest_mentions() {
    let mut bridge = ScannerBridge::new();
    // Gandalf and Mordor were both registered anew
    let result = bridge.record_mentions(&[true, true]);
    assert_eq!(result.entities_created, 2);
    assert_eq!(result.entities_updated, 0);
}
