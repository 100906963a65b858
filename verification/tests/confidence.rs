use graph_accel::{
    bfs_neighborhood, extract_subgraph, shortest_path, EdgeRecord, Graph, TraversalDirection,
};

fn edge(from: u64, to: u64, rel: &str) -> EdgeRecord {
    EdgeRecord {
        from_id: from,
        to_id: to,
        rel_type: rel.to_string(),
        from_label: "Node".to_string(),
        to_label: "Node".to_string(),
        from_app_id: None,
        to_app_id: None,
        confidence: None,
    }
}

fn edge_conf(from: u64, to: u64, rel: &str, conf: f32) -> EdgeRecord {
    EdgeRecord {
        from_id: from,
        to_id: to,
        rel_type: rel.to_string(),
        from_label: "Node".to_string(),
        to_label: "Node".to_string(),
        from_app_id: None,
        to_app_id: None,
        confidence: Some(conf.to_bits()),
    }
}

fn threshold(t: f32) -> Option<u32> {
    Some(t.to_bits())
}

#[test]
fn test_bfs_confidence_filter() {
    // 0→1 (high confidence), 1→2 (low confidence)
    let mut g = Graph::new();
    g.load_edges(vec![edge_conf(0, 1, "A", 0.9), edge_conf(1, 2, "B", 0.2)])
        .unwrap();

    // No filter: finds both
    let result = bfs_neighborhood(&g, 0, 5, TraversalDirection::Both, None);
    assert_eq!(result.neighbors.len(), 2);

    // Filter at 0.5: only finds node 1 (edge to 2 blocked)
    let result = bfs_neighborhood(&g, 0, 5, TraversalDirection::Both, threshold(0.5));
    assert_eq!(result.neighbors.len(), 1);
    assert_eq!(result.neighbors[0].node_id, 1);
}

#[test]
fn test_confidence_nan_passes_filter() {
    // An unloaded confidence should pass any threshold
    let mut g = Graph::new();
    g.load_edges(vec![edge(0, 1, "A")]).unwrap(); // edge() has no confidence

    let result = bfs_neighborhood(&g, 0, 5, TraversalDirection::Both, threshold(0.99));
    assert_eq!(result.neighbors.len(), 1);
}

#[test]
fn test_path_confidence_blocks() {
    // 0→1 (high), 1→2 (low): path 0→2 blocked at confidence 0.5
    let mut g = Graph::new();
    g.load_edges(vec![edge_conf(0, 1, "A", 0.9), edge_conf(1, 2, "B", 0.2)])
        .unwrap();

    // No filter: path exists
    let path = shortest_path(&g, 0, 2, 10, TraversalDirection::Both, None);
    assert!(path.is_some());

    // With filter: path blocked
    let path = shortest_path(&g, 0, 2, 10, TraversalDirection::Both, threshold(0.5));
    assert!(path.is_none());
}

#[test]
fn test_subgraph_confidence_filter() {
    // 0→1 (0.9), 1→2 (0.2), 0→3 (0.8)
    let mut g = Graph::new();
    g.load_edges(vec![
        edge_conf(0, 1, "A", 0.9),
        edge_conf(1, 2, "B", 0.2),
        edge_conf(0, 3, "C", 0.8),
    ])
    .unwrap();

    // No filter: 4 nodes, 3 edges
    let sub = extract_subgraph(&g, 0, 5, TraversalDirection::Both, None);
    assert_eq!(sub.node_count, 4);
    assert_eq!(sub.edges.len(), 3);

    // Filter at 0.5: BFS can't reach node 2 (edge 1→2 is 0.2), so 3 nodes, 2 edges
    let sub = extract_subgraph(&g, 0, 5, TraversalDirection::Both, threshold(0.5));
    assert_eq!(sub.node_count, 3); // 0, 1, 3
    assert_eq!(sub.edges.len(), 2); // 0→1, 0→3
}

#[test]
fn test_confidence_exact_threshold_passes() {
    // An edge exactly at the threshold passes (filter is >=)
    let mut g = Graph::new();
    g.load_edges(vec![edge_conf(0, 1, "A", 0.5)]).unwrap();
    let result = bfs_neighborhood(&g, 0, 5, TraversalDirection::Both, threshold(0.5));
    assert_eq!(result.neighbors.len(), 1);
}
