use graph_accel::{EdgeRecord, Graph};

fn edge(from: u64, to: u64, rel: &str) -> EdgeRecord {
    EdgeRecord {
        from_id: from,
        to_id: to,
        rel_type: rel.to_string(),
        from_label: "Node".to_string(),
        to_label: "Node".to_string(),
        from_app_id: None,
        to_app_id: None,
        confidence: None,
    }
}

fn make_star(center: u64, leaves: u64) -> Graph {
    let mut g = Graph::new();
    let recs: Vec<EdgeRecord> = (1..=leaves)
        .map(|i| EdgeRecord {
            from_id: center,
            to_id: i,
            rel_type: "HAS".to_string(),
            from_label: "Hub".to_string(),
            to_label: "Leaf".to_string(),
            from_app_id: None,
            to_app_id: None,
            confidence: None,
        })
        .collect();
    g.load_edges(recs).unwrap();
    g
}

#[test]
fn test_app_id_resolution() {
    let mut g = Graph::new();
    g.add_node(42, "Concept".into(), Some("c_abc123".into()));
    assert_eq!(g.resolve_app_id("c_abc123"), Some(42));
    assert_eq!(g.resolve_app_id("nonexistent"), None);
}

#[test]
fn test_graph_counts() {
    let g = make_star(0, 50);
    assert_eq!(g.node_count(), 51);
    assert_eq!(g.edge_count(), 50);
}

#[test]
fn test_rel_type_name_valid() {
    let mut g = Graph::new();
    let id = g.intern_rel_type("IMPLIES").unwrap();
    assert_eq!(g.rel_type_name(id), Some("IMPLIES"));
}

#[test]
fn test_rel_type_name_invalid() {
    let g = Graph::new();
    assert_eq!(g.rel_type_name(999), None);
}

#[test]
fn test_edge_record_loading() {
    let mut g = Graph::new();
    g.load_edges(vec![EdgeRecord {
        from_id: 1,
        to_id: 2,
        rel_type: "IMPLIES".to_string(),
        from_label: "Concept".to_string(),
        to_label: "Concept".to_string(),
        from_app_id: Some("c_1".to_string()),
        to_app_id: Some("c_2".to_string()),
        confidence: None,
    }])
    .unwrap();
    assert_eq!(g.node_count(), 2);
    assert_eq!(g.edge_count(), 1);
    assert_eq!(g.resolve_app_id("c_1"), Some(1));
    assert_eq!(g.resolve_app_id("c_2"), Some(2));
}

#[test]
fn test_memory_usage_nonzero() {
    let g = make_star(0, 100);
    assert!(g.memory_usage() > 0);
}

#[test]
fn test_intern_is_idempotent() {
    let mut g = Graph::new();
    let a = g.intern_rel_type("IMPLIES").unwrap();
    let b = g.intern_rel_type("SUPPORTS").unwrap();
    let a2 = g.intern_rel_type("IMPLIES").unwrap();
    assert_eq!(a, a2);
    assert_ne!(a, b);
    assert_eq!(g.rel_type_count(), 2);
}

#[test]
fn test_first_app_id_wins_on_load() {
    let mut g = Graph::new();
    let mut r1 = edge(1, 2, "A");
    r1.from_app_id = Some("shared".to_string());
    let mut r2 = edge(3, 4, "A");
    r2.from_app_id = Some("shared".to_string());
    g.load_edges(vec![r1, r2]).unwrap();
    assert_eq!(g.resolve_app_id("shared"), Some(1));
}

#[test]
fn test_first_label_wins_on_load() {
    let mut g = Graph::new();
    let mut r1 = edge(1, 2, "A");
    r1.from_label = "First".to_string();
    let mut r2 = edge(1, 3, "A");
    r2.from_label = "Second".to_string();
    g.load_edges(vec![r1, r2]).unwrap();
    assert_eq!(g.node(1).unwrap().label, "First");
}

#[test]
fn test_add_node_overwrites_metadata() {
    let mut g = Graph::new();
    g.add_node(7, "Old".into(), Some("old_id".into()));
    g.add_node(7, "New".into(), None);
    assert_eq!(g.node(7).unwrap().label, "New");
    assert_eq!(g.node(7).unwrap().app_id, None);
    // the index keeps the earlier registration
    assert_eq!(g.resolve_app_id("old_id"), Some(7));
    assert_eq!(g.node_count(), 1);
}

#[test]
fn test_neighbors_of_unknown_node_empty() {
    let g = Graph::new();
    assert!(g.neighbors_out(5).is_empty());
    assert!(g.neighbors_in(5).is_empty());
    assert!(g.neighbors_all(5).is_empty());
}

#[test]
fn test_neighbors_all_order() {
    let mut g = Graph::new();
    let rt = g.intern_rel_type("R").unwrap();
    g.add_edge(1, 2, rt, None);
    g.add_edge(3, 1, rt, None);
    let all = g.neighbors_all(1);
    assert_eq!(all.len(), 2);
    // outgoing entry first (target 2), then the mirrored incoming entry
    // (recording the other endpoint 3)
    assert_eq!(all[0].target, 2);
    assert_eq!(all[1].target, 3);
}

#[test]
fn test_with_capacity_starts_empty() {
    let g = Graph::with_capacity(100, 400);
    assert_eq!(g.node_count(), 0);
    assert_eq!(g.edge_count(), 0);
    assert_eq!(g.rel_type_count(), 0);
}

#[test]
fn test_default_is_empty() {
    let g = Graph::default();
    assert_eq!(g.node_count(), 0);
    assert_eq!(g.edge_count(), 0);
}

#[test]
fn test_memory_usage_grows_with_content() {
    let empty = Graph::new();
    let small = make_star(0, 10);
    let large = make_star(0, 100);
    assert!(empty.memory_usage() < small.memory_usage());
    assert!(small.memory_usage() < large.memory_usage());
}
