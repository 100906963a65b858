use graph_accel::{degree_centrality, extract_subgraph, EdgeRecord, Graph, TraversalDirection};

fn edge(from: u64, to: u64, rel: &str) -> EdgeRecord {
    EdgeRecord {
        from_id: from,
        to_id: to,
        rel_type: rel.to_string(),
        from_label: "Node".to_string(),
        to_label: "Node".to_string(),
        from_app_id: None,
        to_app_id: None,
        confidence: None,
    }
}

fn make_chain(n: u64) -> Graph {
    let mut g = Graph::new();
    let recs: Vec<EdgeRecord> = (0..n - 1).map(|i| edge(i, i + 1, "NEXT")).collect();
    g.load_edges(recs).unwrap();
    g
}

fn make_star(center: u64, leaves: u64) -> Graph {
    let mut g = Graph::new();
    let recs: Vec<EdgeRecord> = (1..=leaves)
        .map(|i| EdgeRecord {
            from_id: center,
            to_id: i,
            rel_type: "HAS".to_string(),
            from_label: "Hub".to_string(),
            to_label: "Leaf".to_string(),
            from_app_id: None,
            to_app_id: None,
            confidence: None,
        })
        .collect();
    g.load_edges(recs).unwrap();
    g
}

fn make_cycle(n: u64) -> Graph {
    let mut g = Graph::new();
    let recs: Vec<EdgeRecord> = (0..n).map(|i| edge(i, (i + 1) % n, "NEXT")).collect();
    g.load_edges(recs).unwrap();
    g
}

#[test]
fn test_subgraph_chain() {
    // Chain 0→1→2→3→4, depth 2 from 0: nodes 0,1,2 — edges 0→1, 1→2
    let g = make_chain(5);
    let sub = extract_subgraph(&g, 0, 2, TraversalDirection::Both, None);
    assert_eq!(sub.node_count, 3); // 0, 1, 2
    assert_eq!(sub.edges.len(), 2); // 0→1, 1→2
}

#[test]
fn test_subgraph_star() {
    // Hub 0 → 10 leaves, depth 1: 11 nodes, 10 edges
    let g = make_star(0, 10);
    let sub = extract_subgraph(&g, 0, 1, TraversalDirection::Both, None);
    assert_eq!(sub.node_count, 11);
    assert_eq!(sub.edges.len(), 10);
}

#[test]
fn test_subgraph_directed() {
    // Chain 0→1→2→3→4, outgoing from 2: reaches 3, 4
    let g = make_chain(5);
    let sub = extract_subgraph(&g, 2, 5, TraversalDirection::Outgoing, None);
    assert_eq!(sub.node_count, 3); // 2, 3, 4
    assert_eq!(sub.edges.len(), 2); // 2→3, 3→4
}

#[test]
fn test_subgraph_cycle() {
    // Cycle 0→1→2→3→4→0: all 5 nodes, exactly 5 edges (no duplicates)
    let g = make_cycle(5);
    let sub = extract_subgraph(&g, 0, 10, TraversalDirection::Both, None);
    assert_eq!(sub.node_count, 5);
    assert_eq!(sub.edges.len(), 5);
}

#[test]
fn test_subgraph_rel_types() {
    let mut g = Graph::new();
    g.load_edges(vec![edge(0, 1, "IMPLIES"), edge(1, 2, "SUPPORTS")])
        .unwrap();
    let sub = extract_subgraph(&g, 0, 5, TraversalDirection::Both, None);
    let types: Vec<&str> = sub.edges.iter().map(|e| e.rel_type.as_str()).collect();
    assert!(types.contains(&"IMPLIES"));
    assert!(types.contains(&"SUPPORTS"));
}

#[test]
fn test_subgraph_empty() {
    let g = make_chain(5);
    // Node 999 doesn't exist — should return empty
    let sub = extract_subgraph(&g, 999, 5, TraversalDirection::Both, None);
    assert_eq!(sub.node_count, 0);
    assert!(sub.edges.is_empty());
}

#[test]
fn test_subgraph_endpoints_within_reachable_set() {
    // Depth 1 from the middle of a chain: edges must stay inside {1, 2, 3}
    let g = make_chain(5);
    let sub = extract_subgraph(&g, 2, 1, TraversalDirection::Both, None);
    assert_eq!(sub.node_count, 3);
    for e in &sub.edges {
        assert!(e.from_id >= 1 && e.from_id <= 3);
        assert!(e.to_id >= 1 && e.to_id <= 3);
    }
    assert_eq!(sub.edges.len(), 2); // 1→2, 2→3
}

#[test]
fn test_degree_star() {
    // Hub 0 with 50 outgoing edges to leaves
    let g = make_star(0, 50);
    let results = degree_centrality(&g, 0);

    let hub = results.iter().find(|r| r.node_id == 0).unwrap();
    assert_eq!(hub.out_degree, 50);
    assert_eq!(hub.in_degree, 0);
    assert_eq!(hub.total_degree, 50);

    // Each leaf has in_degree=1 (from hub), out_degree=0
    let leaf = results.iter().find(|r| r.node_id == 1).unwrap();
    assert_eq!(leaf.out_degree, 0);
    assert_eq!(leaf.in_degree, 1);
    assert_eq!(leaf.total_degree, 1);
}

#[test]
fn test_degree_chain() {
    // Chain 0→1→2→3→4
    let g = make_chain(5);
    let results = degree_centrality(&g, 0);

    // Endpoints: degree 1
    let node0 = results.iter().find(|r| r.node_id == 0).unwrap();
    assert_eq!(node0.out_degree, 1);
    assert_eq!(node0.in_degree, 0);
    assert_eq!(node0.total_degree, 1);

    let node4 = results.iter().find(|r| r.node_id == 4).unwrap();
    assert_eq!(node4.out_degree, 0);
    assert_eq!(node4.in_degree, 1);
    assert_eq!(node4.total_degree, 1);

    // Middle nodes: out=1, in=1, total=2
    let node2 = results.iter().find(|r| r.node_id == 2).unwrap();
    assert_eq!(node2.out_degree, 1);
    assert_eq!(node2.in_degree, 1);
    assert_eq!(node2.total_degree, 2);
}

#[test]
fn test_degree_top_n() {
    // Star with hub having highest degree
    let g = make_star(0, 50);
    let results = degree_centrality(&g, 5);
    assert_eq!(results.len(), 5);
    // Hub should be first
    assert_eq!(results[0].node_id, 0);
    assert_eq!(results[0].total_degree, 50);
}

#[test]
fn test_degree_sorted() {
    let g = make_star(0, 50);
    let results = degree_centrality(&g, 0);
    // Must be sorted descending by total_degree
    for w in results.windows(2) {
        assert!(
            w[0].total_degree >= w[1].total_degree,
            "not sorted: {} >= {} failed",
            w[0].total_degree,
            w[1].total_degree
        );
    }
}

#[test]
fn test_degree_empty() {
    let g = Graph::new();
    let results = degree_centrality(&g, 10);
    assert!(results.is_empty());
}

#[test]
fn test_degree_tie_break_by_node_id() {
    // All leaves of a star tie at total degree 1: ids ascend
    let g = make_star(0, 10);
    let results = degree_centrality(&g, 0);
    assert_eq!(results[0].node_id, 0);
    for i in 1..results.len() {
        assert_eq!(results[i].total_degree, 1);
        assert_eq!(results[i].node_id, i as u64);
    }
}

#[test]
fn test_degree_truncation_is_prefix() {
    let g = make_star(0, 20);
    let full = degree_centrality(&g, 0);
    let top = degree_centrality(&g, 7);
    assert_eq!(top.len(), 7);
    for i in 0..7 {
        assert_eq!(top[i].node_id, full[i].node_id);
        assert_eq!(top[i].total_degree, full[i].total_degree);
    }
}

#[test]
fn test_degree_top_n_zero_returns_all() {
    let g = make_chain(4);
    let results = degree_centrality(&g, 0);
    assert_eq!(results.len(), 4);
}
