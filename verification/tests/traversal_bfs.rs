use graph_accel::{bfs_neighborhood, Direction, EdgeRecord, Graph, TraversalDirection};

fn edge(from: u64, to: u64, rel: &str) -> EdgeRecord {
    EdgeRecord {
        from_id: from,
        to_id: to,
        rel_type: rel.to_string(),
        from_label: "Node".to_string(),
        to_label: "Node".to_string(),
        from_app_id: None,
        to_app_id: None,
        confidence: None,
    }
}

fn make_chain(n: u64) -> Graph {
    let mut g = Graph::new();
    let recs: Vec<EdgeRecord> = (0..n - 1).map(|i| edge(i, i + 1, "NEXT")).collect();
    g.load_edges(recs).unwrap();
    g
}

fn make_star(center: u64, leaves: u64) -> Graph {
    let mut g = Graph::new();
    let recs: Vec<EdgeRecord> = (1..=leaves)
        .map(|i| EdgeRecord {
            from_id: center,
            to_id: i,
            rel_type: "HAS".to_string(),
            from_label: "Hub".to_string(),
            to_label: "Leaf".to_string(),
            from_app_id: None,
            to_app_id: None,
            confidence: None,
        })
        .collect();
    g.load_edges(recs).unwrap();
    g
}

fn make_cycle(n: u64) -> Graph {
    let mut g = Graph::new();
    let recs: Vec<EdgeRecord> = (0..n).map(|i| edge(i, (i + 1) % n, "NEXT")).collect();
    g.load_edges(recs).unwrap();
    g
}

#[test]
fn test_bfs_chain() {
    let g = make_chain(6);
    let result = bfs_neighborhood(&g, 0, 10, TraversalDirection::Both, None);
    assert_eq!(result.neighbors.len(), 5);
    let node5 = result.neighbors.iter().find(|n| n.node_id == 5).unwrap();
    assert_eq!(node5.distance, 5);
}

#[test]
fn test_bfs_chain_depth_limited() {
    let g = make_chain(10);
    let result = bfs_neighborhood(&g, 0, 3, TraversalDirection::Both, None);
    assert_eq!(result.neighbors.len(), 3);
    assert!(result.neighbors.iter().all(|n| n.distance <= 3));
}

#[test]
fn test_bfs_star() {
    let g = make_star(0, 100);
    let result = bfs_neighborhood(&g, 0, 1, TraversalDirection::Both, None);
    assert_eq!(result.neighbors.len(), 100);
    assert!(result.neighbors.iter().all(|n| n.distance == 1));
}

#[test]
fn test_bfs_cycle_no_infinite_loop() {
    let g = make_cycle(5);
    let result = bfs_neighborhood(&g, 0, 100, TraversalDirection::Both, None);
    assert_eq!(result.neighbors.len(), 4);
}

#[test]
fn test_bfs_undirected() {
    let g = make_chain(2);
    let result = bfs_neighborhood(&g, 1, 1, TraversalDirection::Both, None);
    assert_eq!(result.neighbors.len(), 1);
    assert_eq!(result.neighbors[0].node_id, 0);
}

#[test]
fn test_bfs_empty_graph() {
    let g = Graph::new();
    let result = bfs_neighborhood(&g, 0, 10, TraversalDirection::Both, None);
    assert_eq!(result.neighbors.len(), 0);
    assert_eq!(result.nodes_visited, 0);
}

#[test]
fn test_bfs_start_not_in_graph() {
    let g = make_chain(3);
    let result = bfs_neighborhood(&g, 999, 10, TraversalDirection::Both, None);
    assert_eq!(result.neighbors.len(), 0);
    assert_eq!(result.nodes_visited, 0);
}

#[test]
fn test_bfs_depth_zero() {
    let g = make_chain(5);
    let result = bfs_neighborhood(&g, 0, 0, TraversalDirection::Both, None);
    // Depth 0 = only start node, no neighbors
    assert_eq!(result.neighbors.len(), 0);
    assert_eq!(result.nodes_visited, 1);
}

#[test]
fn test_bfs_self_loop() {
    let mut g = Graph::new();
    g.load_edges(vec![edge(0, 0, "SELF")]).unwrap();
    let result = bfs_neighborhood(&g, 0, 5, TraversalDirection::Both, None);
    // Self-loop: node 0 is already visited as start, so no neighbors
    assert_eq!(result.neighbors.len(), 0);
}

#[test]
fn test_bfs_parallel_edges() {
    let mut g = Graph::new();
    g.load_edges(vec![
        edge(0, 1, "IMPLIES"),
        edge(0, 1, "SUPPORTS"),
        edge(0, 1, "CONTRADICTS"),
    ])
    .unwrap();
    let result = bfs_neighborhood(&g, 0, 1, TraversalDirection::Both, None);
    // Should find node 1 once (at distance 1) despite 3 parallel edges
    assert_eq!(result.neighbors.len(), 1);
    assert_eq!(result.neighbors[0].distance, 1);
}

#[test]
fn test_path_types_recorded() {
    let mut g = Graph::new();
    let implies = g.intern_rel_type("IMPLIES").unwrap();
    let supports = g.intern_rel_type("SUPPORTS").unwrap();
    g.add_node(0, "A".into(), None);
    g.add_node(1, "B".into(), None);
    g.add_node(2, "C".into(), None);
    g.add_edge(0, 1, implies, None);
    g.add_edge(1, 2, supports, None);

    let result = bfs_neighborhood(&g, 0, 5, TraversalDirection::Both, None);
    let node2 = result.neighbors.iter().find(|n| n.node_id == 2).unwrap();
    assert_eq!(node2.path_types, vec!["IMPLIES", "SUPPORTS"]);
}

#[test]
fn test_bfs_direction_outgoing() {
    // Chain 0→1→2, BFS from 0: both edges followed in their stored direction
    let g = make_chain(3);
    let result = bfs_neighborhood(&g, 0, 5, TraversalDirection::Both, None);
    let node2 = result.neighbors.iter().find(|n| n.node_id == 2).unwrap();
    assert_eq!(
        node2.path_directions,
        vec![Direction::Outgoing, Direction::Outgoing]
    );
}

#[test]
fn test_bfs_direction_incoming() {
    // Chain 0→1→2, BFS from 2: both edges followed against their stored direction
    let g = make_chain(3);
    let result = bfs_neighborhood(&g, 2, 5, TraversalDirection::Both, None);
    let node0 = result.neighbors.iter().find(|n| n.node_id == 0).unwrap();
    assert_eq!(
        node0.path_directions,
        vec![Direction::Incoming, Direction::Incoming]
    );
}

#[test]
fn test_bfs_direction_mixed() {
    // 0→1←2: from node 0, reach 1 via outgoing, reach 2 via 1's incoming list
    let mut g = Graph::new();
    g.load_edges(vec![edge(0, 1, "A"), edge(2, 1, "B")]).unwrap();
    let result = bfs_neighborhood(&g, 0, 5, TraversalDirection::Both, None);

    let node1 = result.neighbors.iter().find(|n| n.node_id == 1).unwrap();
    assert_eq!(node1.path_directions, vec![Direction::Outgoing]);

    let node2 = result.neighbors.iter().find(|n| n.node_id == 2).unwrap();
    assert_eq!(node2.distance, 2);
    // 0→1 (outgoing), then 1←2 means 2→1 stored, so from 1's perspective
    // node 2 is in 1's incoming list (2→1), traversed as Incoming from 1 to reach 2
    assert_eq!(node2.path_directions.len(), 2);
    assert_eq!(node2.path_directions[0], Direction::Outgoing); // 0→1
    assert_eq!(node2.path_directions[1], Direction::Incoming); // 1←2 (followed backward)
}

#[test]
fn test_bfs_direction_parallel_to_path_types() {
    // Verify path_types and path_directions are always the same length
    let mut g = Graph::new();
    g.load_edges(vec![edge(0, 1, "IMPLIES"), edge(1, 2, "SUPPORTS")])
        .unwrap();
    let result = bfs_neighborhood(&g, 0, 5, TraversalDirection::Both, None);
    for n in &result.neighbors {
        assert_eq!(
            n.path_types.len(),
            n.path_directions.len(),
            "path_types and path_directions must be parallel for node {}",
            n.node_id
        );
    }
}

#[test]
fn test_direction_symmetric() {
    // Edge 0→1: from 0's perspective it's Outgoing, from 1's perspective it's Incoming
    let mut g = Graph::new();
    g.load_edges(vec![edge(0, 1, "SUPPORTS")]).unwrap();

    let from_0 = bfs_neighborhood(&g, 0, 1, TraversalDirection::Both, None);
    let n1 = from_0.neighbors.iter().find(|n| n.node_id == 1).unwrap();
    assert_eq!(n1.path_directions, vec![Direction::Outgoing]);

    let from_1 = bfs_neighborhood(&g, 1, 1, TraversalDirection::Both, None);
    let n0 = from_1.neighbors.iter().find(|n| n.node_id == 0).unwrap();
    assert_eq!(n0.path_directions, vec![Direction::Incoming]);
}

#[test]
fn test_bfs_outgoing_only() {
    // Chain 0→1→2: outgoing-only from 0 finds 1 and 2
    let g = make_chain(3);
    let result = bfs_neighborhood(&g, 0, 5, TraversalDirection::Outgoing, None);
    assert_eq!(result.neighbors.len(), 2);
    assert!(result.neighbors.iter().any(|n| n.node_id == 1));
    assert!(result.neighbors.iter().any(|n| n.node_id == 2));

    // From 2, outgoing-only finds nothing (no outgoing edges from 2)
    let result = bfs_neighborhood(&g, 2, 5, TraversalDirection::Outgoing, None);
    assert_eq!(result.neighbors.len(), 0);
}

#[test]
fn test_bfs_incoming_only() {
    // Chain 0→1→2: incoming-only from 2 finds 1 and 0
    let g = make_chain(3);
    let result = bfs_neighborhood(&g, 2, 5, TraversalDirection::Incoming, None);
    assert_eq!(result.neighbors.len(), 2);
    assert!(result.neighbors.iter().any(|n| n.node_id == 0));
    assert!(result.neighbors.iter().any(|n| n.node_id == 1));

    // From 0, incoming-only finds nothing (no incoming edges to 0)
    let result = bfs_neighborhood(&g, 0, 5, TraversalDirection::Incoming, None);
    assert_eq!(result.neighbors.len(), 0);
}

#[test]
fn test_star_directed() {
    // Hub 0 with outgoing edges to 50 leaves
    let g = make_star(0, 50);

    // Outgoing from hub: finds all 50 leaves
    let result = bfs_neighborhood(&g, 0, 1, TraversalDirection::Outgoing, None);
    assert_eq!(result.neighbors.len(), 50);

    // Incoming from hub: finds nothing (all edges point away from hub)
    let result = bfs_neighborhood(&g, 0, 1, TraversalDirection::Incoming, None);
    assert_eq!(result.neighbors.len(), 0);

    // Outgoing from leaf: finds nothing (leaves have no outgoing edges)
    let result = bfs_neighborhood(&g, 1, 1, TraversalDirection::Outgoing, None);
    assert_eq!(result.neighbors.len(), 0);

    // Incoming from leaf: finds hub
    let result = bfs_neighborhood(&g, 1, 1, TraversalDirection::Incoming, None);
    assert_eq!(result.neighbors.len(), 1);
    assert_eq!(result.neighbors[0].node_id, 0);
}

#[test]
fn test_directed_both_matches_undirected() {
    // Both should give same results as the undirected tests
    let g = make_chain(6);
    let both = bfs_neighborhood(&g, 0, 10, TraversalDirection::Both, None);
    assert_eq!(both.neighbors.len(), 5);

    // Outgoing + Incoming from same start should cover all Both neighbors
    let out = bfs_neighborhood(&g, 0, 10, TraversalDirection::Outgoing, None);
    let inc = bfs_neighborhood(&g, 0, 10, TraversalDirection::Incoming, None);
    let mut union: Vec<u64> = out
        .neighbors
        .iter()
        .chain(inc.neighbors.iter())
        .map(|n| n.node_id)
        .collect();
    union.sort();
    union.dedup();
    let mut both_ids: Vec<u64> = both.neighbors.iter().map(|n| n.node_id).collect();
    both_ids.sort();
    assert_eq!(union, both_ids);
}

#[test]
fn test_two_phase_loading_bfs() {
    // Load vertices first, then edges, as the host loader does
    let mut g = Graph::new();

    g.add_node(100, "Concept".into(), Some("concept_a".into()));
    g.add_node(200, "Concept".into(), Some("concept_b".into()));
    g.add_node(300, "Concept".into(), Some("concept_c".into()));

    let rt = g.intern_rel_type("SUBSUMES").unwrap();
    g.add_edge(100, 200, rt, None);
    g.add_edge(100, 300, rt, None);

    // Verify degree sees edges
    assert_eq!(g.neighbors_out(100).len(), 2);
    assert_eq!(g.neighbors_in(200).len(), 1);

    // Verify BFS finds neighbors
    let result = bfs_neighborhood(&g, 100, 2, TraversalDirection::Both, None);
    assert_eq!(
        result.neighbors.len(),
        2,
        "BFS should find 2 neighbors from node 100, found {}",
        result.neighbors.len()
    );
}

#[test]
fn test_two_phase_loading_app_id_resolution() {
    let mut g = Graph::new();

    g.add_node(100, "Concept".into(), Some("concept_a".into()));
    g.add_node(200, "Concept".into(), Some("concept_b".into()));

    let rt = g.intern_rel_type("SUBSUMES").unwrap();
    g.add_edge(100, 200, rt, None);

    let resolved = g.resolve_app_id("concept_a").unwrap();
    assert_eq!(resolved, 100);

    let result = bfs_neighborhood(&g, resolved, 1, TraversalDirection::Both, None);
    assert_eq!(result.neighbors.len(), 1);
    assert_eq!(result.neighbors[0].node_id, 200);
}

#[test]
fn test_bfs_counts_start_in_visited() {
    let g = make_chain(4);
    let result = bfs_neighborhood(&g, 0, 10, TraversalDirection::Both, None);
    assert_eq!(result.nodes_visited, result.neighbors.len() + 1);
    assert_eq!(result.nodes_visited, 4);
}
