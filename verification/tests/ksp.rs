use graph_accel::{k_shortest_paths, EdgeRecord, Graph, TraversalDirection};
use std::collections::HashSet;

fn edge(from: u64, to: u64, rel: &str) -> EdgeRecord {
    EdgeRecord {
        from_id: from,
        to_id: to,
        rel_type: rel.to_string(),
        from_label: "Node".to_string(),
        to_label: "Node".to_string(),
        from_app_id: None,
        to_app_id: None,
        confidence: None,
    }
}

fn edge_conf(from: u64, to: u64, rel: &str, conf: f32) -> EdgeRecord {
    EdgeRecord {
        from_id: from,
        to_id: to,
        rel_type: rel.to_string(),
        from_label: "Node".to_string(),
        to_label: "Node".to_string(),
        from_app_id: None,
        to_app_id: None,
        confidence: Some(conf.to_bits()),
    }
}

fn make_chain(n: u64) -> Graph {
    let mut g = Graph::new();
    let recs: Vec<EdgeRecord> = (0..n - 1).map(|i| edge(i, i + 1, "NEXT")).collect();
    g.load_edges(recs).unwrap();
    g
}

fn make_cycle(n: u64) -> Graph {
    let mut g = Graph::new();
    let recs: Vec<EdgeRecord> = (0..n).map(|i| edge(i, (i + 1) % n, "NEXT")).collect();
    g.load_edges(recs).unwrap();
    g
}

/// Diamond graph: two distinct 2-hop paths from 0 to 3.
///   0→1→3  (via IMPLIES)
///   0→2→3  (via SUPPORTS)
fn make_diamond() -> Graph {
    let mut g = Graph::new();
    g.load_edges(vec![
        edge(0, 1, "IMPLIES"),
        edge(1, 3, "IMPLIES"),
        edge(0, 2, "SUPPORTS"),
        edge(2, 3, "SUPPORTS"),
    ])
    .unwrap();
    g
}

/// Grid-like graph with multiple paths of different lengths.
fn make_grid() -> Graph {
    let mut g = Graph::new();
    g.load_edges(vec![
        edge(0, 1, "A"),
        edge(1, 2, "A"),
        edge(2, 5, "A"),
        edge(0, 3, "B"),
        edge(3, 4, "B"),
        edge(4, 5, "B"),
        edge(1, 4, "C"), // cross-edge
        edge(3, 2, "C"), // cross-edge
    ])
    .unwrap();
    g
}

#[test]
fn test_ksp_single_path_same_as_shortest() {
    let g = make_chain(5); // 0→1→2→3→4
    let paths = k_shortest_paths(&g, 0, 4, 10, 1, TraversalDirection::Both, None);
    assert_eq!(paths.len(), 1);
    let ids: Vec<u64> = paths[0].iter().map(|s| s.node_id).collect();
    assert_eq!(ids, vec![0, 1, 2, 3, 4]);
}

#[test]
fn test_ksp_diamond_two_paths() {
    let g = make_diamond();
    let paths = k_shortest_paths(&g, 0, 3, 10, 5, TraversalDirection::Both, None);

    // Should find exactly 2 paths (both 2 hops)
    assert_eq!(paths.len(), 2);

    let path_ids: Vec<Vec<u64>> = paths
        .iter()
        .map(|p| p.iter().map(|s| s.node_id).collect())
        .collect();

    // Both paths should start at 0 and end at 3
    for ids in &path_ids {
        assert_eq!(ids[0], 0);
        assert_eq!(*ids.last().unwrap(), 3);
        assert_eq!(ids.len(), 3); // 2 hops = 3 steps
    }

    // Should find both routes: via 1 and via 2
    let middle_nodes: Vec<u64> = path_ids.iter().map(|p| p[1]).collect();
    assert!(middle_nodes.contains(&1));
    assert!(middle_nodes.contains(&2));
}

#[test]
fn test_ksp_grid_multiple_paths() {
    let g = make_grid();
    let paths = k_shortest_paths(&g, 0, 5, 10, 10, TraversalDirection::Both, None);

    // Grid has at least 4 distinct 3-hop paths from 0 to 5,
    // plus longer paths via cross-edges with undirected traversal
    assert!(paths.len() >= 4, "expected at least 4 paths, got {}", paths.len());

    // All paths start at 0, end at 5
    for path in &paths {
        assert_eq!(path.first().unwrap().node_id, 0);
        assert_eq!(path.last().unwrap().node_id, 5);
    }

    // Sorted by length (shortest first)
    for w in paths.windows(2) {
        assert!(w[0].len() <= w[1].len());
    }

    // All paths are distinct (no duplicate node sequences)
    let path_ids: Vec<Vec<u64>> = paths
        .iter()
        .map(|p| p.iter().map(|s| s.node_id).collect())
        .collect();
    for i in 0..path_ids.len() {
        for j in (i + 1)..path_ids.len() {
            assert_ne!(path_ids[i], path_ids[j], "duplicate paths at {} and {}", i, j);
        }
    }
}

#[test]
fn test_ksp_no_path() {
    // Disconnected graph: 0→1, 2→3 — no path from 0 to 3
    let mut g = Graph::new();
    g.load_edges(vec![edge(0, 1, "A"), edge(2, 3, "A")]).unwrap();

    let paths = k_shortest_paths(&g, 0, 3, 10, 5, TraversalDirection::Both, None);
    assert!(paths.is_empty());
}

#[test]
fn test_ksp_k_zero() {
    let g = make_diamond();
    let paths = k_shortest_paths(&g, 0, 3, 10, 0, TraversalDirection::Both, None);
    assert!(paths.is_empty());
}

#[test]
fn test_ksp_k_exceeds_available() {
    // Chain has exactly 1 simple path
    let g = make_chain(4); // 0→1→2→3
    let paths = k_shortest_paths(&g, 0, 3, 10, 10, TraversalDirection::Both, None);
    assert_eq!(paths.len(), 1);
}

#[test]
fn test_ksp_same_node() {
    let g = make_chain(3);
    let paths = k_shortest_paths(&g, 1, 1, 10, 5, TraversalDirection::Both, None);
    assert_eq!(paths.len(), 1);
    assert_eq!(paths[0].len(), 1);
    assert_eq!(paths[0][0].node_id, 1);
}

#[test]
fn test_ksp_max_hops_limits() {
    let g = make_diamond();
    // max_hops=1: can't reach node 3 (needs 2 hops)
    let paths = k_shortest_paths(&g, 0, 3, 1, 5, TraversalDirection::Both, None);
    assert!(paths.is_empty());

    // max_hops=2: both 2-hop paths found
    let paths = k_shortest_paths(&g, 0, 3, 2, 5, TraversalDirection::Both, None);
    assert_eq!(paths.len(), 2);
}

#[test]
fn test_ksp_directed_outgoing() {
    let g = make_diamond();
    // Outgoing only: both paths should still work (all edges are forward)
    let paths = k_shortest_paths(&g, 0, 3, 10, 5, TraversalDirection::Outgoing, None);
    assert_eq!(paths.len(), 2);

    // Reverse direction: no path from 3 to 0 via outgoing
    let paths = k_shortest_paths(&g, 3, 0, 10, 5, TraversalDirection::Outgoing, None);
    assert!(paths.is_empty());
}

#[test]
fn test_ksp_directed_incoming() {
    let g = make_diamond();
    // Incoming only from node 3 to 0: should find paths (traversing edges in reverse)
    let paths = k_shortest_paths(&g, 3, 0, 10, 5, TraversalDirection::Incoming, None);
    assert_eq!(paths.len(), 2);
}

#[test]
fn test_ksp_confidence_filter() {
    // Diamond with different confidences:
    //   0→1 (0.9), 1→3 (0.9) — high-confidence path
    //   0→2 (0.9), 2→3 (0.3) — low-confidence on second edge
    let mut g = Graph::new();
    g.load_edges(vec![
        edge_conf(0, 1, "A", 0.9),
        edge_conf(1, 3, "A", 0.9),
        edge_conf(0, 2, "B", 0.9),
        edge_conf(2, 3, "B", 0.3),
    ])
    .unwrap();

    // No filter: both paths
    let paths = k_shortest_paths(&g, 0, 3, 10, 5, TraversalDirection::Both, None);
    assert_eq!(paths.len(), 2);

    // Filter at 0.5: only the high-confidence path survives
    let paths = k_shortest_paths(
        &g,
        0,
        3,
        10,
        5,
        TraversalDirection::Both,
        Some((0.5f32).to_bits()),
    );
    assert_eq!(paths.len(), 1);
    let ids: Vec<u64> = paths[0].iter().map(|s| s.node_id).collect();
    assert_eq!(ids, vec![0, 1, 3]);
}

#[test]
fn test_ksp_paths_are_simple() {
    // Cycle graph: paths must not revisit nodes
    let g = make_cycle(6); // 0→1→2→3→4→5→0
    let paths = k_shortest_paths(&g, 0, 3, 10, 5, TraversalDirection::Both, None);

    for path in &paths {
        let ids: Vec<u64> = path.iter().map(|s| s.node_id).collect();
        let unique: HashSet<u64> = ids.iter().copied().collect();
        assert_eq!(ids.len(), unique.len(), "path has repeated nodes: {:?}", ids);
    }
}

#[test]
fn test_ksp_rel_types_preserved() {
    let g = make_diamond();
    let paths = k_shortest_paths(&g, 0, 3, 10, 2, TraversalDirection::Both, None);
    assert_eq!(paths.len(), 2);

    // Each path should have rel_type info on non-start nodes
    for path in &paths {
        assert!(path[0].rel_type.is_none()); // start node
        for step in &path[1..] {
            assert!(step.rel_type.is_some(), "missing rel_type on step {:?}", step);
        }
    }
}

#[test]
fn test_ksp_node_not_in_graph() {
    let g = make_chain(3);
    let paths = k_shortest_paths(&g, 0, 999, 10, 5, TraversalDirection::Both, None);
    assert!(paths.is_empty());

    let paths = k_shortest_paths(&g, 999, 0, 10, 5, TraversalDirection::Both, None);
    assert!(paths.is_empty());
}
