//! Concrete end-to-end scenarios over the traversal engine.

use graph_accel::{
    bfs_neighborhood, k_shortest_paths, shortest_path, EdgeRecord, Graph, TraversalDirection,
};

fn edge(from: u64, to: u64, rel: &str) -> EdgeRecord {
    EdgeRecord {
        from_id: from,
        to_id: to,
        rel_type: rel.to_string(),
        from_label: "Node".to_string(),
        to_label: "Node".to_string(),
        from_app_id: None,
        to_app_id: None,
        confidence: None,
    }
}

fn edge_conf(from: u64, to: u64, rel: &str, conf: f32) -> EdgeRecord {
    EdgeRecord {
        confidence: Some(conf.to_bits()),
        ..edge(from, to, rel)
    }
}

#[test]
fn test_chain_six_bfs() {
    // nodes 0..5 with edges i→i+1
    let mut g = Graph::new();
    let recs: Vec<EdgeRecord> = (0..5).map(|i| edge(i, i + 1, "NEXT")).collect();
    g.load_edges(recs).unwrap();

    let result = bfs_neighborhood(&g, 0, 10, TraversalDirection::Both, None);
    assert_eq!(result.neighbors.len(), 5);
    let node5 = result.neighbors.iter().find(|n| n.node_id == 5).unwrap();
    assert_eq!(node5.distance, 5);

    let limited = bfs_neighborhood(&g, 0, 3, TraversalDirection::Both, None);
    assert_eq!(limited.neighbors.len(), 3);
}

#[test]
fn test_star_hundred() {
    // center 0, edges 0→i for i = 1..100
    let mut g = Graph::new();
    let recs: Vec<EdgeRecord> = (1..=100).map(|i| edge(0, i, "HAS")).collect();
    g.load_edges(recs).unwrap();

    let out = bfs_neighborhood(&g, 0, 1, TraversalDirection::Outgoing, None);
    assert_eq!(out.neighbors.len(), 100);

    let inc = bfs_neighborhood(&g, 0, 1, TraversalDirection::Incoming, None);
    assert_eq!(inc.neighbors.len(), 0);

    let leaf = bfs_neighborhood(&g, 1, 1, TraversalDirection::Incoming, None);
    assert_eq!(leaf.neighbors.len(), 1);
    assert_eq!(leaf.neighbors[0].node_id, 0);
}

#[test]
fn test_cycle_five() {
    // edges (i, (i+1) % 5): a deep bound terminates and finds 4 neighbors
    let mut g = Graph::new();
    let recs: Vec<EdgeRecord> = (0..5).map(|i| edge(i, (i + 1) % 5, "NEXT")).collect();
    g.load_edges(recs).unwrap();

    let result = bfs_neighborhood(&g, 0, 100, TraversalDirection::Both, None);
    assert_eq!(result.neighbors.len(), 4);
}

#[test]
fn test_diamond_two_shortest() {
    // 0→1→3 and 0→2→3
    let mut g = Graph::new();
    g.load_edges(vec![
        edge(0, 1, "A"),
        edge(1, 3, "A"),
        edge(0, 2, "B"),
        edge(2, 3, "B"),
    ])
    .unwrap();

    let paths = k_shortest_paths(&g, 0, 3, 10, 5, TraversalDirection::Both, None);
    assert_eq!(paths.len(), 2);
    let mut middles: Vec<u64> = paths.iter().map(|p| p[1].node_id).collect();
    middles.sort();
    assert_eq!(middles, vec![1, 2]);
    for p in &paths {
        assert_eq!(p.len(), 3);
    }
}

#[test]
fn test_confidence_filtered_path() {
    // edges 0→1 at 0.9 and 1→2 at 0.2: a 0.5 filter blocks the path
    let mut g = Graph::new();
    g.load_edges(vec![edge_conf(0, 1, "A", 0.9), edge_conf(1, 2, "B", 0.2)])
        .unwrap();

    let blocked = shortest_path(
        &g,
        0,
        2,
        10,
        TraversalDirection::Both,
        Some((0.5f32).to_bits()),
    );
    assert!(blocked.is_none());

    let open = shortest_path(&g, 0, 2, 10, TraversalDirection::Both, None).unwrap();
    assert_eq!(open.len(), 3);
}

#[test]
fn test_parallel_edges_leave_counts_unchanged() {
    // a second and third copy of an existing edge changes no BFS count
    let mut g = Graph::new();
    g.load_edges(vec![edge(0, 1, "A"), edge(1, 2, "B")]).unwrap();
    let before = bfs_neighborhood(&g, 0, 10, TraversalDirection::Both, None);

    let rt = g.intern_rel_type("OTHER").unwrap();
    g.add_edge(0, 1, rt, None);
    g.add_edge(1, 2, rt, Some((0.25f32).to_bits()));
    let after = bfs_neighborhood(&g, 0, 10, TraversalDirection::Both, None);

    assert_eq!(before.neighbors.len(), after.neighbors.len());
    assert_eq!(before.nodes_visited, after.nodes_visited);
}

#[test]
fn test_duality_of_out_and_in_neighborhoods() {
    // v in out-neighborhood of u exactly when u in in-neighborhood of v
    let mut g = Graph::new();
    g.load_edges(vec![edge(0, 1, "A"), edge(1, 2, "B"), edge(3, 1, "C")])
        .unwrap();
    for u in 0..4u64 {
        for v in 0..4u64 {
            if u == v {
                continue;
            }
            let out_u = bfs_neighborhood(&g, u, 4, TraversalDirection::Outgoing, None);
            let in_v = bfs_neighborhood(&g, v, 4, TraversalDirection::Incoming, None);
            let v_in_out = out_u.neighbors.iter().any(|n| n.node_id == v);
            let u_in_in = in_v.neighbors.iter().any(|n| n.node_id == u);
            assert_eq!(v_in_out, u_in_in, "duality failed for {} and {}", u, v);
        }
    }
}

#[test]
fn test_both_contains_directed_union() {
    // union of one-sided neighborhoods is inside the undirected one, and
    // a mixed graph shows the containment can be strict
    let mut g = Graph::new();
    g.load_edges(vec![edge(0, 1, "A"), edge(2, 1, "B")]).unwrap();

    let both = bfs_neighborhood(&g, 0, 5, TraversalDirection::Both, None);
    let out = bfs_neighborhood(&g, 0, 5, TraversalDirection::Outgoing, None);
    let inc = bfs_neighborhood(&g, 0, 5, TraversalDirection::Incoming, None);

    let both_ids: Vec<u64> = both.neighbors.iter().map(|n| n.node_id).collect();
    for n in out.neighbors.iter().chain(inc.neighbors.iter()) {
        assert!(both_ids.contains(&n.node_id));
    }
    // node 2 needs a forward then a backward step: only `Both` finds it
    assert!(both_ids.contains(&2));
    assert!(!out.neighbors.iter().any(|n| n.node_id == 2));
    assert!(!inc.neighbors.iter().any(|n| n.node_id == 2));
}
