use graph_accel::{shortest_path, Direction, EdgeRecord, Graph, TraversalDirection};

fn edge(from: u64, to: u64, rel: &str) -> EdgeRecord {
    EdgeRecord {
        from_id: from,
        to_id: to,
        rel_type: rel.to_string(),
        from_label: "Node".to_string(),
        to_label: "Node".to_string(),
        from_app_id: None,
        to_app_id: None,
        confidence: None,
    }
}

fn make_chain(n: u64) -> Graph {
    let mut g = Graph::new();
    let recs: Vec<EdgeRecord> = (0..n - 1).map(|i| edge(i, i + 1, "NEXT")).collect();
    g.load_edges(recs).unwrap();
    g
}

fn make_cycle(n: u64) -> Graph {
    let mut g = Graph::new();
    let recs: Vec<EdgeRecord> = (0..n).map(|i| edge(i, (i + 1) % n, "NEXT")).collect();
    g.load_edges(recs).unwrap();
    g
}

#[test]
fn test_shortest_path_chain() {
    let g = make_chain(6);
    let path = shortest_path(&g, 0, 5, 10, TraversalDirection::Both, None).unwrap();
    assert_eq!(path.len(), 6);
    assert_eq!(path[0].node_id, 0);
    assert_eq!(path[5].node_id, 5);
    assert!(path[0].rel_type.is_none());
    assert_eq!(path[1].rel_type.as_deref(), Some("NEXT"));
}

#[test]
fn test_shortest_path_self() {
    let g = make_chain(3);
    let path = shortest_path(&g, 1, 1, 10, TraversalDirection::Both, None).unwrap();
    assert_eq!(path.len(), 1);
    assert_eq!(path[0].node_id, 1);
}

#[test]
fn test_shortest_path_no_path() {
    let mut g = Graph::new();
    g.add_node(0, "A".into(), None);
    g.add_node(1, "B".into(), None);
    let path = shortest_path(&g, 0, 1, 10, TraversalDirection::Both, None);
    assert!(path.is_none());
}

#[test]
fn test_shortest_path_max_hops() {
    let g = make_chain(10);
    let path = shortest_path(&g, 0, 9, 5, TraversalDirection::Both, None);
    assert!(path.is_none());
}

#[test]
fn test_shortest_path_max_hops_zero() {
    let g = make_chain(3);
    // max_hops=0 means no traversal allowed
    let path = shortest_path(&g, 0, 1, 0, TraversalDirection::Both, None);
    assert!(path.is_none());
    // But start==target should still work even with max_hops=0
    let path = shortest_path(&g, 0, 0, 0, TraversalDirection::Both, None);
    assert!(path.is_some());
    assert_eq!(path.unwrap().len(), 1);
}

#[test]
fn test_shortest_path_cycle() {
    let g = make_cycle(6);
    let path = shortest_path(&g, 0, 3, 10, TraversalDirection::Both, None).unwrap();
    assert_eq!(path.len(), 4);
}

#[test]
fn test_shortest_path_start_not_in_graph() {
    let g = make_chain(3);
    assert!(shortest_path(&g, 999, 0, 10, TraversalDirection::Both, None).is_none());
}

#[test]
fn test_shortest_path_target_not_in_graph() {
    let g = make_chain(3);
    assert!(shortest_path(&g, 0, 999, 10, TraversalDirection::Both, None).is_none());
}

#[test]
fn test_path_direction_forward() {
    // Chain 0→1→2, path from 0 to 2: both outgoing
    let g = make_chain(3);
    let path = shortest_path(&g, 0, 2, 10, TraversalDirection::Both, None).unwrap();
    assert_eq!(path.len(), 3);
    assert_eq!(path[0].direction, None); // start node
    assert_eq!(path[1].direction, Some(Direction::Outgoing));
    assert_eq!(path[2].direction, Some(Direction::Outgoing));
}

#[test]
fn test_path_direction_reverse() {
    // Chain 0→1→2, path from 2 to 0: both incoming
    let g = make_chain(3);
    let path = shortest_path(&g, 2, 0, 10, TraversalDirection::Both, None).unwrap();
    assert_eq!(path.len(), 3);
    assert_eq!(path[0].direction, None); // start node
    assert_eq!(path[1].direction, Some(Direction::Incoming));
    assert_eq!(path[2].direction, Some(Direction::Incoming));
}

#[test]
fn test_path_direction_mixed() {
    // 0→1←2, path from 0 to 2: first outgoing, second incoming
    let mut g = Graph::new();
    g.load_edges(vec![edge(0, 1, "A"), edge(2, 1, "B")]).unwrap();
    let path = shortest_path(&g, 0, 2, 10, TraversalDirection::Both, None).unwrap();
    assert_eq!(path.len(), 3);
    assert_eq!(path[0].direction, None);
    assert_eq!(path[1].direction, Some(Direction::Outgoing)); // 0→1
    assert_eq!(path[2].direction, Some(Direction::Incoming)); // 1←2
}

#[test]
fn test_path_direction_self() {
    // start == target: single step, no direction
    let g = make_chain(3);
    let path = shortest_path(&g, 1, 1, 10, TraversalDirection::Both, None).unwrap();
    assert_eq!(path.len(), 1);
    assert_eq!(path[0].direction, None);
}

#[test]
fn test_path_directed_outgoing() {
    // Chain 0→1→2: outgoing path 0→2 works, reverse 2→0 returns None
    let g = make_chain(3);
    let path = shortest_path(&g, 0, 2, 10, TraversalDirection::Outgoing, None);
    assert!(path.is_some());
    assert_eq!(path.unwrap().len(), 3);

    let path = shortest_path(&g, 2, 0, 10, TraversalDirection::Outgoing, None);
    assert!(path.is_none());
}

#[test]
fn test_path_directed_incoming() {
    // Chain 0→1→2: incoming path 2→0 works, forward 0→2 returns None
    let g = make_chain(3);
    let path = shortest_path(&g, 2, 0, 10, TraversalDirection::Incoming, None);
    assert!(path.is_some());
    assert_eq!(path.unwrap().len(), 3);

    let path = shortest_path(&g, 0, 2, 10, TraversalDirection::Incoming, None);
    assert!(path.is_none());
}

#[test]
fn test_path_steps_carry_labels() {
    let mut g = Graph::new();
    let rt = g.intern_rel_type("NEXT").unwrap();
    g.add_node(0, "Alpha".into(), Some("a".into()));
    g.add_node(1, "Beta".into(), None);
    g.add_edge(0, 1, rt, None);
    let path = shortest_path(&g, 0, 1, 10, TraversalDirection::Both, None).unwrap();
    assert_eq!(path[0].label, "Alpha");
    assert_eq!(path[0].app_id.as_deref(), Some("a"));
    assert_eq!(path[1].label, "Beta");
    assert_eq!(path[1].app_id, None);
}
