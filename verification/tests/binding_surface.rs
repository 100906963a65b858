use graph_accel::{
    check_non_negative, direction_str, exceeds_memory_limit, load_vertex_row, matches_filter,
    parse_direction, parse_node_id, resolve_node, Direction, Graph, TraversalDirection,
};

#[test]
fn test_parse_direction_accepted_spellings() {
    assert_eq!(parse_direction("outgoing"), Some(TraversalDirection::Outgoing));
    assert_eq!(parse_direction("out"), Some(TraversalDirection::Outgoing));
    assert_eq!(parse_direction("incoming"), Some(TraversalDirection::Incoming));
    assert_eq!(parse_direction("in"), Some(TraversalDirection::Incoming));
    assert_eq!(parse_direction("both"), Some(TraversalDirection::Both));
}

#[test]
fn test_parse_direction_case_insensitive() {
    assert_eq!(parse_direction("Outgoing"), Some(TraversalDirection::Outgoing));
    assert_eq!(parse_direction("OUT"), Some(TraversalDirection::Outgoing));
    assert_eq!(parse_direction("InComing"), Some(TraversalDirection::Incoming));
    assert_eq!(parse_direction("BOTH"), Some(TraversalDirection::Both));
}

#[test]
fn test_parse_direction_rejects_unknown() {
    assert_eq!(parse_direction(""), None);
    assert_eq!(parse_direction("sideways"), None);
    assert_eq!(parse_direction("outgoingg"), None);
    assert_eq!(parse_direction(" both"), None);
}

#[test]
fn test_direction_str_renders() {
    assert_eq!(direction_str(Direction::Outgoing), "outgoing");
    assert_eq!(direction_str(Direction::Incoming), "incoming");
}

#[test]
fn test_check_non_negative() {
    assert_eq!(check_non_negative(0), Some(0));
    assert_eq!(check_non_negative(17), Some(17));
    assert_eq!(check_non_negative(-1), None);
    assert_eq!(check_non_negative(i32::MIN), None);
}

#[test]
fn test_parse_node_id_plain() {
    assert_eq!(parse_node_id("0"), Some(0));
    assert_eq!(parse_node_id("42"), Some(42));
    assert_eq!(parse_node_id("18446744073709551615"), Some(u64::MAX));
}

#[test]
fn test_parse_node_id_plus_prefix() {
    assert_eq!(parse_node_id("+7"), Some(7));
}

#[test]
fn test_parse_node_id_rejects() {
    assert_eq!(parse_node_id(""), None);
    assert_eq!(parse_node_id("+"), None);
    assert_eq!(parse_node_id("-1"), None);
    assert_eq!(parse_node_id("12x"), None);
    assert_eq!(parse_node_id(" 12"), None);
    // one past u64::MAX overflows
    assert_eq!(parse_node_id("18446744073709551616"), None);
}

#[test]
fn test_resolve_node_app_id_first() {
    let mut g = Graph::new();
    // app id "7" maps to node 1, while node 7 also exists: the index wins
    g.add_node(1, "A".into(), Some("7".into()));
    g.add_node(7, "B".into(), None);
    assert_eq!(resolve_node(&g, "7"), Some(1));
}

#[test]
fn test_resolve_node_numeric_fallback() {
    let mut g = Graph::new();
    g.add_node(7, "B".into(), None);
    assert_eq!(resolve_node(&g, "7"), Some(7));
    assert_eq!(resolve_node(&g, "8"), None);
    assert_eq!(resolve_node(&g, "missing"), None);
}

#[test]
fn test_load_vertex_row_extracts_app_id() {
    let mut g = Graph::new();
    let loaded = load_vertex_row(
        &mut g,
        "42",
        Some("{\"concept_id\": \"c_abc\", \"other\": 3}"),
        "Concept",
        Some("concept_id"),
    );
    assert!(loaded);
    assert_eq!(g.node_count(), 1);
    assert_eq!(g.node(42).unwrap().label, "Concept");
    // fails if the extractor handed back anything but the field's value
    assert_eq!(g.resolve_app_id("c_abc"), Some(42));
    assert_eq!(g.node(42).unwrap().app_id.as_deref(), Some("c_abc"));
}

#[test]
fn test_load_vertex_row_without_property() {
    let mut g = Graph::new();
    // no configured property: no app id indexed
    assert!(load_vertex_row(&mut g, "1", Some("{\"concept_id\": \"x\"}"), "C", None));
    assert_eq!(g.node(1).unwrap().app_id, None);
    // property configured but absent from the document
    assert!(load_vertex_row(&mut g, "2", Some("{}"), "C", Some("concept_id")));
    assert_eq!(g.node(2).unwrap().app_id, None);
    // property present but not a string
    assert!(load_vertex_row(&mut g, "3", Some("{\"concept_id\": 9}"), "C", Some("concept_id")));
    assert_eq!(g.node(3).unwrap().app_id, None);
    // malformed document
    assert!(load_vertex_row(&mut g, "4", Some("{not json"), "C", Some("concept_id")));
    assert_eq!(g.node(4).unwrap().app_id, None);
}

#[test]
fn test_load_vertex_row_skips_bad_id() {
    let mut g = Graph::new();
    assert!(!load_vertex_row(&mut g, "abc", None, "C", None));
    assert_eq!(g.node_count(), 0);
}

#[test]
fn test_matches_filter_star() {
    assert!(matches_filter("AnyLabel", "*"));
    assert!(matches_filter("Other", "  *  "));
}

#[test]
fn test_matches_filter_tokens() {
    assert!(matches_filter("Concept", "Concept,Claim"));
    assert!(matches_filter("Claim", "Concept, Claim"));
    assert!(matches_filter("Claim", " Concept , Claim "));
    assert!(!matches_filter("Other", "Concept,Claim"));
    assert!(!matches_filter("Concept", ""));
    assert!(!matches_filter("", "Concept,"));
}

#[test]
fn test_exceeds_memory_limit() {
    assert!(!exceeds_memory_limit(1048576, 1));
    assert!(!exceeds_memory_limit(2 * 1048576 + 1, 2));
    assert!(exceeds_memory_limit(3 * 1048576, 2));
}
