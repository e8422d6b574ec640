use graph_layout::error::GraphError;
use graph_layout::graph::{Graph, DEFAULT_SEED};
use graph_layout::style::EdgeStyle;

fn plain() -> EdgeStyle {
    EdgeStyle { visible: true, length: 300_000 }
}

#[test]
fn new_graph_is_empty() {
    let g = Graph::new();
    assert!(g.nodes.is_empty());
    assert!(g.edges.is_empty());
    assert_eq!(g.seed, DEFAULT_SEED);
    assert_eq!(g.seed, 48);
    assert_eq!(g.draws, 0);
}

#[test]
fn edge_creates_both_endpoints() {
    let mut g = Graph::new();
    assert_eq!(g.register_edge("A", "B", ""), Ok(()));
    assert_eq!(g.nodes.len(), 2);
    assert_eq!(g.nodes[0].name, "A");
    assert_eq!(g.nodes[1].name, "B");
    for node in &g.nodes {
        assert_eq!(node.color, "black");
        assert!(node.visible);
        assert!(!node.visited);
        assert!(0 <= node.x && node.x < 1_000_000);
        assert!(0 <= node.y && node.y < 1_000_000);
    }
    assert_eq!(g.edges.len(), 1);
    assert_eq!(g.edges[0].a, "A");
    assert_eq!(g.edges[0].b, "B");
    assert_eq!(g.edges[0].from, 0);
    assert_eq!(g.edges[0].to, 1);
    assert!(g.edges[0].visible);
    assert_eq!(g.edges[0].length, 300_000);
    assert_eq!(g.draws, 4);
}

#[test]
fn initial_positions_follow_the_seeded_stream() {
    // The first eight outputs of pcg32 seeded with 48, scaled to millionths.
    let mut g = Graph::new();
    g.register_edge("A", "B", "").unwrap();
    g.register_edge("B", "C", "").unwrap();
    assert_eq!((g.nodes[0].x, g.nodes[0].y), (641_415, 763_966));
    assert_eq!((g.nodes[1].x, g.nodes[1].y), (125_232, 663_580));
    assert_eq!((g.nodes[2].x, g.nodes[2].y), (559_619, 851_843));
    assert_eq!(g.draws, 8);
}

#[test]
fn another_seed_gives_other_positions() {
    let mut g = Graph::with_seed(7);
    g.register_edge("A", "B", "").unwrap();
    assert_eq!((g.nodes[0].x, g.nodes[0].y), (568_624, 638_794));
    assert_eq!((g.nodes[1].x, g.nodes[1].y), (96_406, 820_697));
}

#[test]
fn same_seed_same_registrations_same_positions() {
    let mut g = Graph::with_seed(1234);
    let mut h = Graph::with_seed(1234);
    for (a, b) in [("A", "B"), ("B", "C"), ("C", "D"), ("D", "A"), ("E", "A")] {
        g.register_edge(a, b, "").unwrap();
        h.register_edge(a, b, "").unwrap();
    }
    assert_eq!(g.nodes.len(), 5);
    for i in 0..g.nodes.len() {
        assert_eq!(g.nodes[i].name, h.nodes[i].name);
        assert_eq!((g.nodes[i].x, g.nodes[i].y), (h.nodes[i].x, h.nodes[i].y));
    }
}

#[test]
fn existing_endpoint_keeps_its_position() {
    let mut g = Graph::new();
    g.register_edge("A", "B", "").unwrap();
    let a = (g.nodes[0].x, g.nodes[0].y);
    let b = (g.nodes[1].x, g.nodes[1].y);
    g.register_edge("B", "A", "").unwrap();
    assert_eq!(g.nodes.len(), 2);
    assert_eq!((g.nodes[0].x, g.nodes[0].y), a);
    assert_eq!((g.nodes[1].x, g.nodes[1].y), b);
    assert_eq!(g.edges.len(), 2);
    assert_eq!(g.edges[1].from, 1);
    assert_eq!(g.edges[1].to, 0);
}

#[test]
fn existing_endpoint_keeps_its_style() {
    let mut g = Graph::new();
    g.register_edge("A", "B", "").unwrap();
    g.register_node("A", "{\"visible\": false, \"color\": \"red\"}").unwrap();
    g.register_edge("A", "C", "").unwrap();
    assert_eq!(g.nodes[0].color, "red");
    assert!(!g.nodes[0].visible);
}

#[test]
fn edge_from_a_node_to_itself() {
    let mut g = Graph::new();
    g.register_edge("A", "A", "").unwrap();
    assert_eq!(g.nodes.len(), 1);
    assert_eq!(g.edges.len(), 1);
    assert_eq!(g.edges[0].from, 0);
    assert_eq!(g.edges[0].to, 0);
    assert_eq!((g.nodes[0].x, g.nodes[0].y), (641_415, 763_966));
}

#[test]
fn edge_at_given_positions() {
    let mut g = Graph::new();
    g.register_edge_at("A", "B", plain(), (10, 20), (30, 40));
    g.register_edge_at("B", "C", EdgeStyle { visible: false, length: 7 }, (1, 1), (-50, 60));
    assert_eq!(g.nodes.len(), 3);
    assert_eq!((g.nodes[0].x, g.nodes[0].y), (10, 20));
    assert_eq!((g.nodes[1].x, g.nodes[1].y), (30, 40));
    assert_eq!((g.nodes[2].x, g.nodes[2].y), (-50, 60));
    assert_eq!(g.edges[1].length, 7);
    assert!(!g.edges[1].visible);
    assert_eq!(g.draws, 0);
}

#[test]
fn edge_style_sets_visibility_and_length() {
    let mut g = Graph::new();
    g.register_edge("A", "B", "{\"visible\": false, \"length\": 0.5}").unwrap();
    assert!(!g.edges[0].visible);
    assert_eq!(g.edges[0].length, 500_000);
}

#[test]
fn edge_with_malformed_style_is_refused() {
    let mut g = Graph::new();
    g.register_edge("A", "B", "").unwrap();
    assert_eq!(g.register_edge("C", "D", "{\"visible\": "), Err(GraphError::InvalidStylePayload));
    assert_eq!(g.nodes.len(), 2);
    assert_eq!(g.edges.len(), 1);
    assert_eq!(g.draws, 4);
}

#[test]
fn node_style_before_any_edge_is_unknown_reference() {
    let mut g = Graph::new();
    assert_eq!(
        g.register_node("X", "{\"color\": \"red\"}"),
        Err(GraphError::UnknownNodeReference)
    );
    assert!(g.nodes.is_empty());
}

#[test]
fn node_style_for_a_name_that_no_edge_has_is_unknown_reference() {
    let mut g = Graph::new();
    g.register_edge("A", "B", "").unwrap();
    assert_eq!(g.register_node("X", ""), Err(GraphError::UnknownNodeReference));
    assert_eq!(g.register_node("a", "{}"), Err(GraphError::UnknownNodeReference));
}

#[test]
fn malformed_style_is_reported_before_the_unknown_node() {
    let mut g = Graph::new();
    assert_eq!(g.register_node("X", "not json"), Err(GraphError::InvalidStylePayload));
}

#[test]
fn node_style_sets_visibility_and_colour() {
    let mut g = Graph::new();
    g.register_edge("A", "B", "").unwrap();
    let before = (g.nodes[1].x, g.nodes[1].y);
    assert_eq!(g.register_node("B", "{\"visible\": false, \"color\": \"blue\"}"), Ok(()));
    assert!(!g.nodes[1].visible);
    assert_eq!(g.nodes[1].color, "blue");
    assert_eq!((g.nodes[1].x, g.nodes[1].y), before);
    assert!(g.nodes[0].visible);
    assert_eq!(g.nodes[0].color, "black");
}

#[test]
fn node_style_defaults_are_visible_and_green() {
    let mut g = Graph::new();
    g.register_edge("A", "B", "").unwrap();
    g.register_node("A", "{\"visible\": false, \"color\": \"blue\"}").unwrap();
    g.register_node("A", "{}").unwrap();
    assert!(g.nodes[0].visible);
    assert_eq!(g.nodes[0].color, "green");
    g.register_node("B", "").unwrap();
    assert!(g.nodes[1].visible);
    assert_eq!(g.nodes[1].color, "green");
}

#[test]
fn find_gives_the_index_of_a_name() {
    let mut g = Graph::new();
    g.register_edge("A", "B", "").unwrap();
    g.register_edge("B", "long name", "").unwrap();
    assert_eq!(g.find("A"), Some(0));
    assert_eq!(g.find("B"), Some(1));
    assert_eq!(g.find("long name"), Some(2));
    assert_eq!(g.find("C"), None);
    assert_eq!(g.find(""), None);
    assert_eq!(g.node("B").map(|n| n.name.clone()), Some("B".to_string()));
    assert!(g.node("Z").is_none());
}

#[test]
fn error_messages_differ() {
    let all = [
        GraphError::UnknownNodeReference,
        GraphError::InvalidStylePayload,
        GraphError::DegenerateGeometry,
        GraphError::NumericInstability,
    ];
    for i in 0..all.len() {
        assert!(!all[i].message().is_empty());
        for j in 0..i {
            assert_ne!(all[i].message(), all[j].message());
        }
    }
    assert_eq!(GraphError::InvalidStylePayload.message(), "invalid style payload");
}

#[test]
fn default_graph_is_a_new_graph() {
    let g = Graph::default();
    assert!(g.nodes.is_empty());
    assert!(g.edges.is_empty());
    assert_eq!(g.seed, DEFAULT_SEED);
    assert_eq!(g.draws, 0);
}

#[test]
fn names_are_compared_exactly() {
    let mut g = Graph::new();
    g.register_edge("A", "a", "").unwrap();
    g.register_edge("A ", "", "").unwrap();
    g.register_edge("\u{c4}", "A", "").unwrap();
    let names: Vec<&str> = g.nodes.iter().map(|n| n.name.as_str()).collect();
    assert_eq!(names, vec!["A", "a", "A ", "", "\u{c4}"]);
    assert_eq!(g.edges[2].to, 0);
}
