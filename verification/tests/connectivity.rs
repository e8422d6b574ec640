use graph_layout::graph::Graph;
use graph_layout::style::EdgeStyle;

fn names(list: &[&str]) -> Vec<String> {
    list.iter().map(|s| s.to_string()).collect()
}

#[test]
fn chain_of_three_is_connected() {
    let mut g = Graph::new();
    g.register_edge("A", "B", "").unwrap();
    g.register_edge("B", "C", "").unwrap();
    assert_eq!(g.is_fully_connected(), Ok(()));
    let visited: Vec<&str> =
        g.nodes.iter().filter(|n| n.visited).map(|n| n.name.as_str()).collect();
    assert_eq!(visited, vec!["A", "B", "C"]);
}

#[test]
fn two_separate_edges_are_not_connected() {
    let mut g = Graph::new();
    g.register_edge("A", "B", "").unwrap();
    g.register_edge("C", "D", "").unwrap();
    assert_eq!(g.is_fully_connected(), Err((names(&["A", "B"]), names(&["C", "D"]))));
    assert!(g.nodes[0].visited);
    assert!(g.nodes[1].visited);
    assert!(!g.nodes[2].visited);
    assert!(!g.nodes[3].visited);
}

#[test]
fn scan_starts_from_the_first_node_created() {
    let mut g = Graph::new();
    g.register_edge("C", "D", "").unwrap();
    g.register_edge("A", "B", "").unwrap();
    assert_eq!(g.is_fully_connected(), Err((names(&["C", "D"]), names(&["A", "B"]))));
}

#[test]
fn empty_graph_is_connected() {
    let mut g = Graph::new();
    assert_eq!(g.is_fully_connected(), Ok(()));
}

#[test]
fn single_node_is_connected() {
    let mut g = Graph::new();
    g.register_edge("A", "A", "").unwrap();
    assert_eq!(g.is_fully_connected(), Ok(()));
    assert!(g.nodes[0].visited);
}

#[test]
fn invisible_edges_connect() {
    let mut g = Graph::new();
    g.register_edge("A", "B", "{\"visible\": false}").unwrap();
    g.register_edge("C", "B", "{\"visible\": false}").unwrap();
    assert_eq!(g.is_fully_connected(), Ok(()));
}

#[test]
fn edges_connect_in_both_directions_and_in_any_order() {
    // The edges are listed so that each pass over them can add one node only.
    let mut g = Graph::new();
    g.register_edge("A", "Z", "").unwrap();
    g.register_edge("E", "D", "").unwrap();
    g.register_edge("D", "C", "").unwrap();
    g.register_edge("C", "B", "").unwrap();
    g.register_edge("B", "A", "").unwrap();
    g.register_edge("X", "Y", "").unwrap();
    assert_eq!(
        g.is_fully_connected(),
        Err((names(&["A", "Z", "E", "D", "C", "B"]), names(&["X", "Y"])))
    );
    g.register_edge("Y", "E", "").unwrap();
    assert_eq!(g.is_fully_connected(), Ok(()));
}

#[test]
fn scan_resets_the_flags_of_an_earlier_scan() {
    let mut g = Graph::new();
    g.register_edge("A", "B", "").unwrap();
    g.register_edge("C", "D", "").unwrap();
    for node in g.nodes.iter_mut() {
        node.visited = true;
    }
    assert_eq!(g.is_fully_connected(), Err((names(&["A", "B"]), names(&["C", "D"]))));
    assert!(!g.nodes[2].visited);
    assert_eq!(g.is_fully_connected(), Err((names(&["A", "B"]), names(&["C", "D"]))));
}

#[test]
fn scan_changes_nothing_but_the_flags() {
    let mut g = Graph::new();
    g.register_edge_at("A", "B", EdgeStyle { visible: true, length: 5 }, (1, 2), (3, 4));
    g.register_edge_at("C", "D", EdgeStyle { visible: false, length: 6 }, (5, 6), (7, 8));
    g.register_node("C", "{\"color\": \"red\", \"visible\": false}").unwrap();
    let _ = g.is_fully_connected();
    let seen: Vec<(i64, i64, &str, &str, bool)> = g
        .nodes
        .iter()
        .map(|n| (n.x, n.y, n.name.as_str(), n.color.as_str(), n.visible))
        .collect();
    assert_eq!(
        seen,
        vec![
            (1, 2, "A", "black", true),
            (3, 4, "B", "black", true),
            (5, 6, "C", "red", false),
            (7, 8, "D", "black", true),
        ]
    );
    assert_eq!(g.edges.len(), 2);
    assert_eq!(g.edges[1].length, 6);
}
