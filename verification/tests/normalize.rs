use graph_layout::error::GraphError;
use graph_layout::graph::Graph;
use graph_layout::normalize::{FRAME_MARGIN, FRAME_SPAN};
use graph_layout::style::EdgeStyle;

fn plain() -> EdgeStyle {
    EdgeStyle { visible: true, length: 300_000 }
}

fn positions(g: &Graph) -> Vec<(i64, i64)> {
    g.nodes.iter().map(|n| (n.x, n.y)).collect()
}

#[test]
fn frame_is_the_square_from_a_tenth_to_nine_tenths() {
    assert_eq!(FRAME_MARGIN, 100_000);
    assert_eq!(FRAME_MARGIN + FRAME_SPAN, 900_000);
}

#[test]
fn corners_go_to_the_corners_of_the_frame() {
    let mut g = Graph::new();
    g.register_edge_at("low", "high", plain(), (-3_000_000, 2_000_000), (5_000_000, 2_500_000));
    g.register_edge_at("low", "mid", plain(), (0, 0), (1_000_000, 2_125_000));
    assert_eq!(g.normalize(), Ok(()));
    assert_eq!(positions(&g), vec![(100_000, 100_000), (900_000, 900_000), (500_000, 300_000)]);
    let x = g.nodes[0].x as f64 / 1e6;
    let y = g.nodes[1].y as f64 / 1e6;
    assert!((x - 0.1).abs() < 1e-9);
    assert!((y - 0.9).abs() < 1e-9);
}

#[test]
fn axes_are_scaled_independently() {
    let mut g = Graph::new();
    g.register_edge_at("A", "B", plain(), (0, 0), (300_000, 400_000));
    g.register_edge_at("B", "C", plain(), (0, 0), (-200_000, 500_000));
    assert_eq!(g.normalize(), Ok(()));
    assert_eq!(positions(&g), vec![(420_000, 100_000), (900_000, 740_000), (100_000, 900_000)]);
}

#[test]
fn quotients_are_rounded_down() {
    let mut g = Graph::new();
    g.register_edge_at("A", "B", plain(), (0, 0), (3, 3));
    g.register_edge_at("B", "C", plain(), (0, 0), (1, 2));
    g.normalize().unwrap();
    assert_eq!(positions(&g), vec![(100_000, 100_000), (900_000, 900_000), (366_666, 633_333)]);
}

#[test]
fn normalized_layout_after_a_long_run() {
    let mut g = Graph::new();
    g.register_edge_at("A", "B", plain(), (0, 0), (300_000, 400_000));
    g.register_edge_at("B", "C", plain(), (0, 0), (-200_000, 500_000));
    g.run(1999).unwrap();
    g.normalize().unwrap();
    assert_eq!(positions(&g), vec![(900_000, 100_000), (499_628, 501_505), (100_000, 900_000)]);
}

#[test]
fn every_node_lies_in_the_frame() {
    let mut g = Graph::with_seed(5);
    for (a, b) in [("A", "B"), ("B", "C"), ("C", "D"), ("D", "E"), ("E", "A"), ("F", "A")] {
        g.register_edge(a, b, "").unwrap();
    }
    g.run(200).unwrap();
    g.normalize().unwrap();
    let mut least = (i64::MAX, i64::MAX);
    let mut most = (i64::MIN, i64::MIN);
    for node in &g.nodes {
        assert!(100_000 <= node.x && node.x <= 900_000);
        assert!(100_000 <= node.y && node.y <= 900_000);
        least = (least.0.min(node.x), least.1.min(node.y));
        most = (most.0.max(node.x), most.1.max(node.y));
    }
    assert_eq!(least, (100_000, 100_000));
    assert_eq!(most, (900_000, 900_000));
}

#[test]
fn layout_without_width_is_degenerate() {
    let mut g = Graph::new();
    g.register_edge_at("A", "B", plain(), (7, 0), (7, 10));
    assert_eq!(g.normalize(), Err(GraphError::DegenerateGeometry));
    assert_eq!(positions(&g), vec![(7, 0), (7, 10)]);
}

#[test]
fn layout_without_height_is_degenerate() {
    let mut g = Graph::new();
    g.register_edge_at("A", "B", plain(), (0, 3), (10, 3));
    assert_eq!(g.normalize(), Err(GraphError::DegenerateGeometry));
    assert_eq!(positions(&g), vec![(0, 3), (10, 3)]);
}

#[test]
fn single_node_and_empty_graph_are_degenerate() {
    let mut g = Graph::new();
    assert_eq!(g.normalize(), Err(GraphError::DegenerateGeometry));
    g.register_edge_at("A", "A", plain(), (1, 2), (3, 4));
    assert_eq!(g.normalize(), Err(GraphError::DegenerateGeometry));
}

#[test]
fn normalizing_twice_changes_nothing_more() {
    let mut g = Graph::new();
    g.register_edge_at("A", "B", plain(), (0, 0), (300_000, 400_000));
    g.register_edge_at("B", "C", plain(), (0, 0), (-200_000, 500_000));
    g.normalize().unwrap();
    let once = positions(&g);
    g.normalize().unwrap();
    assert_eq!(positions(&g), once);
}

#[test]
fn extreme_coordinates_are_normalized_without_overflow() {
    let far = 1_000_000_000_000;
    let mut g = Graph::new();
    g.register_edge_at("A", "B", plain(), (-far, -far), (far, far));
    g.register_edge_at("B", "C", plain(), (0, 0), (0, far - 1));
    g.normalize().unwrap();
    assert_eq!(positions(&g), vec![(100_000, 100_000), (900_000, 900_000), (500_000, 899_999)]);
}
