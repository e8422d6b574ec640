use graph_layout::decimal::to_decimal;
use graph_layout::graph::Graph;
use graph_layout::label::{draw_label_multiline, label_lines};
use graph_layout::render::draw_graph;
use graph_layout::style::EdgeStyle;
use graph_layout::svg::{
    draw_box, draw_box_with_label, draw_label, draw_line, end, line_to, move_to, start,
};
use graph_layout::vector::Vector;

#[test]
fn whole_numbers_are_written_without_a_point() {
    assert_eq!(to_decimal(0), "0");
    assert_eq!(to_decimal(1_000_000), "1");
    assert_eq!(to_decimal(-1_000_000), "-1");
    assert_eq!(to_decimal(10_000_000), "10");
    assert_eq!(to_decimal(123_000_000), "123");
    assert_eq!(to_decimal(1_000_000_000_000), "1000000");
}

#[test]
fn fractions_are_written_without_zeros_at_the_end() {
    assert_eq!(to_decimal(500_000), "0.5");
    assert_eq!(to_decimal(100_000), "0.1");
    assert_eq!(to_decimal(900_000), "0.9");
    assert_eq!(to_decimal(250_000), "0.25");
    assert_eq!(to_decimal(2_000), "0.002");
    assert_eq!(to_decimal(1), "0.000001");
    assert_eq!(to_decimal(10), "0.00001");
    assert_eq!(to_decimal(1_234_567), "1.234567");
    assert_eq!(to_decimal(1_230_000), "1.23");
    assert_eq!(to_decimal(1_000_001), "1.000001");
    assert_eq!(to_decimal(42_050_000), "42.05");
}

#[test]
fn negative_numbers_carry_a_minus_sign() {
    assert_eq!(to_decimal(-500_000), "-0.5");
    assert_eq!(to_decimal(-1), "-0.000001");
    assert_eq!(to_decimal(-12_340_000), "-12.34");
}

#[test]
fn extreme_numbers_are_written_in_full() {
    assert_eq!(to_decimal(i64::MAX), "9223372036854.775807");
    assert_eq!(to_decimal(i64::MIN), "-9223372036854.775808");
}

#[test]
fn decimal_notation_reads_back_as_the_number() {
    for raw in [0i64, 1, -1, 300_000, 999_999, 1_000_000, -7_654_321, 123_456_789_012] {
        let text = to_decimal(raw);
        let value: f64 = text.parse().unwrap();
        assert!((value - raw as f64 / 1e6).abs() < 1e-9);
    }
}

#[test]
fn move_to_writes_a_path_command() {
    assert_eq!(move_to(Vector { x: 500_000, y: 250_000 }), "M0.5,0.25 ");
    assert_eq!(move_to(Vector { x: 0, y: -1_000_000 }), "M0,-1 ");
}

#[test]
fn line_to_writes_a_path_command() {
    assert_eq!(line_to(Vector { x: 500_000, y: 250_000 }), "L0.5, 0.25");
    assert_eq!(line_to(Vector { x: 3_000_000, y: 0 }), "L3, 0");
}

#[test]
fn start_opens_the_drawing() {
    assert_eq!(
        start(0, 0, 1_000_000, 1_000_000),
        "<svg viewBox=\"0 0 1 1\" xmlns=\"http://www.w3.org/2000/svg\">"
    );
    assert_eq!(
        start(-500_000, 250_000, 2_000_000, 1_500_000),
        "<svg viewBox=\"-0.5 0.25 2 1.5\" xmlns=\"http://www.w3.org/2000/svg\">"
    );
}

#[test]
fn end_closes_the_drawing() {
    assert_eq!(end(), "</svg>");
}

#[test]
fn draw_line_writes_a_line_element() {
    assert_eq!(
        draw_line(Vector { x: 100_000, y: 200_000 }, Vector { x: 900_000, y: 1_000_000 }),
        "<line x1=\"0.1\" y1=\"0.2\" x2=\"0.9\" y2=\"1\" \
         style=\"stroke:black;stroke-width:0.002\" />"
    );
}

#[test]
fn draw_box_writes_a_path_element() {
    assert_eq!(
        draw_box(0, 0, 1_000_000, 1_000_000, 10_000, "black"),
        "<path d=\"M0,0 l0,1 l1,0 l0,-1 z\" fill=\"none\" stroke=\"black\" stroke-width=\"0.01\"/>"
    );
    assert_eq!(
        draw_box(100_000, 200_000, 300_000, 400_000, 1_000, "#fff"),
        "<path d=\"M0.1,0.2 l0,0.4 l0.3,0 l0,-0.4 z\" fill=\"none\" stroke=\"#fff\" \
         stroke-width=\"0.001\"/>"
    );
}

#[test]
fn draw_label_writes_a_text_element() {
    assert_eq!(
        draw_label(500_000, 250_000, 50_000, "red", "hello"),
        "<text x=\"0.5\" y=\"0.25\" text-anchor=\"middle\" font-size=\"0.05\" \
         fill=\"red\">hello</text>"
    );
}

#[test]
fn draw_box_with_label_writes_both() {
    assert_eq!(
        draw_box_with_label(0, 0, 1_000_000, 500_000, 10_000, 50_000, "black", "blue", "box"),
        "<path d=\"M0,0 l0,0.5 l1,0 l0,-0.5 z\" fill=\"none\" stroke=\"black\" \
         stroke-width=\"0.01\"/> <text x=\"0\" y=\"0\" font-size=\"0.05\" fill=\"blue\">box</text>"
    );
}

#[test]
fn labels_split_at_written_line_breaks() {
    assert_eq!(label_lines("one"), vec!["one"]);
    assert_eq!(label_lines(""), vec![""]);
    assert_eq!(label_lines("one\\ntwo"), vec!["one", "two"]);
    assert_eq!(label_lines("one\\ntwo\\nthree"), vec!["one", "two", "three"]);
    assert_eq!(label_lines("\\n"), vec!["", ""]);
    assert_eq!(label_lines("a\\n"), vec!["a", ""]);
    assert_eq!(label_lines("\\nb"), vec!["", "b"]);
    assert_eq!(label_lines("a\\n\\nb"), vec!["a", "", "b"]);
    assert_eq!(label_lines("a\\\\nb"), vec!["a\\", "b"]);
    assert_eq!(label_lines("a\\"), vec!["a\\"]);
    assert_eq!(label_lines("a\\mb"), vec!["a\\mb"]);
    assert_eq!(label_lines("new\nline"), vec!["new\nline"]);
    assert_eq!(label_lines("gr\u{fc}n\\nbl\u{e4}u"), vec!["gr\u{fc}n", "bl\u{e4}u"]);
}

#[test]
fn labels_split_as_the_standard_split_does() {
    for label in ["", "a", "\\n", "a\\nb", "\\n\\n", "x\\\\n", "n\\", "\\nn\\nn", "a\\n\\n\\nb"] {
        let expected: Vec<&str> = label.split("\\n").collect();
        assert_eq!(label_lines(label), expected);
    }
}

#[test]
fn label_of_one_line() {
    // 60 pixels are 0.1 wide; with the padding the background is 0.12 wide.
    assert_eq!(
        draw_label_multiline(500_000, 500_000, 50_000, "black", "A", &vec![60]),
        "<rect x=\"0.44\" y=\"0.475\" width=\"0.12\" height=\"0.06\" \
         style=\"fill:white;stroke-width:0.001;stroke:black\"></rect>\
         <text x=\"0.5\" y=\"0.52\" text-anchor=\"middle\" font-size=\"0.05\" \
         fill=\"black\">A</text>"
    );
}

#[test]
fn label_of_two_lines() {
    assert_eq!(
        draw_label_multiline(500_000, 500_000, 50_000, "black", "A\\nB", &vec![60, 120]),
        "<rect x=\"0.39\" y=\"0.445\" width=\"0.22\" height=\"0.12\" \
         style=\"fill:white;stroke-width:0.001;stroke:black\"></rect>\
         <text x=\"0.5\" y=\"0.49\" text-anchor=\"middle\" font-size=\"0.05\" \
         fill=\"black\">A</text>\
         <text x=\"0.5\" y=\"0.55\" text-anchor=\"middle\" font-size=\"0.05\" \
         fill=\"black\">B</text>"
    );
}

#[test]
fn label_background_is_as_wide_as_the_widest_line() {
    let wide_first = draw_label_multiline(0, 0, 50_000, "black", "AAAA\\nB", &vec![300, 30]);
    let wide_last = draw_label_multiline(0, 0, 50_000, "black", "B\\nAAAA", &vec![30, 300]);
    assert!(wide_first.starts_with("<rect x=\"-0.26\" y=\"-0.055\" width=\"0.52\" "));
    assert!(wide_last.starts_with("<rect x=\"-0.26\" y=\"-0.055\" width=\"0.52\" "));
}

#[test]
fn label_with_negative_extents_has_no_width() {
    let text = draw_label_multiline(0, 0, 50_000, "black", "A", &vec![-600]);
    assert!(text.starts_with("<rect x=\"0\" y=\"-0.025\" width=\"0\" height=\"0.06\" "));
}

#[test]
fn hidden_node_draws_nothing() {
    let mut g = Graph::new();
    g.register_edge_at("A", "B", EdgeStyle { visible: true, length: 1 }, (0, 0), (1, 1));
    g.register_node("A", "{\"visible\": false}").unwrap();
    assert_eq!(g.nodes[0].draw(&vec![60]), "");
}

#[test]
fn visible_node_draws_its_name_in_its_colour() {
    let mut g = Graph::new();
    g.register_edge_at(
        "A",
        "B",
        EdgeStyle { visible: true, length: 1 },
        (500_000, 500_000),
        (1, 1),
    );
    g.register_node("A", "{\"color\": \"red\"}").unwrap();
    assert_eq!(
        g.nodes[0].draw(&vec![60]),
        "<rect x=\"0.44\" y=\"0.475\" width=\"0.12\" height=\"0.06\" \
         style=\"fill:white;stroke-width:0.001;stroke:black\"></rect>\
         <text x=\"0.5\" y=\"0.52\" text-anchor=\"middle\" font-size=\"0.05\" \
         fill=\"red\">A</text>\n"
    );
}

#[test]
fn graph_draws_visible_edges_then_nodes() {
    let mut g = Graph::new();
    g.register_edge_at(
        "A",
        "B",
        EdgeStyle { visible: true, length: 1 },
        (100_000, 100_000),
        (900_000, 900_000),
    );
    g.register_edge_at(
        "B",
        "C",
        EdgeStyle { visible: false, length: 1 },
        (0, 0),
        (500_000, 100_000),
    );
    g.register_edge_at("C", "A", EdgeStyle { visible: true, length: 1 }, (0, 0), (0, 0));
    g.register_node("B", "{\"visible\": false}").unwrap();
    let extents = vec![vec![60], vec![60], vec![120]];
    let text = draw_graph(&g, &extents);
    let expected = [
        "<line x1=\"0.1\" y1=\"0.1\" x2=\"0.9\" y2=\"0.9\" \
         style=\"stroke:black;stroke-width:0.002\" />",
        "<line x1=\"0.5\" y1=\"0.1\" x2=\"0.1\" y2=\"0.1\" \
         style=\"stroke:black;stroke-width:0.002\" />",
        "<rect x=\"0.04\" y=\"0.075\" width=\"0.12\" height=\"0.06\" \
         style=\"fill:white;stroke-width:0.001;stroke:black\"></rect>\
         <text x=\"0.1\" y=\"0.12\" text-anchor=\"middle\" font-size=\"0.05\" \
         fill=\"black\">A</text>\n",
        "<rect x=\"0.39\" y=\"0.075\" width=\"0.22\" height=\"0.06\" \
         style=\"fill:white;stroke-width:0.001;stroke:black\"></rect>\
         <text x=\"0.5\" y=\"0.12\" text-anchor=\"middle\" font-size=\"0.05\" \
         fill=\"black\">C</text>\n",
    ];
    assert_eq!(text, expected.concat());
}

#[test]
fn empty_graph_draws_nothing() {
    assert_eq!(draw_graph(&Graph::new(), &vec![]), "");
}

#[test]
fn description_to_drawing() {
    let mut g = Graph::new();
    g.load("A-B\nB-C\nC-A|{\"visible\": false}\nB|{\"color\": \"red\"}\n").unwrap();
    assert_eq!(g.is_fully_connected(), Ok(()));
    g.run(1999).unwrap();
    g.normalize().unwrap();
    let extents: Vec<Vec<i32>> =
        g.nodes.iter().map(|n| label_lines(&n.name).iter().map(|_| 18).collect()).collect();
    let mut text = start(0, 0, 1_000_000, 1_000_000);
    text += "\n";
    text += &draw_box(0, 0, 1_000_000, 1_000_000, 10_000, "black");
    text += &draw_graph(&g, &extents);
    text += &end();
    assert!(text.starts_with(
        "<svg viewBox=\"0 0 1 1\" xmlns=\"http://www.w3.org/2000/svg\">\n\
         <path d=\"M0,0 l0,1 l1,0 l0,-1 z\" fill=\"none\" stroke=\"black\" \
         stroke-width=\"0.01\"/><line x1=\""
    ));
    assert!(text.ends_with("fill=\"black\">C</text>\n</svg>"));
    assert_eq!(text.matches("<line ").count(), 2);
    assert_eq!(text.matches("<rect ").count(), 3);
    assert_eq!(text.matches("fill=\"red\">B</text>").count(), 1);
    for node in &g.nodes {
        assert!(100_000 <= node.x && node.x <= 900_000);
        assert!(100_000 <= node.y && node.y <= 900_000);
    }
}
