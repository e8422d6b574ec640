use graph_layout::error::GraphError;
use graph_layout::graph::Graph;
use graph_layout::script::{parse_statement, Cause, LoadError, Statement};
use graph_layout::text::split_text;

fn edge(a: &str, b: &str, style: &str) -> (String, String, String) {
    (a.to_string(), b.to_string(), style.to_string())
}

fn as_edge(s: Option<Statement>) -> Option<(String, String, String)> {
    match s {
        Some(Statement::Edge { a, b, style }) => Some((a, b, style)),
        _ => None,
    }
}

fn as_node(s: Option<Statement>) -> Option<(String, String)> {
    match s {
        Some(Statement::Node { name, style }) => Some((name, style)),
        _ => None,
    }
}

#[test]
fn text_splits_at_every_separator() {
    assert_eq!(split_text("a-b", '-'), vec!["a", "b"]);
    assert_eq!(split_text("a", '-'), vec!["a"]);
    assert_eq!(split_text("", '-'), vec![""]);
    assert_eq!(split_text("-", '-'), vec!["", ""]);
    assert_eq!(split_text("a--b-", '-'), vec!["a", "", "b", ""]);
    assert_eq!(split_text("one\ntwo\n", '\n'), vec!["one", "two", ""]);
    assert_eq!(split_text("\u{e4}|\u{f6}", '|'), vec!["\u{e4}", "\u{f6}"]);
}

#[test]
fn text_splits_as_the_standard_split_does() {
    for text in ["", "a", "|", "a|b", "||", "a|b|c", "|a|", "x-y|{\"a\": 1}"] {
        let expected: Vec<&str> = text.split('|').collect();
        assert_eq!(split_text(text, '|'), expected);
    }
}

#[test]
fn line_with_two_names_is_an_edge() {
    assert_eq!(as_edge(parse_statement("A-B")), Some(edge("A", "B", "")));
    assert_eq!(
        as_edge(parse_statement("A-B|{\"length\": 0.5}")),
        Some(edge("A", "B", "{\"length\": 0.5}"))
    );
    assert_eq!(as_edge(parse_statement("-")), Some(edge("", "", "")));
    assert_eq!(as_edge(parse_statement("first node-second node|")), Some(edge(
        "first node",
        "second node",
        ""
    )));
}

#[test]
fn line_with_one_name_is_a_node() {
    assert_eq!(
        as_node(parse_statement("A|{\"color\": \"red\"}")),
        Some(("A".to_string(), "{\"color\": \"red\"}".to_string()))
    );
    assert_eq!(as_node(parse_statement("A")), Some(("A".to_string(), String::new())));
    assert_eq!(
        as_node(parse_statement("A|{\"note\": \"a-b\"}")),
        Some(("A".to_string(), "{\"note\": \"a-b\"}".to_string()))
    );
}

#[test]
fn line_with_too_many_parts_is_malformed() {
    assert!(parse_statement("A-B-C").is_none());
    assert!(parse_statement("A|{}|{}").is_none());
    assert!(parse_statement("A-B|{\"color\": \"a|b\"}").is_none());
    assert!(parse_statement("--").is_none());
}

#[test]
fn description_is_carried_out_line_by_line() {
    let mut g = Graph::new();
    let text = "A-B\nB-C|{\"visible\": false, \"length\": 0.25}\n\nB|{\"color\": \"red\"}\n";
    assert_eq!(g.load(text), Ok(()));
    assert_eq!(g.nodes.len(), 3);
    assert_eq!(g.edges.len(), 2);
    assert_eq!(g.edges[1].length, 250_000);
    assert!(!g.edges[1].visible);
    assert_eq!(g.nodes[1].color, "red");
    assert_eq!((g.nodes[0].x, g.nodes[0].y), (641_415, 763_966));
    assert_eq!((g.nodes[2].x, g.nodes[2].y), (559_619, 851_843));
}

#[test]
fn statements_are_carried_out() {
    let mut g = Graph::new();
    let first = parse_statement("A-B").unwrap();
    let second = parse_statement("A|{\"color\": \"red\"}").unwrap();
    let third = parse_statement("X|{}").unwrap();
    assert_eq!(g.execute(&first), Ok(()));
    assert_eq!(g.execute(&second), Ok(()));
    assert_eq!(g.execute(&third), Err(GraphError::UnknownNodeReference));
    assert_eq!(g.nodes.len(), 2);
    assert_eq!(g.nodes[0].color, "red");
}

#[test]
fn empty_description_changes_nothing() {
    let mut g = Graph::new();
    assert_eq!(g.load(""), Ok(()));
    assert_eq!(g.load("\n\n\n"), Ok(()));
    assert!(g.nodes.is_empty());
}

#[test]
fn malformed_line_stops_the_description() {
    let mut g = Graph::new();
    assert_eq!(
        g.load("A-B\n\nA-B-C\nC-D"),
        Err(LoadError { line: 2, cause: Cause::Malformed })
    );
    assert_eq!(g.nodes.len(), 2);
    assert_eq!(g.edges.len(), 1);
}

#[test]
fn refused_statement_stops_the_description() {
    let mut g = Graph::new();
    assert_eq!(
        g.load("A-B\nC|{\"color\": \"red\"}\nC-D"),
        Err(LoadError { line: 1, cause: Cause::Refused(GraphError::UnknownNodeReference) })
    );
    assert_eq!(g.nodes.len(), 2);
    let mut h = Graph::new();
    assert_eq!(
        h.load("A-B|{\"length\": true}"),
        Err(LoadError { line: 0, cause: Cause::Refused(GraphError::InvalidStylePayload) })
    );
    assert!(h.nodes.is_empty());
}

#[test]
fn same_description_same_layout() {
    let text = "A-B\nB-C\nC-A|{\"length\": 0.5}\nD-A\n";
    let mut g = Graph::with_seed(11);
    let mut h = Graph::with_seed(11);
    g.load(text).unwrap();
    h.load(text).unwrap();
    g.run(150).unwrap();
    h.run(150).unwrap();
    g.normalize().unwrap();
    h.normalize().unwrap();
    for i in 0..g.nodes.len() {
        assert_eq!((g.nodes[i].x, g.nodes[i].y), (h.nodes[i].x, h.nodes[i].y));
    }
}

#[test]
fn another_seed_gives_another_start() {
    let text = "A-B\nB-C\n";
    let mut g = Graph::with_seed(11);
    let mut k = Graph::with_seed(12);
    g.load(text).unwrap();
    k.load(text).unwrap();
    assert_ne!((g.nodes[0].x, g.nodes[0].y), (k.nodes[0].x, k.nodes[0].y));
}
