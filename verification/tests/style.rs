use graph_layout::binary64::micro_from_bits;
use graph_layout::error::GraphError;
use graph_layout::style::{
    bool_field, length_field, parse_edge_style, parse_node_style, retrieve_bool, retrieve_length,
    retrieve_string, text_field, EdgeStyle, Field, DEFAULT_LENGTH,
};

#[test]
fn empty_edge_style_is_the_default() {
    assert_eq!(parse_edge_style(""), Ok(EdgeStyle { visible: true, length: 300_000 }));
    assert_eq!(parse_edge_style("{}"), Ok(EdgeStyle { visible: true, length: DEFAULT_LENGTH }));
}

#[test]
fn edge_style_fields_are_read() {
    assert_eq!(
        parse_edge_style("{\"visible\": false}"),
        Ok(EdgeStyle { visible: false, length: 300_000 })
    );
    assert_eq!(
        parse_edge_style("{\"length\": 1.25}"),
        Ok(EdgeStyle { visible: true, length: 1_250_000 })
    );
    assert_eq!(
        parse_edge_style("{\"length\": 2, \"visible\": true}"),
        Ok(EdgeStyle { visible: true, length: 2_000_000 })
    );
    assert_eq!(
        parse_edge_style("{\"length\": -0.5}"),
        Ok(EdgeStyle { visible: true, length: -500_000 })
    );
    assert_eq!(
        parse_edge_style("{\"length\": 0.3}"),
        Ok(EdgeStyle { visible: true, length: 300_000 })
    );
}

#[test]
fn unknown_fields_are_ignored() {
    assert_eq!(
        parse_edge_style("{\"color\": 12, \"weight\": [1, 2]}"),
        Ok(EdgeStyle { visible: true, length: 300_000 })
    );
    let node = parse_node_style("{\"length\": \"long\"}").unwrap();
    assert!(node.visible);
    assert_eq!(node.color, "green");
}

#[test]
fn malformed_payloads_are_refused() {
    for style in ["{", "visible", "{\"visible\": }", "{\"visible\": true,}", " ", "{} {}"] {
        assert_eq!(parse_edge_style(style), Err(GraphError::InvalidStylePayload));
        assert!(matches!(parse_node_style(style), Err(GraphError::InvalidStylePayload)));
    }
}

#[test]
fn payloads_that_are_not_objects_are_refused() {
    for style in ["[1, 2]", "3", "\"red\"", "true", "null"] {
        assert_eq!(parse_edge_style(style), Err(GraphError::InvalidStylePayload));
        assert!(matches!(parse_node_style(style), Err(GraphError::InvalidStylePayload)));
    }
}

#[test]
fn fields_of_the_wrong_type_are_refused() {
    assert_eq!(parse_edge_style("{\"visible\": 1}"), Err(GraphError::InvalidStylePayload));
    assert_eq!(parse_edge_style("{\"visible\": \"no\"}"), Err(GraphError::InvalidStylePayload));
    assert_eq!(parse_edge_style("{\"length\": \"0.3\"}"), Err(GraphError::InvalidStylePayload));
    assert_eq!(parse_edge_style("{\"length\": null}"), Err(GraphError::InvalidStylePayload));
    assert!(matches!(
        parse_node_style("{\"color\": 3}"),
        Err(GraphError::InvalidStylePayload)
    ));
    assert!(matches!(
        parse_node_style("{\"visible\": null}"),
        Err(GraphError::InvalidStylePayload)
    ));
}

#[test]
fn lengths_out_of_range_are_refused() {
    assert_eq!(parse_edge_style("{\"length\": 1e300}"), Err(GraphError::InvalidStylePayload));
    assert_eq!(parse_edge_style("{\"length\": 1000001}"), Err(GraphError::InvalidStylePayload));
    assert_eq!(
        parse_edge_style("{\"length\": 1000000}"),
        Ok(EdgeStyle { visible: true, length: 1_000_000_000_000 })
    );
    assert_eq!(
        parse_edge_style("{\"length\": -1000000}"),
        Ok(EdgeStyle { visible: true, length: -1_000_000_000_000 })
    );
}

#[test]
fn node_style_fields_are_read() {
    let style = parse_node_style("{\"visible\": false, \"color\": \"#ff0000\"}").unwrap();
    assert!(!style.visible);
    assert_eq!(style.color, "#ff0000");
    let style = parse_node_style("").unwrap();
    assert!(style.visible);
    assert_eq!(style.color, "green");
    let style = parse_node_style("{\"color\": \"\"}").unwrap();
    assert_eq!(style.color, "");
}

#[test]
fn missing_fields_give_the_default() {
    assert_eq!(bool_field(&None, true), Ok(true));
    assert_eq!(bool_field(&None, false), Ok(false));
    assert_eq!(text_field(None, "green"), Ok("green".to_string()));
    assert_eq!(length_field(&None, 300_000), Ok(300_000));
}

#[test]
fn fields_of_the_right_type_give_their_value() {
    assert_eq!(bool_field(&Some(Field::Bool(false)), true), Ok(false));
    assert_eq!(bool_field(&Some(Field::Bool(true)), false), Ok(true));
    assert_eq!(text_field(Some(Field::Text("red".to_string())), "green"), Ok("red".to_string()));
    assert_eq!(length_field(&Some(Field::Number(Some(0.5f64.to_bits()))), 300_000), Ok(500_000));
}

#[test]
fn fields_of_another_type_are_errors() {
    let others = [
        Field::Null,
        Field::Bool(true),
        Field::Number(Some(1.0f64.to_bits())),
        Field::Number(None),
        Field::Text("true".to_string()),
        Field::Array,
        Field::Object,
    ];
    for field in others {
        let found = Some(field.clone());
        if !matches!(field, Field::Bool(_)) {
            assert_eq!(bool_field(&found, true), Err(GraphError::InvalidStylePayload));
        }
        if !matches!(field, Field::Number(Some(_))) {
            assert_eq!(length_field(&found, 1), Err(GraphError::InvalidStylePayload));
        }
        if !matches!(field, Field::Text(_)) {
            assert_eq!(text_field(found, "green"), Err(GraphError::InvalidStylePayload));
        }
    }
    assert_eq!(
        length_field(&Some(Field::Number(Some(f64::NAN.to_bits()))), 300_000),
        Err(GraphError::InvalidStylePayload)
    );
}

#[test]
fn fields_are_retrieved_by_key() {
    let style = "{\"visible\": false, \"shown\": true, \"color\": \"red\", \"length\": 2.5}";
    assert_eq!(retrieve_bool(style, "visible", true), Ok(false));
    assert_eq!(retrieve_bool(style, "shown", false), Ok(true));
    assert_eq!(retrieve_bool(style, "hidden", true), Ok(true));
    assert_eq!(retrieve_bool(style, "hidden", false), Ok(false));
    assert_eq!(retrieve_bool(style, "color", true), Err(GraphError::InvalidStylePayload));
    assert_eq!(retrieve_string(style, "color", "green"), Ok("red".to_string()));
    assert_eq!(retrieve_string(style, "colour", "green"), Ok("green".to_string()));
    assert_eq!(retrieve_string(style, "length", "green"), Err(GraphError::InvalidStylePayload));
    assert_eq!(retrieve_length(style, "length", 300_000), Ok(2_500_000));
    assert_eq!(retrieve_length(style, "width", 300_000), Ok(300_000));
    assert_eq!(retrieve_length(style, "visible", 300_000), Err(GraphError::InvalidStylePayload));
    assert_eq!(retrieve_bool("", "visible", true), Err(GraphError::InvalidStylePayload));
    assert_eq!(retrieve_bool("{}", "visible", true), Ok(true));
}

#[test]
fn keys_are_matched_exactly() {
    let style = "{\"Visible\": false, \"visible \": false, \"\": false}";
    assert_eq!(retrieve_bool(style, "visible", true), Ok(true));
    assert_eq!(retrieve_bool(style, "", true), Ok(false));
}

#[test]
fn escapes_in_strings_are_decoded() {
    assert_eq!(
        retrieve_string("{\"color\": \"a\\\"b\\u0041\"}", "color", "green"),
        Ok("a\"bA".to_string())
    );
}

#[test]
fn doubles_become_millionths() {
    assert_eq!(micro_from_bits(0.0f64.to_bits()), Some(0));
    assert_eq!(micro_from_bits((-0.0f64).to_bits()), Some(0));
    assert_eq!(micro_from_bits(1.0f64.to_bits()), Some(1_000_000));
    assert_eq!(micro_from_bits(0.3f64.to_bits()), Some(300_000));
    assert_eq!(micro_from_bits(0.1f64.to_bits()), Some(100_000));
    assert_eq!(micro_from_bits((-2.5f64).to_bits()), Some(-2_500_000));
    assert_eq!(micro_from_bits(0.75f64.to_bits()), Some(750_000));
    assert_eq!(micro_from_bits(123456.789012f64.to_bits()), Some(123_456_789_012));
    assert_eq!(micro_from_bits(0x3FD3_3333_3333_3333), Some(300_000));
}

#[test]
fn doubles_are_rounded_to_the_nearest_millionth() {
    assert_eq!(micro_from_bits(0.0000004f64.to_bits()), Some(0));
    assert_eq!(micro_from_bits(0.0000006f64.to_bits()), Some(1));
    assert_eq!(micro_from_bits(0.00000149f64.to_bits()), Some(1));
    assert_eq!(micro_from_bits(0.00000151f64.to_bits()), Some(2));
    // 2^-21 is 0.476837158203125 millionths and 2^-20 is 0.95367431640625.
    assert_eq!(micro_from_bits(2.0f64.powi(-21).to_bits()), Some(0));
    assert_eq!(micro_from_bits(2.0f64.powi(-20).to_bits()), Some(1));
    // 2^-1 millionths is a tie and goes up: 0.5 * 2^-... cannot be written
    // as a decimal literal, so it is built from its bits: 1.5 * 2^-20 is
    // 1.430511474609375 millionths.
    assert_eq!(micro_from_bits((1.5f64 * 2.0f64.powi(-20)).to_bits()), Some(1));
}

#[test]
fn tiny_and_subnormal_doubles_are_zero() {
    assert_eq!(micro_from_bits(1), Some(0));
    assert_eq!(micro_from_bits(f64::MIN_POSITIVE.to_bits()), Some(0));
    assert_eq!(micro_from_bits(1e-100f64.to_bits()), Some(0));
    assert_eq!(micro_from_bits((-1e-100f64).to_bits()), Some(0));
}

#[test]
fn doubles_that_are_not_lengths_are_refused() {
    assert_eq!(micro_from_bits(f64::NAN.to_bits()), None);
    assert_eq!(micro_from_bits(f64::INFINITY.to_bits()), None);
    assert_eq!(micro_from_bits(f64::NEG_INFINITY.to_bits()), None);
    assert_eq!(micro_from_bits(f64::MAX.to_bits()), None);
    assert_eq!(micro_from_bits(1e300f64.to_bits()), None);
    assert_eq!(micro_from_bits(1000000.5f64.to_bits()), None);
    assert_eq!(micro_from_bits(1000000.0f64.to_bits()), Some(1_000_000_000_000));
    assert_eq!(micro_from_bits(2.0f64.powi(60).to_bits()), None);
}
