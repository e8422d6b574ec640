//! Style payloads: the optional JSON object that accompanies a registration.
//!
//! A payload is a JSON object. The recognised fields are `visible` (a
//! boolean), `color` (a string) and `length` (a number); other fields are
//! ignored. The empty string stands for "no style". A payload that is not a
//! JSON object, or a recognised field of the wrong type, is an error.

use crate::binary64::{lemma_micro_value, micro_from_bits, micro_value};
use crate::error::GraphError;
use crate::fixed::in_range;
use vstd::prelude::*;
use vstd::string::StringExecFns;

verus! {

/// The error type of `serde_json`; nothing is read out of it.
#[verifier::external_type_specification]
#[verifier::external_body]
pub struct ExJsonError(serde_json::Error);

/// The value of a field of a payload.
#[derive(Clone, Debug)]
pub enum Field {
    /// The JSON value `null`.
    Null,
    /// A boolean.
    Bool(bool),
    /// A number, as the bit pattern of the double nearest to it, where there
    /// is one.
    Number(Option<u64>),
    /// A string.
    Text(String),
    /// An array, whatever it holds.
    Array,
    /// An object, whatever it holds.
    Object,
}

/// The mathematical content of a [`Field`].
pub enum FieldView {
    Null,
    Bool(bool),
    Number(Option<u64>),
    Text(Seq<char>),
    Array,
    Object,
}

impl View for Field {
    type V = FieldView;

    open spec fn view(&self) -> FieldView {
        match *self {
            Field::Null => FieldView::Null,
            Field::Bool(flag) => FieldView::Bool(flag),
            Field::Number(bits) => FieldView::Number(bits),
            Field::Text(text) => FieldView::Text(text@),
            Field::Array => FieldView::Array,
            Field::Object => FieldView::Object,
        }
    }
}

/// The content of a field that may be missing.
pub open spec fn found_view(found: Option<Field>) -> Option<FieldView> {
    match found {
        None => None,
        Some(field) => Some(field@),
    }
}

/// What `serde_json` finds when `style` is parsed as a JSON object and `key`
/// is looked up in it: `None` where `style` is not a JSON object,
/// `Some(None)` where the object has no such key, else the value under the
/// key.
pub uninterp spec fn json_field(style: Seq<char>, key: Seq<char>) -> Option<Option<FieldView>>;

/// Calls `serde_json::from_str` to parse `style` as a `serde_json::Map`, and
/// `Map::get` to look `key` up in it. The value found is handed out by its
/// variant; a number is read with `Number::as_f64` and handed out as the bit
/// pattern of the double. The contract only names the outcome: it is a
/// function of the two texts. Parsing does not panic and is bounded in
/// depth.
#[verifier::external_body]
fn lookup(style: &str, key: &str) -> (r: Result<Option<Field>, serde_json::Error>)
    ensures
        json_field(style@, key@) == match r {
            Ok(found) => Some(found_view(found)),
            Err(_) => None,
        },
{
    let fields: serde_json::Map<String, serde_json::Value> = serde_json::from_str(style)?;
    Ok(fields.get(key).map(|value| match value {
        serde_json::Value::Null => Field::Null,
        serde_json::Value::Bool(flag) => Field::Bool(*flag),
        serde_json::Value::Number(number) => Field::Number(number.as_f64().map(|x| x.to_bits())),
        serde_json::Value::String(text) => Field::Text(text.clone()),
        serde_json::Value::Array(_) => Field::Array,
        serde_json::Value::Object(_) => Field::Object,
    }))
}

/// The boolean that a field gives: the default where the payload lacks the
/// key, and an error where the value is not a boolean.
pub open spec fn bool_or(found: Option<FieldView>, default: bool) -> Result<bool, GraphError> {
    match found {
        None => Ok(default),
        Some(FieldView::Bool(flag)) => Ok(flag),
        Some(_) => Err(GraphError::InvalidStylePayload),
    }
}

/// The string that a field gives: the default where the payload lacks the
/// key, and an error where the value is not a string.
pub open spec fn text_or(found: Option<FieldView>, default: Seq<char>) -> Result<
    Seq<char>,
    GraphError,
> {
    match found {
        None => Ok(default),
        Some(FieldView::Text(text)) => Ok(text),
        Some(_) => Err(GraphError::InvalidStylePayload),
    }
}

/// The length, in millionths, that a field gives: the default where the
/// payload lacks the key, and an error where the value is not a number, or
/// a number that is not finite or exceeds a million length units in
/// magnitude. A number is rounded to the nearest millionth.
pub open spec fn length_or(found: Option<FieldView>, default: i64) -> Result<i64, GraphError> {
    match found {
        None => Ok(default),
        Some(FieldView::Number(Some(bits))) => match micro_value(bits) {
            Some(length) => Ok(length as i64),
            None => Err(GraphError::InvalidStylePayload),
        },
        Some(_) => Err(GraphError::InvalidStylePayload),
    }
}

/// The boolean that the field `key` of a payload gives.
pub open spec fn payload_bool(style: Seq<char>, key: Seq<char>, default: bool) -> Result<
    bool,
    GraphError,
> {
    match json_field(style, key) {
        None => Err(GraphError::InvalidStylePayload),
        Some(found) => bool_or(found, default),
    }
}

/// The string that the field `key` of a payload gives.
pub open spec fn payload_text(style: Seq<char>, key: Seq<char>, default: Seq<char>) -> Result<
    Seq<char>,
    GraphError,
> {
    match json_field(style, key) {
        None => Err(GraphError::InvalidStylePayload),
        Some(found) => text_or(found, default),
    }
}

/// The length that the field `key` of a payload gives.
pub open spec fn payload_length(style: Seq<char>, key: Seq<char>, default: i64) -> Result<
    i64,
    GraphError,
> {
    match json_field(style, key) {
        None => Err(GraphError::InvalidStylePayload),
        Some(found) => length_or(found, default),
    }
}

/// Reads a field as a boolean.
pub fn bool_field(found: &Option<Field>, default: bool) -> (r: Result<bool, GraphError>)
    ensures
        r == bool_or(found_view(*found), default),
{
    match found {
        None => Ok(default),
        Some(Field::Bool(flag)) => Ok(*flag),
        Some(_) => Err(GraphError::InvalidStylePayload),
    }
}

/// Reads a field as a string.
pub fn text_field(found: Option<Field>, default: &str) -> (r: Result<String, GraphError>)
    ensures
        text_or(found_view(found), default@) == match r {
            Ok(text) => Ok::<Seq<char>, GraphError>(text@),
            Err(e) => Err(e),
        },
{
    match found {
        None => Ok(String::from_str(default)),
        Some(Field::Text(text)) => Ok(text),
        Some(_) => Err(GraphError::InvalidStylePayload),
    }
}

/// Reads a field as a length in millionths.
pub fn length_field(found: &Option<Field>, default: i64) -> (r: Result<i64, GraphError>)
    ensures
        r == length_or(found_view(*found), default),
        r matches Ok(length) ==> length == default || in_range(length as int),
{
    match found {
        None => Ok(default),
        Some(Field::Number(Some(bits))) => match micro_from_bits(*bits) {
            Some(length) => Ok(length),
            None => Err(GraphError::InvalidStylePayload),
        },
        Some(_) => Err(GraphError::InvalidStylePayload),
    }
}

/// Reads the boolean field `key` of a payload.
pub fn retrieve_bool(style: &str, key: &str, default: bool) -> (r: Result<bool, GraphError>)
    ensures
        r == payload_bool(style@, key@, default),
{
    match lookup(style, key) {
        Ok(found) => bool_field(&found, default),
        Err(_) => Err(GraphError::InvalidStylePayload),
    }
}

/// Reads the string field `key` of a payload.
pub fn retrieve_string(style: &str, key: &str, default: &str) -> (r: Result<String, GraphError>)
    ensures
        payload_text(style@, key@, default@) == match r {
            Ok(text) => Ok::<Seq<char>, GraphError>(text@),
            Err(e) => Err(e),
        },
{
    match lookup(style, key) {
        Ok(found) => text_field(found, default),
        Err(_) => Err(GraphError::InvalidStylePayload),
    }
}

/// Reads the length field `key` of a payload.
pub fn retrieve_length(style: &str, key: &str, default: i64) -> (r: Result<i64, GraphError>)
    ensures
        r == payload_length(style@, key@, default),
        r matches Ok(length) ==> length == default || in_range(length as int),
{
    match lookup(style, key) {
        Ok(found) => length_field(&found, default),
        Err(_) => Err(GraphError::InvalidStylePayload),
    }
}

/// Rest length of an edge without a `length` field: 0.3 length units.
pub const DEFAULT_LENGTH: i64 = 300_000;

/// The style of an edge.
#[derive(Clone, Copy, Debug, PartialEq, Eq, Structural)]
pub struct EdgeStyle {
    /// Whether a renderer should show the edge.
    pub visible: bool,
    /// Rest length of the spring, in millionths of a length unit.
    pub length: i64,
}

/// The style of a node.
#[derive(Clone, Debug)]
pub struct NodeStyle {
    /// Whether a renderer should show the node.
    pub visible: bool,
    /// Display colour.
    pub color: String,
}

/// The edge style that a payload stands for: `visible` defaults to `true`
/// and `length` to [`DEFAULT_LENGTH`].
pub open spec fn edge_style_spec(style: Seq<char>) -> Result<EdgeStyle, GraphError> {
    if style.len() == 0 {
        Ok(EdgeStyle { visible: true, length: DEFAULT_LENGTH })
    } else {
        match payload_bool(style, "visible"@, true) {
            Err(e) => Err(e),
            Ok(visible) => match payload_length(style, "length"@, DEFAULT_LENGTH) {
                Err(e) => Err(e),
                Ok(length) => Ok(EdgeStyle { visible, length }),
            },
        }
    }
}

/// The rest length of an acceptable edge style is in range.
pub proof fn lemma_edge_style(style: Seq<char>)
    ensures
        edge_style_spec(style) matches Ok(parsed) ==> in_range(parsed.length as int),
{
    if style.len() > 0 {
        match json_field(style, "length"@) {
            Some(Some(FieldView::Number(Some(bits)))) => {
                lemma_micro_value(bits);
            },
            _ => {},
        }
    }
}

/// Reads the style of an edge from a payload.
pub fn parse_edge_style(style: &str) -> (r: Result<EdgeStyle, GraphError>)
    ensures
        r == edge_style_spec(style@),
        r matches Ok(parsed) ==> in_range(parsed.length as int),
{
    if style.is_empty() {
        return Ok(EdgeStyle { visible: true, length: DEFAULT_LENGTH });
    }
    let visible = match retrieve_bool(style, "visible", true) {
        Ok(visible) => visible,
        Err(e) => {
            return Err(e);
        },
    };
    match retrieve_length(style, "length", DEFAULT_LENGTH) {
        Ok(length) => Ok(EdgeStyle { visible, length }),
        Err(e) => Err(e),
    }
}

/// The visibility and colour that a payload gives a node: `visible` defaults
/// to `true` and `color` to `"green"`.
pub open spec fn node_style_spec(style: Seq<char>) -> Result<(bool, Seq<char>), GraphError> {
    if style.len() == 0 {
        Ok((true, "green"@))
    } else {
        match payload_bool(style, "visible"@, true) {
            Err(e) => Err(e),
            Ok(visible) => match payload_text(style, "color"@, "green"@) {
                Err(e) => Err(e),
                Ok(color) => Ok((visible, color)),
            },
        }
    }
}

/// Reads the style of a node from a payload.
pub fn parse_node_style(style: &str) -> (r: Result<NodeStyle, GraphError>)
    ensures
        node_style_spec(style@) == match r {
            Ok(parsed) => Ok::<(bool, Seq<char>), GraphError>((parsed.visible, parsed.color@)),
            Err(e) => Err(e),
        },
{
    if style.is_empty() {
        return Ok(NodeStyle { visible: true, color: String::from_str("green") });
    }
    let visible = match retrieve_bool(style, "visible", true) {
        Ok(visible) => visible,
        Err(e) => {
            return Err(e);
        },
    };
    match retrieve_string(style, "color", "green") {
        Ok(color) => Ok(NodeStyle { visible, color }),
        Err(e) => Err(e),
    }
}

} // verus!
