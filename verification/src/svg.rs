//! The SVG markup of the drawing: each function returns the text of one
//! element. Numbers are written in decimal notation.

use crate::decimal::{decimal, push_decimal};
use crate::vector::Vector;
use vstd::prelude::*;
use vstd::string::StringExecFns;

verus! {

/// The path command that moves the pen to `v`.
#[must_use]
pub fn move_to(v: Vector) -> (text: String)
    ensures
        text@ == "M"@ + decimal(v.x as int) + ","@ + decimal(v.y as int) + " "@,
{
    let mut text = String::from_str("M");
    push_decimal(&mut text, v.x);
    text.append(",");
    push_decimal(&mut text, v.y);
    text.append(" ");
    text
}

/// The opening tag of a drawing whose view box has the corner `(x, y)` and
/// the given width and height.
#[must_use]
pub fn start(x: i64, y: i64, width: i64, height: i64) -> (text: String)
    ensures
        text@ == "<svg viewBox=\""@ + decimal(x as int) + " "@ + decimal(y as int) + " "@
            + decimal(width as int) + " "@ + decimal(height as int)
            + "\" xmlns=\"http://www.w3.org/2000/svg\">"@,
{
    let mut text = String::from_str("<svg viewBox=\"");
    push_decimal(&mut text, x);
    text.append(" ");
    push_decimal(&mut text, y);
    text.append(" ");
    push_decimal(&mut text, width);
    text.append(" ");
    push_decimal(&mut text, height);
    text.append("\" xmlns=\"http://www.w3.org/2000/svg\">");
    text
}

/// A thin black line from `start` to `end`.
#[must_use]
pub fn draw_line(start: Vector, end: Vector) -> (text: String)
    ensures
        text@ == "<line x1=\""@ + decimal(start.x as int) + "\" y1=\""@ + decimal(start.y as int)
            + "\" x2=\""@ + decimal(end.x as int) + "\" y2=\""@ + decimal(end.y as int)
            + "\" style=\"stroke:black;stroke-width:0.002\" />"@,
{
    let mut text = String::from_str("<line x1=\"");
    push_decimal(&mut text, start.x);
    text.append("\" y1=\"");
    push_decimal(&mut text, start.y);
    text.append("\" x2=\"");
    push_decimal(&mut text, end.x);
    text.append("\" y2=\"");
    push_decimal(&mut text, end.y);
    text.append("\" style=\"stroke:black;stroke-width:0.002\" />");
    text
}

/// The path command that draws a line to `v`.
#[must_use]
pub fn line_to(v: Vector) -> (text: String)
    ensures
        text@ == "L"@ + decimal(v.x as int) + ", "@ + decimal(v.y as int),
{
    let mut text = String::from_str("L");
    push_decimal(&mut text, v.x);
    text.append(", ");
    push_decimal(&mut text, v.y);
    text
}

/// The text of the path of a box and of its stroke, without the closing of
/// the tag.
fn box_path(x: i64, y: i64, width: i64, height: i64, stroke: i64, color: &str) -> (text: String)
    ensures
        text@ == "<path d=\"M"@ + decimal(x as int) + ","@ + decimal(y as int) + " l0,"@
            + decimal(height as int) + " l"@ + decimal(width as int) + ",0 l0,-"@ + decimal(
            height as int,
        ) + " z\" fill=\"none\" stroke=\""@ + color@ + "\" stroke-width=\""@ + decimal(
            stroke as int,
        ) + "\"/>"@,
{
    let mut text = String::from_str("<path d=\"M");
    push_decimal(&mut text, x);
    text.append(",");
    push_decimal(&mut text, y);
    text.append(" l0,");
    push_decimal(&mut text, height);
    text.append(" l");
    push_decimal(&mut text, width);
    text.append(",0 l0,-");
    push_decimal(&mut text, height);
    text.append(" z\" fill=\"none\" stroke=\"");
    text.append(color);
    text.append("\" stroke-width=\"");
    push_decimal(&mut text, stroke);
    text.append("\"/>");
    text
}

/// An unfilled box with the corner `(x, y)`, drawn with a stroke of the given
/// width and colour.
#[must_use]
pub fn draw_box(x: i64, y: i64, width: i64, height: i64, stroke: i64, color: &str) -> (text:
    String)
    ensures
        text@ == "<path d=\"M"@ + decimal(x as int) + ","@ + decimal(y as int) + " l0,"@
            + decimal(height as int) + " l"@ + decimal(width as int) + ",0 l0,-"@ + decimal(
            height as int,
        ) + " z\" fill=\"none\" stroke=\""@ + color@ + "\" stroke-width=\""@ + decimal(
            stroke as int,
        ) + "\"/>"@,
{
    box_path(x, y, width, height, stroke, color)
}

/// A line of text centred at `(x, y)`.
#[must_use]
pub fn draw_label(x: i64, y: i64, font_size: i64, font_color: &str, label: &str) -> (text: String)
    ensures
        text@ == "<text x=\""@ + decimal(x as int) + "\" y=\""@ + decimal(y as int)
            + "\" text-anchor=\"middle\" font-size=\""@ + decimal(font_size as int)
            + "\" fill=\""@ + font_color@ + "\">"@ + label@ + "</text>"@,
{
    let mut text = String::from_str("<text x=\"");
    push_decimal(&mut text, x);
    text.append("\" y=\"");
    push_decimal(&mut text, y);
    text.append("\" text-anchor=\"middle\" font-size=\"");
    push_decimal(&mut text, font_size);
    text.append("\" fill=\"");
    text.append(font_color);
    text.append("\">");
    text.append(label);
    text.append("</text>");
    text
}

/// A box as [`draw_box`] draws it, and a label that starts at its corner.
#[must_use]
pub fn draw_box_with_label(
    x: i64,
    y: i64,
    width: i64,
    height: i64,
    stroke: i64,
    font_size: i64,
    color: &str,
    font_color: &str,
    label: &str,
) -> (text: String)
    ensures
        text@ == "<path d=\"M"@ + decimal(x as int) + ","@ + decimal(y as int) + " l0,"@
            + decimal(height as int) + " l"@ + decimal(width as int) + ",0 l0,-"@ + decimal(
            height as int,
        ) + " z\" fill=\"none\" stroke=\""@ + color@ + "\" stroke-width=\""@ + decimal(
            stroke as int,
        ) + "\"/>"@ + " <text x=\""@ + decimal(x as int) + "\" y=\""@ + decimal(y as int)
            + "\" font-size=\""@ + decimal(font_size as int) + "\" fill=\""@ + font_color@
            + "\">"@ + label@ + "</text>"@,
{
    let mut text = box_path(x, y, width, height, stroke, color);
    text.append(" <text x=\"");
    push_decimal(&mut text, x);
    text.append("\" y=\"");
    push_decimal(&mut text, y);
    text.append("\" font-size=\"");
    push_decimal(&mut text, font_size);
    text.append("\" fill=\"");
    text.append(font_color);
    text.append("\">");
    text.append(label);
    text.append("</text>");
    text
}

/// The closing tag of a drawing.
#[must_use]
pub fn end() -> (text: String)
    ensures
        text@ == "</svg>"@,
{
    String::from_str("</svg>")
}

} // verus!
