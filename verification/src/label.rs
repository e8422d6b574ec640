//! Labels of several lines: splitting the text, and the markup of the lines
//! on a white background.
//!
//! How wide a line is depends on a font, which this library does not read:
//! the caller measures each line and passes the extents in.

use crate::decimal::{decimal, push_decimal};
use crate::fixed::{in_range, trunc_div, UNIT};
use crate::svg::draw_label;
use crate::text::texts;
use vstd::prelude::*;
use vstd::string::{StrSliceExecFns, StringExecFns};

verus! {

/// What the font size is increased by to give the distance between two base
/// lines: 0.01.
pub const LINE_GAP: i64 = 10_000;

/// How many pixels a line set at 32 pixels takes per length unit.
pub const PIXELS_PER_UNIT: i64 = 600;

/// What the background is wider than the widest line by: 0.02.
pub const LABEL_PADDING: i64 = 20_000;

/// How far the background is moved down from one line above the first base
/// line: 0.015.
pub const BACKGROUND_DROP: i64 = 15_000;

/// The largest number of lines of a label that can be drawn.
pub const MAX_LINES: usize = 1_000_000;

/// Whether a line break, written as a backslash and the letter `n`, begins
/// at the place `at` of a text.
pub open spec fn break_at(text: Seq<char>, at: int) -> bool {
    0 <= at && at + 1 < text.len() && text[at] == '\\' && text[at + 1] == 'n'
}

/// The lines of the part of `text` that begins at `start`, where no line
/// break begins between `start` and `at`.
pub open spec fn lines_from(text: Seq<char>, start: int, at: int) -> Seq<Seq<char>>
    recommends
        0 <= start <= at,
    decreases text.len() - at,
{
    if at + 1 >= text.len() {
        seq![text.subrange(start, text.len() as int)]
    } else if break_at(text, at) {
        seq![text.subrange(start, at)] + lines_from(text, at + 2, at + 2)
    } else {
        lines_from(text, start, at + 1)
    }
}

/// The lines of a label: the pieces between its line breaks, from left to
/// right. A label without a line break is one line, and so is an empty label.
pub open spec fn lines_of(text: Seq<char>) -> Seq<Seq<char>> {
    lines_from(text, 0, 0)
}

/// Splits a label into its lines.
pub fn label_lines(label: &str) -> (lines: Vec<String>)
    ensures
        texts(lines@) == lines_of(label@),
        lines.len() >= 1,
{
    let n = label.unicode_len();
    let mut lines: Vec<String> = Vec::new();
    let mut start: usize = 0;
    let mut at: usize = 0;
    assert(texts(lines@) =~= Seq::empty());
    while at < n && at + 1 < n
        invariant
            start <= at <= n,
            n == label@.len(),
            texts(lines@) + lines_from(label@, start as int, at as int) == lines_of(label@),
        decreases n - at,
    {
        let ghost done = texts(lines@);
        if label.get_char(at) == '\\' && label.get_char(at + 1) == 'n' {
            lines.push(label.substring_char(start, at).to_owned());
            assert(texts(lines@) =~= done.push(label@.subrange(start as int, at as int)));
            assert(done + (seq![label@.subrange(start as int, at as int)] + lines_from(
                label@,
                at + 2,
                at + 2,
            )) =~= done.push(label@.subrange(start as int, at as int)) + lines_from(
                label@,
                at + 2,
                at + 2,
            ));
            at = at + 2;
            start = at;
        } else {
            at = at + 1;
        }
    }
    let ghost done = texts(lines@);
    lines.push(label.substring_char(start, n).to_owned());
    assert(texts(lines@) =~= done.push(label@.subrange(start as int, n as int)));
    assert(done + seq![label@.subrange(start as int, n as int)] =~= done.push(
        label@.subrange(start as int, n as int),
    ));
    lines
}

/// The width of a line whose glyphs, set at 32 pixels, extend over `pixels`
/// pixels, with the padding of the background.
pub open spec fn line_width(pixels: int) -> int {
    trunc_div(pixels * UNIT, PIXELS_PER_UNIT as int) + LABEL_PADDING
}

/// The width of the background of the first `count` lines: that of the
/// widest line, and not negative.
pub open spec fn background_width(extents: Seq<i32>, count: int) -> int
    decreases count,
{
    if count <= 0 {
        0
    } else {
        let rest = background_width(extents, count - 1);
        let width = line_width(extents[count - 1] as int);
        if rest < width {
            width
        } else {
            rest
        }
    }
}

/// The distance between two base lines.
pub open spec fn line_height(font_size: int) -> int {
    font_size + LINE_GAP
}

/// The base line of the first line of a label of `count` lines that is
/// centred around `y`.
pub open spec fn first_base_line(y: int, font_size: int, count: int) -> int {
    y + font_size - trunc_div(line_height(font_size) * count, 2)
}

/// The markup of one line of text, as [`draw_label`] writes it.
pub open spec fn text_markup(
    x: int,
    y: int,
    font_size: int,
    font_color: Seq<char>,
    line: Seq<char>,
) -> Seq<char> {
    "<text x=\""@ + decimal(x) + "\" y=\""@ + decimal(y)
        + "\" text-anchor=\"middle\" font-size=\""@ + decimal(font_size) + "\" fill=\""@
        + font_color + "\">"@ + line + "</text>"@
}

/// The markup of the first `count` lines, each one line height below the
/// one before.
pub open spec fn lines_markup(
    x: int,
    top: int,
    font_size: int,
    font_color: Seq<char>,
    lines: Seq<Seq<char>>,
    count: int,
) -> Seq<char>
    decreases count,
{
    if count <= 0 {
        Seq::empty()
    } else {
        lines_markup(x, top, font_size, font_color, lines, count - 1) + text_markup(
            x,
            top + (count - 1) * line_height(font_size),
            font_size,
            font_color,
            lines[count - 1],
        )
    }
}

/// The markup of the white rectangle behind a label.
pub open spec fn background_markup(x: int, y: int, width: int, height: int) -> Seq<char> {
    "<rect x=\""@ + decimal(x) + "\" y=\""@ + decimal(y) + "\" width=\""@ + decimal(width)
        + "\" height=\""@ + decimal(height)
        + "\" style=\"fill:white;stroke-width:0.001;stroke:black\"></rect>"@
}

/// The markup of a label of several lines centred at `(x, y)`: a white
/// rectangle as wide as the widest line and as high as all lines, then the
/// lines.
pub open spec fn label_markup(
    x: int,
    y: int,
    font_size: int,
    font_color: Seq<char>,
    lines: Seq<Seq<char>>,
    extents: Seq<i32>,
) -> Seq<char> {
    let count = lines.len() as int;
    let top = first_base_line(y, font_size, count);
    let width = background_width(extents, count);
    background_markup(
        x - trunc_div(width, 2),
        top - line_height(font_size) + BACKGROUND_DROP,
        width,
        count * line_height(font_size),
    ) + lines_markup(x, top, font_size, font_color, lines, count)
}

/// Draws a label of several lines centred at `(x, y)`. The lines are those
/// of `label`; `extents` gives for each of them the number of pixels over
/// which its glyphs extend when set at 32 pixels.
#[must_use]
pub fn draw_label_multiline(
    x: i64,
    y: i64,
    font_size: i64,
    font_color: &str,
    label: &str,
    extents: &Vec<i32>,
) -> (text: String)
    requires
        in_range(x as int),
        in_range(y as int),
        in_range(font_size as int),
        extents.len() == lines_of(label@).len(),
        extents.len() <= MAX_LINES,
    ensures
        text@ == label_markup(
            x as int,
            y as int,
            font_size as int,
            font_color@,
            lines_of(label@),
            extents@,
        ),
{
    let lines = label_lines(label);
    let count = lines.len();
    assert(texts(lines@).len() == count);
    let height: i64 = font_size + LINE_GAP;
    assert(-1_000_000_000_000_000_000 <= height * count <= 1_100_000_000_000_000_000)
        by (nonlinear_arith)
        requires
            -1_000_000_000_000 <= height <= 1_000_000_010_000,
            0 <= count <= 1_000_000,
    ;
    let total: i64 = height * (count as i64);
    let top: i64 = y + font_size - total / 2;
    let mut width: i64 = 0;
    let mut markup = String::new();
    let mut i: usize = 0;
    assert(markup@ =~= Seq::empty());
    while i < count
        invariant
            i <= count,
            count == lines.len(),
            count == extents.len(),
            count <= 1_000_000,
            height == line_height(font_size as int),
            -1_000_000_000_000 <= height <= 1_000_000_010_000,
            -3_000_000_000_000_000_000 <= top <= 3_000_000_000_000_000_000,
            width == background_width(extents@, i as int),
            0 <= width <= 4_000_000_000_000,
            markup@ == lines_markup(
                x as int,
                top as int,
                font_size as int,
                font_color@,
                texts(lines@),
                i as int,
            ),
        decreases count - i,
    {
        let pixels: i64 = extents[i] as i64;
        let line_width: i64 = pixels * UNIT / PIXELS_PER_UNIT + LABEL_PADDING;
        if width < line_width {
            width = line_width;
        }
        assert(-1_100_000_000_000_000_000 <= i * height <= 1_100_000_000_000_000_000)
            by (nonlinear_arith)
            requires
                -1_000_000_000_000 <= height <= 1_000_000_010_000,
                0 <= i < 1_000_000,
        ;
        let base: i64 = top + (i as i64) * height;
        let line = draw_label(x, base, font_size, font_color, lines[i].as_str());
        assert(texts(lines@)[i as int] == lines[i as int]@);
        assert(line@ == text_markup(
            x as int,
            base as int,
            font_size as int,
            font_color@,
            lines[i as int]@,
        ));
        markup.append(line.as_str());
        i += 1;
    }
    let mut text = String::from_str("<rect x=\"");
    push_decimal(&mut text, x - width / 2);
    text.append("\" y=\"");
    push_decimal(&mut text, top - height + BACKGROUND_DROP);
    text.append("\" width=\"");
    push_decimal(&mut text, width);
    text.append("\" height=\"");
    push_decimal(&mut text, total);
    text.append("\" style=\"fill:white;stroke-width:0.001;stroke:black\"></rect>");
    text.append(markup.as_str());
    text
}

} // verus!
