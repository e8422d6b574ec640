//! A node of the graph: a named point with what a renderer needs to know
//! about it.

use crate::fixed::in_range;
use crate::label::{draw_label_multiline, label_markup, lines_of, MAX_LINES};
use vstd::prelude::*;
use vstd::string::StringExecFns;

verus! {

/// Font size of the label of a node: 0.05.
pub const NODE_FONT_SIZE: i64 = 50_000;

/// A uniquely named point of the layout.
#[derive(Clone, Debug)]
pub struct Node {
    /// Horizontal position, in millionths of a length unit.
    pub x: i64,
    /// Vertical position, in millionths of a length unit.
    pub y: i64,
    /// The identifier, which is also the label.
    pub name: String,
    /// Display colour.
    pub color: String,
    /// Scratch flag of the connectivity scan; meaningful only right after one.
    pub visited: bool,
    /// Whether a renderer should show the node.
    pub visible: bool,
}

/// The mathematical content of a [`Node`].
pub struct NodeView {
    pub x: int,
    pub y: int,
    pub name: Seq<char>,
    pub color: Seq<char>,
    pub visited: bool,
    pub visible: bool,
}

impl View for Node {
    type V = NodeView;

    open spec fn view(&self) -> NodeView {
        NodeView {
            x: self.x as int,
            y: self.y as int,
            name: self.name@,
            color: self.color@,
            visited: self.visited,
            visible: self.visible,
        }
    }
}

impl NodeView {
    /// The position as a pair.
    pub open spec fn position(self) -> (int, int) {
        (self.x, self.y)
    }

    /// The same node at another position.
    pub open spec fn moved_to(self, p: (int, int)) -> NodeView {
        NodeView { x: p.0, y: p.1, ..self }
    }
}

impl NodeView {
    /// The markup of the node: nothing if it is hidden, else its name as a
    /// label in its colour, centred at its position, and a line feed.
    pub open spec fn markup(self, extents: Seq<i32>) -> Seq<char> {
        if self.visible {
            label_markup(
                self.x,
                self.y,
                NODE_FONT_SIZE as int,
                self.color,
                lines_of(self.name),
                extents,
            ) + "\n"@
        } else {
            Seq::empty()
        }
    }
}

impl Node {
    /// Whether `extents` holds one extent for each line of the name.
    pub open spec fn measured_by(&self, extents: Seq<i32>) -> bool {
        extents.len() == lines_of(self.name@).len() && extents.len() <= MAX_LINES
    }

    /// Draws the node as a label. `extents` gives for each line of the name
    /// the number of pixels over which its glyphs extend when set at 32
    /// pixels.
    #[must_use]
    pub fn draw(&self, extents: &Vec<i32>) -> (text: String)
        requires
            in_range(self.x as int),
            in_range(self.y as int),
            self.measured_by(extents@),
        ensures
            text@ == self@.markup(extents@),
    {
        if !self.visible {
            return String::new();
        }
        let mut text = draw_label_multiline(
            self.x,
            self.y,
            NODE_FONT_SIZE,
            self.color.as_str(),
            self.name.as_str(),
            extents,
        );
        text.append("\n");
        text
    }
}

} // verus!
