//! The markup of a whole graph: its visible edges as lines, then its nodes
//! as labels.

use crate::decimal::decimal;
use crate::graph::{EdgeView, Graph, GraphView};
use crate::svg::draw_line;
use crate::vector::Vector;
use vstd::prelude::*;
use vstd::string::StringExecFns;

verus! {

/// The markup of a thin black line between two points.
pub open spec fn line_markup(start: (int, int), end: (int, int)) -> Seq<char> {
    "<line x1=\""@ + decimal(start.0) + "\" y1=\""@ + decimal(start.1) + "\" x2=\""@ + decimal(
        end.0,
    ) + "\" y2=\""@ + decimal(end.1) + "\" style=\"stroke:black;stroke-width:0.002\" />"@
}

impl GraphView {
    /// The markup of an edge: a line between its ends if it is visible, else
    /// nothing.
    pub open spec fn edge_markup(self, e: EdgeView) -> Seq<char> {
        if e.visible {
            line_markup(self.nodes[e.from].position(), self.nodes[e.to].position())
        } else {
            Seq::empty()
        }
    }

    /// The markup of the first `count` edges.
    pub open spec fn edges_markup(self, count: int) -> Seq<char>
        decreases count,
    {
        if count <= 0 {
            Seq::empty()
        } else {
            self.edges_markup(count - 1) + self.edge_markup(self.edges[count - 1])
        }
    }

    /// The markup of the first `count` nodes.
    pub open spec fn nodes_markup(self, extents: Seq<Vec<i32>>, count: int) -> Seq<char>
        decreases count,
    {
        if count <= 0 {
            Seq::empty()
        } else {
            self.nodes_markup(extents, count - 1) + self.nodes[count - 1].markup(
                extents[count - 1]@,
            )
        }
    }

    /// The markup of the graph: the edges in the order of their
    /// registration, then the nodes in the order of their creation.
    pub open spec fn markup(self, extents: Seq<Vec<i32>>) -> Seq<char> {
        self.edges_markup(self.edges.len() as int) + self.nodes_markup(
            extents,
            self.nodes.len() as int,
        )
    }
}

impl Graph {
    /// Whether `extents` holds, for each node, one extent for each line of
    /// its name.
    pub open spec fn measured_by(&self, extents: Seq<Vec<i32>>) -> bool {
        &&& extents.len() == self.nodes.len()
        &&& forall|i: int|
            0 <= i < self.nodes.len() ==> (#[trigger] self.nodes[i]).measured_by(extents[i]@)
    }
}

/// Draws a graph: a line for each visible edge, then a label for each
/// visible node. `extents` gives, for each node and each line of its name,
/// the number of pixels over which the glyphs extend when set at 32
/// pixels.
#[must_use]
pub fn draw_graph(g: &Graph, extents: &Vec<Vec<i32>>) -> (text: String)
    requires
        g.wf(),
        g.measured_by(extents@),
    ensures
        text@ == g@.markup(extents@),
{
    let mut text = String::new();
    assert(text@ =~= g@.edges_markup(0));
    let mut k: usize = 0;
    while k < g.edges.len()
        invariant
            g.wf(),
            k <= g.edges.len(),
            text@ == g@.edges_markup(k as int),
        decreases g.edges.len() - k,
    {
        let ghost before = text@;
        proof {
            assert(g@.edge_wf(g@.edges[k as int]));
        }
        if g.edges[k].visible {
            let a = &g.nodes[g.edges[k].from];
            let b = &g.nodes[g.edges[k].to];
            let line = draw_line(Vector { x: a.x, y: a.y }, Vector { x: b.x, y: b.y });
            text.append(line.as_str());
        } else {
            assert(text@ =~= before + Seq::<char>::empty());
        }
        k += 1;
    }
    let ghost lines = text@;
    assert(text@ =~= lines + g@.nodes_markup(extents@, 0));
    let mut i: usize = 0;
    while i < g.nodes.len()
        invariant
            g.wf(),
            g.measured_by(extents@),
            i <= g.nodes.len(),
            lines == g@.edges_markup(g@.edges.len() as int),
            text@ == lines + g@.nodes_markup(extents@, i as int),
        decreases g.nodes.len() - i,
    {
        let ghost before = g@.nodes_markup(extents@, i as int);
        proof {
            assert(g.nodes[i as int].measured_by(extents@[i as int]@));
            let node = g@.nodes[i as int];
            assert(crate::fixed::in_range(node.x));
            assert(crate::fixed::in_range(node.y));
        }
        let label = g.nodes[i].draw(&extents[i]);
        text.append(label.as_str());
        assert(text@ =~= lines + (before + g@.nodes[i as int].markup(extents@[i as int]@)));
        i += 1;
    }
    text
}

} // verus!
