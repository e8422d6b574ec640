//! The graph store: nodes in the order of their creation, edges in the
//! order of their registration, and the place in the random stream.

use crate::error::GraphError;
use crate::fixed::{in_range, UNIT};
use crate::node::{Node, NodeView};
use crate::random::{
    coordinate_at, counter_after, draw_coordinate, lemma_unit_fraction, pcg32_output,
};
use crate::style::{
    edge_style_spec, lemma_edge_style, node_style_spec, parse_edge_style, parse_node_style,
    EdgeStyle, NodeStyle,
};
use vstd::prelude::*;
use vstd::string::StringExecFns;

verus! {

/// A spring between two nodes.
#[derive(Clone, Debug)]
pub struct Edge {
    /// Identifier of the first endpoint.
    pub a: String,
    /// Identifier of the second endpoint.
    pub b: String,
    /// Whether a renderer should show the edge; the layout ignores it.
    pub visible: bool,
    /// Rest length, in millionths of a length unit.
    pub length: i64,
    /// Index of the first endpoint among the nodes.
    pub from: usize,
    /// Index of the second endpoint among the nodes.
    pub to: usize,
}

/// The mathematical content of an [`Edge`].
pub struct EdgeView {
    pub a: Seq<char>,
    pub b: Seq<char>,
    pub visible: bool,
    pub length: int,
    pub from: int,
    pub to: int,
}

impl View for Edge {
    type V = EdgeView;

    open spec fn view(&self) -> EdgeView {
        EdgeView {
            a: self.a@,
            b: self.b@,
            visible: self.visible,
            length: self.length as int,
            from: self.from as int,
            to: self.to as int,
        }
    }
}

/// A graph under layout.
#[derive(Clone, Debug)]
pub struct Graph {
    /// The nodes, in the order of their creation.
    pub nodes: Vec<Node>,
    /// The edges, in the order of their registration.
    pub edges: Vec<Edge>,
    /// Seed of the random stream that places new nodes.
    pub seed: u64,
    /// Number of words drawn from the stream so far, modulo `2^64`.
    pub draws: u64,
}

/// The mathematical content of a [`Graph`].
pub struct GraphView {
    pub nodes: Seq<NodeView>,
    pub edges: Seq<EdgeView>,
    pub seed: u64,
    pub draws: u64,
}

impl View for Graph {
    type V = GraphView;

    open spec fn view(&self) -> GraphView {
        GraphView {
            nodes: Seq::new(self.nodes.len() as nat, |i: int| self.nodes[i]@),
            edges: Seq::new(self.edges.len() as nat, |k: int| self.edges[k]@),
            seed: self.seed,
            draws: self.draws,
        }
    }
}

/// Seed of a graph made by [`Graph::new`].
pub const DEFAULT_SEED: u64 = 48;

/// The graph without nodes and edges whose random stream starts from `seed`.
pub open spec fn empty_graph(seed: u64) -> GraphView {
    GraphView { nodes: Seq::empty(), edges: Seq::empty(), seed, draws: 0 }
}

/// A node as an edge registration creates it: black, visible, not visited.
pub open spec fn fresh_node(name: Seq<char>, at: (int, int)) -> NodeView {
    NodeView { x: at.0, y: at.1, name, color: "black"@, visited: false, visible: true }
}

impl GraphView {
    /// Whether a node is called `name`.
    pub open spec fn has_node(self, name: Seq<char>) -> bool {
        exists|i: int| 0 <= i < self.nodes.len() && self.nodes[i].name == name
    }

    /// The index of the node called `name`, where there is one.
    pub open spec fn index_of(self, name: Seq<char>) -> int {
        choose|i: int| 0 <= i < self.nodes.len() && self.nodes[i].name == name
    }

    /// An edge joins two nodes of this graph, carries their names, and has a
    /// rest length in range.
    pub open spec fn edge_wf(self, e: EdgeView) -> bool {
        &&& 0 <= e.from < self.nodes.len()
        &&& 0 <= e.to < self.nodes.len()
        &&& self.nodes[e.from].name == e.a
        &&& self.nodes[e.to].name == e.b
        &&& in_range(e.length)
    }

    /// The invariant of a graph: names are unique, coordinates are in range,
    /// and every edge joins two nodes of the graph.
    pub open spec fn wf(self) -> bool {
        &&& forall|i: int, j: int|
            0 <= i < j < self.nodes.len() ==> self.nodes[i].name != self.nodes[j].name
        &&& forall|i: int|
            0 <= i < self.nodes.len() ==> in_range((#[trigger] self.nodes[i]).x) && in_range(
                self.nodes[i].y,
            )
        &&& forall|k: int| 0 <= k < self.edges.len() ==> self.edge_wf(#[trigger] self.edges[k])
    }

    /// The positions of the nodes, in store order.
    pub open spec fn positions(self) -> Seq<(int, int)> {
        Seq::new(self.nodes.len(), |i: int| self.nodes[i].position())
    }

    /// The graph with its nodes at other positions.
    pub open spec fn with_positions(self, positions: Seq<(int, int)>) -> GraphView
        recommends
            positions.len() == self.nodes.len(),
    {
        GraphView {
            nodes: Seq::new(self.nodes.len(), |i: int| self.nodes[i].moved_to(positions[i])),
            ..self
        }
    }

    /// The graph with a node called `name`: as it is where it has one, else
    /// with a fresh node at `at` behind the others.
    pub open spec fn with_node(self, name: Seq<char>, at: (int, int)) -> GraphView {
        if self.has_node(name) {
            self
        } else {
            GraphView { nodes: self.nodes.push(fresh_node(name, at)), ..self }
        }
    }

    /// The graph after an edge from `a` to `b` was registered: an endpoint
    /// that exists keeps its node untouched, one that does not is created at
    /// the position given for it, and the edge is appended.
    pub open spec fn with_edge(
        self,
        a: Seq<char>,
        b: Seq<char>,
        style: EdgeStyle,
        at_a: (int, int),
        at_b: (int, int),
    ) -> GraphView {
        let g = self.with_node(a, at_a).with_node(b, at_b);
        GraphView {
            edges: g.edges.push(
                EdgeView {
                    a,
                    b,
                    visible: style.visible,
                    length: style.length as int,
                    from: g.index_of(a),
                    to: g.index_of(b),
                },
            ),
            ..g
        }
    }

    /// The graph after four more words were drawn from the random stream.
    pub open spec fn after_draws(self) -> GraphView {
        GraphView { draws: counter_after(self.draws, 4), ..self }
    }

    /// Where the next edge registration would create its first endpoint.
    pub open spec fn next_place_a(self) -> (int, int) {
        (coordinate_at(self.seed, self.draws, 0), coordinate_at(self.seed, self.draws, 2))
    }

    /// Where the next edge registration would create its second endpoint.
    pub open spec fn next_place_b(self) -> (int, int) {
        (coordinate_at(self.seed, self.draws, 1), coordinate_at(self.seed, self.draws, 3))
    }

    /// What registering an edge from `a` to `b` with the payload `style`
    /// makes of the graph: the payload must be acceptable; an endpoint that
    /// does not exist yet is created where the random stream puts it, in
    /// `[0, 1)` on both axes, and four words of the stream are used up.
    pub open spec fn after_edge(self, a: Seq<char>, b: Seq<char>, style: Seq<char>) -> Result<
        GraphView,
        GraphError,
    > {
        match edge_style_spec(style) {
            Err(e) => Err(e),
            Ok(parsed) => Ok(
                self.with_edge(a, b, parsed, self.next_place_a(), self.next_place_b()).after_draws(),
            ),
        }
    }

    /// What applying the payload `style` to the node called `a` makes of the
    /// graph: the payload must be acceptable and the node must exist; it
    /// takes the visibility and the colour of the payload.
    pub open spec fn after_node(self, a: Seq<char>, style: Seq<char>) -> Result<
        GraphView,
        GraphError,
    > {
        match node_style_spec(style) {
            Err(e) => Err(e),
            Ok(parsed) => if self.has_node(a) {
                Ok(self.with_node_style(self.index_of(a), parsed.0, parsed.1))
            } else {
                Err(GraphError::UnknownNodeReference)
            },
        }
    }

    /// The graph after the node at `index` took a visibility and a colour.
    pub open spec fn with_node_style(self, index: int, visible: bool, color: Seq<char>) -> GraphView
        recommends
            0 <= index < self.nodes.len(),
    {
        GraphView {
            nodes: self.nodes.update(index, NodeView { visible, color, ..self.nodes[index] }),
            ..self
        }
    }
}

/// In a graph with unique names, the index of a name is the only index at
/// which the name stands.
pub proof fn lemma_index_of(g: GraphView, name: Seq<char>, i: int)
    requires
        g.wf(),
        0 <= i < g.nodes.len(),
        g.nodes[i].name == name,
    ensures
        g.has_node(name),
        g.index_of(name) == i,
{
    let j = g.index_of(name);
    if j < i {
        assert(g.nodes[j].name != g.nodes[i].name);
    } else if i < j {
        assert(g.nodes[i].name != g.nodes[j].name);
    }
}

/// Creating a node keeps a graph well formed, keeps what it held, and makes
/// the name known.
pub proof fn lemma_with_node(g: GraphView, name: Seq<char>, at: (int, int))
    requires
        g.wf(),
        in_range(at.0),
        in_range(at.1),
    ensures
        g.with_node(name, at).wf(),
        g.with_node(name, at).has_node(name),
        g.with_node(name, at).edges == g.edges,
        g.nodes.len() <= g.with_node(name, at).nodes.len() <= g.nodes.len() + 1,
        forall|i: int| 0 <= i < g.nodes.len() ==> g.with_node(name, at).nodes[i] == g.nodes[i],
        forall|other: Seq<char>| g.has_node(other) ==> g.with_node(name, at).has_node(other),
{
    let h = g.with_node(name, at);
    if !g.has_node(name) {
        let n = g.nodes.len() as int;
        assert(h.nodes[n].name == name);
        assert forall|i: int, j: int| 0 <= i < j < h.nodes.len() implies h.nodes[i].name
            != h.nodes[j].name by {
            if j == n {
                assert(g.nodes[i].name != name);
            }
        }
        assert forall|k: int| 0 <= k < h.edges.len() implies h.edge_wf(#[trigger] h.edges[k]) by {
            assert(g.edge_wf(g.edges[k]));
        }
    }
    assert forall|other: Seq<char>| g.has_node(other) implies h.has_node(other) by {
        let i = g.index_of(other);
        assert(h.nodes[i].name == other);
    }
}

/// Registering an edge keeps a graph well formed.
pub proof fn lemma_with_edge(
    g: GraphView,
    a: Seq<char>,
    b: Seq<char>,
    style: EdgeStyle,
    at_a: (int, int),
    at_b: (int, int),
)
    requires
        g.wf(),
        in_range(style.length as int),
        in_range(at_a.0),
        in_range(at_a.1),
        in_range(at_b.0),
        in_range(at_b.1),
    ensures
        g.with_edge(a, b, style, at_a, at_b).wf(),
        g.with_edge(a, b, style, at_a, at_b).edges.len() == g.edges.len() + 1,
        g.with_edge(a, b, style, at_a, at_b).has_node(a),
        g.with_edge(a, b, style, at_a, at_b).has_node(b),
{
    let g1 = g.with_node(a, at_a);
    lemma_with_node(g, a, at_a);
    let g2 = g1.with_node(b, at_b);
    lemma_with_node(g1, b, at_b);
    let h = g.with_edge(a, b, style, at_a, at_b);
    assert(g2.has_node(a));
    assert(h.nodes == g2.nodes);
    assert forall|k: int| 0 <= k < h.edges.len() implies h.edge_wf(#[trigger] h.edges[k]) by {
        if k < g2.edges.len() {
            assert(g2.edge_wf(g2.edges[k]));
        }
    }
}

/// Giving a node a visibility and a colour keeps a graph well formed.
pub proof fn lemma_with_node_style(g: GraphView, index: int, visible: bool, color: Seq<char>)
    requires
        g.wf(),
        0 <= index < g.nodes.len(),
    ensures
        g.with_node_style(index, visible, color).wf(),
        g.with_node_style(index, visible, color).positions() == g.positions(),
{
    let h = g.with_node_style(index, visible, color);
    assert forall|i: int, j: int| 0 <= i < j < h.nodes.len() implies h.nodes[i].name
        != h.nodes[j].name by {
        assert(g.nodes[i].name != g.nodes[j].name);
    }
    assert forall|i: int| 0 <= i < h.nodes.len() implies in_range(#[trigger] h.nodes[i].x)
        && in_range(h.nodes[i].y) by {
        assert(in_range(g.nodes[i].x) && in_range(g.nodes[i].y));
    }
    assert forall|k: int| 0 <= k < h.edges.len() implies h.edge_wf(#[trigger] h.edges[k]) by {
        assert(g.edge_wf(g.edges[k]));
    }
    assert(h.positions() =~= g.positions());
}

/// A registration keeps a graph well formed, and the places at which an
/// edge registration creates nodes lie in the unit square.
pub proof fn lemma_registration(g: GraphView, a: Seq<char>, b: Seq<char>, style: Seq<char>)
    requires
        g.wf(),
    ensures
        0 <= g.next_place_a().0 < UNIT && 0 <= g.next_place_a().1 < UNIT,
        0 <= g.next_place_b().0 < UNIT && 0 <= g.next_place_b().1 < UNIT,
        g.after_edge(a, b, style) matches Ok(h) ==> h.wf(),
        g.after_node(a, style) matches Ok(h) ==> h.wf() && h.positions() == g.positions(),
{
    lemma_unit_fraction(pcg32_output(g.seed, counter_after(g.draws, 0)), 0);
    lemma_unit_fraction(pcg32_output(g.seed, counter_after(g.draws, 1)), 0);
    lemma_unit_fraction(pcg32_output(g.seed, counter_after(g.draws, 2)), 0);
    lemma_unit_fraction(pcg32_output(g.seed, counter_after(g.draws, 3)), 0);
    lemma_edge_style(style);
    if edge_style_spec(style) is Ok {
        let parsed = edge_style_spec(style)->Ok_0;
        lemma_with_edge(g, a, b, parsed, g.next_place_a(), g.next_place_b());
        let h = g.with_edge(a, b, parsed, g.next_place_a(), g.next_place_b());
        let k = h.after_draws();
        assert forall|e: int| 0 <= e < k.edges.len() implies k.edge_wf(#[trigger] k.edges[e]) by {
            assert(h.edge_wf(h.edges[e]));
        }
    }
    if g.after_node(a, style) is Ok {
        let parsed = node_style_spec(style)->Ok_0;
        lemma_with_node_style(g, g.index_of(a), parsed.0, parsed.1);
    }
}

impl Default for Graph {
    fn default() -> (g: Graph)
        ensures
            g.wf(),
            g@ == empty_graph(DEFAULT_SEED),
    {
        Graph::new()
    }
}

impl Graph {
    /// Whether the graph satisfies its invariant.
    pub open spec fn wf(&self) -> bool {
        self@.wf()
    }

    /// An empty graph with the default seed.
    #[must_use]
    pub fn new() -> (g: Graph)
        ensures
            g.wf(),
            g@ == empty_graph(DEFAULT_SEED),
    {
        Graph::with_seed(DEFAULT_SEED)
    }

    /// An empty graph whose random stream starts from `seed`.
    #[must_use]
    pub fn with_seed(seed: u64) -> (g: Graph)
        ensures
            g.wf(),
            g@ == empty_graph(seed),
    {
        let g = Graph { nodes: Vec::new(), edges: Vec::new(), seed, draws: 0 };
        assert(g@.nodes =~= Seq::empty());
        assert(g@.edges =~= Seq::empty());
        g
    }

    /// The index of the node called `name`.
    pub fn find(&self, name: &str) -> (r: Option<usize>)
        ensures
            match r {
                Some(i) => i < self.nodes.len() && self.nodes[i as int].name@ == name@ && forall|
                    j: int,
                | 0 <= j < i ==> self.nodes[j].name@ != name@,
                None => !self@.has_node(name@),
            },
            self.wf() ==> match r {
                Some(i) => self@.has_node(name@) && self@.index_of(name@) == i,
                None => true,
            },
    {
        let key = name.to_owned();
        let mut i: usize = 0;
        while i < self.nodes.len()
            invariant
                i <= self.nodes.len(),
                key@ == name@,
                forall|j: int| 0 <= j < i ==> self.nodes[j].name@ != name@,
            decreases self.nodes.len() - i,
        {
            if self.nodes[i].name == key {
                proof {
                    assert(self@.nodes[i as int].name == name@);
                    if self.wf() {
                        lemma_index_of(self@, name@, i as int);
                    }
                }
                return Some(i);
            }
            i += 1;
        }
        proof {
            if self@.has_node(name@) {
                let j = self@.index_of(name@);
                assert(self.nodes[j].name@ != name@);
            }
        }
        None
    }

    /// The node called `name`.
    pub fn node(&self, name: &str) -> (r: Option<&Node>)
        ensures
            match r {
                Some(n) => self@.has_node(name@) && n.name@ == name@ && exists|i: int|
                    0 <= i < self.nodes.len() && self.nodes[i] == *n,
                None => !self@.has_node(name@),
            },
    {
        match self.find(name) {
            Some(i) => {
                assert(self@.nodes[i as int].name == name@);
                Some(&self.nodes[i])
            },
            None => None,
        }
    }

    /// Makes sure that a node called `name` exists, creating it at `at` if it
    /// does not, and returns its index.
    fn place(&mut self, name: &str, at: (i64, i64)) -> (i: usize)
        requires
            old(self).wf(),
            in_range(at.0 as int),
            in_range(at.1 as int),
        ensures
            final(self).wf(),
            final(self)@ == old(self)@.with_node(name@, (at.0 as int, at.1 as int)),
            i < final(self).nodes.len(),
            final(self)@.nodes[i as int].name == name@,
            i == final(self)@.index_of(name@),
    {
        proof {
            lemma_with_node(self@, name@, (at.0 as int, at.1 as int));
        }
        match self.find(name) {
            Some(i) => {
                assert(self@.nodes[i as int].name == name@);
                i
            },
            None => {
                let i = self.nodes.len();
                self.nodes.push(
                    Node {
                        x: at.0,
                        y: at.1,
                        name: name.to_owned(),
                        color: String::from_str("black"),
                        visited: false,
                        visible: true,
                    },
                );
                proof {
                    let h = old(self)@.with_node(name@, (at.0 as int, at.1 as int));
                    assert(self@.nodes =~= h.nodes);
                    assert(self@.edges =~= h.edges);
                    lemma_index_of(self@, name@, i as int);
                }
                i
            },
        }
    }

    /// Registers an edge from `a` to `b` with a style already parsed, creating
    /// at the given positions the endpoints that do not exist yet.
    pub fn register_edge_at(
        &mut self,
        a: &str,
        b: &str,
        style: EdgeStyle,
        at_a: (i64, i64),
        at_b: (i64, i64),
    )
        requires
            old(self).wf(),
            in_range(style.length as int),
            in_range(at_a.0 as int),
            in_range(at_a.1 as int),
            in_range(at_b.0 as int),
            in_range(at_b.1 as int),
        ensures
            final(self).wf(),
            final(self)@ == old(self)@.with_edge(
                a@,
                b@,
                style,
                (at_a.0 as int, at_a.1 as int),
                (at_b.0 as int, at_b.1 as int),
            ),
    {
        proof {
            lemma_with_edge(
                self@,
                a@,
                b@,
                style,
                (at_a.0 as int, at_a.1 as int),
                (at_b.0 as int, at_b.1 as int),
            );
        }
        let from = self.place(a, at_a);
        let ghost g1 = self@;
        let to = self.place(b, at_b);
        let ghost g2 = self@;
        proof {
            lemma_with_node(g1, b@, (at_b.0 as int, at_b.1 as int));
            assert(g2.nodes[from as int].name == a@);
            lemma_index_of(g2, a@, from as int);
        }
        self.edges.push(
            Edge {
                a: a.to_owned(),
                b: b.to_owned(),
                visible: style.visible,
                length: style.length,
                from,
                to,
            },
        );
        proof {
            let h = old(self)@.with_edge(
                a@,
                b@,
                style,
                (at_a.0 as int, at_a.1 as int),
                (at_b.0 as int, at_b.1 as int),
            );
            assert(self@.nodes =~= h.nodes);
            assert(self@.edges =~= h.edges);
        }
    }

    /// Registers an edge from `a` to `b`. An endpoint that does not exist yet
    /// is created at a position drawn from the random stream, in `[0, 1)` on
    /// both axes; one that exists is left where it is. The payload `style`
    /// gives the visibility and rest length of the edge.
    pub fn register_edge(&mut self, a: &str, b: &str, style: &str) -> (r: Result<(), GraphError>)
        requires
            old(self).wf(),
        ensures
            final(self).wf(),
            old(self)@.after_edge(a@, b@, style@) == match r {
                Ok(()) => Ok::<GraphView, GraphError>(final(self)@),
                Err(e) => Err(e),
            },
            r is Err ==> *final(self) == *old(self),
    {
        let parsed = match parse_edge_style(style) {
            Ok(parsed) => parsed,
            Err(e) => {
                return Err(e);
            },
        };
        let xa = draw_coordinate(self.seed, self.draws, 0);
        let xb = draw_coordinate(self.seed, self.draws, 1);
        let ya = draw_coordinate(self.seed, self.draws, 2);
        let yb = draw_coordinate(self.seed, self.draws, 3);
        self.register_edge_at(a, b, parsed, (xa, ya), (xb, yb));
        self.draws = self.draws.wrapping_add(4);
        proof {
            let h = old(self)@.with_edge(
                a@,
                b@,
                parsed,
                old(self)@.next_place_a(),
                old(self)@.next_place_b(),
            ).after_draws();
            assert(self@.nodes =~= h.nodes);
            assert(self@.edges =~= h.edges);
        }
        Ok(())
    }

    /// Gives the node called `a` the visibility and colour of a style already
    /// parsed.
    pub fn apply_node_style(&mut self, a: &str, style: NodeStyle) -> (r: Result<(), GraphError>)
        requires
            old(self).wf(),
        ensures
            final(self).wf(),
            match r {
                Ok(()) => old(self)@.has_node(a@) && final(self)@ == old(self)@.with_node_style(
                    old(self)@.index_of(a@),
                    style.visible,
                    style.color@,
                ),
                Err(e) => e == GraphError::UnknownNodeReference && !old(self)@.has_node(a@)
                    && *final(self) == *old(self),
            },
    {
        match self.find(a) {
            None => Err(GraphError::UnknownNodeReference),
            Some(i) => {
                self.nodes[i].visible = style.visible;
                self.nodes[i].color = style.color;
                proof {
                    let h = old(self)@.with_node_style(i as int, style.visible, style.color@);
                    lemma_with_node_style(old(self)@, i as int, style.visible, style.color@);
                    assert(self@.nodes =~= h.nodes);
                    assert(self@.edges =~= h.edges);
                }
                Ok(())
            },
        }
    }

    /// Sets the visibility and colour of the node called `a` from the payload
    /// `style`. The node must have been created by an edge registration.
    pub fn register_node(&mut self, a: &str, style: &str) -> (r: Result<(), GraphError>)
        requires
            old(self).wf(),
        ensures
            final(self).wf(),
            old(self)@.after_node(a@, style@) == match r {
                Ok(()) => Ok::<GraphView, GraphError>(final(self)@),
                Err(e) => Err(e),
            },
            r is Err ==> *final(self) == *old(self),
    {
        let parsed = match parse_node_style(style) {
            Ok(parsed) => parsed,
            Err(e) => {
                return Err(e);
            },
        };
        self.apply_node_style(a, parsed)
    }
}

} // verus!
