//! The textual description of a graph: one statement per line.
//!
//! A line is `a-b` for an edge or `a` for the style of a node, optionally
//! followed by a bar and a style payload. Empty lines mean nothing.

use crate::error::GraphError;
use crate::graph::{empty_graph, lemma_registration, Graph, GraphView};
use crate::layout::lemma_steps;
use crate::text::{fields, split_text, texts};
use vstd::prelude::*;

verus! {

/// One statement of a description.
#[derive(Clone, Debug)]
pub enum Statement {
    /// Apply a style to a node.
    Node { name: String, style: String },
    /// Register an edge.
    Edge { a: String, b: String, style: String },
}

/// The mathematical content of a [`Statement`].
pub enum StatementView {
    Node { name: Seq<char>, style: Seq<char> },
    Edge { a: Seq<char>, b: Seq<char>, style: Seq<char> },
}

impl View for Statement {
    type V = StatementView;

    open spec fn view(&self) -> StatementView {
        match *self {
            Statement::Node { name, style } => StatementView::Node { name: name@, style: style@ },
            Statement::Edge { a, b, style } => StatementView::Edge { a: a@, b: b@, style: style@ },
        }
    }
}

/// Why a line of a description was refused.
#[derive(Clone, Copy, Debug, PartialEq, Eq, Structural)]
pub enum Cause {
    /// The line has more than one bar, or more than one hyphen in front of
    /// the bar.
    Malformed,
    /// The graph refused the statement.
    Refused(GraphError),
}

/// A refused line.
#[derive(Clone, Copy, Debug, PartialEq, Eq, Structural)]
pub struct LoadError {
    /// Index of the line in the description, counted from zero.
    pub line: usize,
    /// Why it was refused.
    pub cause: Cause,
}

/// The statement that a line stands for, if it is well formed: at most one
/// bar, with the style behind it, and in front of it one name or two names
/// with a hyphen between them.
pub open spec fn statement_of(line: Seq<char>) -> Option<StatementView> {
    let parts = fields(line, '|');
    let style = if parts.len() == 2 {
        parts[1]
    } else {
        Seq::empty()
    };
    let names = fields(parts[0], '-');
    if parts.len() > 2 {
        None
    } else if names.len() == 1 {
        Some(StatementView::Node { name: names[0], style })
    } else if names.len() == 2 {
        Some(StatementView::Edge { a: names[0], b: names[1], style })
    } else {
        None
    }
}

impl GraphView {
    /// What a statement makes of the graph.
    pub open spec fn after(self, statement: StatementView) -> Result<GraphView, GraphError> {
        match statement {
            StatementView::Node { name, style } => self.after_node(name, style),
            StatementView::Edge { a, b, style } => self.after_edge(a, b, style),
        }
    }

    /// What the first `count` lines of a description make of the graph, or
    /// the first of them that is refused.
    pub open spec fn after_lines(self, lines: Seq<Seq<char>>, count: int) -> Result<
        GraphView,
        LoadError,
    >
        decreases count,
    {
        if count <= 0 {
            Ok(self)
        } else {
            match self.after_lines(lines, count - 1) {
                Err(refused) => Err(refused),
                Ok(g) => if lines[count - 1].len() == 0 {
                    Ok(g)
                } else {
                    match statement_of(lines[count - 1]) {
                        None => Err(
                            LoadError { line: (count - 1) as usize, cause: Cause::Malformed },
                        ),
                        Some(statement) => match g.after(statement) {
                            Ok(h) => Ok(h),
                            Err(e) => Err(
                                LoadError { line: (count - 1) as usize, cause: Cause::Refused(e) },
                            ),
                        },
                    }
                },
            }
        }
    }

    /// What a description makes of the graph.
    pub open spec fn after_script(self, text: Seq<char>) -> Result<GraphView, LoadError> {
        self.after_lines(fields(text, '\n'), fields(text, '\n').len() as int)
    }
}

/// Reads the statement of a line.
pub fn parse_statement(line: &str) -> (r: Option<Statement>)
    ensures
        statement_of(line@) == match r {
            Some(statement) => Some(statement@),
            None => None,
        },
{
    let parts = split_text(line, '|');
    assert(texts(parts@)[0] == parts[0]@);
    if parts.len() > 2 {
        return None;
    }
    let style: String = if parts.len() == 2 {
        assert(texts(parts@)[1] == parts[1]@);
        parts[1].clone()
    } else {
        String::new()
    };
    let names = split_text(parts[0].as_str(), '-');
    assert(texts(names@)[0] == names[0]@);
    if names.len() == 1 {
        Some(Statement::Node { name: names[0].clone(), style })
    } else if names.len() == 2 {
        assert(texts(names@)[1] == names[1]@);
        Some(Statement::Edge { a: names[0].clone(), b: names[1].clone(), style })
    } else {
        None
    }
}

impl Graph {
    /// Carries out a statement.
    pub fn execute(&mut self, statement: &Statement) -> (r: Result<(), GraphError>)
        requires
            old(self).wf(),
        ensures
            final(self).wf(),
            old(self)@.after(statement@) == match r {
                Ok(()) => Ok::<GraphView, GraphError>(final(self)@),
                Err(e) => Err(e),
            },
            r is Err ==> *final(self) == *old(self),
    {
        match statement {
            Statement::Node { name, style } => self.register_node(name.as_str(), style.as_str()),
            Statement::Edge { a, b, style } => self.register_edge(
                a.as_str(),
                b.as_str(),
                style.as_str(),
            ),
        }
    }

    /// Carries out a description, line by line, up to the first line that is
    /// refused. The statements before that line stay carried out.
    pub fn load(&mut self, text: &str) -> (r: Result<(), LoadError>)
        requires
            old(self).wf(),
        ensures
            final(self).wf(),
            match r {
                Ok(()) => old(self)@.after_script(text@) == Ok::<GraphView, LoadError>(
                    final(self)@,
                ),
                Err(refused) => old(self)@.after_script(text@) == Err::<GraphView, LoadError>(
                    refused,
                ) && old(self)@.after_lines(fields(text@, '\n'), refused.line as int) == Ok::<
                    GraphView,
                    LoadError,
                >(final(self)@),
            },
    {
        let lines = split_text(text, '\n');
        let ghost all = fields(text@, '\n');
        let mut i: usize = 0;
        while i < lines.len()
            invariant
                self.wf(),
                i <= lines.len(),
                all == fields(text@, '\n'),
                all == texts(lines@),
                old(self)@.after_lines(all, i as int) == Ok::<GraphView, LoadError>(self@),
            decreases lines.len() - i,
        {
            assert(all[i as int] == lines[i as int]@);
            let ghost before = self@;
            if !lines[i].as_str().is_empty() {
                match parse_statement(lines[i].as_str()) {
                    None => {
                        let refused = LoadError { line: i, cause: Cause::Malformed };
                        proof {
                            assert(old(self)@.after_lines(all, i + 1) == Err::<
                                GraphView,
                                LoadError,
                            >(refused));
                            lemma_refused_stays(old(self)@, all, i + 1, all.len() as int);
                        }
                        return Err(refused);
                    },
                    Some(statement) => match self.execute(&statement) {
                        Ok(()) => {},
                        Err(e) => {
                            let refused = LoadError { line: i, cause: Cause::Refused(e) };
                            proof {
                                assert(old(self)@.after_lines(all, i + 1) == Err::<
                                    GraphView,
                                    LoadError,
                                >(refused));
                                lemma_refused_stays(old(self)@, all, i + 1, all.len() as int);
                            }
                            return Err(refused);
                        },
                    },
                }
            }
            i += 1;
        }
        Ok(())
    }
}

/// Once a line is refused, the description is refused with that line.
proof fn lemma_refused_stays(g: GraphView, lines: Seq<Seq<char>>, at: int, count: int)
    requires
        at <= count,
        g.after_lines(lines, at) is Err,
    ensures
        g.after_lines(lines, count) == g.after_lines(lines, at),
    decreases count - at,
{
    if at < count {
        lemma_refused_stays(g, lines, at, count - 1);
    }
}

/// The layout that a description leads to: the graph that the description
/// makes of an empty graph with the given seed, after the given number of
/// steps. `None` where the description is refused or a step fails.
pub open spec fn laid_out(seed: u64, text: Seq<char>, steps: nat) -> Option<GraphView> {
    match empty_graph(seed).after_script(text) {
        Ok(g) => g.steps(steps),
        Err(_) => None,
    }
}

/// Whatever lines of a description are carried out, the graph stays well
/// formed.
pub proof fn lemma_after_lines(g: GraphView, lines: Seq<Seq<char>>, count: int)
    requires
        g.wf(),
    ensures
        g.after_lines(lines, count) matches Ok(h) ==> h.wf(),
    decreases count,
{
    if count > 0 {
        lemma_after_lines(g, lines, count - 1);
        if g.after_lines(lines, count - 1) is Ok {
            let before = g.after_lines(lines, count - 1)->Ok_0;
            match statement_of(lines[count - 1]) {
                Some(StatementView::Node { name, style }) => {
                    lemma_registration(before, name, name, style);
                },
                Some(StatementView::Edge { a, b, style }) => {
                    lemma_registration(before, a, b, style);
                },
                None => {},
            }
        }
    }
}

/// No description and no number of steps leads to a coordinate out of
/// range: whatever layout a description leads to is a well-formed graph.
pub proof fn lemma_layout_stays_in_range(seed: u64, text: Seq<char>, steps: nat)
    ensures
        laid_out(seed, text, steps) matches Some(h) ==> h.wf(),
{
    let lines = fields(text, '\n');
    lemma_after_lines(empty_graph(seed), lines, lines.len() as int);
    if empty_graph(seed).after_script(text) is Ok {
        lemma_steps(empty_graph(seed).after_script(text)->Ok_0, steps);
    }
}

/// The layout is determined by the seed, the description and the number of
/// steps: two runs that agree in these three agree in the positions from
/// which the nodes start and in the layout they end with.
pub proof fn lemma_layout_is_determined(
    seed: u64,
    text: Seq<char>,
    steps: nat,
    other_seed: u64,
    other_text: Seq<char>,
    other_steps: nat,
)
    requires
        seed == other_seed,
        text == other_text,
        steps == other_steps,
    ensures
        empty_graph(seed).after_script(text) == empty_graph(other_seed).after_script(other_text),
        laid_out(seed, text, steps) == laid_out(other_seed, other_text, other_steps),
{
}

} // verus!
