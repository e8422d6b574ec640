//! One step of the force simulation: every node is pushed away from every
//! other, then every edge pulls its ends toward its rest length.

use crate::error::GraphError;
use crate::fixed::{in_range, COORD_MAX};
use crate::forces::{push_apart, pushed, spring, spring_between};
use crate::graph::{EdgeView, Graph, GraphView};
use crate::snapshot::{
    coincide, distinct, lemma_snapshot, lemma_twins, lists, placed, snapshot_of, Placed, Sample,
};
use vstd::prelude::*;

verus! {

/// The position `p` of the node `me` after the first `count` entries of the
/// snapshot have pushed it, one after the other; its own entry does not push.
/// `None` where one of the pushes is undefined or leads out of range.
pub open spec fn repelled(p: (int, int), me: int, entries: Seq<Placed>, count: int) -> Option<
    (int, int),
>
    decreases count,
{
    if count <= 0 {
        Some(p)
    } else {
        match repelled(p, me, entries, count - 1) {
            None => None,
            Some(q) => if entries[count - 1].node == me {
                Some(q)
            } else {
                pushed(q, entries[count - 1].position())
            },
        }
    }
}

/// Where the repulsion pass leaves the node `i`: pushed by the whole snapshot.
pub open spec fn repelled_by_all(positions: Seq<(int, int)>, i: int) -> Option<(int, int)> {
    repelled(positions[i], i, snapshot_of(positions), positions.len() as int)
}

/// The positions after the repulsion pass: every node is pushed by the
/// snapshot of all the others. `None` where this fails for one of the nodes.
pub open spec fn repulsion_pass(positions: Seq<(int, int)>) -> Option<Seq<(int, int)>> {
    if forall|i: int|
        0 <= i < positions.len() ==> (#[trigger] repelled_by_all(positions, i)) is Some {
        Some(Seq::new(positions.len(), |i: int| repelled_by_all(positions, i)->Some_0))
    } else {
        None
    }
}

/// The positions after the spring from node `from` to node `to` has acted:
/// `from` moves by the spring's pull and `to` as far the other way. `None`
/// where an end would leave the range of coordinates.
pub open spec fn spring_step(positions: Seq<(int, int)>, from: int, to: int, length: int) -> Option<
    Seq<(int, int)>,
> {
    let t = spring(positions[from], positions[to], length);
    let a = (positions[from].0 + t.0, positions[from].1 + t.1);
    let moved = positions.update(from, a);
    let b = (moved[to].0 - t.0, moved[to].1 - t.1);
    if in_range(a.0) && in_range(a.1) && in_range(b.0) && in_range(b.1) {
        Some(moved.update(to, b))
    } else {
        None
    }
}

/// The positions after the first `count` edges have acted as springs, in the
/// order of their registration and whether they are visible or not.
pub open spec fn spring_pass(positions: Seq<(int, int)>, edges: Seq<EdgeView>, count: int) -> Option<
    Seq<(int, int)>,
>
    decreases count,
{
    if count <= 0 {
        Some(positions)
    } else {
        match spring_pass(positions, edges, count - 1) {
            None => None,
            Some(p) => spring_step(
                p,
                edges[count - 1].from,
                edges[count - 1].to,
                edges[count - 1].length,
            ),
        }
    }
}

impl GraphView {
    /// The graph after one step of the layout: the repulsion pass, then the
    /// spring pass. `None` where two nodes coincide or a force would carry a
    /// node out of range.
    pub open spec fn step(self) -> Option<GraphView> {
        let start = self.positions();
        if !distinct(start) {
            None
        } else {
            match repulsion_pass(start) {
                None => None,
                Some(apart) => match spring_pass(apart, self.edges, self.edges.len() as int) {
                    None => None,
                    Some(settled) => Some(self.with_positions(settled)),
                },
            }
        }
    }

    /// The graph after `count` steps, if each of them succeeds.
    pub open spec fn steps(self, count: nat) -> Option<GraphView>
        decreases count,
    {
        if count == 0 {
            Some(self)
        } else {
            match self.steps((count - 1) as nat) {
                None => None,
                Some(g) => g.step(),
            }
        }
    }
}

/// The positions held by a list of pairs.
pub open spec fn points(pairs: Seq<(i64, i64)>) -> Seq<(int, int)> {
    Seq::new(pairs.len(), |i: int| (pairs[i].0 as int, pairs[i].1 as int))
}

/// Whether all positions are in range.
pub open spec fn all_in_range(positions: Seq<(int, int)>) -> bool {
    forall|i: int|
        0 <= i < positions.len() ==> in_range((#[trigger] positions[i]).0) && in_range(
            positions[i].1,
        )
}

/// Once a push has failed, the node stays without a position.
proof fn lemma_repelled_fails(p: (int, int), me: int, entries: Seq<Placed>, at: int, count: int)
    requires
        at <= count,
        repelled(p, me, entries, at) is None,
    ensures
        repelled(p, me, entries, count) is None,
    decreases count - at,
{
    if at < count {
        lemma_repelled_fails(p, me, entries, at, count - 1);
    }
}

/// Once a spring has failed, the pass has no result.
proof fn lemma_spring_pass_fails(
    positions: Seq<(int, int)>,
    edges: Seq<EdgeView>,
    at: int,
    count: int,
)
    requires
        at <= count,
        spring_pass(positions, edges, at) is None,
    ensures
        spring_pass(positions, edges, count) is None,
    decreases count - at,
{
    if at < count {
        lemma_spring_pass_fails(positions, edges, at, count - 1);
    }
}

/// Moving the nodes within range keeps a graph well formed.
pub proof fn lemma_with_positions(g: GraphView, positions: Seq<(int, int)>)
    requires
        g.wf(),
        positions.len() == g.nodes.len(),
        all_in_range(positions),
    ensures
        g.with_positions(positions).wf(),
        g.with_positions(positions).positions() == positions,
{
    let h = g.with_positions(positions);
    assert forall|i: int, j: int| 0 <= i < j < h.nodes.len() implies h.nodes[i].name
        != h.nodes[j].name by {
        assert(g.nodes[i].name != g.nodes[j].name);
    }
    assert forall|i: int| 0 <= i < h.nodes.len() implies in_range(#[trigger] h.nodes[i].x)
        && in_range(h.nodes[i].y) by {
        assert(in_range(positions[i].0));
    }
    assert forall|k: int| 0 <= k < h.edges.len() implies h.edge_wf(#[trigger] h.edges[k]) by {
        assert(g.edge_wf(g.edges[k]));
    }
    assert(h.positions() =~= positions);
}

/// A node that starts in range is in range after any number of pushes.
proof fn lemma_repelled_in_range(p: (int, int), me: int, entries: Seq<Placed>, count: int)
    requires
        in_range(p.0) && in_range(p.1),
    ensures
        repelled(p, me, entries, count) matches Some(q) ==> in_range(q.0) && in_range(q.1),
    decreases count,
{
    if count > 0 {
        lemma_repelled_in_range(p, me, entries, count - 1);
    }
}

/// Positions that start in range are in range after any number of springs,
/// and as many as before.
proof fn lemma_spring_pass_in_range(positions: Seq<(int, int)>, edges: Seq<EdgeView>, count: int)
    requires
        all_in_range(positions),
        forall|k: int|
            0 <= k < edges.len() ==> 0 <= (#[trigger] edges[k]).from < positions.len() && 0
                <= edges[k].to < positions.len(),
        count <= edges.len(),
    ensures
        spring_pass(positions, edges, count) matches Some(settled) ==> all_in_range(settled)
            && settled.len() == positions.len(),
    decreases count,
{
    if count > 0 {
        lemma_spring_pass_in_range(positions, edges, count - 1);
        if spring_pass(positions, edges, count - 1) is Some {
            let before = spring_pass(positions, edges, count - 1)->Some_0;
            let e = edges[count - 1];
            if spring_step(before, e.from, e.to, e.length) is Some {
                let after = spring_step(before, e.from, e.to, e.length)->Some_0;
                assert forall|i: int| 0 <= i < after.len() implies in_range(
                    (#[trigger] after[i]).0,
                ) && in_range(after[i].1) by {
                    if i != e.from && i != e.to {
                        assert(after[i] == before[i]);
                    }
                }
            }
        }
    }
}

/// A step never carries a node out of range: whatever a well-formed graph
/// becomes by a step is well formed, with the same nodes, edges and random
/// stream, only at other positions.
pub proof fn lemma_step(g: GraphView)
    requires
        g.wf(),
    ensures
        g.step() matches Some(h) ==> {
            &&& h.wf()
            &&& h == g.with_positions(h.positions())
            &&& h.nodes.len() == g.nodes.len()
        },
{
    if g.step() is Some {
        let start = g.positions();
        let apart = repulsion_pass(start)->Some_0;
        assert forall|i: int| 0 <= i < apart.len() implies in_range((#[trigger] apart[i]).0)
            && in_range(apart[i].1) by {
            assert(repelled_by_all(start, i) is Some);
            assert(in_range(g.nodes[i].x) && in_range(g.nodes[i].y));
            lemma_repelled_in_range(start[i], i, snapshot_of(start), start.len() as int);
        }
        assert forall|k: int| 0 <= k < g.edges.len() implies 0 <= (#[trigger] g.edges[k]).from
            < apart.len() && 0 <= g.edges[k].to < apart.len() by {
            assert(g.edge_wf(g.edges[k]));
        }
        lemma_spring_pass_in_range(apart, g.edges, g.edges.len() as int);
        let settled = spring_pass(apart, g.edges, g.edges.len() as int)->Some_0;
        lemma_with_positions(g, settled);
    }
}

/// Any number of steps keeps a graph well formed: no coordinate ever leaves
/// the range.
pub proof fn lemma_steps(g: GraphView, count: nat)
    requires
        g.wf(),
    ensures
        g.steps(count) matches Some(h) ==> h.wf() && h.nodes.len() == g.nodes.len(),
    decreases count,
{
    if count > 0 {
        lemma_steps(g, (count - 1) as nat);
        if g.steps((count - 1) as nat) is Some {
            lemma_step(g.steps((count - 1) as nat)->Some_0);
        }
    }
}

impl Graph {
    /// Where the repulsion of the snapshot leaves the node `i`.
    fn repel_node(&self, i: usize, samples: &Vec<Sample>) -> (r: Option<(i64, i64)>)
        requires
            self.wf(),
            i < self.nodes.len(),
            samples.len() == self.nodes.len(),
            placed(samples@) == snapshot_of(self@.positions()),
        ensures
            match r {
                Some(q) => repelled_by_all(self@.positions(), i as int) == Some(
                    (q.0 as int, q.1 as int),
                ) && in_range(q.0 as int) && in_range(q.1 as int),
                None => repelled_by_all(self@.positions(), i as int) is None,
            },
    {
        let ghost entries = placed(samples@);
        let ghost p = self@.positions()[i as int];
        let mut q: (i64, i64) = (self.nodes[i].x, self.nodes[i].y);
        proof {
            assert(in_range(self@.nodes[i as int].x) && in_range(self@.nodes[i as int].y));
            lemma_snapshot(self@.positions());
        }
        let mut k: usize = 0;
        while k < samples.len()
            invariant
                self.wf(),
                k <= samples.len(),
                i < self.nodes.len(),
                samples.len() == self.nodes.len(),
                entries == placed(samples@),
                entries == snapshot_of(self@.positions()),
                lists(entries, self@.positions()),
                p == self@.positions()[i as int],
                in_range(q.0 as int) && in_range(q.1 as int),
                repelled(p, i as int, entries, k as int) == Some((q.0 as int, q.1 as int)),
            decreases samples.len() - k,
        {
            let other = samples[k];
            proof {
                assert(entries[k as int] == other@);
                let origin = self@.nodes[entries[k as int].node];
                assert(in_range(origin.x) && in_range(origin.y));
                assert(entries[k as int].position() == self@.positions()[entries[k as int].node]);
            }
            if other.node != i {
                match push_apart(q, (other.x, other.y)) {
                    Some(r) => {
                        q = r;
                    },
                    None => {
                        proof {
                            assert(repelled(p, i as int, entries, k + 1) is None);
                            lemma_repelled_fails(
                                p,
                                i as int,
                                entries,
                                k + 1,
                                samples.len() as int,
                            );
                        }
                        return None;
                    },
                }
            }
            k += 1;
        }
        Some(q)
    }

    /// The positions after the repulsion pass.
    fn repel(&self, samples: &Vec<Sample>) -> (r: Option<Vec<(i64, i64)>>)
        requires
            self.wf(),
            samples.len() == self.nodes.len(),
            placed(samples@) == snapshot_of(self@.positions()),
        ensures
            match r {
                Some(apart) => repulsion_pass(self@.positions()) == Some(points(apart@))
                    && all_in_range(points(apart@)) && apart.len() == self.nodes.len(),
                None => repulsion_pass(self@.positions()) is None,
            },
    {
        let ghost start = self@.positions();
        let mut apart: Vec<(i64, i64)> = Vec::new();
        let mut i: usize = 0;
        while i < self.nodes.len()
            invariant
                self.wf(),
                i <= self.nodes.len(),
                apart.len() == i,
                start == self@.positions(),
                samples.len() == self.nodes.len(),
                placed(samples@) == snapshot_of(start),
                forall|j: int|
                    0 <= j < i ==> (#[trigger] repelled_by_all(start, j)) == Some(
                        (apart[j].0 as int, apart[j].1 as int),
                    ) && in_range(apart[j].0 as int) && in_range(apart[j].1 as int),
            decreases self.nodes.len() - i,
        {
            match self.repel_node(i, samples) {
                Some(q) => {
                    apart.push(q);
                },
                None => {
                    assert(repelled_by_all(start, i as int) is None);
                    return None;
                },
            }
            i += 1;
        }
        proof {
            assert forall|j: int| 0 <= j < start.len() implies (#[trigger] repelled_by_all(
                start,
                j,
            )) is Some by {}
            assert(repulsion_pass(start)->Some_0 =~= points(apart@));
            assert forall|j: int| 0 <= j < points(apart@).len() implies in_range(
                (#[trigger] points(apart@)[j]).0,
            ) && in_range(points(apart@)[j].1) by {
                assert(repelled_by_all(start, j) is Some);
            }
        }
        Some(apart)
    }

    /// Lets the springs act on `positions`, edge after edge.
    fn pull(&self, positions: &mut Vec<(i64, i64)>) -> (ok: bool)
        requires
            self.wf(),
            old(positions).len() == self.nodes.len(),
            all_in_range(points(old(positions)@)),
        ensures
            final(positions).len() == self.nodes.len(),
            match spring_pass(points(old(positions)@), self@.edges, self@.edges.len() as int) {
                Some(settled) => ok && points(final(positions)@) == settled && all_in_range(
                    settled,
                ),
                None => !ok,
            },
    {
        let ghost start = points(positions@);
        let mut k: usize = 0;
        while k < self.edges.len()
            invariant
                self.wf(),
                k <= self.edges.len(),
                positions.len() == self.nodes.len(),
                start == points(old(positions)@),
                all_in_range(points(positions@)),
                spring_pass(start, self@.edges, k as int) == Some(points(positions@)),
            decreases self.edges.len() - k,
        {
            proof {
                assert(self@.edge_wf(self@.edges[k as int]));
            }
            let from = self.edges[k].from;
            let to = self.edges[k].to;
            let length = self.edges[k].length;
            let ghost before = points(positions@);
            let a = positions[from];
            let b = positions[to];
            assert(before[from as int] == (a.0 as int, a.1 as int));
            assert(before[to as int] == (b.0 as int, b.1 as int));
            let t = spring_between(a, b, length);
            let ax: i128 = a.0 as i128 + t.0;
            let ay: i128 = a.1 as i128 + t.1;
            if ax < -(COORD_MAX as i128) || ax > COORD_MAX as i128 || ay < -(COORD_MAX as i128)
                || ay > COORD_MAX as i128 {
                proof {
                    assert(spring_pass(start, self@.edges, k + 1) is None);
                    lemma_spring_pass_fails(start, self@.edges, k + 1, self@.edges.len() as int);
                }
                return false;
            }
            positions.set(from, (ax as i64, ay as i64));
            let ghost moved = points(positions@);
            assert(moved =~= before.update(from as int, (ax as int, ay as int)));
            let c = positions[to];
            assert(moved[to as int] == (c.0 as int, c.1 as int));
            let bx: i128 = c.0 as i128 - t.0;
            let by: i128 = c.1 as i128 - t.1;
            if bx < -(COORD_MAX as i128) || bx > COORD_MAX as i128 || by < -(COORD_MAX as i128)
                || by > COORD_MAX as i128 {
                proof {
                    assert(spring_pass(start, self@.edges, k + 1) is None);
                    lemma_spring_pass_fails(start, self@.edges, k + 1, self@.edges.len() as int);
                }
                return false;
            }
            positions.set(to, (bx as i64, by as i64));
            proof {
                let after = points(positions@);
                assert(after =~= moved.update(to as int, (bx as int, by as int)));
                assert(spring_step(before, from as int, to as int, length as int) == Some(after));
                assert forall|i: int| 0 <= i < after.len() implies in_range(
                    (#[trigger] after[i]).0,
                ) && in_range(after[i].1) by {
                    if i != from && i != to {
                        assert(after[i] == before[i]);
                    }
                }
            }
            k += 1;
        }
        true
    }

    /// Performs one step of the layout: from a snapshot of the positions,
    /// ordered by position, every node is pushed away from every other node;
    /// then every edge, visible or not, pulls its ends toward its rest
    /// length. Fails, and leaves the graph as it was, where two nodes
    /// coincide or a node would leave the range of coordinates.
    pub fn iterate(&mut self) -> (r: Result<(), GraphError>)
        requires
            old(self).wf(),
        ensures
            final(self).wf(),
            match r {
                Ok(()) => old(self)@.step() == Some(final(self)@),
                Err(e) => e == GraphError::NumericInstability && old(self)@.step() is None
                    && *final(self) == *old(self),
            },
    {
        let samples = self.snapshot();
        let n = self.nodes.len();
        proof {
            lemma_snapshot(self@.positions());
            lemma_twins(placed(samples@), self@.positions());
        }
        if coincide(&samples) {
            return Err(GraphError::NumericInstability);
        }
        let mut positions = match self.repel(&samples) {
            Some(apart) => apart,
            None => {
                return Err(GraphError::NumericInstability);
            },
        };
        if !self.pull(&mut positions) {
            return Err(GraphError::NumericInstability);
        }
        let ghost settled = points(positions@);
        proof {
            lemma_with_positions(self@, settled);
        }
        let ghost goal = self@.with_positions(settled);
        let mut i: usize = 0;
        while i < n
            invariant
                i <= n,
                n == self.nodes.len(),
                n == old(self).nodes.len(),
                positions.len() == n,
                settled == points(positions@),
                goal == old(self)@.with_positions(settled),
                self.edges == old(self).edges,
                self.seed == old(self).seed,
                self.draws == old(self).draws,
                forall|j: int| 0 <= j < i ==> (#[trigger] self.nodes[j])@ == goal.nodes[j],
                forall|j: int| i <= j < n ==> #[trigger] self.nodes[j] == old(self).nodes[j],
            decreases n - i,
        {
            let p = positions[i];
            assert(settled[i as int] == (p.0 as int, p.1 as int));
            self.nodes[i].x = p.0;
            self.nodes[i].y = p.1;
            i += 1;
        }
        proof {
            assert(self@.nodes =~= goal.nodes);
            assert(self@.edges =~= goal.edges);
        }
        Ok(())
    }

    /// Performs `count` steps of the layout, or as many as succeed: the graph
    /// is left as the last successful step made it.
    pub fn run(&mut self, count: usize) -> (r: Result<(), GraphError>)
        requires
            old(self).wf(),
        ensures
            final(self).wf(),
            match r {
                Ok(()) => old(self)@.steps(count as nat) == Some(final(self)@),
                Err(e) => e == GraphError::NumericInstability && exists|done: nat|
                    done < count && #[trigger] old(self)@.steps(done) == Some(final(self)@)
                        && final(self)@.step() is None,
            },
    {
        let mut done: usize = 0;
        while done < count
            invariant
                done <= count,
                self.wf(),
                old(self)@.steps(done as nat) == Some(self@),
            decreases count - done,
        {
            match self.iterate() {
                Ok(()) => {},
                Err(e) => {
                    return Err(e);
                },
            }
            done += 1;
        }
        Ok(())
    }
}

/// In a graph of two nodes the repulsion pass pushes each node once, away
/// from where the other stood, so the two are moved equally far in opposite
/// directions.
pub proof fn lemma_two_bodies(p: (int, int), q: (int, int))
    requires
        p != q,
    ensures
        repelled_by_all(seq![p, q], 0) == pushed(p, q),
        repelled_by_all(seq![p, q], 1) == pushed(q, p),
        repulsion_pass(seq![p, q]) matches Some(apart) ==> {
            &&& apart.len() == 2
            &&& apart[0].0 - p.0 == -(apart[1].0 - q.0)
            &&& apart[0].1 - p.1 == -(apart[1].1 - q.1)
        },
{
    let positions = seq![p, q];
    let entries = snapshot_of(positions);
    lemma_snapshot(positions);
    assert(entries.len() == 2);
    assert(crate::snapshot::has_entry(entries, 0) && crate::snapshot::has_entry(entries, 1));
    assert(entries[0].node != entries[1].node);
    reveal_with_fuel(repelled, 3);
    if entries[0].node == 0 {
        assert(entries[1].node == 1);
        assert(entries[0].position() == p && entries[1].position() == q);
    } else {
        assert(entries[0].node == 1 && entries[1].node == 0);
        assert(entries[0].position() == q && entries[1].position() == p);
    }
    assert(repelled_by_all(positions, 0) == pushed(p, q));
    assert(repelled_by_all(positions, 1) == pushed(q, p));
    if repulsion_pass(positions) is Some {
        let apart = repulsion_pass(positions)->Some_0;
        assert(repelled_by_all(positions, 0) is Some);
        assert(repelled_by_all(positions, 1) is Some);
        assert(apart[0] == pushed(p, q)->Some_0);
        assert(apart[1] == pushed(q, p)->Some_0);
        crate::forces::lemma_push_opposite(p, q);
    }
}

} // verus!
