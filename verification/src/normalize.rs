//! Rescaling a finished layout into the frame that a renderer draws.

use crate::error::GraphError;
use crate::fixed::in_range;
use crate::graph::{Graph, GraphView};
use vstd::prelude::*;

verus! {

/// Distance of the frame from the edges of the unit square: 0.1.
pub const FRAME_MARGIN: i64 = 100_000;

/// Width and height of the frame: 0.8.
pub const FRAME_SPAN: i64 = 800_000;

/// Where the frame puts a coordinate `v` of a layout that extends from `lo`
/// to `hi` on that axis: `lo` goes to 0.1, `hi` to 0.9, and what lies between
/// is placed in proportion, rounded down.
pub open spec fn rescale(v: int, lo: int, hi: int) -> int
    recommends
        lo <= v <= hi,
        lo < hi,
{
    (v - lo) * FRAME_SPAN / (hi - lo) + FRAME_MARGIN
}

impl GraphView {
    /// The horizontal coordinates of the nodes.
    pub open spec fn xs(self) -> Seq<int> {
        Seq::new(self.nodes.len(), |i: int| self.nodes[i].x)
    }

    /// The vertical coordinates of the nodes.
    pub open spec fn ys(self) -> Seq<int> {
        Seq::new(self.nodes.len(), |i: int| self.nodes[i].y)
    }

    /// Whether the nodes span an area: there are nodes, and they differ both
    /// in `x` and in `y`.
    pub open spec fn spans_area(self) -> bool {
        self.nodes.len() > 0 && self.xs().min() < self.xs().max() && self.ys().min()
            < self.ys().max()
    }

    /// The layout rescaled, axis by axis, so that its bounding box becomes
    /// the square from (0.1, 0.1) to (0.9, 0.9).
    pub open spec fn normalized(self) -> GraphView
        recommends
            self.spans_area(),
    {
        self.with_positions(
            Seq::new(
                self.nodes.len(),
                |i: int|
                    (
                        rescale(self.nodes[i].x, self.xs().min(), self.xs().max()),
                        rescale(self.nodes[i].y, self.ys().min(), self.ys().max()),
                    ),
            ),
        )
    }
}

/// The frame receives every coordinate between its borders, the least one on
/// the near border and the greatest on the far border.
pub proof fn lemma_rescale(v: int, lo: int, hi: int)
    requires
        lo <= v <= hi,
        lo < hi,
    ensures
        FRAME_MARGIN <= rescale(v, lo, hi) <= FRAME_MARGIN + FRAME_SPAN,
        rescale(lo, lo, hi) == FRAME_MARGIN,
        rescale(hi, lo, hi) == FRAME_MARGIN + FRAME_SPAN,
{
    let d = hi - lo;
    assert(0 <= (v - lo) * 800_000 <= d * 800_000) by (nonlinear_arith)
        requires
            0 <= v - lo <= d,
    ;
    vstd::arithmetic::div_mod::lemma_div_is_ordered(0, (v - lo) * 800_000, d);
    vstd::arithmetic::div_mod::lemma_div_is_ordered((v - lo) * 800_000, d * 800_000, d);
    vstd::arithmetic::div_mod::lemma_div_multiples_vanish(800_000, d);
    assert(d * 800_000 == 800_000 * d) by (nonlinear_arith);
    assert((lo - lo) * 800_000 == 0);
    assert(0int / d == 0) by (nonlinear_arith)
        requires
            d > 0,
    ;
}

/// After normalisation every node lies in the frame; a node that had the
/// least `x` of the layout has `x` = 0.1 and one that had the greatest has
/// `x` = 0.9, and likewise for `y`. Names, colours and flags are kept.
pub proof fn lemma_normalized(g: GraphView)
    requires
        g.wf(),
        g.spans_area(),
    ensures
        g.normalized().wf(),
        g.normalized().nodes.len() == g.nodes.len(),
        forall|i: int|
            0 <= i < g.nodes.len() ==> {
                let before = #[trigger] g.nodes[i];
                let after = g.normalized().nodes[i];
                &&& FRAME_MARGIN <= after.x <= FRAME_MARGIN + FRAME_SPAN
                &&& FRAME_MARGIN <= after.y <= FRAME_MARGIN + FRAME_SPAN
                &&& before.x == g.xs().min() ==> after.x == FRAME_MARGIN
                &&& before.x == g.xs().max() ==> after.x == FRAME_MARGIN + FRAME_SPAN
                &&& before.y == g.ys().min() ==> after.y == FRAME_MARGIN
                &&& before.y == g.ys().max() ==> after.y == FRAME_MARGIN + FRAME_SPAN
                &&& after == before.moved_to(after.position())
            },
{
    let h = g.normalized();
    g.xs().min_ensures();
    g.xs().max_ensures();
    g.ys().min_ensures();
    g.ys().max_ensures();
    assert forall|i: int| 0 <= i < g.nodes.len() implies {
        let before = #[trigger] g.nodes[i];
        let after = h.nodes[i];
        &&& FRAME_MARGIN <= after.x <= FRAME_MARGIN + FRAME_SPAN
        &&& FRAME_MARGIN <= after.y <= FRAME_MARGIN + FRAME_SPAN
        &&& before.x == g.xs().min() ==> after.x == FRAME_MARGIN
        &&& before.x == g.xs().max() ==> after.x == FRAME_MARGIN + FRAME_SPAN
        &&& before.y == g.ys().min() ==> after.y == FRAME_MARGIN
        &&& before.y == g.ys().max() ==> after.y == FRAME_MARGIN + FRAME_SPAN
        &&& after == before.moved_to(after.position())
    } by {
        assert(g.xs()[i] == g.nodes[i].x);
        assert(g.ys()[i] == g.nodes[i].y);
        lemma_rescale(g.nodes[i].x, g.xs().min(), g.xs().max());
        lemma_rescale(g.nodes[i].y, g.ys().min(), g.ys().max());
    }
    assert forall|i: int, j: int| 0 <= i < j < h.nodes.len() implies h.nodes[i].name
        != h.nodes[j].name by {
        assert(g.nodes[i].name != g.nodes[j].name);
    }
    assert forall|i: int| 0 <= i < h.nodes.len() implies in_range(#[trigger] h.nodes[i].x)
        && in_range(h.nodes[i].y) by {
        assert(FRAME_MARGIN <= h.nodes[i].x <= FRAME_MARGIN + FRAME_SPAN) by {
            let before = g.nodes[i];
        }
    }
    assert forall|k: int| 0 <= k < h.edges.len() implies h.edge_wf(#[trigger] h.edges[k]) by {
        assert(g.edge_wf(g.edges[k]));
    }
}

/// What `lo` and `hi` must satisfy to be the least and the greatest element
/// of `s`.
pub open spec fn bounds(s: Seq<int>, lo: int, hi: int) -> bool {
    &&& forall|i: int| 0 <= i < s.len() ==> lo <= #[trigger] s[i] <= hi
    &&& exists|i: int| 0 <= i < s.len() && s[i] == lo
    &&& exists|i: int| 0 <= i < s.len() && s[i] == hi
}

/// The least and the greatest element are the only bounds that are attained.
pub proof fn lemma_bounds(s: Seq<int>, lo: int, hi: int)
    requires
        bounds(s, lo, hi),
    ensures
        lo == s.min(),
        hi == s.max(),
{
    s.min_ensures();
    s.max_ensures();
    let i = choose|i: int| 0 <= i < s.len() && s[i] == lo;
    let j = choose|j: int| 0 <= j < s.len() && s[j] == hi;
    assert(s.min() <= s[i]);
    assert(s[j] <= s.max());
    assert(s.contains(s.min()));
    assert(s.contains(s.max()));
}

impl Graph {
    /// The smallest and the largest `x`, then the smallest and the largest
    /// `y`, over all nodes.
    fn bounding_box(&self) -> (r: (i64, i64, i64, i64))
        requires
            self.nodes.len() > 0,
        ensures
            r.0 == self@.xs().min(),
            r.1 == self@.xs().max(),
            r.2 == self@.ys().min(),
            r.3 == self@.ys().max(),
    {
        let mut min_x: i64 = self.nodes[0].x;
        let mut max_x: i64 = self.nodes[0].x;
        let mut min_y: i64 = self.nodes[0].y;
        let mut max_y: i64 = self.nodes[0].y;
        let mut i: usize = 1;
        let ghost xs = self@.xs();
        let ghost ys = self@.ys();
        assert(xs.take(1)[0] == min_x && ys.take(1)[0] == min_y);
        while i < self.nodes.len()
            invariant
                1 <= i <= self.nodes.len(),
                xs == self@.xs(),
                ys == self@.ys(),
                bounds(xs.take(i as int), min_x as int, max_x as int),
                bounds(ys.take(i as int), min_y as int, max_y as int),
            decreases self.nodes.len() - i,
        {
            let x: i64 = self.nodes[i].x;
            let y: i64 = self.nodes[i].y;
            proof {
                let px = xs.take(i as int);
                let py = ys.take(i as int);
                let qx = xs.take(i + 1);
                let qy = ys.take(i + 1);
                let ix_lo = choose|k: int| 0 <= k < px.len() && px[k] == min_x;
                let ix_hi = choose|k: int| 0 <= k < px.len() && px[k] == max_x;
                let iy_lo = choose|k: int| 0 <= k < py.len() && py[k] == min_y;
                let iy_hi = choose|k: int| 0 <= k < py.len() && py[k] == max_y;
                assert(qx[ix_lo] == min_x && qx[ix_hi] == max_x);
                assert(qy[iy_lo] == min_y && qy[iy_hi] == max_y);
                assert(qx[i as int] == x && qy[i as int] == y);
                assert forall|k: int| 0 <= k < qx.len() implies (if x < min_x {
                    x
                } else {
                    min_x
                }) <= #[trigger] qx[k] <= (if x > max_x {
                    x
                } else {
                    max_x
                }) by {
                    if k < i {
                        assert(px[k] == qx[k]);
                    }
                }
                assert forall|k: int| 0 <= k < qy.len() implies (if y < min_y {
                    y
                } else {
                    min_y
                }) <= #[trigger] qy[k] <= (if y > max_y {
                    y
                } else {
                    max_y
                }) by {
                    if k < i {
                        assert(py[k] == qy[k]);
                    }
                }
            }
            if x < min_x {
                min_x = x;
            }
            if x > max_x {
                max_x = x;
            }
            if y < min_y {
                min_y = y;
            }
            if y > max_y {
                max_y = y;
            }
            i += 1;
        }
        proof {
            assert(xs.take(i as int) =~= xs);
            assert(ys.take(i as int) =~= ys);
            lemma_bounds(xs, min_x as int, max_x as int);
            lemma_bounds(ys, min_y as int, max_y as int);
        }
        (min_x, max_x, min_y, max_y)
    }

    /// Rescales the layout, axis by axis, so that its bounding box becomes
    /// the square from (0.1, 0.1) to (0.9, 0.9). The aspect ratio is not
    /// kept. A layout without extent on one of the axes, or without nodes,
    /// cannot be rescaled.
    pub fn normalize(&mut self) -> (r: Result<(), GraphError>)
        requires
            old(self).wf(),
        ensures
            final(self).wf(),
            match r {
                Ok(()) => old(self)@.spans_area() && final(self)@ == old(self)@.normalized(),
                Err(e) => e == GraphError::DegenerateGeometry && !old(self)@.spans_area()
                    && *final(self) == *old(self),
            },
    {
        if self.nodes.len() == 0 {
            return Err(GraphError::DegenerateGeometry);
        }
        let (min_x, max_x, min_y, max_y) = self.bounding_box();
        if min_x == max_x || min_y == max_y {
            return Err(GraphError::DegenerateGeometry);
        }
        proof {
            let xs = self@.xs();
            let ys = self@.ys();
            xs.min_ensures();
            xs.max_ensures();
            ys.min_ensures();
            ys.max_ensures();
            lemma_normalized(self@);
            assert forall|k: int| 0 <= k < self.nodes.len() implies min_x <= (
            #[trigger] self.nodes[k]).x <= max_x && min_y <= self.nodes[k].y <= max_y by {
                assert(xs[k] == self.nodes[k].x && ys[k] == self.nodes[k].y);
            }
        }
        proof {
            let jx = choose|j: int| 0 <= j < self@.xs().len() && self@.xs()[j] == self@.xs().min();
            let jy = choose|j: int| 0 <= j < self@.ys().len() && self@.ys()[j] == self@.ys().min();
            assert(in_range(self@.nodes[jx].x) && in_range(self@.nodes[jy].y));
            let kx = choose|j: int| 0 <= j < self@.xs().len() && self@.xs()[j] == self@.xs().max();
            let ky = choose|j: int| 0 <= j < self@.ys().len() && self@.ys()[j] == self@.ys().max();
            assert(in_range(self@.nodes[kx].x) && in_range(self@.nodes[ky].y));
        }
        let ghost goal = self@.normalized();
        let n = self.nodes.len();
        let mut i: usize = 0;
        while i < n
            invariant
                i <= n,
                n == self.nodes.len(),
                n == old(self).nodes.len(),
                self.edges == old(self).edges,
                self.seed == old(self).seed,
                self.draws == old(self).draws,
                old(self).wf(),
                goal == old(self)@.normalized(),
                min_x == old(self)@.xs().min(),
                max_x == old(self)@.xs().max(),
                min_y == old(self)@.ys().min(),
                max_y == old(self)@.ys().max(),
                min_x < max_x,
                min_y < max_y,
                in_range(min_x as int) && in_range(min_y as int),
                in_range(max_x as int) && in_range(max_y as int),
                forall|k: int|
                    0 <= k < n ==> min_x <= (#[trigger] old(self).nodes[k]).x <= max_x && min_y
                        <= old(self).nodes[k].y <= max_y,
                forall|k: int| 0 <= k < i ==> (#[trigger] self.nodes[k])@ == goal.nodes[k],
                forall|k: int| i <= k < n ==> #[trigger] self.nodes[k] == old(self).nodes[k],
            decreases n - i,
        {
            let x: i64 = self.nodes[i].x;
            let y: i64 = self.nodes[i].y;
            proof {
                assert(self.nodes[i as int] == old(self).nodes[i as int]);
                assert(old(self)@.nodes[i as int].x == x);
                lemma_rescale(x as int, min_x as int, max_x as int);
                lemma_rescale(y as int, min_y as int, max_y as int);
                assert(in_range(old(self)@.nodes[i as int].x) && in_range(
                    old(self)@.nodes[i as int].y,
                ));
                assert(0 <= (x - min_x) * 800_000 <= 2_000_000_000_000 * 800_000)
                    by (nonlinear_arith)
                    requires
                        0 <= x - min_x <= 2_000_000_000_000,
                ;
                assert(0 <= (y - min_y) * 800_000 <= 2_000_000_000_000 * 800_000)
                    by (nonlinear_arith)
                    requires
                        0 <= y - min_y <= 2_000_000_000_000,
                ;
            }
            let new_x: i64 = (x - min_x) * FRAME_SPAN / (max_x - min_x) + FRAME_MARGIN;
            let new_y: i64 = (y - min_y) * FRAME_SPAN / (max_y - min_y) + FRAME_MARGIN;
            self.nodes[i].x = new_x;
            self.nodes[i].y = new_y;
            i += 1;
        }
        proof {
            assert(self@.nodes =~= goal.nodes);
            assert(self@.edges =~= goal.edges);
        }
        Ok(())
    }
}

} // verus!
