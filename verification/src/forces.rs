//! The two forces of the layout: repulsion between every pair of nodes and
//! the spring along every edge.
//!
//! Both are stated on raw coordinates. With `S` the number of raw steps in a
//! length unit, a repulsion of strength 0.0003 over the squared distance
//! moves a node by `0.0003 * S^3 * dx / (d2 * sqrt(d2))` raw steps along `x`,
//! and a spring of stiffness 0.1 moves its ends by `0.1 * (d - length) * dx / S`.
//! Quotients are rounded toward zero and roots down.

use crate::fixed::{
    div_toward_zero, in_range, isqrt, lemma_isqrt, lemma_trunc_div_bound, sqrt_floor, trunc_div,
    COORD_MAX,
};
use vstd::prelude::*;

verus! {

/// Strength of the repulsion, 0.0003, times the cube of the scale.
pub const REPULSION: i128 = 300_000_000_000_000;

/// The scale divided by the stiffness of the springs, 0.1.
pub const SPRING_DIVISOR: i128 = 10_000_000;

/// The squared length of an offset.
pub open spec fn norm2(dx: int, dy: int) -> int {
    dx * dx + dy * dy
}

/// How far repulsion moves a node that stands at the offset `(dx, dy)` from
/// another: along the offset, by the strength over the squared distance.
pub open spec fn repulsion(dx: int, dy: int) -> (int, int)
    recommends
        dx != 0 || dy != 0,
{
    let d2 = norm2(dx, dy);
    let cube = d2 * isqrt(d2);
    (trunc_div(REPULSION * dx, cube), trunc_div(REPULSION * dy, cube))
}

/// The position `p` after the node at `o` has pushed it away, unless the two
/// coincide or the push carries `p` out of range.
pub open spec fn pushed(p: (int, int), o: (int, int)) -> Option<(int, int)> {
    if p == o {
        None
    } else {
        let f = repulsion(p.0 - o.0, p.1 - o.1);
        let q = (p.0 + f.0, p.1 + f.1);
        if in_range(q.0) && in_range(q.1) {
            Some(q)
        } else {
            None
        }
    }
}

/// How far a spring of rest length `length` between `a` and `b` moves `a`;
/// it moves `b` as far the other way. The move is the offset from `b` to `a`
/// times a tenth of the amount by which the spring is too short.
pub open spec fn spring(a: (int, int), b: (int, int), length: int) -> (int, int) {
    let dx = a.0 - b.0;
    let dy = a.1 - b.1;
    let stretch = isqrt(norm2(dx, dy)) - length;
    (
        trunc_div(-(stretch * dx), SPRING_DIVISOR as int),
        trunc_div(-(stretch * dy), SPRING_DIVISOR as int),
    )
}

/// The squared length of an offset between two positions in range is below
/// `9 * 10^24`, and so its root is below `3 * 10^12`.
pub proof fn lemma_norm_bounds(dx: int, dy: int)
    requires
        -2 * COORD_MAX <= dx <= 2 * COORD_MAX,
        -2 * COORD_MAX <= dy <= 2 * COORD_MAX,
    ensures
        0 <= dx * dx <= 4_000_000_000_000_000_000_000_000,
        0 <= dy * dy <= 4_000_000_000_000_000_000_000_000,
        0 <= norm2(dx, dy) <= 8_000_000_000_000_000_000_000_000,
        0 <= isqrt(norm2(dx, dy)) < 3_000_000_000_000,
        (dx != 0 || dy != 0) ==> norm2(dx, dy) >= 1 && isqrt(norm2(dx, dy)) >= 1,
{
    assert(0 <= dx * dx <= 4_000_000_000_000_000_000_000_000) by (nonlinear_arith)
        requires
            -2_000_000_000_000 <= dx <= 2_000_000_000_000,
    ;
    assert(0 <= dy * dy <= 4_000_000_000_000_000_000_000_000) by (nonlinear_arith)
        requires
            -2_000_000_000_000 <= dy <= 2_000_000_000_000,
    ;
    let d2 = norm2(dx, dy);
    lemma_isqrt(d2);
    let d = isqrt(d2);
    if d >= 3_000_000_000_000 {
        assert(d * d >= 9_000_000_000_000_000_000_000_000) by (nonlinear_arith)
            requires
                d >= 3_000_000_000_000,
        ;
    }
    if dx != 0 || dy != 0 {
        assert(dx * dx >= 1 || dy * dy >= 1) by (nonlinear_arith)
            requires
                dx != 0 || dy != 0,
        ;
        if d == 0 {
            assert((d + 1) * (d + 1) == 1) by (nonlinear_arith)
                requires
                    d == 0,
            ;
        }
    }
}

/// The squared distance of two distinct points times the distance is
/// positive.
pub proof fn lemma_cube_positive(dx: int, dy: int)
    requires
        dx != 0 || dy != 0,
    ensures
        norm2(dx, dy) >= 1,
        isqrt(norm2(dx, dy)) >= 1,
        norm2(dx, dy) * isqrt(norm2(dx, dy)) >= 1,
{
    assert(dx * dx >= 0 && dy * dy >= 0 && (dx * dx >= 1 || dy * dy >= 1)) by (nonlinear_arith)
        requires
            dx != 0 || dy != 0,
    ;
    let d2 = norm2(dx, dy);
    lemma_isqrt(d2);
    let d = isqrt(d2);
    if d == 0 {
        assert((d + 1) * (d + 1) == 1) by (nonlinear_arith)
            requires
                d == 0,
        ;
    }
    assert(d2 * d >= 1) by (nonlinear_arith)
        requires
            d2 >= 1,
            d >= 1,
    ;
}

/// The repulsion between two nodes at the offset `(dx, dy)`.
pub fn repulsion_between(dx: i64, dy: i64) -> (f: (i128, i128))
    requires
        -2 * COORD_MAX <= dx <= 2 * COORD_MAX,
        -2 * COORD_MAX <= dy <= 2 * COORD_MAX,
        dx != 0 || dy != 0,
    ensures
        (f.0 as int, f.1 as int) == repulsion(dx as int, dy as int),
        -REPULSION * 2 * COORD_MAX <= f.0 <= REPULSION * 2 * COORD_MAX,
        -REPULSION * 2 * COORD_MAX <= f.1 <= REPULSION * 2 * COORD_MAX,
{
    proof {
        lemma_norm_bounds(dx as int, dy as int);
    }
    let wx: i128 = dx as i128;
    let wy: i128 = dy as i128;
    assert(wx * wx + wy * wy == norm2(dx as int, dy as int));
    let d2: i128 = wx * wx + wy * wy;
    let d: i128 = sqrt_floor(d2 as u128) as i128;
    assert(1 <= d2 * d <= 8_000_000_000_000_000_000_000_000 * 3_000_000_000_000)
        by (nonlinear_arith)
        requires
            1 <= d2 <= 8_000_000_000_000_000_000_000_000,
            1 <= d < 3_000_000_000_000,
    ;
    let cube: i128 = d2 * d;
    assert(-300_000_000_000_000 * 2_000_000_000_000 <= 300_000_000_000_000 * wx
        <= 300_000_000_000_000 * 2_000_000_000_000) by (nonlinear_arith)
        requires
            -2_000_000_000_000 <= wx <= 2_000_000_000_000,
    ;
    assert(-300_000_000_000_000 * 2_000_000_000_000 <= 300_000_000_000_000 * wy
        <= 300_000_000_000_000 * 2_000_000_000_000) by (nonlinear_arith)
        requires
            -2_000_000_000_000 <= wy <= 2_000_000_000_000,
    ;
    let fx: i128 = div_toward_zero(REPULSION * wx, cube);
    let fy: i128 = div_toward_zero(REPULSION * wy, cube);
    proof {
        lemma_trunc_div_bound(REPULSION * wx, cube as int);
        lemma_trunc_div_bound(REPULSION * wy, cube as int);
    }
    (fx, fy)
}

/// Pushes the position `p` away from the node at `o`.
pub fn push_apart(p: (i64, i64), o: (i64, i64)) -> (r: Option<(i64, i64)>)
    requires
        in_range(p.0 as int) && in_range(p.1 as int),
        in_range(o.0 as int) && in_range(o.1 as int),
    ensures
        match r {
            Some(q) => pushed((p.0 as int, p.1 as int), (o.0 as int, o.1 as int)) == Some(
                (q.0 as int, q.1 as int),
            ) && in_range(q.0 as int) && in_range(q.1 as int),
            None => pushed((p.0 as int, p.1 as int), (o.0 as int, o.1 as int)) is None,
        },
{
    if p.0 == o.0 && p.1 == o.1 {
        return None;
    }
    let f = repulsion_between(p.0 - o.0, p.1 - o.1);
    let x: i128 = p.0 as i128 + f.0;
    let y: i128 = p.1 as i128 + f.1;
    if x < -(COORD_MAX as i128) || x > COORD_MAX as i128 || y < -(COORD_MAX as i128) || y
        > COORD_MAX as i128 {
        return None;
    }
    Some((x as i64, y as i64))
}

/// The move that a spring of rest length `length` between `a` and `b` gives
/// to `a`.
pub fn spring_between(a: (i64, i64), b: (i64, i64), length: i64) -> (t: (i128, i128))
    requires
        in_range(a.0 as int) && in_range(a.1 as int),
        in_range(b.0 as int) && in_range(b.1 as int),
        in_range(length as int),
    ensures
        (t.0 as int, t.1 as int) == spring(
            (a.0 as int, a.1 as int),
            (b.0 as int, b.1 as int),
            length as int,
        ),
        -8_000_000_000_000_000_000_000_000 <= t.0 <= 8_000_000_000_000_000_000_000_000,
        -8_000_000_000_000_000_000_000_000 <= t.1 <= 8_000_000_000_000_000_000_000_000,
{
    let dx: i128 = a.0 as i128 - b.0 as i128;
    let dy: i128 = a.1 as i128 - b.1 as i128;
    proof {
        lemma_norm_bounds(dx as int, dy as int);
    }
    assert(dx * dx + dy * dy == norm2(dx as int, dy as int));
    let d2: i128 = dx * dx + dy * dy;
    let d: i128 = sqrt_floor(d2 as u128) as i128;
    let stretch: i128 = d - length as i128;
    assert(-8_000_000_000_000_000_000_000_000 <= stretch * dx <= 8_000_000_000_000_000_000_000_000)
        by (nonlinear_arith)
        requires
            -1_000_000_000_000 <= stretch < 4_000_000_000_000,
            -2_000_000_000_000 <= dx <= 2_000_000_000_000,
    ;
    assert(-8_000_000_000_000_000_000_000_000 <= stretch * dy <= 8_000_000_000_000_000_000_000_000)
        by (nonlinear_arith)
        requires
            -1_000_000_000_000 <= stretch < 4_000_000_000_000,
            -2_000_000_000_000 <= dy <= 2_000_000_000_000,
    ;
    let tx: i128 = div_toward_zero(-(stretch * dx), SPRING_DIVISOR);
    let ty: i128 = div_toward_zero(-(stretch * dy), SPRING_DIVISOR);
    proof {
        lemma_trunc_div_bound(-(stretch * dx), SPRING_DIVISOR as int);
        lemma_trunc_div_bound(-(stretch * dy), SPRING_DIVISOR as int);
    }
    (tx, ty)
}

/// Repulsion obeys the third law: what a node at the offset `(dx, dy)`
/// receives is the exact opposite of what a node at the offset `(-dx, -dy)`
/// receives, so the two nodes of a pair push each other equally far in
/// opposite directions.
pub proof fn lemma_repulsion_opposite(dx: int, dy: int)
    requires
        dx != 0 || dy != 0,
    ensures
        repulsion(-dx, -dy) == (-repulsion(dx, dy).0, -repulsion(dx, dy).1),
{
    lemma_cube_positive(dx, dy);
    let cube = norm2(dx, dy) * isqrt(norm2(dx, dy));
    vstd::arithmetic::div_mod::lemma_basic_div(0, cube);
    assert(norm2(-dx, -dy) == norm2(dx, dy)) by (nonlinear_arith);
    assert(REPULSION * (-dx) == -(REPULSION * dx)) by (nonlinear_arith);
    assert(REPULSION * (-dy) == -(REPULSION * dy)) by (nonlinear_arith);
}

/// A spring moves its two ends equally far in opposite directions: seen from
/// the other end, the move is the opposite.
pub proof fn lemma_spring_opposite(a: (int, int), b: (int, int), length: int)
    ensures
        spring(b, a, length) == (-spring(a, b, length).0, -spring(a, b, length).1),
{
    let dx = a.0 - b.0;
    let dy = a.1 - b.1;
    assert(norm2(-dx, -dy) == norm2(dx, dy)) by (nonlinear_arith);
    let stretch = isqrt(norm2(dx, dy)) - length;
    assert(stretch * (-dx) == -(stretch * dx)) by (nonlinear_arith);
    assert(stretch * (-dy) == -(stretch * dy)) by (nonlinear_arith);
}

/// The third law for a push: where two nodes at different positions push
/// each other, one is moved exactly as far as the other, in the opposite
/// direction, as long as both stay in range.
pub proof fn lemma_push_opposite(p: (int, int), q: (int, int))
    requires
        p != q,
        pushed(p, q) is Some,
        pushed(q, p) is Some,
    ensures
        pushed(p, q)->Some_0.0 - p.0 == -(pushed(q, p)->Some_0.0 - q.0),
        pushed(p, q)->Some_0.1 - p.1 == -(pushed(q, p)->Some_0.1 - q.1),
{
    lemma_repulsion_opposite(p.0 - q.0, p.1 - q.1);
    assert(q.0 - p.0 == -(p.0 - q.0) && q.1 - p.1 == -(p.1 - q.1));
}

} // verus!
