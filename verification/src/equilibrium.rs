//! A lone spring settles: acting on two nodes that nothing else moves, it
//! never brings their distance further from its rest length.

use crate::fixed::{
    isqrt, lemma_isqrt, lemma_isqrt_at_least, lemma_isqrt_at_most, lemma_isqrt_monotone, trunc_div,
};
use crate::forces::{norm2, spring, SPRING_DIVISOR};
use crate::layout::spring_step;
use vstd::prelude::*;

verus! {

/// The distance of two positions, rounded down.
pub open spec fn distance(a: (int, int), b: (int, int)) -> int {
    isqrt(norm2(a.0 - b.0, a.1 - b.1))
}

/// How far the distance of two positions is from a rest length.
pub open spec fn deviation(a: (int, int), b: (int, int), length: int) -> int {
    let d = distance(a, b) - length;
    if d >= 0 {
        d
    } else {
        -d
    }
}

/// The two ends of a spring after it has acted once.
pub open spec fn sprung(a: (int, int), b: (int, int), length: int) -> ((int, int), (int, int)) {
    let t = spring(a, b, length);
    ((a.0 + t.0, a.1 + t.1), (b.0 - t.0, b.1 - t.1))
}

/// The two ends of a spring after it has acted `count` times.
pub open spec fn sprung_times(a: (int, int), b: (int, int), length: int, count: nat) -> (
    (int, int),
    (int, int),
)
    decreases count,
{
    if count == 0 {
        (a, b)
    } else {
        let ends = sprung_times(a, b, length, (count - 1) as nat);
        sprung(ends.0, ends.1, length)
    }
}

/// One coordinate of the offset between the ends of a spring that is too
/// long by `e`: the spring shortens it without turning it further than to
/// its mirror image, and where `2 e <= D` it keeps at least the share
/// `(D - 2 e) / D` of it.
proof fn lemma_shorter(v: int, e: int, big: int) -> (u: int)
    requires
        0 < e <= big,
    ensures
        u == v + 2 * trunc_div(-(e * v), big),
        u * u <= v * v,
        2 * e <= big ==> (big * u) * (big * u) >= ((big - 2 * e) * v) * ((big - 2 * e) * v),
{
    let u = v + 2 * trunc_div(-(e * v), big);
    let w = if v >= 0 {
        v
    } else {
        -v
    };
    assert(e * w >= 0) by (nonlinear_arith)
        requires
            e > 0,
            w >= 0,
    ;
    let q = (e * w) / big;
    vstd::arithmetic::div_mod::lemma_fundamental_div_mod(e * w, big);
    vstd::arithmetic::div_mod::lemma_mod_bound(e * w, big);
    assert(big * q <= e * w);
    assert(0 <= q) by (nonlinear_arith)
        requires
            big * q + big > e * w,
            e * w >= 0,
            big > 0,
    ;
    assert(q <= w) by (nonlinear_arith)
        requires
            big * q <= e * w,
            0 < e <= big,
            w >= 0,
            q >= 0,
    ;
    if v >= 0 {
        if e * v == 0 {
            assert(-(e * v) == 0);
        }
        assert(trunc_div(-(e * v), big) == -q);
        assert(u == w - 2 * q);
    } else {
        assert(e * v == -(e * w)) by (nonlinear_arith)
            requires
                w == -v,
        ;
        assert(trunc_div(-(e * v), big) == q);
        assert(u == -(w - 2 * q));
    }
    let z = w - 2 * q;
    assert(u * u == z * z) by (nonlinear_arith)
        requires
            u == z || u == -z,
    ;
    assert(v * v == w * w) by (nonlinear_arith)
        requires
            v == w || v == -w,
    ;
    assert(z * z <= w * w) by (nonlinear_arith)
        requires
            -w <= z <= w,
    ;
    if 2 * e <= big {
        let keep = (big - 2 * e) * w;
        assert(keep >= 0) by (nonlinear_arith)
            requires
                keep == (big - 2 * e) * w,
                big - 2 * e >= 0,
                w >= 0,
        ;
        assert(big * z >= keep) by (nonlinear_arith)
            requires
                z == w - 2 * q,
                big * q <= e * w,
                keep == (big - 2 * e) * w,
        ;
        assert((big * z) * (big * z) >= keep * keep) by (nonlinear_arith)
            requires
                big * z >= keep,
                keep >= 0,
        ;
        assert((big * u) * (big * u) == (big * z) * (big * z)) by (nonlinear_arith)
            requires
                u == z || u == -z,
        ;
        assert(((big - 2 * e) * v) * ((big - 2 * e) * v) == keep * keep) by (nonlinear_arith)
            requires
                keep == (big - 2 * e) * w,
                v == w || v == -w,
        ;
    }
    u
}

/// One coordinate of the offset between the ends of a spring that is too
/// short by `g`: the spring lengthens it, to at most the share
/// `(D + 2 g) / D` of it.
proof fn lemma_longer(v: int, g: int, big: int) -> (u: int)
    requires
        0 < g,
        0 < big,
    ensures
        u == v + 2 * trunc_div(-((-g) * v), big),
        u * u >= v * v,
        (big * u) * (big * u) <= ((big + 2 * g) * v) * ((big + 2 * g) * v),
{
    let u = v + 2 * trunc_div(-((-g) * v), big);
    let w = if v >= 0 {
        v
    } else {
        -v
    };
    assert(g * w >= 0) by (nonlinear_arith)
        requires
            g > 0,
            w >= 0,
    ;
    let q = (g * w) / big;
    vstd::arithmetic::div_mod::lemma_fundamental_div_mod(g * w, big);
    vstd::arithmetic::div_mod::lemma_mod_bound(g * w, big);
    assert(big * q <= g * w);
    assert(0 <= q) by (nonlinear_arith)
        requires
            big * q + big > g * w,
            g * w >= 0,
            big > 0,
    ;
    if v >= 0 {
        assert(-((-g) * v) == g * w) by (nonlinear_arith)
            requires
                w == v,
        ;
        assert(trunc_div(-((-g) * v), big) == q);
        assert(u == w + 2 * q);
    } else {
        assert(-((-g) * v) == -(g * w)) by (nonlinear_arith)
            requires
                w == -v,
        ;
        if g * w == 0 {
            assert(-(g * w) == 0);
        }
        assert(trunc_div(-((-g) * v), big) == -q);
        assert(u == -(w + 2 * q));
    }
    let z = w + 2 * q;
    assert(u * u == z * z) by (nonlinear_arith)
        requires
            u == z || u == -z,
    ;
    assert(v * v == w * w) by (nonlinear_arith)
        requires
            v == w || v == -w,
    ;
    assert(z * z >= w * w) by (nonlinear_arith)
        requires
            z >= w >= 0,
    ;
    let cap = (big + 2 * g) * w;
    assert(0 <= big * z <= cap) by (nonlinear_arith)
        requires
            z == w + 2 * q,
            big * q <= g * w,
            cap == (big + 2 * g) * w,
            big > 0,
            z >= 0,
    ;
    assert((big * z) * (big * z) <= cap * cap) by (nonlinear_arith)
        requires
            0 <= big * z <= cap,
    ;
    assert((big * u) * (big * u) == (big * z) * (big * z)) by (nonlinear_arith)
        requires
            u == z || u == -z,
    ;
    assert(((big + 2 * g) * v) * ((big + 2 * g) * v) == cap * cap) by (nonlinear_arith)
        requires
            cap == (big + 2 * g) * w,
            v == w || v == -w,
    ;
    u
}

/// A spring that acts alone on two nodes less than ten length units apart
/// does not increase the difference between their distance and its rest
/// length.
pub proof fn lemma_spring_settles(a: (int, int), b: (int, int), length: int)
    requires
        0 <= length,
        distance(a, b) < SPRING_DIVISOR,
    ensures
        deviation(sprung(a, b, length).0, sprung(a, b, length).1, length) <= deviation(
            a,
            b,
            length,
        ),
{
    let big = SPRING_DIVISOR as int;
    let dx = a.0 - b.0;
    let dy = a.1 - b.1;
    let n = norm2(dx, dy);
    assert(dx * dx >= 0 && dy * dy >= 0) by (nonlinear_arith);
    lemma_isqrt(n);
    let s = isqrt(n);
    let e = s - length;
    let t = spring(a, b, length);
    let ends = sprung(a, b, length);
    let ux = ends.0.0 - ends.1.0;
    let uy = ends.0.1 - ends.1.1;
    assert(ux == dx + 2 * t.0 && uy == dy + 2 * t.1);
    let m = norm2(ux, uy);
    assert(ux * ux >= 0 && uy * uy >= 0) by (nonlinear_arith);
    lemma_isqrt(m);
    let r = isqrt(m);
    assert(r == distance(ends.0, ends.1));
    if e == 0 {
        assert(e * dx == 0 && e * dy == 0) by (nonlinear_arith)
            requires
                e == 0,
        ;
        assert(t.0 == 0 && t.1 == 0);
    } else if e > 0 {
        let vx = lemma_shorter(dx, e, big);
        let vy = lemma_shorter(dy, e, big);
        assert(vx == ux && vy == uy);
        lemma_isqrt_monotone(m, n);
        if s - 2 * e > 0 {
            let keep = big - 2 * e;
            assert(keep * keep >= 0) by (nonlinear_arith);
            assert((big * ux) * (big * ux) + (big * uy) * (big * uy) == big * big * m)
                by (nonlinear_arith)
                requires
                    m == ux * ux + uy * uy,
            ;
            assert((keep * dx) * (keep * dx) + (keep * dy) * (keep * dy) == keep * keep * n)
                by (nonlinear_arith)
                requires
                    n == dx * dx + dy * dy,
            ;
            assert(keep * keep * n >= keep * keep * (s * s)) by (nonlinear_arith)
                requires
                    n >= s * s,
                    keep * keep >= 0,
            ;
            let goal = s - 2 * e;
            assert(keep * s >= big * goal) by (nonlinear_arith)
                requires
                    keep == big - 2 * e,
                    goal == s - 2 * e,
                    s <= big,
                    e > 0,
            ;
            assert(big * goal >= 0) by (nonlinear_arith)
                requires
                    big > 0,
                    goal > 0,
            ;
            assert((keep * s) * (keep * s) >= (big * goal) * (big * goal)) by (nonlinear_arith)
                requires
                    keep * s >= big * goal,
                    big * goal >= 0,
            ;
            assert(keep * keep * (s * s) == (keep * s) * (keep * s)) by (nonlinear_arith);
            assert((big * goal) * (big * goal) == big * big * (goal * goal)) by (nonlinear_arith);
            assert(big * big * m >= big * big * (goal * goal));
            assert(m >= goal * goal) by (nonlinear_arith)
                requires
                    big * big * m >= big * big * (goal * goal),
                    big > 0,
            ;
            lemma_isqrt_at_least(m, goal);
        }
    } else {
        let g = -e;
        assert(e * dx == (-g) * dx && e * dy == (-g) * dy);
        let vx = lemma_longer(dx, g, big);
        let vy = lemma_longer(dy, g, big);
        assert(vx == ux && vy == uy);
        lemma_isqrt_monotone(n, m);
        let cap = big + 2 * g;
        assert(cap * cap >= 0) by (nonlinear_arith);
        assert((big * ux) * (big * ux) + (big * uy) * (big * uy) == big * big * m)
            by (nonlinear_arith)
            requires
                m == ux * ux + uy * uy,
        ;
        assert((cap * dx) * (cap * dx) + (cap * dy) * (cap * dy) == cap * cap * n)
            by (nonlinear_arith)
            requires
                n == dx * dx + dy * dy,
        ;
        assert(cap * cap * n < cap * cap * ((s + 1) * (s + 1))) by (nonlinear_arith)
            requires
                n < (s + 1) * (s + 1),
                cap > 0,
        ;
        let goal = s + 2 * g + 1;
        assert(0 <= cap * (s + 1) <= big * goal) by (nonlinear_arith)
            requires
                cap == big + 2 * g,
                goal == s + 2 * g + 1,
                0 <= s,
                s + 1 <= big,
                g > 0,
        ;
        assert((cap * (s + 1)) * (cap * (s + 1)) <= (big * goal) * (big * goal))
            by (nonlinear_arith)
            requires
                0 <= cap * (s + 1) <= big * goal,
        ;
        assert(cap * cap * ((s + 1) * (s + 1)) == (cap * (s + 1)) * (cap * (s + 1)))
            by (nonlinear_arith);
        assert((big * goal) * (big * goal) == big * big * (goal * goal)) by (nonlinear_arith);
        assert(big * big * m < big * big * (goal * goal));
        assert(m < goal * goal) by (nonlinear_arith)
            requires
                big * big * m < big * big * (goal * goal),
                big > 0,
        ;
        lemma_isqrt_at_most(m, s + 2 * g);
    }
}

/// The spring may act any number of times: the difference never grows from
/// one time to the next. For this the rest length must not be negative, and
/// the rest length plus the difference at the start must be less than ten
/// length units, so that the nodes stay closer to each other than ten units
/// however the spring swings.
pub proof fn lemma_spring_settles_repeatedly(
    a: (int, int),
    b: (int, int),
    length: int,
    count: nat,
)
    requires
        0 <= length,
        length + deviation(a, b, length) < SPRING_DIVISOR,
    ensures
        ({
            let before = sprung_times(a, b, length, count);
            let after = sprung_times(a, b, length, count + 1);
            &&& deviation(after.0, after.1, length) <= deviation(before.0, before.1, length)
            &&& deviation(before.0, before.1, length) <= deviation(a, b, length)
        }),
    decreases count,
{
    if count > 0 {
        lemma_spring_settles_repeatedly(a, b, length, (count - 1) as nat);
    }
    let before = sprung_times(a, b, length, count);
    assert(sprung_times(a, b, length, count + 1) == sprung(before.0, before.1, length));
    lemma_spring_settles(before.0, before.1, length);
}

/// The spring pass over two nodes joined by one edge lets the spring act
/// once; under the conditions of [`lemma_spring_settles`] the pass does not
/// increase the difference between the distance of the nodes and the rest
/// length of the edge.
pub proof fn lemma_lone_edge_settles(a: (int, int), b: (int, int), length: int)
    requires
        0 <= length,
        distance(a, b) < SPRING_DIVISOR,
    ensures
        spring_step(seq![a, b], 0, 1, length) matches Some(settled) ==> {
            &&& settled.len() == 2
            &&& (settled[0], settled[1]) == sprung(a, b, length)
            &&& deviation(settled[0], settled[1], length) <= deviation(a, b, length)
        },
{
    lemma_spring_settles(a, b, length);
}

} // verus!
