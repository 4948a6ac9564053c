//! How far the fixed-point walk of a pyramid and the walk that inverts it drift apart.
//!
//! The walk down turns a random number `t` into the share of the chosen weight at which it
//! lies; the walk that inverts it cuts a range `lo .. hi` of random numbers at the point that
//! splits it as the two weights. In exact arithmetic the point `lo + (hi - lo) * t` would stay
//! where it is. Rounded down to 63 binary places, it moves down by less than three units of
//! the last place at each choice.

use vstd::prelude::*;
use crate::arith::{
    lemma_div_parts, lemma_div_unique, lemma_mul_cancel, lemma_mul_le, lemma_mul_lt_both,
};
use crate::fixed::ONE;
use crate::grid::cell_or_zero;
use crate::hierarchical::{two_to, lemma_two_to_monotone};
use crate::hierarchical2d::{
    at_cell, between, choose_fixed, cols_of, narrow, narrow_level, narrowed, pyramid_grid_wf,
    standing, walk, walk_level, Bounds, Walk, lemma_block_under, lemma_choose_fixed,
    lemma_grid_level, lemma_grid_span, lemma_walk, lemma_walk_level,
};

verus! {

/// The point of the range `lo .. hi` at its share `t`, in units of which `ONE` make one unit
/// of the fixed-point scale.
pub open spec fn point(lo: int, hi: int, t: int) -> int {
    lo * ONE + (hi - lo) * t
}

/// The lower end of the range after a choice: the cut where the second weight was chosen.
pub open spec fn lower(first: int, second: int, lo: int, hi: int, t: int) -> int {
    if choose_fixed(first, second, t).0 {
        between(first, second, lo, hi)
    } else {
        lo
    }
}

/// The upper end of the range after a choice: the cut where the first weight was chosen.
pub open spec fn upper(first: int, second: int, lo: int, hi: int, t: int) -> int {
    if choose_fixed(first, second, t).0 {
        hi
    } else {
        between(first, second, lo, hi)
    }
}

proof fn lemma_left(w0: int, w: int, d: int, t: int)
    requires
        0 < w0 <= w,
        0 <= d <= ONE,
        0 <= t < ONE,
        t * w < w0 * ONE,
    ensures
        d * t - 2 * ONE <= ((d * w0) / w) * ((t * w) / w0) <= d * t,
{
    let fa = (d * w0) / w;
    let fb = (t * w) / w0;
    lemma_mul_le(0, d, 0, w0);
    lemma_mul_le(0, t, 0, w);
    lemma_div_parts(d * w0, w);
    lemma_div_parts(t * w, w0);
    let k = w * w0;
    assert(k > 0) by (nonlinear_arith)
        requires
            k == w * w0,
            w > 0,
            w0 > 0,
    ;
    // upper
    assert(fa * w <= d * w0);
    assert(fb * w0 <= t * w);
    lemma_mul_le(0, fa, 0, w);
    lemma_mul_le(0, fb, 0, w0);
    lemma_mul_le(fa * w, d * w0, fb * w0, t * w);
    assert((fa * w) * (fb * w0) == (fa * fb) * k && (d * w0) * (t * w) == (d * t) * k)
        by (nonlinear_arith)
        requires
            k == w * w0,
    ;
    lemma_mul_cancel(fa * fb, d * t, k);
    // lower
    assert(d * w0 < (fa + 1) * w) by (nonlinear_arith)
        requires
            d * w0 == fa * w + (d * w0) % w,
            (d * w0) % w < w,
    ;
    assert(t * w < (fb + 1) * w0) by (nonlinear_arith)
        requires
            t * w == fb * w0 + (t * w) % w0,
            (t * w) % w0 < w0,
    ;
    lemma_mul_lt_both(d * w0, (fa + 1) * w, t * w, (fb + 1) * w0);
    assert(((fa + 1) * w) * ((fb + 1) * w0) == ((fa + 1) * (fb + 1)) * k) by (nonlinear_arith)
        requires
            k == w * w0,
    ;
    lemma_mul_cancel(d * t, (fa + 1) * (fb + 1), k);
    assert((fa + 1) * (fb + 1) == fa * fb + fa + fb + 1) by (nonlinear_arith);
    lemma_mul_le(d, d, w0, w);
    assert(d * w == w * d) by (nonlinear_arith);
    assert(fa * w <= d * w);
    lemma_mul_cancel(fa, d, w);
    assert(fb < ONE) by {
        assert(fb * w0 < ONE * w0) by (nonlinear_arith)
            requires
                fb * w0 <= t * w,
                t * w < w0 * ONE,
        ;
        lemma_mul_cancel(fb, ONE as int, w0);
    }
}

proof fn lemma_right(w0: int, w1: int, d: int, t: int)
    requires
        0 <= w0,
        0 < w1,
        0 <= d <= ONE,
        0 <= t < ONE,
        t * (w0 + w1) >= w0 * ONE,
    ensures
        0 <= (d * w0) / (w0 + w1) <= d,
        0 <= (t * (w0 + w1) - w0 * ONE) / w1 < ONE,
        d * t - 3 * ONE <= ((d * w0) / (w0 + w1)) * ONE + (d - (d * w0) / (w0 + w1)) * ((t * (w0
            + w1) - w0 * ONE) / w1) <= d * t,
{
    let w = w0 + w1;
    let fa = (d * w0) / w;
    let ra = (d * w0) % w;
    let p = t * w;
    let r0 = w0 * ONE;
    let q = w1 * ONE;
    let fc = (p - r0) / w1;
    let rc = (p - r0) % w1;
    let e = d * w1;
    let k = w * w1;
    lemma_mul_le(0, d, 0, w0);
    lemma_mul_le(0, d, 0, w1);
    lemma_mul_le(0, t, 0, w);
    lemma_div_parts(d * w0, w);
    lemma_div_parts(p - r0, w1);
    assert(k > 0 && w * ONE == r0 + q && q > 0 && r0 >= 0) by (nonlinear_arith)
        requires
            k == w * w1,
            w == w0 + w1,
            w1 > 0,
            w0 >= 0,
            r0 == w0 * ONE,
            q == w1 * ONE,
    ;
    assert(p < w * ONE) by (nonlinear_arith)
        requires
            p == t * w,
            0 <= t < ONE,
            w > 0,
    ;
    // the cut lies in the range
    lemma_mul_le(d, d, w0, w);
    assert(d * w == w * d) by (nonlinear_arith);
    assert(fa * w <= d * w);
    lemma_mul_cancel(fa, d, w);
    // what is left of the number is below one
    assert(fc * w1 < ONE * w1) by (nonlinear_arith)
        requires
            p - r0 == fc * w1 + rc,
            rc >= 0,
            p < r0 + q,
            q == w1 * ONE,
    ;
    lemma_mul_cancel(fc, ONE as int, w1);
    let x = fa * ONE + (d - fa) * fc;
    let a = (d - fa) * w;
    let b = fc * w1;
    assert(a == e + ra) by (nonlinear_arith)
        requires
            a == (d - fa) * w,
            d * w0 == fa * w + ra,
            e == d * w1,
            w == w0 + w1,
    ;
    assert(b == p - r0 - rc);
    let rise = d - fa;
    assert((fa * ONE) * (w * w1) == (fa * w) * (w1 * ONE)) by (nonlinear_arith);
    assert((rise * fc) * (w * w1) == (rise * w) * (fc * w1)) by (nonlinear_arith);
    assert((fa * ONE + rise * fc) * k == (fa * ONE) * k + (rise * fc) * k) by (nonlinear_arith);
    assert(x * k == (fa * w) * q + a * b);
    assert((d * w0) * q == e * r0) by (nonlinear_arith)
        requires
            q == w1 * ONE,
            e == d * w1,
            r0 == w0 * ONE,
    ;
    assert((fa * w) * q == e * r0 - ra * q) by (nonlinear_arith)
        requires
            fa * w == d * w0 - ra,
            (d * w0) * q == e * r0,
    ;
    assert(a * b == e * p - e * r0 - e * rc + ra * p - ra * r0 - ra * rc) by (nonlinear_arith)
        requires
            a == e + ra,
            b == p - r0 - rc,
    ;
    assert(e * p == (d * t) * k) by (nonlinear_arith)
        requires
            e == d * w1,
            p == t * w,
            k == w * w1,
    ;
    let gap = w * ONE - p;
    assert(ra * gap == ra * r0 + ra * q - ra * p) by (nonlinear_arith)
        requires
            gap == r0 + q - p,
    ;
    let loss = e * rc + ra * gap + ra * rc;
    assert(x * k == (d * t) * k - loss);
    lemma_mul_le(0, e, 0, rc);
    lemma_mul_le(0, ra, 0, gap);
    lemma_mul_le(0, ra, 0, rc);
    assert(gap <= q);
    assert(e <= ONE * w1) by (nonlinear_arith)
        requires
            e == d * w1,
            d <= ONE,
            w1 > 0,
    ;
    lemma_mul_le(e, ONE * w1, rc, w);
    lemma_mul_le(ra, w, gap, q);
    lemma_mul_le(ra, w, rc, w1);
    assert((ONE * w1) * w == ONE * k && w * q == ONE * k && w * w1 <= ONE * k)
        by (nonlinear_arith)
        requires
            k == w * w1,
            q == w1 * ONE,
            k > 0,
    ;
    assert(loss <= 3 * (ONE * k));
    assert((d * t - 3 * ONE) * k == (d * t) * k - 3 * (ONE * k)) by (nonlinear_arith);
    lemma_mul_cancel(d * t - 3 * ONE, x, k);
    lemma_mul_cancel(x, d * t, k);
}

/// One choice of the walk down and the matching cut of the walk that inverts it: the range
/// stays within the range before, and its point at what is left of the random number lies
/// less than three units below the point before.
pub proof fn lemma_choice_drift(first: int, second: int, lo: int, hi: int, t: int)
    requires
        first >= 0,
        second >= 0,
        first + second > 0,
        0 <= lo <= hi <= ONE,
        0 <= t < ONE,
    ensures
        lo <= lower(first, second, lo, hi, t) <= upper(first, second, lo, hi, t) <= hi,
        point(lo, hi, t) - 3 * ONE <= point(
            lower(first, second, lo, hi, t),
            upper(first, second, lo, hi, t),
            choose_fixed(first, second, t).1,
        ) <= point(lo, hi, t),
{
    let w = first + second;
    let d = hi - lo;
    lemma_choose_fixed(first, second, t);
    let fa = (d * first) / w;
    assert(between(first, second, lo, hi) == lo + fa);
    assert(t * w == t * (first + second));
    if t * w < first * ONE {
        lemma_left(first, w, d, t);
        lemma_mul_le(0, d, 0, first);
        lemma_div_parts(d * first, w);
        lemma_mul_le(d, d, first, w);
        assert(d * w == w * d) by (nonlinear_arith);
        lemma_mul_cancel(fa, d, w);
        let fb = (t * w) / first;
        assert(point(lo, lo + fa, fb) == lo * ONE + fa * fb);
    } else {
        lemma_right(first, second, d, t);
        let fc = (t * w - first * ONE) / second;
        assert(point(lo + fa, hi, fc) == lo * ONE + (fa * ONE + (d - fa) * fc))
            by (nonlinear_arith)
            requires
                d == hi - lo,
        ;
    }
}

/// A choice against a weight of zero takes the other weight and leaves the number as it is.
pub proof fn lemma_choice_alone(first: int, t: int)
    requires
        first > 0,
        0 <= t < ONE,
    ensures
        choose_fixed(first, 0, t) == (false, t),
{
    assert(t * (first + 0) == t * first);
    assert(t * first < first * ONE) by (nonlinear_arith)
        requires
            0 <= t < ONE,
            first > 0,
    ;
    lemma_div_unique(t * first, first, t, 0);
}

/// Both ranges of random numbers lie in the unit interval, lower end first.
pub open spec fn ordered(b: Bounds) -> bool {
    0 <= b.u0 <= b.u1 <= ONE && 0 <= b.v0 <= b.v1 <= ONE
}

/// The walk from level `k` ends below the cell it stands at: among the `2^(L-k)` columns
/// and rows of the finest level that this cell spans.
pub proof fn lemma_walk_range(levels: Seq<Seq<Seq<u64>>>, k: int, at: Walk)
    requires
        0 <= k <= levels.len(),
        0 <= at.x,
        0 <= at.y,
    ensures
        ({
            let end = walk(levels, k, at);
            let span = two_to((levels.len() - k) as nat);
            &&& at.x * span <= end.x < (at.x + 1) * span
            &&& at.y * span <= end.y < (at.y + 1) * span
        }),
    decreases levels.len() - k,
{
    let span = two_to((levels.len() - k) as nat);
    if k < levels.len() {
        let next = walk_level(levels[k], at);
        lemma_walk_range(levels, k + 1, next);
        let half = two_to((levels.len() - k - 1) as nat);
        assert(span == 2 * half);
        let end = walk(levels, k, at);
        assert(at.x * span <= end.x < (at.x + 1) * span) by (nonlinear_arith)
            requires
                span == 2 * half,
                next.x == 2 * at.x || next.x == 2 * at.x + 1,
                next.x * half <= end.x < (next.x + 1) * half,
        ;
        assert(at.y * span <= end.y < (at.y + 1) * span) by (nonlinear_arith)
            requires
                span == 2 * half,
                next.y == 2 * at.y || next.y == 2 * at.y + 1,
                next.y * half <= end.y < (next.y + 1) * half,
        ;
    } else {
        assert(span == 1);
        assert(at.x * 1 == at.x && (at.x + 1) * 1 == at.x + 1);
        assert(at.y * 1 == at.y && (at.y + 1) * 1 == at.y + 1);
    }
}

/// One level of both walks: the walk that inverts follows the walk down to the same cell,
/// and the points of its two ranges move down by less than three units each.
pub proof fn lemma_level_drift(
    levels: Seq<Seq<Seq<u64>>>,
    k: int,
    at: Walk,
    b: Bounds,
    tx: int,
    ty: int,
)
    requires
        pyramid_grid_wf(levels),
        0 <= k < levels.len(),
        at_cell(levels, k, at.x, at.y),
        0 <= at.u < ONE,
        0 <= at.v < ONE,
        b.x == at.x,
        b.y == at.y,
        ordered(b),
        ({
            let next = walk_level(levels[k], at);
            let half = two_to((levels.len() - 1 - k) as nat);
            &&& next.x * half <= tx < (next.x + 1) * half
            &&& next.y * half <= ty < (next.y + 1) * half
        }),
    ensures
        ({
            let next = walk_level(levels[k], at);
            let cut = narrow_level(levels[k], two_to((levels.len() - 1 - k) as nat), tx, ty, b);
            &&& cut.x == next.x
            &&& cut.y == next.y
            &&& ordered(cut)
            &&& point(b.u0, b.u1, at.u) - 3 * ONE <= point(cut.u0, cut.u1, next.u) <= point(
                b.u0,
                b.u1,
                at.u,
            )
            &&& point(b.v0, b.v1, at.v) - 3 * ONE <= point(cut.v0, cut.v1, next.v) <= point(
                b.v0,
                b.v1,
                at.v,
            )
        }),
{
    let rows = levels[k];
    let half = two_to((levels.len() - 1 - k) as nat);
    let next = walk_level(rows, at);
    let cut = narrow_level(rows, half, tx, ty, b);
    lemma_block_under(levels, k, at.x, at.y);
    lemma_grid_level(levels, k);
    lemma_walk_level(levels, k, at);
    lemma_two_to_monotone(0, (levels.len() - 1 - k) as nat);
    let x = 2 * at.x;
    let y = 2 * at.y;
    let left = cell_or_zero(rows, x, y) + cell_or_zero(rows, x, y + 1);
    let right = cell_or_zero(rows, x + 1, y) + cell_or_zero(rows, x + 1, y + 1);
    lemma_choose_fixed(left, right, at.u);
    let across = choose_fixed(left, right, at.u);
    let column = next.x;
    assert((x + 1) * half == x * half + half && (x + 2) * half == x * half + 2 * half)
        by (nonlinear_arith);
    assert((y + 1) * half == y * half + half && (y + 2) * half == y * half + 2 * half)
        by (nonlinear_arith);
    if cols_of(rows) > 1 {
        lemma_choice_drift(left, right, b.u0 as int, b.u1 as int, at.u);
    } else {
        assert(right == 0) by {
            if 0 <= y < rows.len() {
                assert(rows[y].len() == cols_of(rows));
            }
            if 0 <= y + 1 < rows.len() {
                assert(rows[y + 1].len() == cols_of(rows));
            }
        }
        lemma_choice_alone(left, at.u);
    }
    let above = cell_or_zero(rows, column, y);
    let below = cell_or_zero(rows, column, y + 1);
    lemma_choose_fixed(above, below, at.v);
    if rows.len() > 1 {
        lemma_choice_drift(above, below, b.v0 as int, b.v1 as int, at.v);
    } else {
        assert(below == 0);
        lemma_choice_alone(above, at.v);
    }
}

/// Both walks from level `k` down: they end at the same cell, and the points of the two
/// ranges lie less than three units per level below where they started.
pub proof fn lemma_drift(levels: Seq<Seq<Seq<u64>>>, k: int, at: Walk, b: Bounds)
    requires
        pyramid_grid_wf(levels),
        0 <= k <= levels.len(),
        at_cell(levels, k, at.x, at.y),
        0 <= at.u < ONE,
        0 <= at.v < ONE,
        b.x == at.x,
        b.y == at.y,
        ordered(b),
    ensures
        ({
            let end = walk(levels, k, at);
            let cut = narrow(levels, k, end.x, end.y, b);
            let slack = 3 * ONE * (levels.len() - k);
            &&& cut.x == end.x
            &&& cut.y == end.y
            &&& ordered(cut)
            &&& point(b.u0, b.u1, at.u) - slack <= point(cut.u0, cut.u1, end.u) <= point(
                b.u0,
                b.u1,
                at.u,
            )
            &&& point(b.v0, b.v1, at.v) - slack <= point(cut.v0, cut.v1, end.v) <= point(
                b.v0,
                b.v1,
                at.v,
            )
        }),
    decreases levels.len() - k,
{
    if k < levels.len() {
        let end = walk(levels, k, at);
        let next = walk_level(levels[k], at);
        let half = two_to((levels.len() - 1 - k) as nat);
        lemma_walk_level(levels, k, at);
        assert(next.x >= 0 && next.y >= 0);
        lemma_walk_range(levels, k + 1, next);
        lemma_level_drift(levels, k, at, b, end.x, end.y);
        let step = narrow_level(levels[k], half, end.x, end.y, b);
        lemma_drift(levels, k + 1, next, step);
        assert(3 * ONE * (levels.len() - k) == 3 * ONE * (levels.len() - (k + 1)) + 3 * ONE)
            by (nonlinear_arith);
    } else {
        assert(3 * ONE * (levels.len() - k) == 0) by (nonlinear_arith)
            requires
                levels.len() - k == 0,
        ;
    }
}

/// The box of random numbers that the walk towards the cell `(x, y)` narrows to, from the
/// whole unit square.
pub open spec fn cell_box(levels: Seq<Seq<Seq<u64>>>, x: int, y: int) -> Bounds {
    narrow(levels, 0, x, y, narrowed(0, 0, 0, ONE as int, 0, ONE as int))
}

/// Two boxes have no pair of numbers in common: one ends where the other begins, across or
/// along.
pub open spec fn apart_boxes(p: Bounds, q: Bounds) -> bool {
    p.u1 <= q.u0 || q.u1 <= p.u0 || p.v1 <= q.v0 || q.v1 <= p.v0
}

/// A cut lies in the range that it cuts.
pub proof fn lemma_between(first: int, second: int, lo: int, hi: int)
    requires
        first >= 0,
        second >= 0,
        lo <= hi,
    ensures
        lo <= between(first, second, lo, hi) <= hi,
{
    if first + second != 0 {
        let w = first + second;
        let d = hi - lo;
        lemma_mul_le(0, d, 0, first);
        lemma_div_parts(d * first, w);
        lemma_mul_le(d, d, first, w);
        assert(d * w == w * d) by (nonlinear_arith);
        lemma_mul_cancel((d * first) / w, d, w);
    }
}

/// One level of the walk towards a cell keeps both ranges within the ranges before.
pub proof fn lemma_level_nested(rows: Seq<Seq<u64>>, half: int, tx: int, ty: int, b: Bounds)
    requires
        ordered(b),
    ensures
        ({
            let cut = narrow_level(rows, half, tx, ty, b);
            &&& ordered(cut)
            &&& b.u0 <= cut.u0 <= cut.u1 <= b.u1
            &&& b.v0 <= cut.v0 <= cut.v1 <= b.v1
            &&& cut.x == 2 * b.x || cut.x == 2 * b.x + 1
            &&& cut.y == 2 * b.y || cut.y == 2 * b.y + 1
        }),
{
    let x = 2 * b.x;
    let y = 2 * b.y;
    let cut = narrow_level(rows, half, tx, ty, b);
    lemma_between(
        cell_or_zero(rows, x, y) + cell_or_zero(rows, x, y + 1),
        cell_or_zero(rows, x + 1, y) + cell_or_zero(rows, x + 1, y + 1),
        b.u0,
        b.u1,
    );
    lemma_between(cell_or_zero(rows, cut.x, y), cell_or_zero(rows, cut.x, y + 1), b.v0, b.v1);
}

/// The walk towards a cell keeps both ranges within the ranges that it starts from.
pub proof fn lemma_nested(levels: Seq<Seq<Seq<u64>>>, k: int, tx: int, ty: int, b: Bounds)
    requires
        0 <= k <= levels.len(),
        ordered(b),
    ensures
        ({
            let cut = narrow(levels, k, tx, ty, b);
            &&& ordered(cut)
            &&& b.u0 <= cut.u0 <= cut.u1 <= b.u1
            &&& b.v0 <= cut.v0 <= cut.v1 <= b.v1
        }),
    decreases levels.len() - k,
{
    if k < levels.len() {
        let half = two_to((levels.len() - 1 - k) as nat);
        lemma_level_nested(levels[k], half, tx, ty, b);
        lemma_nested(levels, k + 1, tx, ty, narrow_level(levels[k], half, tx, ty, b));
    }
}

/// The boxes of two cells have no pair of numbers in common.
pub proof fn lemma_apart(
    levels: Seq<Seq<Seq<u64>>>,
    k: int,
    b: Bounds,
    tx: int,
    ty: int,
    sx: int,
    sy: int,
)
    requires
        pyramid_grid_wf(levels),
        0 <= k <= levels.len(),
        ordered(b),
        0 <= b.x,
        0 <= b.y,
        ({
            let span = two_to((levels.len() - k) as nat);
            &&& b.x * span <= tx < (b.x + 1) * span
            &&& b.x * span <= sx < (b.x + 1) * span
            &&& b.y * span <= ty < (b.y + 1) * span
            &&& b.y * span <= sy < (b.y + 1) * span
        }),
        tx < cols_of(levels.last()),
        sx < cols_of(levels.last()),
        ty < levels.last().len(),
        sy < levels.last().len(),
        tx != sx || ty != sy,
    ensures
        apart_boxes(narrow(levels, k, tx, ty, b), narrow(levels, k, sx, sy, b)),
    decreases levels.len() - k,
{
    let span = two_to((levels.len() - k) as nat);
    if k < levels.len() {
        let rows = levels[k];
        let half = two_to((levels.len() - 1 - k) as nat);
        assert(span == 2 * half);
        let p = narrow_level(rows, half, tx, ty, b);
        let q = narrow_level(rows, half, sx, sy, b);
        lemma_level_nested(rows, half, tx, ty, b);
        lemma_level_nested(rows, half, sx, sy, b);
        lemma_grid_span(levels, k);
        lemma_grid_level(levels, k);
        let x = 2 * b.x;
        let y = 2 * b.y;
        assert(b.x * span == x * half && (b.x + 1) * span == (x + 2) * half && (x + 1) * half
            == x * half + half && (x + 2) * half == x * half + 2 * half && x * half >= 0)
            by (nonlinear_arith)
            requires
                span == 2 * half,
                x == 2 * b.x,
                b.x >= 0,
                half >= 1,
        ;
        assert(b.y * span == y * half && (b.y + 1) * span == (y + 2) * half && (y + 1) * half
            == y * half + half && (y + 2) * half == y * half + 2 * half && y * half >= 0)
            by (nonlinear_arith)
            requires
                span == 2 * half,
                y == 2 * b.y,
                b.y >= 0,
                half >= 1,
        ;
        assert(cols_of(rows) * half == half <==> cols_of(rows) == 1) by (nonlinear_arith)
            requires
                cols_of(rows) >= 1,
                half >= 1,
        ;
        assert(rows.len() * half == half <==> rows.len() == 1) by (nonlinear_arith)
            requires
                rows.len() >= 1,
                half >= 1,
        ;
        assert(p.x * half <= tx < (p.x + 1) * half);
        assert(q.x * half <= sx < (q.x + 1) * half);
        assert(p.y * half <= ty < (p.y + 1) * half);
        assert(q.y * half <= sy < (q.y + 1) * half);
        lemma_nested(levels, k + 1, tx, ty, p);
        lemma_nested(levels, k + 1, sx, sy, q);
        if p.x != q.x {
            assert(p.u1 <= q.u0 || q.u1 <= p.u0);
        } else if p.y != q.y {
            assert(p.v1 <= q.v0 || q.v1 <= p.v0);
        } else {
            assert(p == q);
            lemma_apart(levels, k + 1, p, tx, ty, sx, sy);
        }
    } else {
        assert(span == 1);
        assert(b.x * 1 == b.x && (b.x + 1) * 1 == b.x + 1);
        assert(b.y * 1 == b.y && (b.y + 1) * 1 == b.y + 1);
    }
}

/// A pair of numbers lies in the box of the cell that it draws, or above it by less than
/// three units of the last place per level.
pub proof fn lemma_drawn_within(levels: Seq<Seq<Seq<u64>>>, u: int, v: int)
    requires
        pyramid_grid_wf(levels),
        0 <= u < ONE,
        0 <= v < ONE,
    ensures
        ({
            let end = walk(levels, 0, standing(0, 0, u, v));
            let found = cell_box(levels, end.x, end.y);
            &&& ordered(found)
            &&& found.u0 <= u <= found.u1 + 3 * levels.len()
            &&& found.v0 <= v <= found.v1 + 3 * levels.len()
        }),
{
    let start = standing(0, 0, u, v);
    let whole = narrowed(0, 0, 0, ONE as int, 0, ONE as int);
    let end = walk(levels, 0, start);
    lemma_walk(levels, 0, start);
    lemma_drift(levels, 0, start, whole);
    let found = cell_box(levels, end.x, end.y);
    lemma_within(found.u0, found.u1, end.u, u, levels.len() as int);
    lemma_within(found.v0, found.v1, end.v, v, levels.len() as int);
}

proof fn lemma_within(lo: int, hi: int, left: int, from: int, depth: int)
    requires
        0 <= lo <= hi <= ONE,
        0 <= left < ONE,
        depth >= 0,
        point(0, ONE as int, from) - 3 * ONE * depth <= point(lo, hi, left) <= point(
            0,
            ONE as int,
            from,
        ),
    ensures
        lo <= from <= hi + 3 * depth,
{
    let d = hi - lo;
    lemma_mul_le(0, d, 0, left);
    lemma_mul_le(d, d, left, ONE as int);
    assert(point(0, ONE as int, from) == from * ONE) by (nonlinear_arith)
        requires
            point(0, ONE as int, from) == 0 * ONE + (ONE - 0) * from,
    ;
    assert(lo * ONE + d * ONE == hi * ONE) by (nonlinear_arith)
        requires
            d == hi - lo,
    ;
    assert(lo * ONE <= from * ONE);
    lemma_mul_cancel(lo, from, ONE as int);
    assert((from - 3 * depth) * ONE == from * ONE - 3 * ONE * depth) by (nonlinear_arith);
    assert((from - 3 * depth) * ONE <= hi * ONE);
    lemma_mul_cancel(from - 3 * depth, hi, ONE as int);
}

/// Every pair of numbers inside the box of a cell, and more than three units of the last
/// place per level above its lower ends, draws that cell.
pub proof fn lemma_draws(levels: Seq<Seq<Seq<u64>>>, u: int, v: int, x: int, y: int)
    requires
        pyramid_grid_wf(levels),
        0 <= u < ONE,
        0 <= v < ONE,
        0 <= x < cols_of(levels.last()),
        0 <= y < levels.last().len(),
        cell_box(levels, x, y).u0 + 3 * levels.len() < u < cell_box(levels, x, y).u1,
        cell_box(levels, x, y).v0 + 3 * levels.len() < v < cell_box(levels, x, y).v1,
    ensures
        walk(levels, 0, standing(0, 0, u, v)).x == x,
        walk(levels, 0, standing(0, 0, u, v)).y == y,
{
    let end = walk(levels, 0, standing(0, 0, u, v));
    let whole = narrowed(0, 0, 0, ONE as int, 0, ONE as int);
    lemma_walk(levels, 0, standing(0, 0, u, v));
    lemma_drawn_within(levels, u, v);
    if end.x != x || end.y != y {
        lemma_grid_span(levels, 0);
        lemma_grid_level(levels, 0);
        let span = two_to(levels.len() as nat);
        let half = two_to((levels.len() - 1) as nat);
        assert(span == 2 * half);
        assert(cols_of(levels[0]) * half <= span && levels[0].len() * half <= span)
            by (nonlinear_arith)
            requires
                cols_of(levels[0]) <= 2,
                levels[0].len() <= 2,
                span == 2 * half,
                half >= 1,
        ;
        assert(0 * span == 0 && (0 + 1) * span == span);
        lemma_apart(levels, 0, whole, x, y, end.x, end.y);
    }
}

} // verus!
