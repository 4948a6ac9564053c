//! How large the box of random numbers is that draws a cell of a pyramid: as large a part of
//! the unit square as the weight of the cell is of the integral, but for what rounding to 63
//! binary places moves at each level.

use vstd::prelude::*;
use crate::arith::{lemma_div_parts, lemma_mul_cancel, lemma_mul_le};
use crate::fixed::ONE;
use crate::grid::{
    block, cell_or_zero, grid_total, lemma_block_within_total, lemma_rows_monotone,
    lemma_small_grid,
};
use crate::hierarchical::two_to;
use crate::hierarchical2d::{
    between, cols_of, linked_grid, narrow, narrow_level, narrowed, pyramid_grid_wf, Bounds,
    lemma_grid_level, lemma_grid_span,
};
use crate::narrowing::{cell_box, ordered, lemma_between, lemma_level_nested};

verus! {

/// The distance between two numbers.
pub open spec fn gap(p: int, q: int) -> int {
    if p >= q {
        p - q
    } else {
        q - p
    }
}

/// What one level may move the size of a box by, in units of the integral.
pub open spec fn slack() -> int {
    2 * ONE + 1
}

/// The weight of the node that a walk stands at before level `k`: the whole integral before
/// the root level, and below it the weight of the cell of the level above.
pub open spec fn weight_at(levels: Seq<Seq<Seq<u64>>>, k: int, x: int, y: int) -> int {
    if k == 0 {
        grid_total(levels.last())
    } else {
        cell_or_zero(levels[k - 1], x, y)
    }
}

/// The block of level `k` under a node sums to the weight of the node.
pub proof fn lemma_block_is(levels: Seq<Seq<Seq<u64>>>, k: int, x: int, y: int)
    requires
        pyramid_grid_wf(levels),
        0 <= k < levels.len(),
        0 <= x,
        0 <= y,
        k == 0 ==> x == 0 && y == 0,
    ensures
        block(levels[k], 2 * x, 2 * y) == weight_at(levels, k, x, y),
        0 <= cell_or_zero(levels[k], 2 * x, 2 * y),
        0 <= cell_or_zero(levels[k], 2 * x, 2 * y + 1),
        0 <= cell_or_zero(levels[k], 2 * x + 1, 2 * y),
        0 <= cell_or_zero(levels[k], 2 * x + 1, 2 * y + 1),
{
    let rows = levels[k];
    lemma_grid_level(levels, k);
    lemma_block_within_total(rows, cols_of(rows), 2 * x, 2 * y);
    if k == 0 {
        lemma_small_grid(rows, cols_of(rows));
    } else {
        lemma_grid_level(levels, k - 1);
        assert(linked_grid(levels, k));
        let coarse = levels[k - 1];
        assert(coarse.len() == (rows.len() + 1) / 2);
        assert(coarse[0].len() == (cols_of(rows) + 1) / 2);
        if 0 <= y < coarse.len() && 0 <= x < cols_of(coarse) {
            assert(coarse[y].len() == cols_of(coarse));
            assert(coarse[y][x] == block(rows, 2 * x, 2 * y) as u64);
        } else {
            if 0 <= y < coarse.len() {
                assert(coarse[y].len() == cols_of(coarse));
            }
            if 0 <= 2 * y < rows.len() {
                assert(rows[2 * y].len() == cols_of(rows));
            }
            if 0 <= 2 * y + 1 < rows.len() {
                assert(rows[2 * y + 1].len() == cols_of(rows));
            }
        }
    }
}

/// The part of a range that falls to one of two weights differs from its exact share by
/// less than one unit: `part * (first + second)` lies within `first + second` of the length
/// of the range times the weight.
proof fn lemma_part(first: int, second: int, lo: int, hi: int, right: bool)
    requires
        first >= 0,
        second >= 0,
        lo <= hi,
    ensures
        ({
            let cut = between(first, second, lo, hi);
            let part = if right {
                hi - cut
            } else {
                cut - lo
            };
            let chosen = if right {
                second
            } else {
                first
            };
            &&& 0 <= part <= hi - lo
            &&& first + second > 0 ==> (hi - lo) * chosen - (first + second) <= part * (first
                + second) <= (hi - lo) * chosen + (first + second)
            &&& first + second == 0 ==> part == if right {
                hi - lo
            } else {
                0
            }
        }),
{
    lemma_between(first, second, lo, hi);
    let w = first + second;
    let d = hi - lo;
    if w > 0 {
        lemma_mul_le(0, d, 0, first);
        lemma_div_parts(d * first, w);
        let fa = (d * first) / w;
        assert(between(first, second, lo, hi) == lo + fa);
        assert((d - fa) * w == d * second + (d * first - fa * w)) by (nonlinear_arith)
            requires
                w == first + second,
        ;
    }
}

/// One level of the walk towards a cell: the product of the two lengths moves with the
/// weight of the node, but for the slack.
proof fn lemma_area_step(a: int, b: int, a1: int, b1: int, n: int, c: int, m: int, s: int)
    requires
        0 <= a1 <= a <= ONE,
        0 <= b1 <= b <= ONE,
        0 <= m <= c <= n,
        0 <= s,
        n > 0 ==> a * c - n <= a1 * n <= a * c + n,
        c > 0 ==> b * m - c <= b1 * c <= b * m + c,
        n == 0 ==> true,
    ensures
        gap(a1 * b1 * s, ONE * ONE * m) <= gap(a * b * s, ONE * ONE * n) + slack() * s,
{
    let x = a1 * b1;
    let y = a * b;
    let g = gap(y * s, ONE * ONE * n);
    lemma_mul_le(a1, a, b1, b);
    lemma_mul_le(x, y, s, s);
    lemma_mul_le(0, x, 0, s);
    lemma_mul_le(0, ONE as int, 0, s);
    if c == 0 {
        assert(ONE * ONE * m == 0) by (nonlinear_arith)
            requires
                m == 0,
        ;
        if n == 0 {
            assert(ONE * ONE * n == 0) by (nonlinear_arith)
                requires
                    n == 0,
            ;
        } else {
            assert(a1 <= 1) by (nonlinear_arith)
                requires
                    a1 * n <= a * c + n,
                    c == 0,
                    n > 0,
            ;
            lemma_mul_le(a1, 1, b1, ONE as int);
            lemma_mul_le(x, 1 * ONE, s, s);
            assert(slack() * s >= (1 * ONE) * s) by (nonlinear_arith)
                requires
                    s >= 0,
            ;
        }
    } else {
        let k = n * c;
        assert(k > 0) by (nonlinear_arith)
            requires
                k == n * c,
                n > 0,
                c > 0,
        ;
        let da = a1 * n - a * c;
        let db = b1 * c - b * m;
        // x * k == y * (c * m) + delta
        let delta = (a * c) * db + da * (b * m) + da * db;
        let p = a1 * n;
        let q = b1 * c;
        let ac = a * c;
        let bm = b * m;
        assert((a1 * b1) * (n * c) == (a1 * n) * (b1 * c)) by (nonlinear_arith);
        assert((a * c) * (b * m) == (a * b) * (c * m)) by (nonlinear_arith);
        assert(p * q == ac * bm + ac * db + da * bm + da * db) by (nonlinear_arith)
            requires
                p == ac + da,
                q == bm + db,
        ;
        assert(x * k == y * (c * m) + delta);
        // the size of delta
        lemma_mul_le(0, a, 0, c);
        lemma_mul_le(0, b, 0, m);
        lemma_part_size(a * c, db, c);
        lemma_part_size(b * m, da, n);
        lemma_part_both(da, db, n, c);
        assert(a * c <= ONE * c) by (nonlinear_arith)
            requires
                a <= ONE,
                c >= 0,
        ;
        lemma_mul_le(a * c, ONE * c, c, n);
        assert(b * m <= ONE * c) by (nonlinear_arith)
            requires
                b <= ONE,
                0 <= m <= c,
                b >= 0,
        ;
        lemma_mul_le(b * m, ONE * c, n, n);
        assert((ONE * c) * n == ONE * k && (ONE * c) * n + (ONE * c) * n + n * c == slack() * k)
            by (nonlinear_arith)
            requires
                k == n * c,
        ;
        assert(-(slack() * k) <= delta <= slack() * k);
        // both sides times k
        let t = y * s - ONE * ONE * n;
        let cm = c * m;
        let unit = ONE * ONE;
        assert((x * s) * k == s * (x * k)) by (nonlinear_arith);
        assert(s * (y * cm + delta) == cm * (y * s) + s * delta) by (nonlinear_arith);
        assert((unit * m) * (n * c) == cm * (unit * n)) by (nonlinear_arith)
            requires
                cm == c * m,
        ;
        assert(cm * (y * s) - cm * (unit * n) == cm * (y * s - unit * n)) by (nonlinear_arith);
        assert((x * s - unit * m) * k == (x * s) * k - (unit * m) * k) by (nonlinear_arith);
        assert((x * s - ONE * ONE * m) * k == (c * m) * t + s * delta);
        lemma_mul_le(0, c, 0, m);
        lemma_mul_le(c, n, m, c);
        assert(n * c == k);
        lemma_part_size(c * m, t, g);
        lemma_mul_le(c * m, k, g, g);
        lemma_part_size(s, delta, slack() * k);
        assert(s * (slack() * k) == (slack() * s) * k) by (nonlinear_arith);
        let bound = g + slack() * s;
        assert(bound * k == k * g + (slack() * s) * k) by (nonlinear_arith)
            requires
                bound == g + slack() * s,
        ;
        assert((x * s - ONE * ONE * m) * k <= bound * k);
        assert((ONE * ONE * m - x * s) * k <= bound * k) by (nonlinear_arith)
            requires
                (x * s - ONE * ONE * m) * k == (c * m) * t + s * delta,
                (c * m) * t >= -((c * m) * g),
                (c * m) * g <= k * g,
                s * delta >= -(s * (slack() * k)),
                s * (slack() * k) == (slack() * s) * k,
                bound * k == k * g + (slack() * s) * k,
        ;
        lemma_mul_cancel(x * s - ONE * ONE * m, bound, k);
        lemma_mul_cancel(ONE * ONE * m - x * s, bound, k);
    }
}

/// A product with a factor of bounded size has bounded size.
proof fn lemma_part_size(p: int, q: int, limit: int)
    requires
        p >= 0,
        -limit <= q <= limit,
    ensures
        -(p * limit) <= p * q <= p * limit,
{
    assert(-(p * limit) <= p * q <= p * limit) by (nonlinear_arith)
        requires
            p >= 0,
            -limit <= q <= limit,
    ;
}

/// A product of two factors of bounded size has bounded size.
proof fn lemma_part_both(p: int, q: int, n: int, c: int)
    requires
        -n <= p <= n,
        -c <= q <= c,
    ensures
        -(n * c) <= p * q <= n * c,
{
    assert(-(n * c) <= p * q <= n * c) by (nonlinear_arith)
        requires
            -n <= p <= n,
            -c <= q <= c,
    ;
}

/// The size of a box, in units of the integral `s`: the product of its two lengths.
pub open spec fn size(b: Bounds, s: int) -> int {
    (b.u1 - b.u0) * (b.v1 - b.v0) * s
}

/// One level of the walk towards a cell: the size of the box follows the weight of the node
/// that the walk stands at, but for the slack.
pub proof fn lemma_level_area(levels: Seq<Seq<Seq<u64>>>, k: int, tx: int, ty: int, b: Bounds)
    requires
        pyramid_grid_wf(levels),
        0 <= k < levels.len(),
        ordered(b),
        0 <= b.x,
        0 <= b.y,
        k == 0 ==> b.x == 0 && b.y == 0,
    ensures
        ({
            let s = grid_total(levels.last());
            let cut = narrow_level(levels[k], two_to((levels.len() - 1 - k) as nat), tx, ty, b);
            &&& ordered(cut)
            &&& 0 <= cut.x
            &&& 0 <= cut.y
            &&& gap(size(cut, s), ONE * ONE * weight_at(levels, k + 1, cut.x, cut.y)) <= gap(
                size(b, s),
                ONE * ONE * weight_at(levels, k, b.x, b.y),
            ) + slack() * s
        }),
{
    let rows = levels[k];
    let half = two_to((levels.len() - 1 - k) as nat);
    let s = grid_total(levels.last());
    let cut = narrow_level(rows, half, tx, ty, b);
    let x = 2 * b.x;
    let y = 2 * b.y;
    lemma_block_is(levels, k, b.x, b.y);
    lemma_grid_level(levels, k);
    lemma_level_nested(rows, half, tx, ty, b);
    let n = weight_at(levels, k, b.x, b.y);
    let first = cell_or_zero(rows, x, y) + cell_or_zero(rows, x, y + 1);
    let second = cell_or_zero(rows, x + 1, y) + cell_or_zero(rows, x + 1, y + 1);
    let wide = cols_of(rows) > 1;
    let right = wide && tx >= (x + 1) * half;
    let a = b.u1 - b.u0;
    let a1 = cut.u1 - cut.u0;
    let c = cell_or_zero(rows, cut.x, y) + cell_or_zero(rows, cut.x, y + 1);
    if wide {
        lemma_part(first, second, b.u0, b.u1, right);
    } else {
        assert(second == 0) by {
            if 0 <= y < rows.len() {
                assert(rows[y].len() == cols_of(rows));
            }
            if 0 <= y + 1 < rows.len() {
                assert(rows[y + 1].len() == cols_of(rows));
            }
        }
        assert(a1 * n == a * c);
    }
    let above = cell_or_zero(rows, cut.x, y);
    let below = cell_or_zero(rows, cut.x, y + 1);
    let tall = rows.len() > 1;
    let down = tall && ty >= (y + 1) * half;
    let d = b.v1 - b.v0;
    let d1 = cut.v1 - cut.v0;
    let m = cell_or_zero(rows, cut.x, cut.y);
    assert(0 <= above && 0 <= below) by {
        if 0 <= y < rows.len() {
            assert(rows[y].len() == cols_of(rows));
        }
        if 0 <= y + 1 < rows.len() {
            assert(rows[y + 1].len() == cols_of(rows));
        }
    }
    if tall {
        lemma_part(above, below, b.v0, b.v1, down);
    } else {
        assert(below == 0);
        assert(d1 * c == d * m);
    }
    lemma_rows_monotone(levels.last(), 0, levels.last().len() as int);
    lemma_area_step(a, d, a1, d1, n, c, m, s);
    assert(size(cut, s) == a1 * d1 * s);
    assert(size(b, s) == a * d * s);
}

/// The walk towards a cell from level `k` down: the size of the box that it ends with
/// follows the weight of the cell that it ends at, but for the slack of each level.
pub proof fn lemma_area(levels: Seq<Seq<Seq<u64>>>, k: int, tx: int, ty: int, b: Bounds)
    requires
        pyramid_grid_wf(levels),
        0 <= k <= levels.len(),
        ordered(b),
        0 <= b.x,
        0 <= b.y,
        k == 0 ==> b.x == 0 && b.y == 0,
    ensures
        ({
            let s = grid_total(levels.last());
            let cut = narrow(levels, k, tx, ty, b);
            gap(
                size(cut, s),
                ONE * ONE * weight_at(levels, levels.len() as int, cut.x, cut.y),
            ) <= gap(size(b, s), ONE * ONE * weight_at(levels, k, b.x, b.y)) + (levels.len() - k)
                * (slack() * s)
        }),
    decreases levels.len() - k,
{
    let s = grid_total(levels.last());
    if k < levels.len() {
        let half = two_to((levels.len() - 1 - k) as nat);
        lemma_level_area(levels, k, tx, ty, b);
        let step = narrow_level(levels[k], half, tx, ty, b);
        lemma_area(levels, k + 1, tx, ty, step);
        assert((levels.len() - k) * (slack() * s) == (levels.len() - (k + 1)) * (slack() * s)
            + slack() * s) by (nonlinear_arith);
    } else {
        assert((levels.len() - k) * (slack() * s) == 0) by (nonlinear_arith)
            requires
                levels.len() - k == 0,
        ;
    }
}

/// The walk towards a cell of the grid ends at that cell.
pub proof fn lemma_narrow_ends(levels: Seq<Seq<Seq<u64>>>, k: int, tx: int, ty: int, b: Bounds)
    requires
        pyramid_grid_wf(levels),
        0 <= k <= levels.len(),
        0 <= b.x,
        0 <= b.y,
        ({
            let span = two_to((levels.len() - k) as nat);
            &&& b.x * span <= tx < (b.x + 1) * span
            &&& b.y * span <= ty < (b.y + 1) * span
        }),
        tx < cols_of(levels.last()),
        ty < levels.last().len(),
    ensures
        narrow(levels, k, tx, ty, b).x == tx,
        narrow(levels, k, tx, ty, b).y == ty,
    decreases levels.len() - k,
{
    let span = two_to((levels.len() - k) as nat);
    if k < levels.len() {
        let rows = levels[k];
        let half = two_to((levels.len() - 1 - k) as nat);
        assert(span == 2 * half);
        let p = narrow_level(rows, half, tx, ty, b);
        lemma_grid_span(levels, k);
        lemma_grid_level(levels, k);
        let x = 2 * b.x;
        let y = 2 * b.y;
        assert(b.x * span == x * half && (b.x + 1) * span == (x + 2) * half && (x + 1) * half
            == x * half + half && (x + 2) * half == x * half + 2 * half && x * half >= 0)
            by (nonlinear_arith)
            requires
                span == 2 * half,
                x == 2 * b.x,
                b.x >= 0,
                half >= 1,
        ;
        assert(b.y * span == y * half && (b.y + 1) * span == (y + 2) * half && (y + 1) * half
            == y * half + half && (y + 2) * half == y * half + 2 * half && y * half >= 0)
            by (nonlinear_arith)
            requires
                span == 2 * half,
                y == 2 * b.y,
                b.y >= 0,
                half >= 1,
        ;
        assert(cols_of(rows) * half == half <==> cols_of(rows) == 1) by (nonlinear_arith)
            requires
                cols_of(rows) >= 1,
                half >= 1,
        ;
        assert(rows.len() * half == half <==> rows.len() == 1) by (nonlinear_arith)
            requires
                rows.len() >= 1,
                half >= 1,
        ;
        assert(p.x * half <= tx < (p.x + 1) * half);
        assert(p.y * half <= ty < (p.y + 1) * half);
        lemma_narrow_ends(levels, k + 1, tx, ty, p);
    } else {
        assert(span == 1);
        assert(b.x * 1 == b.x && (b.x + 1) * 1 == b.x + 1);
        assert(b.y * 1 == b.y && (b.y + 1) * 1 == b.y + 1);
    }
}

/// The box of a cell is as large a part of the unit square as the weight of the cell is of
/// the integral, but for the slack of each level: the product of its two lengths, times the
/// integral, lies within `depth * (2 * ONE + 1)` times the integral of `ONE * ONE` times the
/// weight.
pub proof fn lemma_box_area(levels: Seq<Seq<Seq<u64>>>, x: int, y: int)
    requires
        pyramid_grid_wf(levels),
        0 <= x < cols_of(levels.last()),
        0 <= y < levels.last().len(),
    ensures
        gap(
            size(cell_box(levels, x, y), grid_total(levels.last())),
            ONE * ONE * levels.last()[y][x],
        ) <= levels.len() * (slack() * grid_total(levels.last())),
{
    let whole = narrowed(0, 0, 0, ONE as int, 0, ONE as int);
    let s = grid_total(levels.last());
    lemma_area(levels, 0, x, y, whole);
    lemma_grid_span(levels, 0);
    lemma_grid_level(levels, 0);
    lemma_grid_level(levels, levels.len() - 1);
    let span = two_to(levels.len() as nat);
    let half = two_to((levels.len() - 1) as nat);
    assert(span == 2 * half);
    assert(cols_of(levels[0]) * half <= span && levels[0].len() * half <= span)
        by (nonlinear_arith)
        requires
            cols_of(levels[0]) <= 2,
            levels[0].len() <= 2,
            span == 2 * half,
            half >= 1,
    ;
    assert(0 * span == 0 && (0 + 1) * span == span);
    lemma_narrow_ends(levels, 0, x, y, whole);
    assert(size(whole, s) == ONE * ONE * s) by (nonlinear_arith)
        requires
            size(whole, s) == (ONE - 0) * (ONE - 0) * s,
    ;
    assert(levels.last()[y].len() == cols_of(levels.last()));
}

} // verus!
