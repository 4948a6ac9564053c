//! Sampling a grid by walking down a pyramid of two-by-two sums.
//!
//! At each level the column is chosen first, by the sums of the two columns of the block,
//! and then the row within that column; each choice turns its random number into the share
//! of the chosen weight at which the number lies. Two such shares do not stay exact down a
//! whole pyramid, so the walk keeps them to 63 binary places and rounds down.

use vstd::prelude::*;
use crate::arith::{lemma_cell_form, lemma_div_parts, lemma_mul_le};
use crate::data2d::Data2D;
use crate::distribution::{grid_rejects, measure_grid, BuildError, Continuous2D, Discrete2D};
use crate::fixed::{fixed, to_fixed, lemma_fixed, ONE};
use crate::grid::{
    block, cell_or_zero, grid_total, halve_grid, rectangular, lemma_block_within_total,
    lemma_halve_grid_total, lemma_small_grid,
};
use crate::hierarchical::{two_to, lemma_two_to_32, lemma_two_to_monotone};
use crate::narrowing::{
    cell_box, ordered, point, lemma_draws as lemma_pair_draws,
    lemma_drawn_within as lemma_pair_within, lemma_drift,
};
use crate::proportion::{gap, size, slack, lemma_box_area as lemma_cell_box_area};
use crate::arith::{lemma_div_unique, lemma_mul_cancel};
use crate::ratio::{Frac, Ratio};
use crate::weights::lemma_cell;

verus! {

/// Which of two neighbouring weights the number `rand` takes, and the share of the chosen
/// weight at which it lies, rounded down.
pub open spec fn choose_fixed(first: int, second: int, rand: int) -> (bool, int) {
    let scaled = rand * (first + second);
    if scaled < first * ONE {
        (false, scaled / first)
    } else {
        (true, (scaled - first * ONE) / second)
    }
}

/// A choice between two weights that are not both zero takes one that is not zero, and the
/// share it leaves is again below one.
pub proof fn lemma_choose_fixed(first: int, second: int, rand: int)
    requires
        first >= 0,
        second >= 0,
        first + second > 0,
        0 <= rand < ONE,
    ensures
        0 <= choose_fixed(first, second, rand).1 < ONE,
        choose_fixed(first, second, rand).0 ==> second > 0,
        !choose_fixed(first, second, rand).0 ==> first > 0,
        0 <= rand * (first + second) < (first + second) * ONE,
        choose_fixed(first, second, rand).0 ==> rand * (first + second) >= first * ONE,
{
    let scaled = rand * (first + second);
    assert(0 <= scaled < (first + second) * ONE && (first + second) * ONE == first * ONE
        + second * ONE) by (nonlinear_arith)
        requires
            scaled == rand * (first + second),
            0 <= rand < ONE,
            first + second > 0,
    ;
    if scaled < first * ONE {
        assert(first > 0) by (nonlinear_arith)
            requires
                0 <= scaled < first * ONE,
        ;
        lemma_div_parts(scaled, first);
        assert(scaled / first < ONE) by (nonlinear_arith)
            requires
                scaled == (scaled / first) * first + scaled % first,
                scaled % first >= 0,
                scaled < first * ONE,
                first > 0,
        ;
    } else {
        let rest = scaled - first * ONE;
        assert(second > 0) by (nonlinear_arith)
            requires
                0 <= rest < second * ONE,
        ;
        lemma_div_parts(rest, second);
        assert(rest / second < ONE) by (nonlinear_arith)
            requires
                rest == (rest / second) * second + rest % second,
                rest % second >= 0,
                rest < second * ONE,
                second > 0,
        ;
    }
}

/// Chooses between two neighbouring weights in proportion to them, and turns `rand` into the
/// share of the chosen weight at which it lies, in the scale of the walk and rounded down.
/// Returns whether the second was chosen.
pub fn select_fixed(weights: [u64; 2], rand: &mut u64) -> (right: bool)
    requires
        weights[0] + weights[1] > 0,
        weights[0] + weights[1] <= u64::MAX,
        *old(rand) < ONE,
    ensures
        (right, *final(rand) as int) == choose_fixed(
            weights[0] as int,
            weights[1] as int,
            *old(rand) as int,
        ),
        *final(rand) < ONE,
{
    let first: u128 = weights[0] as u128;
    let second: u128 = weights[1] as u128;
    proof {
        lemma_choose_fixed(first as int, second as int, *rand as int);
        lemma_mul_le(*rand as int, ONE as int, (first + second) as int, u64::MAX as int);
        lemma_mul_le(first as int, u64::MAX as int, ONE as int, ONE as int);
    }
    let scaled: u128 = (*rand as u128) * (first + second);
    let edge: u128 = first * (ONE as u128);
    if scaled < edge {
        *rand = (scaled / first) as u64;
        false
    } else {
        *rand = ((scaled - edge) / second) as u64;
        true
    }
}

/// The weight in column `idx[0]` of row `idx[1]`, or zero outside the grid.
pub fn get_or_zero_2d(v: &Data2D<u64>, idx: [usize; 2]) -> (r: u64)
    requires
        v.wf(),
    ensures
        r == cell_or_zero(v.rows(), idx[0] as int, idx[1] as int),
{
    proof {
        v.lemma_dimensions();
    }
    match v.get(idx) {
        Some(weight) => {
            proof {
                assert(v.rows()[idx[1] as int] == v.row(idx[1] as int));
                assert(v.row(idx[1] as int)[idx[0] as int] == v.cell(idx[0] as int, idx[1] as int));
            }
            *weight
        },
        None => {
            proof {
                if 0 <= idx[1] < v.rows().len() {
                    assert(v.rows()[idx[1] as int] == v.row(idx[1] as int));
                }
            }
            0
        },
    }
}

/// The number of columns of a grid given by its rows.
pub open spec fn cols_of(rows: Seq<Seq<u64>>) -> int {
    if rows.len() > 0 {
        rows[0].len() as int
    } else {
        0
    }
}

/// Level `k` is too large for a root, and the level above it is its halving.
pub open spec fn linked_grid(levels: Seq<Seq<Seq<u64>>>, k: int) -> bool {
    &&& levels[k - 1] == halve_grid(levels[k], cols_of(levels[k]))
    &&& cols_of(levels[k]) > 2 || levels[k].len() > 2
}

/// The levels from the root down are each the halving of the next, only the root has at
/// most two rows and two columns, and the integral is positive and fits in 64 bits.
pub open spec fn pyramid_grid_wf(levels: Seq<Seq<Seq<u64>>>) -> bool {
    &&& levels.len() >= 1
    &&& levels[0].len() <= 2
    &&& cols_of(levels[0]) <= 2
    &&& levels.last().len() >= 1
    &&& cols_of(levels.last()) >= 1
    &&& rectangular(levels.last(), cols_of(levels.last()))
    &&& 0 < grid_total(levels.last()) <= u64::MAX
    &&& forall|k: int| 1 <= k < levels.len() ==> #[trigger] linked_grid(levels, k)
}

/// Every level of a pyramid is a grid with at least one row and one column, and has the
/// integral of the finest one.
pub proof fn lemma_grid_level(levels: Seq<Seq<Seq<u64>>>, k: int)
    requires
        pyramid_grid_wf(levels),
        0 <= k < levels.len(),
    ensures
        levels[k].len() >= 1,
        cols_of(levels[k]) >= 1,
        rectangular(levels[k], cols_of(levels[k])),
        grid_total(levels[k]) == grid_total(levels.last()),
    decreases levels.len() - k,
{
    if k < levels.len() - 1 {
        lemma_grid_level(levels, k + 1);
        assert(linked_grid(levels, k + 1));
        lemma_halve_grid_total(levels[k + 1], cols_of(levels[k + 1]));
        assert(levels[k][0].len() == (cols_of(levels[k + 1]) + 1) / 2);
    }
}

/// Level `k` of a pyramid has at most `2^(k+1)` rows and columns, and below the root more
/// than `2^k` of one of them.
pub proof fn lemma_grid_dims(levels: Seq<Seq<Seq<u64>>>, k: int)
    requires
        pyramid_grid_wf(levels),
        0 <= k < levels.len(),
    ensures
        1 <= levels[k].len() <= two_to((k + 1) as nat),
        1 <= cols_of(levels[k]) <= two_to((k + 1) as nat),
        k >= 1 ==> levels[k].len() > two_to(k as nat) || cols_of(levels[k]) > two_to(k as nat),
    decreases k,
{
    lemma_grid_level(levels, k);
    assert(two_to(1) == 2 * two_to(0));
    if k > 0 {
        lemma_grid_dims(levels, k - 1);
        lemma_grid_level(levels, k - 1);
        assert(linked_grid(levels, k));
        assert(levels[k - 1][0].len() == (cols_of(levels[k]) + 1) / 2);
    }
}

/// The walk stands before level `k` at a cell of the level above that has a positive weight.
/// Before the root level it stands at the whole grid.
pub open spec fn at_cell(levels: Seq<Seq<Seq<u64>>>, k: int, x: int, y: int) -> bool {
    if k == 0 {
        x == 0 && y == 0
    } else {
        0 <= x && 0 <= y && cell_or_zero(levels[k - 1], x, y) > 0
    }
}

/// The block of level `k` under a cell of the level above sums to the weight of that cell,
/// and the root block to the integral.
pub proof fn lemma_block_under(levels: Seq<Seq<Seq<u64>>>, k: int, x: int, y: int)
    requires
        pyramid_grid_wf(levels),
        0 <= k < levels.len(),
        at_cell(levels, k, x, y),
    ensures
        block(levels[k], 2 * x, 2 * y) > 0,
        block(levels[k], 2 * x, 2 * y) <= u64::MAX,
        0 <= cell_or_zero(levels[k], 2 * x, 2 * y),
        0 <= cell_or_zero(levels[k], 2 * x, 2 * y + 1),
        0 <= cell_or_zero(levels[k], 2 * x + 1, 2 * y),
        0 <= cell_or_zero(levels[k], 2 * x + 1, 2 * y + 1),
        k >= 1 ==> 2 * x + 1 <= cols_of(levels[k]) && 2 * y + 1 <= levels[k].len(),
{
    lemma_grid_level(levels, k);
    lemma_block_within_total(levels[k], cols_of(levels[k]), 2 * x, 2 * y);
    if k == 0 {
        lemma_small_grid(levels[0], cols_of(levels[0]));
    } else {
        lemma_grid_level(levels, k - 1);
        assert(linked_grid(levels, k));
        let coarse = levels[k - 1];
        assert(0 <= y < coarse.len());
        assert(coarse[y].len() == cols_of(coarse));
        assert(0 <= x < coarse[y].len());
        assert(coarse[y][x] == block(levels[k], 2 * x, 2 * y) as u64);
    }
}

/// Where the walk stands: the column and the row, and what is left of the two random numbers.
pub struct Walk {
    pub x: int,
    pub y: int,
    pub u: int,
    pub v: int,
}

/// The walk stands at column `x` of row `y` and has `u` and `v` left of its random numbers.
pub open spec fn standing(x: int, y: int, u: int, v: int) -> Walk {
    Walk { x: x, y: y, u: u, v: v }
}

/// One level of the walk: the column of the block is chosen by the sums of its two columns,
/// then the row within the chosen column.
pub open spec fn walk_level(rows: Seq<Seq<u64>>, at: Walk) -> Walk {
    let x = 2 * at.x;
    let y = 2 * at.y;
    let across = choose_fixed(
        cell_or_zero(rows, x, y) + cell_or_zero(rows, x, y + 1),
        cell_or_zero(rows, x + 1, y) + cell_or_zero(rows, x + 1, y + 1),
        at.u,
    );
    let column = if across.0 {
        x + 1
    } else {
        x
    };
    let along = choose_fixed(cell_or_zero(rows, column, y), cell_or_zero(rows, column, y + 1), at.v);
    Walk {
        x: column,
        y: if along.0 {
            y + 1
        } else {
            y
        },
        u: across.1,
        v: along.1,
    }
}

/// The walk from level `k` down to the finest level.
pub open spec fn walk(levels: Seq<Seq<Seq<u64>>>, k: int, at: Walk) -> Walk
    decreases levels.len() - k,
{
    if k < 0 || k >= levels.len() {
        at
    } else {
        walk(levels, k + 1, walk_level(levels[k], at))
    }
}

/// One level of the walk ends at a cell of that level with a positive weight, and leaves
/// both random numbers below one.
pub proof fn lemma_walk_level(levels: Seq<Seq<Seq<u64>>>, k: int, at: Walk)
    requires
        pyramid_grid_wf(levels),
        0 <= k < levels.len(),
        at_cell(levels, k, at.x, at.y),
        0 <= at.u < ONE,
        0 <= at.v < ONE,
    ensures
        at_cell(levels, k + 1, walk_level(levels[k], at).x, walk_level(levels[k], at).y),
        0 <= walk_level(levels[k], at).u < ONE,
        0 <= walk_level(levels[k], at).v < ONE,
        walk_level(levels[k], at).x < cols_of(levels[k]),
        walk_level(levels[k], at).y < levels[k].len(),
{
    let rows = levels[k];
    lemma_block_under(levels, k, at.x, at.y);
    lemma_grid_level(levels, k);
    let x = 2 * at.x;
    let y = 2 * at.y;
    let left = cell_or_zero(rows, x, y) + cell_or_zero(rows, x, y + 1);
    let right = cell_or_zero(rows, x + 1, y) + cell_or_zero(rows, x + 1, y + 1);
    lemma_choose_fixed(left, right, at.u);
    let across = choose_fixed(left, right, at.u);
    let column = if across.0 {
        x + 1
    } else {
        x
    };
    lemma_choose_fixed(cell_or_zero(rows, column, y), cell_or_zero(rows, column, y + 1), at.v);
    let end = walk_level(rows, at);
    assert(cell_or_zero(rows, end.x, end.y) > 0);
    assert(0 <= end.y < rows.len());
    assert(rows[end.y].len() == cols_of(rows));
}

/// The walk ends at a cell of the finest level with a positive weight.
pub proof fn lemma_walk(levels: Seq<Seq<Seq<u64>>>, k: int, at: Walk)
    requires
        pyramid_grid_wf(levels),
        0 <= k <= levels.len(),
        at_cell(levels, k, at.x, at.y),
        0 <= at.u < ONE,
        0 <= at.v < ONE,
    ensures
        at_cell(levels, levels.len() as int, walk(levels, k, at).x, walk(levels, k, at).y),
        0 <= walk(levels, k, at).u < ONE,
        0 <= walk(levels, k, at).v < ONE,
        0 <= walk(levels, k, at).x < cols_of(levels.last()),
        0 <= walk(levels, k, at).y < levels.last().len(),
        levels.last()[walk(levels, k, at).y][walk(levels, k, at).x] > 0,
    decreases levels.len() - k,
{
    if k < levels.len() {
        lemma_walk_level(levels, k, at);
        lemma_walk(levels, k + 1, walk_level(levels[k], at));
    } else {
        lemma_grid_level(levels, levels.len() - 1);
        let rows = levels.last();
        assert(cell_or_zero(rows, at.x, at.y) > 0);
        assert(rows[at.y].len() == cols_of(rows));
    }
}

/// Grid `j - 1` of `stack` is too large for a root, and grid `j` is its halving.
pub open spec fn halved_from(stack: Seq<Seq<Seq<u64>>>, j: int) -> bool {
    &&& stack[j] == halve_grid(stack[j - 1], cols_of(stack[j - 1]))
    &&& cols_of(stack[j - 1]) > 2 || stack[j - 1].len() > 2
}

/// Grid `j` of `grids` is consistent and holds the rows `stack[j]`.
pub open spec fn stored_as(grids: Seq<Data2D<u64>>, stack: Seq<Seq<Seq<u64>>>, j: int) -> bool {
    grids[j].wf() && grids[j].rows() == stack[j]
}

/// The next coarser level of a pyramid: each cell is the sum of a two-by-two block of `fine`.
pub fn coarser(fine: &Data2D<u64>) -> (r: Data2D<u64>)
    requires
        fine.wf(),
        fine.cols() >= 1,
        fine.lines() >= 1,
        grid_total(fine.rows()) <= u64::MAX,
    ensures
        r.wf(),
        r.rows() == halve_grid(fine.rows(), fine.cols()),
        r.cols() == (fine.cols() + 1) / 2,
        r.lines() == (fine.lines() + 1) / 2,
        cols_of(r.rows()) == r.cols(),
        cols_of(fine.rows()) == fine.cols(),
        rectangular(r.rows(), r.cols()),
{
    let nx: usize = fine.width();
    let ny: usize = fine.height();
    let ghost f = fine.rows();
    let hx: usize = nx / 2 + nx % 2;
    let hy: usize = ny / 2 + ny % 2;
    proof {
        fine.lemma_dimensions();
        lemma_mul_le(hx as int, nx as int, hy as int, ny as int);
        assert(rectangular(f, nx as int)) by {
            assert forall|y: int| 0 <= y < f.len() implies (#[trigger] f[y]).len() == nx by {
                assert(f[y] == fine.row(y));
            }
        }
        assert(f[0] == fine.row(0));
    }
    let mut level: Data2D<u64> = Data2D::new_same(hx, hy, 0);
    let mut y: usize = 0;
    while y < hy
        invariant
            f == fine.rows(),
            fine.wf(),
            fine.cols() == nx,
            fine.lines() == ny,
            rectangular(f, nx as int),
            grid_total(f) <= u64::MAX,
            hx == nx / 2 + nx % 2,
            hy == ny / 2 + ny % 2,
            hx >= 1,
            level.wf(),
            level.cols() == hx,
            level.lines() == hy,
            y <= hy,
            forall|cx: int, cy: int|
                0 <= cx < hx && 0 <= cy < y ==> #[trigger] level.cell(cx, cy) == block(
                    f,
                    2 * cx,
                    2 * cy,
                ),
        decreases hy - y,
    {
        let mut x: usize = 0;
        while x < hx
            invariant
                f == fine.rows(),
                fine.wf(),
                fine.cols() == nx,
                fine.lines() == ny,
                rectangular(f, nx as int),
                grid_total(f) <= u64::MAX,
                hx == nx / 2 + nx % 2,
                hy == ny / 2 + ny % 2,
                level.wf(),
                level.cols() == hx,
                level.lines() == hy,
                y < hy,
                x <= hx,
                forall|cx: int, cy: int|
                    0 <= cx < hx && 0 <= cy < y ==> #[trigger] level.cell(cx, cy) == block(
                        f,
                        2 * cx,
                        2 * cy,
                    ),
                forall|cx: int| 0 <= cx < x ==> #[trigger] level.cell(cx, y as int) == block(
                    f,
                    2 * cx,
                    2 * y,
                ),
            decreases hx - x,
        {
            proof {
                lemma_block_within_total(f, nx as int, 2 * x, 2 * y);
            }
            let w00: u64 = get_or_zero_2d(fine, [2 * x, 2 * y]);
            let w01: u64 = get_or_zero_2d(fine, [2 * x, 2 * y + 1]);
            let w10: u64 = get_or_zero_2d(fine, [2 * x + 1, 2 * y]);
            let w11: u64 = get_or_zero_2d(fine, [2 * x + 1, 2 * y + 1]);
            level.insert(x, y, w00 + w01 + w10 + w11);
            x = x + 1;
        }
        y = y + 1;
    }
    proof {
        let coarse = halve_grid(f, nx as int);
        level.lemma_dimensions();
        assert(level.rows().len() == coarse.len());
        assert forall|cy: int| 0 <= cy < hy implies #[trigger] level.rows()[cy] =~= coarse[cy] by {
            assert(level.rows()[cy] == level.row(cy));
            assert forall|cx: int| 0 <= cx < hx implies level.row(cy)[cx] == coarse[cy][cx] by {
                lemma_block_within_total(f, nx as int, 2 * cx, 2 * cy);
                assert(level.cell(cx, cy) == block(f, 2 * cx, 2 * cy));
            }
        }
        assert(level.rows() =~= coarse);
        assert(level.rows()[0] == level.row(0));
        lemma_halve_grid_total(f, nx as int);
    }
    level
}

/// The most rows, and the most columns, that a pyramid takes: with more, a sampled coordinate
/// would no longer leave room for the arithmetic of its inverse.
pub const MAX_SIDE: usize = 0xffff_ffff;

/// The widest denominator that the inverse takes: what a sampled coordinate may have.
pub open spec fn widest() -> int {
    ONE * 0x1_0000_0000
}

/// A pyramid of two-by-two sums over a grid of weights, the root level first.
pub struct Hierarchical2D {
    levels: Vec<Data2D<u64>>,
}

impl Hierarchical2D {
    /// The levels of the pyramid, each by its rows, the root first and the grid itself last.
    pub closed spec fn table(&self) -> Seq<Seq<Seq<u64>>> {
        Seq::new(self.levels@.len(), |k: int| self.levels@[k].rows())
    }

    /// Every level is a consistent grid.
    pub closed spec fn stored(&self) -> bool {
        forall|k: int| 0 <= k < self.levels@.len() ==> (#[trigger] self.levels@[k]).wf()
    }

    /// Walks from the root to the cell that the pair `uv` falls into.
    ///
    /// Returns its column and row and what is left of the two random numbers.
    fn descend(&self, uv: [Ratio; 2]) -> (r: (usize, usize, u64, u64))
        requires
            self.wf(),
            uv[0].is_input(),
            uv[1].is_input(),
        ensures
            standing(r.0 as int, r.1 as int, r.2 as int, r.3 as int) == walk(
                self.table(),
                0,
                standing(0, 0, fixed(uv[0]@), fixed(uv[1]@)),
            ),
            r.0 < cols_of(self.grid()),
            r.1 < self.grid().len(),
            self.grid()[r.1 as int][r.0 as int] > 0,
            r.2 < ONE,
            r.3 < ONE,
    {
        let ghost p = self.table();
        let count: usize = self.levels.len();
        let mut u: u64 = to_fixed(uv[0]);
        let mut v: u64 = to_fixed(uv[1]);
        let mut x: usize = 0;
        let mut y: usize = 0;
        let mut k: usize = 0;
        let ghost start = Walk { x: 0, y: 0, u: u as int, v: v as int };
        proof {
            lemma_walk(p, 0, start);
        }
        while k < count
            invariant
                pyramid_grid_wf(p),
                self.stored(),
                p == self.table(),
                count == p.len(),
                count == self.levels@.len(),
                k <= count,
                at_cell(p, k as int, x as int, y as int),
                u < ONE,
                v < ONE,
                walk(p, k as int, standing(x as int, y as int, u as int, v as int)) == walk(
                    p,
                    0,
                    start,
                ),
            decreases count - k,
        {
            let ghost at = Walk { x: x as int, y: y as int, u: u as int, v: v as int };
            proof {
                lemma_block_under(p, k as int, x as int, y as int);
                lemma_walk_level(p, k as int, at);
                assert(p[k as int] == self.levels@[k as int].rows());
                self.levels@[k as int].lemma_dimensions();
                lemma_grid_level(p, k as int);
                assert(cols_of(p[k as int]) == self.levels@[k as int].cols()) by {
                    assert(self.levels@[k as int].rows()[0] == self.levels@[k as int].row(0));
                }
            }
            let level: &Data2D<u64> = &self.levels[k];
            x = x * 2;
            y = y * 2;
            let w00: u64 = get_or_zero_2d(level, [x, y]);
            let w01: u64 = get_or_zero_2d(level, [x, y + 1]);
            let w10: u64 = get_or_zero_2d(level, [x + 1, y]);
            let w11: u64 = get_or_zero_2d(level, [x + 1, y + 1]);
            let right: bool = select_fixed([w00 + w01, w10 + w11], &mut u);
            let down: bool;
            if right {
                x = x + 1;
                down = select_fixed([w10, w11], &mut v);
            } else {
                down = select_fixed([w00, w01], &mut v);
            }
            if down {
                y = y + 1;
            }
            k = k + 1;
        }
        (x, y, u, v)
    }
}

impl Discrete2D for Hierarchical2D {
    open spec fn wf(&self) -> bool {
        &&& pyramid_grid_wf(self.table())
        &&& self.stored()
        &&& self.table().last().len() <= MAX_SIDE
        &&& cols_of(self.table().last()) <= MAX_SIDE
    }

    open spec fn grid(&self) -> Seq<Seq<u64>> {
        self.table().last()
    }

    open spec fn rejects(rows: Seq<Seq<u64>>) -> Option<BuildError> {
        if rows.len() == 0 || rows[0].len() == 0 {
            Some(BuildError::Empty)
        } else if rows.len() > MAX_SIDE || rows[0].len() > MAX_SIDE {
            Some(BuildError::TooManyEntries)
        } else {
            grid_rejects(rows)
        }
    }

    open spec fn outcome(&self, u: Frac, v: Frac) -> (int, int) {
        let end = walk(self.table(), 0, standing(0, 0, fixed(u), fixed(v)));
        (end.x, end.y)
    }

    proof fn lemma_shape(&self) {
    }

    proof fn lemma_outcome(&self, u: Frac, v: Frac) {
        lemma_fixed(u);
        lemma_fixed(v);
        lemma_walk(self.table(), 0, Walk { x: 0, y: 0, u: fixed(u), v: fixed(v) });
    }

    /// Halves the grid level by level until at most two rows and two columns are left.
    fn build(weights: &Data2D<u64>) -> (r: Result<Self, BuildError>) {
        proof {
            weights.lemma_dimensions();
            if weights.lines() > 0 {
                assert(weights.rows()[0] == weights.row(0));
            }
        }
        if weights.width() > 0 && weights.height() > 0 && (weights.width() > MAX_SIDE
            || weights.height() > MAX_SIDE) {
            return Err(BuildError::TooManyEntries);
        }
        let sum: u64 = match measure_grid(weights) {
            Ok(s) => s,
            Err(e) => {
                return Err(e);
            },
        };
        let ghost g = weights.rows();
        let mut rev: Vec<Data2D<u64>> = Vec::new();
        rev.push(weights.duplicate());
        let mut nx: usize = weights.width();
        let mut ny: usize = weights.height();
        let ghost mut stack: Seq<Seq<Seq<u64>>> = seq![g];
        proof {
            assert(g[0] == weights.row(0));
            assert(rectangular(g, nx as int)) by {
                assert forall|y: int| 0 <= y < g.len() implies (#[trigger] g[y]).len() == nx by {
                    assert(g[y] == weights.row(y));
                }
            }
        }
        while nx > 2 || ny > 2
            invariant
                rev@.len() >= 1,
                stack.len() == rev@.len(),
                stack[0] == g,
                nx >= 1,
                ny >= 1,
                forall|j: int| 0 <= j < rev@.len() ==> #[trigger] stored_as(rev@, stack, j),
                stack.last().len() == ny,
                cols_of(stack.last()) == nx,
                rectangular(stack.last(), nx as int),
                grid_total(stack.last()) == grid_total(g),
                0 < grid_total(g) <= u64::MAX,
                forall|j: int| 1 <= j < stack.len() ==> #[trigger] halved_from(stack, j),
            decreases nx + ny,
        {
            let last: usize = rev.len() - 1;
            proof {
                assert(stored_as(rev@, stack, last as int));
                lemma_halve_grid_total(stack.last(), nx as int);
                let d = rev@[last as int];
                d.lemma_dimensions();
                assert(d.rows()[0] == d.row(0));
            }
            let level: Data2D<u64> = coarser(&rev[last]);
            proof {
                let before = stack;
                stack = stack.push(level.rows());
                assert forall|j: int| 1 <= j < stack.len() implies #[trigger] halved_from(
                    stack,
                    j,
                ) by {
                    if j < before.len() {
                        assert(halved_from(before, j));
                    }
                }
                assert forall|j: int| 0 <= j < rev@.len() + 1 implies #[trigger] stored_as(
                    rev@.push(level),
                    stack,
                    j,
                ) by {
                    if j < rev@.len() {
                        assert(stored_as(rev@, before, j));
                    }
                }
            }
            rev.push(level);
            nx = nx / 2 + nx % 2;
            ny = ny / 2 + ny % 2;
        }
        let ghost fine_first = rev@;
        let count: usize = rev.len();
        let mut levels: Vec<Data2D<u64>> = Vec::new();
        while rev.len() > 0
            invariant
                count == fine_first.len(),
                rev@.len() + levels@.len() == count,
                forall|j: int| 0 <= j < rev@.len() ==> rev@[j] == fine_first[j],
                forall|j: int|
                    0 <= j < levels@.len() ==> #[trigger] levels@[j] == fine_first[count - 1 - j],
            decreases rev@.len(),
        {
            let level: Data2D<u64> = rev.pop().unwrap();
            levels.push(level);
        }
        let table = Hierarchical2D { levels };
        proof {
            let p = table.table();
            assert(p.len() == count);
            assert forall|k: int| 0 <= k < count implies #[trigger] p[k] == stack[count - 1
                - k] by {
                assert(table.levels@[k] == fine_first[count - 1 - k]);
                assert(stored_as(fine_first, stack, count - 1 - k));
            }
            assert(p.last() == g);
            assert forall|k: int| 1 <= k < p.len() implies #[trigger] linked_grid(p, k) by {
                let j = count - k;
                assert(halved_from(stack, j));
                assert(p[k] == stack[j - 1]);
                assert(p[k - 1] == stack[j]);
            }
            assert forall|k: int| 0 <= k < table.levels@.len() implies (
            #[trigger] table.levels@[k]).wf() by {
                assert(table.levels@[k] == fine_first[count - 1 - k]);
                assert(stored_as(fine_first, stack, count - 1 - k));
            }
        }
        Ok(table)
    }

    fn sample(&self, uv: [Ratio; 2]) -> (r: [usize; 2]) {
        let found: (usize, usize, u64, u64) = self.descend(uv);
        [found.0, found.1]
    }

    /// The weight of a cell, read from the finest level.
    ///
    /// Walking back up to the root would multiply the weight by the share that each sum on
    /// the way has of the next; with whole numbers these shares cancel to the weight itself.
    fn pdf(&self, uv: [usize; 2]) -> (r: u64) {
        let last: usize = self.levels.len() - 1;
        proof {
            assert(self.table()[last as int] == self.levels@[last as int].rows());
        }
        get_or_zero_2d(&self.levels[last], uv)
    }

    /// The sum of the root level.
    fn integral(&self) -> (r: u64) {
        proof {
            lemma_grid_level(self.table(), 0);
            lemma_small_grid(self.table()[0], cols_of(self.table()[0]));
            lemma_block_within_total(self.table()[0], cols_of(self.table()[0]), 0, 0);
            assert(self.table()[0] == self.levels@[0].rows());
        }
        let root: &Data2D<u64> = &self.levels[0];
        let w00: u64 = get_or_zero_2d(root, [0, 0]);
        let w01: u64 = get_or_zero_2d(root, [0, 1]);
        let w10: u64 = get_or_zero_2d(root, [1, 0]);
        let w11: u64 = get_or_zero_2d(root, [1, 1]);
        w00 + w01 + w10 + w11
    }

    fn width(&self) -> (r: usize) {
        let last: usize = self.levels.len() - 1;
        proof {
            let d = self.levels@[last as int];
            assert(self.table()[last as int] == d.rows());
            assert(d.rows()[0] == d.row(0));
        }
        self.levels[last].width()
    }

    fn height(&self) -> (r: usize) {
        let last: usize = self.levels.len() - 1;
        proof {
            assert(self.table()[last as int] == self.levels@[last as int].rows());
        }
        self.levels[last].height()
    }
}

/// The point between `low` and `high` that splits them as `first` to `second`, rounded down.
/// Where both weights are zero nothing can be split, and the point is `low`.
pub open spec fn between(first: int, second: int, low: int, high: int) -> int {
    if first + second == 0 {
        low
    } else {
        low + ((high - low) * first) / (first + second)
    }
}

/// The point between `low` and `high` that splits them as `first` to `second`.
pub fn split(first: u64, second: u64, low: u64, high: u64) -> (r: u64)
    requires
        low <= high <= ONE,
        first + second <= u64::MAX,
    ensures
        r == between(first as int, second as int, low as int, high as int),
        low <= r <= high,
{
    if first == 0 && second == 0 {
        low
    } else {
        let both: u128 = (first as u128) + (second as u128);
        proof {
            lemma_mul_le((high - low) as int, ONE as int, first as int, u64::MAX as int);
            lemma_mul_le((high - low) as int, (high - low) as int, first as int, both as int);
            lemma_div_parts((high - low) * first, both as int);
            let q = ((high - low) * first) / (both as int);
            assert(q <= high - low) by (nonlinear_arith)
                requires
                    (high - low) * first == q * both + ((high - low) * first) % (both as int),
                    ((high - low) * first) % (both as int) >= 0,
                    (high - low) * first <= (high - low) * both,
                    both > 0,
            ;
        }
        let part: u128 = (((high - low) as u128) * (first as u128)) / both;
        low + (part as u64)
    }
}

/// The range of random numbers that the walk has been narrowed to, for each of the two
/// coordinates, and the cell it stands at.
pub struct Bounds {
    pub x: int,
    pub y: int,
    pub u0: int,
    pub u1: int,
    pub v0: int,
    pub v1: int,
}

/// The walk stands at column `x` of row `y`, with the random numbers narrowed to `u0 .. u1`
/// and `v0 .. v1`.
pub open spec fn narrowed(x: int, y: int, u0: int, u1: int, v0: int, v1: int) -> Bounds {
    Bounds { x: x, y: y, u0: u0, u1: u1, v0: v0, v1: v1 }
}

/// One level of the walk towards the cell `(tx, ty)`, whose ancestors at this level are
/// `half` cells wide: the half of the block that holds the cell is chosen, first across and
/// then along, and the range of random numbers is cut at the point that splits it as the
/// weights of the two halves. A level of one column, or one row, has nothing to choose in
/// that direction.
pub open spec fn narrow_level(rows: Seq<Seq<u64>>, half: int, tx: int, ty: int, at: Bounds) -> Bounds {
    let x = 2 * at.x;
    let y = 2 * at.y;
    let wide = cols_of(rows) > 1;
    let cut_u = between(
        cell_or_zero(rows, x, y) + cell_or_zero(rows, x, y + 1),
        cell_or_zero(rows, x + 1, y) + cell_or_zero(rows, x + 1, y + 1),
        at.u0,
        at.u1,
    );
    let right = wide && tx >= (x + 1) * half;
    let column = if right {
        x + 1
    } else {
        x
    };
    let tall = rows.len() > 1;
    let cut_v = between(
        cell_or_zero(rows, column, y),
        cell_or_zero(rows, column, y + 1),
        at.v0,
        at.v1,
    );
    let down = tall && ty >= (y + 1) * half;
    Bounds {
        x: column,
        y: if down {
            y + 1
        } else {
            y
        },
        u0: if right {
            cut_u
        } else {
            at.u0
        },
        u1: if wide && !right {
            cut_u
        } else {
            at.u1
        },
        v0: if down {
            cut_v
        } else {
            at.v0
        },
        v1: if tall && !down {
            cut_v
        } else {
            at.v1
        },
    }
}

/// The walk towards the cell `(tx, ty)` from level `k` down to the finest level.
pub open spec fn narrow(levels: Seq<Seq<Seq<u64>>>, k: int, tx: int, ty: int, at: Bounds) -> Bounds
    decreases levels.len() - k,
{
    if k < 0 || k >= levels.len() {
        at
    } else {
        narrow(
            levels,
            k + 1,
            tx,
            ty,
            narrow_level(levels[k], two_to((levels.len() - 1 - k) as nat), tx, ty, at),
        )
    }
}

/// The finest level is at most as many times wider and taller than level `k` as one cell of
/// level `k` spans of it.
pub proof fn lemma_grid_span(levels: Seq<Seq<Seq<u64>>>, k: int)
    requires
        pyramid_grid_wf(levels),
        0 <= k < levels.len(),
    ensures
        cols_of(levels.last()) <= cols_of(levels[k]) * two_to((levels.len() - 1 - k) as nat),
        levels.last().len() <= levels[k].len() * two_to((levels.len() - 1 - k) as nat),
        two_to((levels.len() - 1 - k) as nat) >= 1,
    decreases levels.len() - k,
{
    let span = two_to((levels.len() - 1 - k) as nat);
    if k < levels.len() - 1 {
        lemma_grid_span(levels, k + 1);
        lemma_grid_level(levels, k);
        lemma_grid_level(levels, k + 1);
        assert(linked_grid(levels, k + 1));
        let finer = two_to((levels.len() - 2 - k) as nat);
        assert(span == 2 * finer);
        assert(levels[k][0].len() == (cols_of(levels[k + 1]) + 1) / 2);
        assert(cols_of(levels[k + 1]) * finer <= cols_of(levels[k]) * span) by (nonlinear_arith)
            requires
                cols_of(levels[k + 1]) <= 2 * cols_of(levels[k]),
                span == 2 * finer,
                finer >= 1,
        ;
        assert(levels[k + 1].len() * finer <= levels[k].len() * span) by (nonlinear_arith)
            requires
                levels[k + 1].len() <= 2 * levels[k].len(),
                span == 2 * finer,
                finer >= 1,
        ;
    } else {
        assert(span == 1);
        assert(cols_of(levels[k]) * 1 == cols_of(levels[k]));
        assert(levels[k].len() * 1 == levels[k].len());
    }
}

/// The point that the walk stands at stays an ancestor of the cell looked for: the cell lies
/// in the half that was chosen.
proof fn lemma_narrow_index(size: int, span: int, at: int, target: int, right: bool)
    requires
        span >= 1,
        0 <= at,
        at * (2 * span) <= target,
        target < (at + 1) * (2 * span) || (size == 1 && at == 0),
        0 <= target,
        size >= 1,
        size == 1 ==> target < span && !right,
        size > 1 ==> right == (target >= (2 * at + 1) * span),
    ensures
        ({
            let next = if right {
                2 * at + 1
            } else {
                2 * at
            };
            &&& next * span <= target < (next + 1) * span
            &&& 2 * at <= target
            &&& next <= target
            &&& (2 * at + 1) * span <= target + span
        }),
{
    assert(at * (2 * span) == (2 * at) * span && (at + 1) * (2 * span) == (2 * at + 2) * span
        && (2 * at + 1) * span == (2 * at) * span + span && (2 * at + 2) * span == (2 * at + 1)
        * span + span) by (nonlinear_arith);
    assert(2 * at <= target) by (nonlinear_arith)
        requires
            (2 * at) * span <= target,
            span >= 1,
            at >= 0,
    ;
    if right {
        assert(2 * at + 1 <= target) by (nonlinear_arith)
            requires
                (2 * at + 1) * span <= target,
                span >= 1,
                at >= 0,
        ;
    }
}

impl Continuous2D for Hierarchical2D {
    open spec fn warp(&self, u: Frac, v: Frac) -> (Frac, Frac) {
        let end = walk(self.table(), 0, standing(0, 0, fixed(u), fixed(v)));
        (
            Frac { num: end.x * ONE + end.u, den: ONE * cols_of(self.grid()) },
            Frac { num: end.y * ONE + end.v, den: ONE * self.grid().len() },
        )
    }

    open spec fn unwarp(&self, x: Frac, y: Frac) -> (Frac, Frac) {
        let scaled_x = cols_of(self.grid()) * x.num;
        let scaled_y = self.grid().len() * y.num;
        let end = narrow(
            self.table(),
            0,
            scaled_x / x.den,
            scaled_y / y.den,
            narrowed(0, 0, 0, ONE as int, 0, ONE as int),
        );
        (
            Frac { num: end.u0 + ((end.u1 - end.u0) * (scaled_x % x.den)) / x.den, den: ONE as int },
            Frac { num: end.v0 + ((end.v1 - end.v0) * (scaled_y % y.den)) / y.den, den: ONE as int },
        )
    }

    open spec fn invertible(&self, x: Ratio, y: Ratio) -> bool {
        x.num < x.den <= widest() && y.num < y.den <= widest()
    }

    proof fn lemma_invertible(&self, x: Ratio, y: Ratio) {
    }

    proof fn lemma_agreement(&self, u: Frac, v: Frac) {
        lemma_fixed(u);
        lemma_fixed(v);
        let end = walk(self.table(), 0, standing(0, 0, fixed(u), fixed(v)));
        lemma_walk(self.table(), 0, standing(0, 0, fixed(u), fixed(v)));
        lemma_cell_form(cols_of(self.grid()), end.x, ONE as int, end.u);
        lemma_cell_form(self.grid().len() as int, end.y, ONE as int, end.v);
    }

    /// Walks down as `sample` does; what is left of the two random numbers at the bottom
    /// places the coordinates within the cell.
    fn sample_continuous(&self, uv: [Ratio; 2]) -> (r: [Ratio; 2])
        ensures
            self.invertible(r[0], r[1]),
    {
        let found: (usize, usize, u64, u64) = self.descend(uv);
        let width: usize = self.width();
        let height: usize = self.height();
        proof {
            self.lemma_agreement(uv[0]@, uv[1]@);
            lemma_mul_le(found.0 as int, usize::MAX as int, ONE as int, ONE as int);
            lemma_mul_le(found.1 as int, usize::MAX as int, ONE as int, ONE as int);
            lemma_mul_le(ONE as int, ONE as int, width as int, usize::MAX as int);
            lemma_mul_le(ONE as int, ONE as int, height as int, usize::MAX as int);
        }
        [
            Ratio {
                num: (found.0 as u128) * (ONE as u128) + (found.2 as u128),
                den: (ONE as u128) * (width as u128),
            },
            Ratio {
                num: (found.1 as u128) * (ONE as u128) + (found.3 as u128),
                den: (ONE as u128) * (height as u128),
            },
        ]
    }

    /// Walks down towards the cell of the coordinates `uv`, halving the range of cells at
    /// each level and cutting the range of random numbers as the weights of the two halves,
    /// first across and then along, then interpolates within the ranges that are left.
    fn inverse_continuous(&self, uv: [Ratio; 2]) -> (r: [Ratio; 2]) {
        let width: usize = self.width();
        let height: usize = self.height();
        let count: usize = self.levels.len();
        let ghost p = self.table();
        proof {
            lemma_cell(width as int, uv[0]@);
            lemma_cell(height as int, uv[1]@);
            lemma_mul_le(width as int, MAX_SIDE as int, uv[0].num as int, widest());
            lemma_mul_le(height as int, MAX_SIDE as int, uv[1].num as int, widest());
            lemma_grid_dims(p, count - 1);
            lemma_grid_span(p, 0);
        }
        let scaled_x: u128 = (width as u128) * uv[0].num;
        let scaled_y: u128 = (height as u128) * uv[1].num;
        let tx: usize = (scaled_x / uv[0].den) as usize;
        let ty: usize = (scaled_y / uv[1].den) as usize;
        let rest_x: u128 = scaled_x % uv[0].den;
        let rest_y: u128 = scaled_y % uv[1].den;
        let mut half: u128 = 1;
        let mut j: usize = 1;
        while j < count
            invariant
                1 <= j <= count,
                half == two_to((j - 1) as nat),
                two_to((count - 1) as nat) <= usize::MAX,
            decreases count - j,
        {
            proof {
                lemma_two_to_monotone(j as nat, (count - 1) as nat);
            }
            half = half * 2;
            j = j + 1;
        }
        let mut x: usize = 0;
        let mut y: usize = 0;
        let mut u0: u64 = 0;
        let mut u1: u64 = ONE;
        let mut v0: u64 = 0;
        let mut v1: u64 = ONE;
        let mut k: usize = 0;
        let ghost start = narrowed(0, 0, 0, ONE as int, 0, ONE as int);
        proof {
            lemma_grid_level(p, 0);
            assert(cols_of(p[0]) * two_to((count - 1) as nat) <= 2 * two_to((count - 1) as nat))
                by (nonlinear_arith)
                requires
                    cols_of(p[0]) <= 2,
                    two_to((count - 1) as nat) >= 1,
            ;
            assert(p[0].len() * two_to((count - 1) as nat) <= 2 * two_to((count - 1) as nat))
                by (nonlinear_arith)
                requires
                    p[0].len() <= 2,
                    two_to((count - 1) as nat) >= 1,
            ;
        }
        while k < count
            invariant
                pyramid_grid_wf(p),
                self.stored(),
                p == self.table(),
                count == p.len(),
                count == self.levels@.len(),
                k <= count,
                tx < cols_of(p.last()),
                ty < p.last().len(),
                k < count ==> half == two_to((count - 1 - k) as nat),
                half <= usize::MAX,
                k < count ==> x * (2 * half) <= tx < (x + 1) * (2 * half),
                k < count ==> y * (2 * half) <= ty < (y + 1) * (2 * half),
                u0 <= u1 <= ONE,
                v0 <= v1 <= ONE,
                narrow(
                    p,
                    k as int,
                    tx as int,
                    ty as int,
                    narrowed(x as int, y as int, u0 as int, u1 as int, v0 as int, v1 as int),
                ) == narrow(p, 0, tx as int, ty as int, start),
            decreases count - k,
        {
            let ghost rows = p[k as int];
            proof {
                lemma_grid_level(p, k as int);
                lemma_grid_span(p, k as int);
                lemma_block_within_total(rows, cols_of(rows), 2 * x, 2 * y);
                assert(rows == self.levels@[k as int].rows());
                self.levels@[k as int].lemma_dimensions();
                assert(cols_of(rows) == self.levels@[k as int].cols()) by {
                    assert(self.levels@[k as int].rows()[0] == self.levels@[k as int].row(0));
                }
                assert(cols_of(rows) * half == half <==> cols_of(rows) == 1) by (nonlinear_arith)
                    requires
                        cols_of(rows) >= 1,
                        half >= 1,
                ;
                assert(rows.len() * half == half <==> rows.len() == 1) by (nonlinear_arith)
                    requires
                        rows.len() >= 1,
                        half >= 1,
                ;
            }
            let level: &Data2D<u64> = &self.levels[k];
            let wide: bool = level.width() > 1;
            let tall: bool = level.height() > 1;
            proof {
                lemma_narrow_index(
                    cols_of(rows),
                    half as int,
                    x as int,
                    tx as int,
                    wide && tx >= (2 * x + 1) * half,
                );
                lemma_narrow_index(
                    rows.len() as int,
                    half as int,
                    y as int,
                    ty as int,
                    tall && ty >= (2 * y + 1) * half,
                );
            }
            let ghost old_x = x as int;
            let ghost old_y = y as int;
            x = x * 2;
            y = y * 2;
            proof {
                assert((x + 1) * half == (2 * old_x + 1) * half && (y + 1) * half == (2 * old_y
                    + 1) * half) by (nonlinear_arith)
                    requires
                        x == 2 * old_x,
                        y == 2 * old_y,
                ;
            }
            if wide {
                let w00: u64 = get_or_zero_2d(level, [x, y]);
                let w01: u64 = get_or_zero_2d(level, [x, y + 1]);
                let w10: u64 = get_or_zero_2d(level, [x + 1, y]);
                let w11: u64 = get_or_zero_2d(level, [x + 1, y + 1]);
                let cut: u64 = split(w00 + w01, w10 + w11, u0, u1);
                if (tx as u128) >= ((x as u128) + 1) * half {
                    u0 = cut;
                    x = x + 1;
                } else {
                    u1 = cut;
                }
            }
            if tall {
                let first: u64 = get_or_zero_2d(level, [x, y]);
                let second: u64 = get_or_zero_2d(level, [x, y + 1]);
                let cut: u64 = split(first, second, v0, v1);
                if (ty as u128) >= ((y as u128) + 1) * half {
                    v0 = cut;
                    y = y + 1;
                } else {
                    v1 = cut;
                }
            }
            half = half / 2;
            k = k + 1;
            proof {
                if k < count {
                    assert(two_to((count - k) as nat) == 2 * two_to((count - 1 - k) as nat));
                }
            }
        }
        let part_u: u64 = Ratio { num: rest_x, den: uv[0].den }.floor_mul(u1 - u0);
        let part_v: u64 = Ratio { num: rest_y, den: uv[1].den }.floor_mul(v1 - v0);
        proof {
            assert(rest_x * (u1 - u0) == (u1 - u0) * rest_x) by (nonlinear_arith);
            assert(rest_y * (v1 - v0) == (v1 - v0) * rest_y) by (nonlinear_arith);
        }
        [
            Ratio { num: (u0 as u128) + (part_u as u128), den: ONE as u128 },
            Ratio { num: (v0 as u128) + (part_v as u128), den: ONE as u128 },
        ]
    }
}

impl Hierarchical2D {
    /// The number of levels of the pyramid.
    pub open spec fn depth(&self) -> int {
        self.table().len() as int
    }

    /// A pyramid has at most 32 levels.
    pub proof fn lemma_depth(&self)
        requires
            self.wf(),
        ensures
            1 <= self.depth() <= 32,
    {
        let p = self.table();
        let top = p.len() - 1;
        lemma_grid_dims(p, top);
        lemma_two_to_32();
        if top >= 32 {
            lemma_two_to_monotone(32, top as nat);
        }
    }

    /// The box of random numbers, in the fixed-point scale, that the walk towards the cell in
    /// column `x` of row `y` narrows to.
    pub open spec fn box_of(&self, x: int, y: int) -> Bounds {
        cell_box(self.table(), x, y)
    }

    /// A pair of random numbers lies in the box of the cell that it draws, or above it by at
    /// most three units of the last place per level.
    pub proof fn lemma_drawn_within(&self, u: Frac, v: Frac)
        requires
            self.wf(),
            u.is_unit(),
            v.is_unit(),
        ensures
            ({
                let found = self.box_of(self.outcome(u, v).0, self.outcome(u, v).1);
                &&& ordered(found)
                &&& found.u0 <= fixed(u) <= found.u1 + 3 * self.depth()
                &&& found.v0 <= fixed(v) <= found.v1 + 3 * self.depth()
            }),
    {
        lemma_fixed(u);
        lemma_fixed(v);
        lemma_pair_within(self.table(), fixed(u), fixed(v));
    }

    /// Every cell whose box is large enough is drawn: by every pair of random numbers that
    /// lies inside its box and more than three units of the last place per level above the
    /// lower ends of the box.
    pub proof fn lemma_draws(&self, u: Frac, v: Frac, x: int, y: int)
        requires
            self.wf(),
            u.is_unit(),
            v.is_unit(),
            0 <= x < self.grid()[0].len(),
            0 <= y < self.grid().len(),
            self.box_of(x, y).u0 + 3 * self.depth() < fixed(u) < self.box_of(x, y).u1,
            self.box_of(x, y).v0 + 3 * self.depth() < fixed(v) < self.box_of(x, y).v1,
        ensures
            self.outcome(u, v) == (x, y),
    {
        lemma_fixed(u);
        lemma_fixed(v);
        lemma_pair_draws(self.table(), fixed(u), fixed(v), x, y);
    }

    /// A cell is drawn in proportion to its weight, as far as 63 binary places tell: the box
    /// that draws it is as large a part of the unit square as the weight of the cell is of
    /// the integral, but for two units of the last place, and a little, at each level.
    pub proof fn lemma_box_area(&self, x: int, y: int)
        requires
            self.wf(),
            0 <= x < self.grid()[0].len(),
            0 <= y < self.grid().len(),
        ensures
            gap(
                size(self.box_of(x, y), grid_total(self.grid())),
                ONE * ONE * self.grid()[y][x],
            ) <= self.depth() * (slack() * grid_total(self.grid())),
    {
        lemma_cell_box_area(self.table(), x, y);
    }

    /// Inverting sampled coordinates gives both random numbers back as far as the walk keeps
    /// them: each comes back in the fixed-point scale, at most three units of the last place
    /// per level below the number that the walk started with, and never above it.
    pub proof fn lemma_round_trip(&self, u: Frac, v: Frac)
        requires
            self.wf(),
            u.is_unit(),
            v.is_unit(),
        ensures
            ({
                let there = self.warp(u, v);
                let back = self.unwarp(there.0, there.1);
                &&& back.0.den == ONE
                &&& back.1.den == ONE
                &&& fixed(u) - 3 * self.depth() <= back.0.num <= fixed(u)
                &&& fixed(v) - 3 * self.depth() <= back.1.num <= fixed(v)
            }),
    {
        let p = self.table();
        let start = standing(0, 0, fixed(u), fixed(v));
        let wide = narrowed(0, 0, 0, ONE as int, 0, ONE as int);
        let end = walk(p, 0, start);
        lemma_fixed(u);
        lemma_fixed(v);
        lemma_walk(p, 0, start);
        lemma_drift(p, 0, start, wide);
        let cols = cols_of(self.grid());
        let lines = self.grid().len() as int;
        let there = self.warp(u, v);
        let back = self.unwarp(there.0, there.1);
        lemma_cell_form(cols, end.x, ONE as int, end.u);
        lemma_cell_form(lines, end.y, ONE as int, end.v);
        let cut = narrow(p, 0, end.x, end.y, wide);
        assert(ONE * cols == (ONE as int) * cols);
        assert((cols * there.0.num) / there.0.den == end.x);
        assert((lines * there.1.num) / there.1.den == end.y);
        assert((cols * there.0.num) % there.0.den == end.u * cols);
        assert((lines * there.1.num) % there.1.den == end.v * lines);
        lemma_back(cut.u0, cut.u1, end.u, cols, fixed(u), self.depth(), back.0.num);
        lemma_back(cut.v0, cut.v1, end.v, lines, fixed(v), self.depth(), back.1.num);
    }
}

/// What the inverse returns is the whole part of the point that the walk ends at, which lies
/// within the stated distance of the number that the walk started with.
proof fn lemma_back(lo: int, hi: int, left: int, size: int, from: int, depth: int, back: int)
    requires
        0 <= lo <= hi <= ONE,
        0 <= left < ONE,
        size >= 1,
        depth >= 0,
        back == lo + ((hi - lo) * (left * size)) / (ONE * size),
        point(0, ONE as int, from) - 3 * ONE * depth <= point(lo, hi, left) <= point(
            0,
            ONE as int,
            from,
        ),
    ensures
        from - 3 * depth <= back <= from,
{
    let d = hi - lo;
    let x = d * left;
    lemma_mul_le(0, d, 0, left);
    lemma_div_parts(x, ONE as int);
    let q = x / (ONE as int);
    let r = x % (ONE as int);
    assert(d * (left * size) == q * (ONE * size) + r * size && 0 <= r * size < ONE * size)
        by (nonlinear_arith)
        requires
            d * left == q * ONE + r,
            0 <= r < ONE,
            size >= 1,
    ;
    lemma_div_unique(d * (left * size), ONE * size, q, r * size);
    assert(back == lo + q);
    assert(point(lo, hi, left) == back * ONE + r) by (nonlinear_arith)
        requires
            point(lo, hi, left) == lo * ONE + d * left,
            d * left == q * ONE + r,
            back == lo + q,
    ;
    assert(point(0, ONE as int, from) == from * ONE) by (nonlinear_arith)
        requires
            point(0, ONE as int, from) == 0 * ONE + (ONE - 0) * from,
    ;
    assert(3 * ONE * depth == (3 * depth) * ONE) by (nonlinear_arith);
    assert((from - 3 * depth) * ONE == from * ONE - (3 * depth) * ONE) by (nonlinear_arith);
    assert(back * ONE <= from * ONE);
    lemma_mul_cancel(back, from, ONE as int);
    assert((from - 3 * depth) * ONE < (back + 1) * ONE) by (nonlinear_arith)
        requires
            (from - 3 * depth) * ONE <= back * ONE + r,
            r < ONE,
    ;
    lemma_mul_cancel(from - 3 * depth, back + 1, ONE as int);
}

} // verus!
