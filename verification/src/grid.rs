//! What a grid of weights means: its integral, and the next coarser grid of a pyramid.

use vstd::prelude::*;
use crate::pyramid::{at_or_zero, halve, reach, lemma_halve_total, lemma_reach_step};
use crate::weights::{prefix_sum, total, lemma_prefix_monotone, lemma_weight_within_total};

verus! {

/// Every row of the grid has `cols` weights.
pub open spec fn rectangular(rows: Seq<Seq<u64>>, cols: int) -> bool {
    forall|y: int| 0 <= y < rows.len() ==> (#[trigger] rows[y]).len() == cols
}

/// The weight in column `x` of row `y`, or zero outside the grid.
pub open spec fn cell_or_zero(rows: Seq<Seq<u64>>, x: int, y: int) -> int {
    if 0 <= y < rows.len() {
        at_or_zero(rows[y], x)
    } else {
        0
    }
}

/// The sum of the first `k` rows.
pub open spec fn rows_sum(rows: Seq<Seq<u64>>, k: int) -> int
    decreases k,
{
    if k <= 0 {
        0
    } else {
        rows_sum(rows, k - 1) + total(rows[k - 1])
    }
}

/// The sum of all weights of the grid.
pub open spec fn grid_total(rows: Seq<Seq<u64>>) -> int {
    rows_sum(rows, rows.len() as int)
}

/// The sum of the two-by-two block of weights whose first corner is `(x, y)`.
pub open spec fn block(rows: Seq<Seq<u64>>, x: int, y: int) -> int {
    cell_or_zero(rows, x, y) + cell_or_zero(rows, x, y + 1) + cell_or_zero(rows, x + 1, y)
        + cell_or_zero(rows, x + 1, y + 1)
}

/// The next coarser grid: each weight is the sum of a two-by-two block, blocks that reach
/// over the edge being filled up with zeros.
pub open spec fn halve_grid(rows: Seq<Seq<u64>>, cols: int) -> Seq<Seq<u64>> {
    Seq::new(
        ((rows.len() + 1) / 2) as nat,
        |y: int| Seq::new(((cols + 1) / 2) as nat, |x: int| block(rows, 2 * x, 2 * y) as u64),
    )
}

/// Partial sums of rows are never negative and grow with the number of rows.
pub proof fn lemma_rows_monotone(rows: Seq<Seq<u64>>, j: int, k: int)
    requires
        0 <= j <= k <= rows.len(),
    ensures
        0 <= rows_sum(rows, j) <= rows_sum(rows, k),
    decreases k,
{
    if k > 0 {
        lemma_prefix_monotone(rows[k - 1], 0, rows[k - 1].len() as int);
        if j < k {
            lemma_rows_monotone(rows, j, k - 1);
        } else {
            lemma_rows_monotone(rows, k - 1, k - 1);
        }
    }
}

/// A row and a weight stay within the integral of the grid.
pub proof fn lemma_cell_within_total(rows: Seq<Seq<u64>>, x: int, y: int)
    requires
        0 <= y < rows.len(),
    ensures
        0 <= total(rows[y]) <= grid_total(rows),
        0 <= cell_or_zero(rows, x, y) <= total(rows[y]),
        rows_sum(rows, y + 1) == rows_sum(rows, y) + total(rows[y]),
        0 <= rows_sum(rows, y),
        rows_sum(rows, y + 1) <= grid_total(rows),
{
    lemma_rows_monotone(rows, y, y);
    lemma_rows_monotone(rows, y + 1, rows.len() as int);
    lemma_prefix_monotone(rows[y], 0, rows[y].len() as int);
    if 0 <= x < rows[y].len() {
        lemma_weight_within_total(rows[y], x);
    }
}

/// The partial sums of a row that adds two rows up weight by weight are the sums of the
/// partial sums of the two.
proof fn lemma_added_rows(c: Seq<u64>, a: Seq<u64>, b: Seq<u64>, k: int)
    requires
        0 <= k <= c.len(),
        forall|x: int| 0 <= x < c.len() ==> c[x] == at_or_zero(a, x) + at_or_zero(b, x),
    ensures
        prefix_sum(c, k) == reach(a, k) + reach(b, k),
    decreases k,
{
    if k > 0 {
        lemma_added_rows(c, a, b, k - 1);
        lemma_reach_step(a, k - 1);
        lemma_reach_step(b, k - 1);
    }
}

/// A row of the coarser grid sums to what the two rows under it sum to.
proof fn lemma_halved_row(rows: Seq<Seq<u64>>, cols: int, y: int)
    requires
        rectangular(rows, cols),
        0 <= y < (rows.len() + 1) / 2,
        grid_total(rows) <= u64::MAX,
    ensures
        total(halve_grid(rows, cols)[y]) == total(rows[2 * y]) + if 2 * y + 1 < rows.len() {
            total(rows[2 * y + 1])
        } else {
            0
        },
{
    let coarse = halve_grid(rows, cols)[y];
    let upper = rows[2 * y];
    let lower = if 2 * y + 1 < rows.len() {
        rows[2 * y + 1]
    } else {
        Seq::<u64>::empty()
    };
    lemma_cell_within_total(rows, 0, 2 * y);
    if 2 * y + 1 < rows.len() {
        lemma_cell_within_total(rows, 0, 2 * y + 1);
    }
    lemma_prefix_monotone(lower, 0, lower.len() as int);
    let a = halve(upper);
    let b = halve(lower);
    lemma_halve_total(upper);
    lemma_halve_total(lower);
    assert forall|x: int| 0 <= x < coarse.len() implies coarse[x] == at_or_zero(a, x)
        + at_or_zero(b, x) by {
        lemma_reach_step(upper, 2 * x);
        lemma_reach_step(upper, 2 * x + 1);
        lemma_reach_step(lower, 2 * x);
        lemma_reach_step(lower, 2 * x + 1);
        assert(block(rows, 2 * x, 2 * y) == at_or_zero(upper, 2 * x) + at_or_zero(
            upper,
            2 * x + 1,
        ) + at_or_zero(lower, 2 * x) + at_or_zero(lower, 2 * x + 1));
        lemma_reach_step(upper, 2 * x + 2);
        lemma_reach_step(lower, 2 * x + 2);
    }
    lemma_added_rows(coarse, a, b, coarse.len() as int);
    assert(a.len() == coarse.len());
    assert(b.len() <= coarse.len());
}

proof fn lemma_halved_rows(rows: Seq<Seq<u64>>, cols: int, k: int)
    requires
        rectangular(rows, cols),
        0 <= k <= (rows.len() + 1) / 2,
        grid_total(rows) <= u64::MAX,
    ensures
        rows_sum(halve_grid(rows, cols), k) == rows_sum(
            rows,
            if 2 * k <= rows.len() {
                2 * k
            } else {
                rows.len() as int
            },
        ),
    decreases k,
{
    if k > 0 {
        lemma_halved_rows(rows, cols, k - 1);
        lemma_halved_row(rows, cols, k - 1);
        let coarse = halve_grid(rows, cols);
        assert(rows_sum(coarse, k) == rows_sum(coarse, k - 1) + total(coarse[k - 1]));
        assert(rows_sum(rows, 2 * k - 1) == rows_sum(rows, 2 * k - 2) + total(rows[2 * k - 2]));
        if 2 * k <= rows.len() {
            assert(rows_sum(rows, 2 * k) == rows_sum(rows, 2 * k - 1) + total(rows[2 * k - 1]));
        }
    }
}

/// Both grids have the same integral.
pub proof fn lemma_halve_grid_total(rows: Seq<Seq<u64>>, cols: int)
    requires
        rectangular(rows, cols),
        grid_total(rows) <= u64::MAX,
    ensures
        grid_total(halve_grid(rows, cols)) == grid_total(rows),
        rectangular(halve_grid(rows, cols), (cols + 1) / 2),
{
    lemma_halved_rows(rows, cols, (rows.len() as int + 1) / 2);
}

/// A block of weights stays within the integral of the grid.
pub proof fn lemma_block_within_total(rows: Seq<Seq<u64>>, cols: int, x: int, y: int)
    requires
        rectangular(rows, cols),
        0 <= x,
        0 <= y,
    ensures
        0 <= cell_or_zero(rows, x, y),
        0 <= cell_or_zero(rows, x, y + 1),
        0 <= cell_or_zero(rows, x + 1, y),
        0 <= cell_or_zero(rows, x + 1, y + 1),
        block(rows, x, y) <= grid_total(rows),
{
    lemma_rows_monotone(rows, 0, rows.len() as int);
    if y < rows.len() {
        lemma_cell_within_total(rows, x, y);
        lemma_reach_step(rows[y], x);
        lemma_reach_step(rows[y], x + 1);
        lemma_reach_step(rows[y], x + 2);
    }
    if y + 1 < rows.len() {
        lemma_cell_within_total(rows, x, y + 1);
        lemma_reach_step(rows[y + 1], x);
        lemma_reach_step(rows[y + 1], x + 1);
        lemma_reach_step(rows[y + 1], x + 2);
        assert(rows_sum(rows, y + 2) == rows_sum(rows, y) + total(rows[y]) + total(rows[y + 1]));
        lemma_rows_monotone(rows, y + 2, rows.len() as int);
    }
}

/// A grid of at most two rows and two columns is one block.
pub proof fn lemma_small_grid(rows: Seq<Seq<u64>>, cols: int)
    requires
        rectangular(rows, cols),
        rows.len() <= 2,
        0 <= cols <= 2,
    ensures
        grid_total(rows) == block(rows, 0, 0),
{
    if rows.len() >= 1 {
        lemma_reach_step(rows[0], 0);
        lemma_reach_step(rows[0], 1);
        assert(rows_sum(rows, 1) == rows_sum(rows, 0) + total(rows[0]));
    }
    if rows.len() >= 2 {
        lemma_reach_step(rows[1], 0);
        lemma_reach_step(rows[1], 1);
        assert(rows_sum(rows, 2) == rows_sum(rows, 1) + total(rows[1]));
    }
}

} // verus!
