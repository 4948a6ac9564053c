//! The contracts that every sampler meets.

use vstd::prelude::*;
use crate::data2d::Data2D;
use crate::grid::{grid_total, rectangular, rows_sum, lemma_cell_within_total};
use crate::ratio::{Frac, Ratio};
use crate::arith::lemma_mul_le;
use crate::utils::{radical_inverse_spec, u64_to_color, Sum};
use crate::weights::{total, lemma_prefix_monotone};

verus! {

/// Why a table cannot be built from the weights given.
#[derive(Clone, Copy, Debug, PartialEq, Eq, Structural)]
pub enum BuildError {
    /// There are no weights.
    Empty,
    /// Every weight is zero.
    ZeroIntegral,
    /// There are more weights than the table can index.
    TooManyEntries,
    /// The weights are too large for the table's exact arithmetic.
    TooLarge,
}

/// The error that every sampler reports for `w`: a distribution needs at least one weight and
/// a positive integral, and the number of weights times the integral must fit in 64 bits.
pub open spec fn base_rejects(w: Seq<u64>) -> Option<BuildError> {
    if w.len() == 0 {
        Some(BuildError::Empty)
    } else if w.len() * total(w) > u64::MAX {
        Some(BuildError::TooLarge)
    } else if total(w) == 0 {
        Some(BuildError::ZeroIntegral)
    } else {
        None
    }
}

/// Weights that every sampler takes are at least one in number and have a positive integral.
pub proof fn lemma_base_accepted(w: Seq<u64>)
    requires
        base_rejects(w) is None,
    ensures
        w.len() >= 1,
        total(w) > 0,
        w.len() * total(w) <= u64::MAX,
        total(w) <= u64::MAX,
        w.len() <= u64::MAX,
{
    lemma_prefix_monotone(w, 0, w.len() as int);
    assert(total(w) <= u64::MAX && w.len() <= u64::MAX) by (nonlinear_arith)
        requires
            w.len() * total(w) <= u64::MAX,
            w.len() >= 1,
            total(w) >= 1,
    ;
}

/// The integral of `weights`, or the reason why no sampler takes them.
pub fn measure(weights: &[u64]) -> (r: Result<u64, BuildError>)
    ensures
        match r {
            Ok(s) => base_rejects(weights@) is None && s == total(weights@),
            Err(e) => base_rejects(weights@) == Some(e),
        },
{
    let n: usize = weights.len();
    if n == 0 {
        return Err(BuildError::Empty);
    }
    proof {
        lemma_prefix_monotone(weights@, 0, n as int);
    }
    match <u64 as Sum>::sum(weights) {
        None => {
            proof {
                assert(n * total(weights@) > u64::MAX) by (nonlinear_arith)
                    requires
                        n >= 1,
                        total(weights@) > u64::MAX,
                ;
            }
            Err(BuildError::TooLarge)
        },
        Some(s) => {
            proof {
                assert(n * s <= u64::MAX * u64::MAX) by (nonlinear_arith)
                    requires
                        0 <= n <= u64::MAX,
                        0 <= s <= u64::MAX,
                ;
            }
            let scaled: u128 = (n as u128) * (s as u128);
            if scaled > u64::MAX as u128 {
                Err(BuildError::TooLarge)
            } else if s == 0 {
                Err(BuildError::ZeroIntegral)
            } else {
                Ok(s)
            }
        },
    }
}

/// A piecewise-constant distribution over the indices of a sequence of weights.
pub trait Discrete1D: Sized {
    /// The table is consistent.
    spec fn wf(&self) -> bool;

    /// The weights that the table stands for.
    spec fn weights(&self) -> Seq<u64>;

    /// The error that `build` reports for `weights`, if any.
    spec fn rejects(weights: Seq<u64>) -> Option<BuildError>;

    /// The index that `sample` returns for `u`.
    spec fn outcome(&self, u: Frac) -> int;

    /// A consistent table stands for weights that every sampler takes.
    proof fn lemma_accepted(&self)
        requires
            self.wf(),
        ensures
            base_rejects(self.weights()) is None,
            self.weights().len() >= 1,
            total(self.weights()) > 0,
            self.weights().len() * total(self.weights()) <= u64::MAX,
    ;

    /// Sampling stays in range and never returns an index whose weight is zero.
    proof fn lemma_outcome(&self, u: Frac)
        requires
            self.wf(),
            u.is_unit(),
        ensures
            0 <= self.outcome(u) < self.weights().len(),
            self.weights()[self.outcome(u)] > 0,
    ;

    /// Builds the table for `weights`, or says why there is none.
    fn build(weights: &[u64]) -> (r: Result<Self, BuildError>)
        ensures
            match r {
                Ok(d) => Self::rejects(weights@) is None && d.wf() && d.weights() == weights@,
                Err(e) => Self::rejects(weights@) == Some(e),
            },
    ;

    /// The index drawn by the random number `u`.
    fn sample(&self, u: Ratio) -> (r: usize)
        requires
            self.wf(),
            u.is_input(),
        ensures
            r == self.outcome(u@),
            r < self.weights().len(),
            self.weights()[r as int] > 0,
    ;

    /// The weight of index `u`.
    fn pdf(&self, u: usize) -> (r: u64)
        requires
            self.wf(),
            u < self.weights().len(),
        ensures
            r == self.weights()[u as int],
    ;

    /// The sum of all weights.
    fn integral(&self) -> (r: u64)
        requires
            self.wf(),
        ensures
            r == total(self.weights()),
            r > 0,
    ;

    /// The number of weights.
    fn size(&self) -> (r: usize)
        requires
            self.wf(),
        ensures
            r == self.weights().len(),
            r > 0,
    ;
}

/// A distribution that also maps the unit interval onto itself, so that equal lengths of
/// input land in each index in proportion to its weight.
pub trait Continuous1D: Discrete1D {
    /// The coordinate that `sample_continuous` returns for `u`.
    spec fn warp(&self, u: Frac) -> Frac;

    /// The number that `inverse_continuous` returns for the coordinate `y`.
    spec fn unwarp(&self, y: Frac) -> Frac;

    /// The most by which `sample_continuous` multiplies the denominator of a random number.
    /// A random number whose denominator times this fits in 64 bits gives a coordinate that
    /// can be inverted as it is.
    spec fn spread(&self) -> int;

    /// The spread of a consistent table is positive and fits in 64 bits.
    proof fn lemma_spread(&self)
        requires
            self.wf(),
        ensures
            1 <= self.spread() <= u64::MAX,
    ;

    /// The sampled coordinate lies in the unit interval, in the cell of the sampled index.
    proof fn lemma_agreement(&self, u: Frac)
        requires
            self.wf(),
            u.is_unit(),
        ensures
            self.warp(u).is_unit(),
            self.warp(u).floor_times(self.weights().len() as int) == self.outcome(u),
    ;

    /// Inverting a sampled coordinate gives the random number back.
    proof fn lemma_round_trip(&self, u: Frac)
        requires
            self.wf(),
            u.is_unit(),
        ensures
            self.unwarp(self.warp(u)).den > 0,
            self.unwarp(self.warp(u)).same(u),
    ;

    /// Every coordinate in the cell of an index with a positive weight is sampled, by the
    /// number that inverting it gives.
    proof fn lemma_onto(&self, y: Frac)
        requires
            self.wf(),
            y.is_unit(),
            self.weights()[y.floor_times(self.weights().len() as int)] > 0,
        ensures
            self.unwarp(y).is_unit(),
            self.warp(self.unwarp(y)).same(y),
    ;

    /// The coordinate in the unit interval drawn by the random number `u`.
    fn sample_continuous(&self, u: Ratio) -> (r: Ratio)
        requires
            self.wf(),
            u.is_input(),
        ensures
            r@ == self.warp(u@),
            r@.is_unit(),
            r.den <= u.den * self.spread(),
            u.den * self.spread() <= u64::MAX ==> r.is_input(),
    ;

    /// The random number that draws the coordinate `u`.
    fn inverse_continuous(&self, u: Ratio) -> (r: Ratio)
        requires
            self.wf(),
            u.is_input(),
        ensures
            r@ == self.unwarp(u@),
            r.num <= r.den,
            r.den > 0,
    ;
}

/// The error that a sampler over a whole grid reports for these rows: the grid needs at least
/// one row and one column, and an integral that is positive and fits in 64 bits.
pub open spec fn grid_rejects(rows: Seq<Seq<u64>>) -> Option<BuildError> {
    if rows.len() == 0 || rows[0].len() == 0 {
        Some(BuildError::Empty)
    } else if grid_total(rows) > u64::MAX {
        Some(BuildError::TooLarge)
    } else if grid_total(rows) == 0 {
        Some(BuildError::ZeroIntegral)
    } else {
        None
    }
}

/// The integral of a grid of weights, or the reason why no sampler over the whole grid takes it.
pub fn measure_grid(weights: &Data2D<u64>) -> (r: Result<u64, BuildError>)
    requires
        weights.wf(),
    ensures
        match r {
            Ok(s) => grid_rejects(weights.rows()) is None && s == grid_total(weights.rows()),
            Err(e) => grid_rejects(weights.rows()) == Some(e),
        },
{
    let width: usize = weights.width();
    let height: usize = weights.height();
    if width == 0 || height == 0 {
        return Err(BuildError::Empty);
    }
    let ghost g = weights.rows();
    let rows: Vec<&[u64]> = weights.iter();
    let mut acc: u128 = 0;
    let mut y: usize = 0;
    while y < height
        invariant
            g == weights.rows(),
            height == g.len(),
            rows@.len() == height,
            forall|k: int| 0 <= k < height ==> (#[trigger] rows@[k])@ == g[k],
            y <= height,
            acc == rows_sum(g, y as int),
            acc <= u64::MAX,
        decreases height - y,
    {
        proof {
            lemma_cell_within_total(g, 0, y as int);
        }
        match <u64 as Sum>::sum(rows[y]) {
            None => {
                return Err(BuildError::TooLarge);
            },
            Some(s) => {
                acc = acc + (s as u128);
                if acc > u64::MAX as u128 {
                    return Err(BuildError::TooLarge);
                }
            },
        }
        y = y + 1;
    }
    if acc == 0 {
        Err(BuildError::ZeroIntegral)
    } else {
        Ok(acc as u64)
    }
}

/// The coordinate `at + by`, kept within `0 .. limit`.
pub open spec fn clamped(at: int, by: int, limit: int) -> int {
    if at + by < 0 {
        0
    } else if at + by > limit - 1 {
        limit - 1
    } else {
        at + by
    }
}

/// The cell `(cx, cy)` of an image of `width` by `height` cells belongs to the mark of the
/// sample `(x, y)`: the sample's cell and its neighbours to the left and above.
pub open spec fn in_footprint(cx: int, cy: int, x: int, y: int, width: int, height: int) -> bool {
    &&& cx == clamped(x, -1, width) || cx == clamped(x, 0, width)
    &&& cy == clamped(y, -1, height) || cy == clamped(y, 0, height)
}

/// A piecewise-constant distribution over the cells of a grid of weights.
pub trait Discrete2D: Sized {
    /// The table is consistent.
    spec fn wf(&self) -> bool;

    /// The rows of weights that the table stands for.
    spec fn grid(&self) -> Seq<Seq<u64>>;

    /// The error that `build` reports for a grid with these rows, if any.
    spec fn rejects(rows: Seq<Seq<u64>>) -> Option<BuildError>;

    /// The column and the row that `sample` returns for the pair `(u, v)`.
    spec fn outcome(&self, u: Frac, v: Frac) -> (int, int);

    /// A consistent table stands for a grid with at least one row and one column.
    proof fn lemma_shape(&self)
        requires
            self.wf(),
        ensures
            self.grid().len() >= 1,
            self.grid()[0].len() >= 1,
            rectangular(self.grid(), self.grid()[0].len() as int),
            0 < grid_total(self.grid()) <= u64::MAX,
    ;

    /// Sampling stays in the grid and never returns a cell whose weight is zero.
    proof fn lemma_outcome(&self, u: Frac, v: Frac)
        requires
            self.wf(),
            u.is_unit(),
            v.is_unit(),
        ensures
            0 <= self.outcome(u, v).1 < self.grid().len(),
            0 <= self.outcome(u, v).0 < self.grid()[0].len(),
            self.grid()[self.outcome(u, v).1][self.outcome(u, v).0] > 0,
    ;

    /// Builds the table for a grid of weights, or says why there is none.
    fn build(weights: &Data2D<u64>) -> (r: Result<Self, BuildError>)
        requires
            weights.wf(),
        ensures
            match r {
                Ok(d) => Self::rejects(weights.rows()) is None && d.wf() && d.grid()
                    == weights.rows(),
                Err(e) => Self::rejects(weights.rows()) == Some(e),
            },
    ;

    /// The column and the row drawn by the random numbers `uv`.
    fn sample(&self, uv: [Ratio; 2]) -> (r: [usize; 2])
        requires
            self.wf(),
            uv[0].is_input(),
            uv[1].is_input(),
        ensures
            (r[0] as int, r[1] as int) == self.outcome(uv[0]@, uv[1]@),
            r[1] < self.grid().len(),
            r[0] < self.grid()[0].len(),
            self.grid()[r[1] as int][r[0] as int] > 0,
    ;

    /// The weight of the cell in column `uv[0]` of row `uv[1]`.
    fn pdf(&self, uv: [usize; 2]) -> (r: u64)
        requires
            self.wf(),
            uv[1] < self.grid().len(),
            uv[0] < self.grid()[0].len(),
        ensures
            r == self.grid()[uv[1] as int][uv[0] as int],
    ;

    /// The sum of all weights.
    fn integral(&self) -> (r: u64)
        requires
            self.wf(),
        ensures
            r == grid_total(self.grid()),
            r > 0,
    ;

    /// The number of columns.
    fn width(&self) -> (r: usize)
        requires
            self.wf(),
        ensures
            r == self.grid()[0].len(),
            r > 0,
    ;

    /// The number of rows.
    fn height(&self) -> (r: usize)
        requires
            self.wf(),
        ensures
            r == self.grid().len(),
            r > 0,
    ;

    /// Draws one sample for each pair of `rngs` and stores `mark` in its cell of `demo` and in
    /// the neighbours to the left and above, as far as the image has them. Every other cell is
    /// left as it was.
    fn fill_demo_image<T: Copy>(&self, demo: &mut Data2D<T>, rngs: &[[Ratio; 2]], mark: T)
        requires
            self.wf(),
            old(demo).wf(),
            old(demo).cols() >= 1,
            old(demo).lines() >= 1,
            forall|k: int|
                0 <= k < rngs@.len() ==> (#[trigger] rngs@[k])[0].is_input() && rngs@[k][1].is_input(),
        ensures
            final(demo).wf(),
            final(demo).cols() == old(demo).cols(),
            final(demo).lines() == old(demo).lines(),
            forall|cx: int, cy: int|
                0 <= cx < old(demo).cols() && 0 <= cy < old(demo).lines() ==> #[trigger] final(demo).cell(cx, cy)
                    == if marked(
                    Seq::new(rngs@.len(), |k: int| self.outcome(rngs@[k][0]@, rngs@[k][1]@)),
                    cx,
                    cy,
                    old(demo).cols(),
                    old(demo).lines(),
                ) {
                    mark
                } else {
                    old(demo).cell(cx, cy)
                },
    {
        let width: usize = demo.width();
        let height: usize = demo.height();
        let ghost start = *demo;
        let ghost all = Seq::new(rngs@.len(), |k: int| self.outcome(rngs@[k][0]@, rngs@[k][1]@));
        let count: usize = rngs.len();
        let mut k: usize = 0;
        while k < count
            invariant
                self.wf(),
                count == rngs@.len(),
                k <= count,
                demo.wf(),
                width == start.cols(),
                height == start.lines(),
                demo.cols() == width,
                demo.lines() == height,
                width >= 1,
                height >= 1,
                all == Seq::new(rngs@.len(), |k: int| self.outcome(rngs@[k][0]@, rngs@[k][1]@)),
                forall|j: int|
                    0 <= j < rngs@.len() ==> (#[trigger] rngs@[j])[0].is_input()
                        && rngs@[j][1].is_input(),
                forall|cx: int, cy: int|
                    0 <= cx < width && 0 <= cy < height ==> #[trigger] demo.cell(cx, cy) == if marked(
                        all.take(k as int),
                        cx,
                        cy,
                        width as int,
                        height as int,
                    ) {
                        mark
                    } else {
                        start.cell(cx, cy)
                    },
            decreases count - k,
        {
            let rng: [Ratio; 2] = rngs[k];
            let at: [usize; 2] = self.sample(rng);
            let x: usize = at[0];
            let y: usize = at[1];
            let right: usize = if x > width - 1 {
                width - 1
            } else {
                x
            };
            let left: usize = if x == 0 {
                0
            } else if x - 1 > width - 1 {
                width - 1
            } else {
                x - 1
            };
            let lower: usize = if y > height - 1 {
                height - 1
            } else {
                y
            };
            let upper: usize = if y == 0 {
                0
            } else if y - 1 > height - 1 {
                height - 1
            } else {
                y - 1
            };
            let ghost before = *demo;
            demo.insert(left, upper, mark);
            demo.insert(left, lower, mark);
            demo.insert(right, upper, mark);
            demo.insert(right, lower, mark);
            proof {
                assert(all[k as int] == (x as int, y as int));
                lemma_marked_step(all, k as int, width as int, height as int);
                assert(left == clamped(x as int, -1, width as int));
                assert(right == clamped(x as int, 0, width as int));
                assert(upper == clamped(y as int, -1, height as int));
                assert(lower == clamped(y as int, 0, height as int));
                assert forall|cx: int, cy: int| 0 <= cx < width && 0 <= cy < height implies #[trigger]
                    demo.cell(cx, cy) == if marked(
                    all.take(k + 1),
                    cx,
                    cy,
                    width as int,
                    height as int,
                ) {
                    mark
                } else {
                    start.cell(cx, cy)
                } by {
                    let earlier = marked(all.take(k as int), cx, cy, width as int, height as int);
                    assert(before.cell(cx, cy) == if earlier {
                        mark
                    } else {
                        start.cell(cx, cy)
                    });
                }
            }
            k = k + 1;
        }
        proof {
            assert(all.take(count as int) =~= all);
        }
    }
}

/// The cell `(cx, cy)` belongs to the mark of one of the samples.
pub open spec fn marked(samples: Seq<(int, int)>, cx: int, cy: int, width: int, height: int) -> bool {
    exists|k: int|
        0 <= k < samples.len() && in_footprint(
            cx,
            cy,
            (#[trigger] samples[k]).0,
            samples[k].1,
            width,
            height,
        )
}

/// One more sample marks its own cells besides those marked before.
pub proof fn lemma_marked_step(samples: Seq<(int, int)>, k: int, width: int, height: int)
    requires
        0 <= k < samples.len(),
    ensures
        forall|cx: int, cy: int| #[trigger]
            marked(samples.take(k + 1), cx, cy, width, height) <==> marked(
                samples.take(k),
                cx,
                cy,
                width,
                height,
            ) || in_footprint(cx, cy, samples[k].0, samples[k].1, width, height),
{
    let shorter = samples.take(k);
    let longer = samples.take(k + 1);
    assert forall|cx: int, cy: int| #[trigger]
        marked(longer, cx, cy, width, height) <==> marked(shorter, cx, cy, width, height)
            || in_footprint(cx, cy, samples[k].0, samples[k].1, width, height) by {
        if marked(longer, cx, cy, width, height) {
            let j = choose|j: int|
                0 <= j < longer.len() && in_footprint(
                    cx,
                    cy,
                    (#[trigger] longer[j]).0,
                    longer[j].1,
                    width,
                    height,
                );
            if j < k {
                assert(shorter[j] == longer[j]);
            }
        }
        if marked(shorter, cx, cy, width, height) {
            let j = choose|j: int|
                0 <= j < shorter.len() && in_footprint(
                    cx,
                    cy,
                    (#[trigger] shorter[j]).0,
                    shorter[j].1,
                    width,
                    height,
                );
            assert(longer[j] == shorter[j]);
        }
        if in_footprint(cx, cy, samples[k].0, samples[k].1, width, height) {
            assert(longer[k] == samples[k]);
        }
    }
}

/// A distribution over a grid that also maps the unit square onto itself.
pub trait Continuous2D: Discrete2D {
    /// The coordinates that `sample_continuous` returns for the pair `(u, v)`.
    spec fn warp(&self, u: Frac, v: Frac) -> (Frac, Frac);

    /// The pair that `inverse_continuous` returns for the coordinates `(x, y)`.
    spec fn unwarp(&self, x: Frac, y: Frac) -> (Frac, Frac);

    /// The coordinates that `inverse_continuous` takes: both below one, with denominators
    /// that its arithmetic has room for.
    spec fn invertible(&self, x: Ratio, y: Ratio) -> bool;

    /// Whatever a sampler takes as a random number, `inverse_continuous` takes as a coordinate.
    proof fn lemma_invertible(&self, x: Ratio, y: Ratio)
        requires
            self.wf(),
            x.is_input(),
            y.is_input(),
        ensures
            self.invertible(x, y),
    ;

    /// The sampled coordinates lie in the unit square, in the cell that was drawn.
    proof fn lemma_agreement(&self, u: Frac, v: Frac)
        requires
            self.wf(),
            u.is_unit(),
            v.is_unit(),
        ensures
            self.warp(u, v).0.is_unit(),
            self.warp(u, v).1.is_unit(),
            self.warp(u, v).0.floor_times(self.grid()[0].len() as int) == self.outcome(u, v).0,
            self.warp(u, v).1.floor_times(self.grid().len() as int) == self.outcome(u, v).1,
    ;

    /// The coordinates in the unit square drawn by the random numbers `uv`.
    fn sample_continuous(&self, uv: [Ratio; 2]) -> (r: [Ratio; 2])
        requires
            self.wf(),
            uv[0].is_input(),
            uv[1].is_input(),
        ensures
            (r[0]@, r[1]@) == self.warp(uv[0]@, uv[1]@),
            r[0]@.is_unit(),
            r[1]@.is_unit(),
    ;

    /// The random numbers that draw the coordinates `uv`.
    fn inverse_continuous(&self, uv: [Ratio; 2]) -> (r: [Ratio; 2])
        requires
            self.wf(),
            self.invertible(uv[0], uv[1]),
        ensures
            (r[0]@, r[1]@) == self.unwarp(uv[0]@, uv[1]@),
            r[0].num <= r[0].den,
            r[0].den > 0,
            r[1].num <= r[1].den,
            r[1].den > 0,
    ;
}

/// The middle of cell `i` of `size` cells that divide the unit interval.
pub open spec fn centre(i: int, size: int) -> Frac {
    Frac { num: 2 * i + 1, den: 2 * size }
}

/// The number of the tile that the point `(x, y)` of the unit square lies in, where the
/// square is cut into `block_count` by `block_count` tiles numbered row by row from one.
pub open spec fn tile_of(x: Frac, y: Frac, block_count: int) -> int {
    x.floor_times(block_count) + block_count * y.floor_times(block_count) + 1
}

/// Whether `colour` is the colour of tile `tile`.
pub open spec fn colour_of(colour: [Ratio; 3], tile: int) -> bool {
    &&& colour[0]@ == radical_inverse_spec(0, tile)
    &&& colour[1]@ == radical_inverse_spec(1, tile)
    &&& colour[2]@ == radical_inverse_spec(2, tile)
}

/// Shows how a distribution bends the unit square: each cell of the grid gets the colour of
/// the tile that the middle of the cell is drawn from.
pub fn visualize_warping<D: Continuous2D>(distr: &D, block_count: usize) -> (out: Data2D<
    [Ratio; 3],
>)
    requires
        distr.wf(),
        block_count <= u32::MAX,
        2 * distr.grid()[0].len() <= u64::MAX,
        2 * distr.grid().len() <= u64::MAX,
        distr.grid()[0].len() * distr.grid().len() <= usize::MAX,
    ensures
        out.wf(),
        out.cols() == distr.grid()[0].len(),
        out.lines() == distr.grid().len(),
        forall|i: int, j: int|
            0 <= i < out.cols() && 0 <= j < out.lines() ==> colour_of(
                #[trigger] out.cell(i, j),
                tile_of(
                    distr.unwarp(centre(i, out.cols()), centre(j, out.lines())).0,
                    distr.unwarp(centre(i, out.cols()), centre(j, out.lines())).1,
                    block_count as int,
                ),
            ),
{
    let width: usize = distr.width();
    let height: usize = distr.height();
    let blank: Ratio = Ratio { num: 0, den: 1 };
    let mut out: Data2D<[Ratio; 3]> = Data2D::new_same(width, height, [blank, blank, blank]);
    let mut j: usize = 0;
    while j < height
        invariant
            distr.wf(),
            width == distr.grid()[0].len(),
            height == distr.grid().len(),
            width >= 1,
            height >= 1,
            2 * width <= u64::MAX,
            2 * height <= u64::MAX,
            block_count <= u32::MAX,
            out.wf(),
            out.cols() == width,
            out.lines() == height,
            j <= height,
            forall|x: int, y: int|
                0 <= x < width && 0 <= y < j ==> colour_of(
                    #[trigger] out.cell(x, y),
                    tile_of(
                        distr.unwarp(centre(x, width as int), centre(y, height as int)).0,
                        distr.unwarp(centre(x, width as int), centre(y, height as int)).1,
                        block_count as int,
                    ),
                ),
        decreases height - j,
    {
        let mut i: usize = 0;
        while i < width
            invariant
                distr.wf(),
                width == distr.grid()[0].len(),
                height == distr.grid().len(),
                width >= 1,
                height >= 1,
                2 * width <= u64::MAX,
                2 * height <= u64::MAX,
                block_count <= u32::MAX,
                out.wf(),
                out.cols() == width,
                out.lines() == height,
                j < height,
                i <= width,
                forall|x: int, y: int|
                    0 <= x < width && 0 <= y < j ==> colour_of(
                        #[trigger] out.cell(x, y),
                        tile_of(
                            distr.unwarp(centre(x, width as int), centre(y, height as int)).0,
                            distr.unwarp(centre(x, width as int), centre(y, height as int)).1,
                            block_count as int,
                        ),
                    ),
                forall|x: int|
                    0 <= x < i ==> colour_of(
                        #[trigger] out.cell(x, j as int),
                        tile_of(
                            distr.unwarp(centre(x, width as int), centre(j as int, height as int)).0,
                            distr.unwarp(centre(x, width as int), centre(j as int, height as int)).1,
                            block_count as int,
                        ),
                    ),
            decreases width - i,
        {
            let input: [Ratio; 2] = [
                Ratio { num: 2 * (i as u128) + 1, den: 2 * (width as u128) },
                Ratio { num: 2 * (j as u128) + 1, den: 2 * (height as u128) },
            ];
            assert(input[0]@ == centre(i as int, width as int));
            assert(input[1]@ == centre(j as int, height as int));
            proof {
                distr.lemma_invertible(input[0], input[1]);
            }
            let back: [Ratio; 2] = distr.inverse_continuous(input);
            let x_scaled: u64 = back[0].floor_mul(block_count as u64);
            let y_scaled: u64 = back[1].floor_mul(block_count as u64);
            proof {
                lemma_mul_le(
                    block_count as int,
                    u32::MAX as int,
                    y_scaled as int,
                    u32::MAX as int,
                );
            }
            let tile: u64 = x_scaled + (block_count as u64) * y_scaled + 1;
            out.insert(i, j, u64_to_color(tile));
            i = i + 1;
        }
        j = j + 1;
    }
    out
}

} // verus!
