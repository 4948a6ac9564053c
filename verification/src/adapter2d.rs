//! A distribution over a grid made of distributions over its rows: one that draws the row,
//! and for each row one that draws the column.

use vstd::prelude::*;
use crate::arith::{lemma_div_parts, lemma_div_unique, lemma_mul_cancel, lemma_mul_le};
use crate::data2d::Data2D;
use crate::distribution::{
    BuildError, Continuous1D, Continuous2D, Discrete1D, Discrete2D,
};
use crate::grid::{grid_total, rectangular, rows_sum, lemma_cell_within_total};
use crate::ratio::{Frac, Ratio};
use crate::sums::{hits, hits2, lemma_hits2_product};
use crate::weights::{prefix_sum, total, lemma_cell, lemma_weight_within_total};

verus! {

/// The marginal distribution over the rows and the conditional distribution of each row.
pub struct Adapter2D<D> {
    marginal: D,
    conditional: Vec<D>,
}

/// The sum of each row.
pub open spec fn row_totals(rows: Seq<Seq<u64>>) -> Seq<u64> {
    Seq::new(rows.len(), |j: int| total(rows[j]) as u64)
}

/// The error of the first row from `from` on that the row sampler does not take, if any.
pub open spec fn rows_reject<D: Discrete1D>(rows: Seq<Seq<u64>>, from: int) -> Option<BuildError>
    decreases rows.len() - from,
{
    if from < 0 || from >= rows.len() {
        None
    } else if D::rejects(rows[from]) is Some {
        D::rejects(rows[from])
    } else {
        rows_reject::<D>(rows, from + 1)
    }
}

/// The index that `d` gives to the `t`-th of `count` equally spaced numbers of the unit
/// interval.
pub open spec fn step_outcome<D: Discrete1D>(d: D, count: int) -> spec_fn(int) -> int {
    |t: int| d.outcome(Frac { num: t, den: count })
}

/// Drawing once with each of `count` equally spaced numbers, `d` hits every index in exact
/// proportion to its weight.
pub open spec fn fair_at<D: Discrete1D>(d: D, count: int) -> bool {
    forall|i: int|
        0 <= i < d.weights().len() ==> #[trigger] hits(step_outcome(d, count), i, count) * total(
            d.weights(),
        ) == count * d.weights()[i]
}

/// The partial sums of the row sums are the sums of the rows.
pub proof fn lemma_row_totals(rows: Seq<Seq<u64>>, k: int)
    requires
        0 <= k <= rows.len(),
        forall|j: int| 0 <= j < rows.len() ==> total(#[trigger] rows[j]) <= u64::MAX,
    ensures
        prefix_sum(row_totals(rows), k) == rows_sum(rows, k),
    decreases k,
{
    if k > 0 {
        lemma_row_totals(rows, k - 1);
        lemma_cell_within_total(rows, 0, k - 1);
        assert(total(rows[k - 1]) <= u64::MAX);
    }
}

impl<D: Discrete1D> Adapter2D<D> {
    /// The distribution that draws the row.
    pub closed spec fn rows_table(&self) -> D {
        self.marginal
    }

    /// The distribution that draws the row.
    pub fn marginal(&self) -> (r: &D)
        ensures
            *r == self.rows_table(),
    {
        &self.marginal
    }

    /// The distribution that draws the column within row `y`.
    pub fn conditional(&self, y: usize) -> (r: &D)
        requires
            y < self.columns_tables().len(),
        ensures
            *r == self.columns_tables()[y as int],
    {
        &self.conditional[y]
    }

    /// The distributions that draw the column, one for each row.
    pub closed spec fn columns_tables(&self) -> Seq<D> {
        self.conditional@
    }

    /// The rows of weights that the conditional distributions stand for.
    pub open spec fn rows(&self) -> Seq<Seq<u64>> {
        Seq::new(self.columns_tables().len(), |j: int| self.columns_tables()[j].weights())
    }

    /// Every part is consistent, the rows are equally long, and the marginal distribution
    /// stands for the sums of the rows.
    pub open spec fn consistent(&self) -> bool {
        &&& self.rows_table().wf()
        &&& self.columns_tables().len() >= 1
        &&& forall|j: int|
            0 <= j < self.columns_tables().len() ==> (#[trigger] self.columns_tables()[j]).wf()
                && self.columns_tables()[j].weights().len()
                == self.columns_tables()[0].weights().len()
        &&& self.rows_table().weights() == row_totals(self.rows())
    }

    /// The rows of a consistent table form a grid whose integral is that of the marginal
    /// distribution.
    pub proof fn lemma_rows(&self)
        requires
            self.consistent(),
        ensures
            self.rows().len() >= 1,
            self.rows()[0].len() >= 1,
            rectangular(self.rows(), self.rows()[0].len() as int),
            grid_total(self.rows()) == total(self.rows_table().weights()),
            0 < grid_total(self.rows()) <= u64::MAX,
            forall|j: int|
                0 <= j < self.rows().len() ==> 0 < total(#[trigger] self.rows()[j]) <= u64::MAX,
            self.rows().len() == self.columns_tables().len(),
            self.rows_table().weights().len() == self.columns_tables().len(),
            forall|j: int|
                0 <= j < self.rows().len() ==> #[trigger] self.rows()[j]
                    == self.columns_tables()[j].weights() && self.rows_table().weights()[j]
                    == total(self.rows()[j]),
    {
        let rows = self.rows();
        assert(row_totals(rows).len() == rows.len());
        assert forall|j: int| 0 <= j < rows.len() implies 0 < total(#[trigger] rows[j])
            <= u64::MAX && rows[j].len() == rows[0].len() && rows[j].len() >= 1 by {
            assert(self.columns_tables()[j].wf());
            self.columns_tables()[j].lemma_accepted();
            lemma_mul_le(1, rows[j].len() as int, total(rows[j]), total(rows[j]));
        }
        lemma_row_totals(rows, rows.len() as int);
        self.rows_table().lemma_accepted();
        lemma_mul_le(
            1,
            self.rows_table().weights().len() as int,
            total(self.rows_table().weights()),
            total(self.rows_table().weights()),
        );
    }
}

impl<D: Discrete1D> Discrete2D for Adapter2D<D> {
    open spec fn wf(&self) -> bool {
        self.consistent()
    }

    open spec fn grid(&self) -> Seq<Seq<u64>> {
        self.rows()
    }

    open spec fn rejects(rows: Seq<Seq<u64>>) -> Option<BuildError> {
        if rows.len() == 0 {
            Some(BuildError::Empty)
        } else if rows_reject::<D>(rows, 0) is Some {
            rows_reject::<D>(rows, 0)
        } else {
            D::rejects(row_totals(rows))
        }
    }

    open spec fn outcome(&self, u: Frac, v: Frac) -> (int, int) {
        let row = self.rows_table().outcome(v);
        (self.columns_tables()[row].outcome(u), row)
    }

    proof fn lemma_shape(&self) {
        self.lemma_rows();
    }

    proof fn lemma_outcome(&self, u: Frac, v: Frac) {
        self.lemma_rows();
        self.rows_table().lemma_outcome(v);
        let row = self.rows_table().outcome(v);
        assert(self.columns_tables()[row].wf());
        self.columns_tables()[row].lemma_outcome(u);
        assert(self.grid()[row] == self.columns_tables()[row].weights());
    }

    /// Builds the distribution of each row, then the distribution over the sums of the rows.
    fn build(weights: &Data2D<u64>) -> (r: Result<Self, BuildError>) {
        let ghost g = weights.rows();
        let rows: Vec<&[u64]> = weights.iter();
        let height: usize = rows.len();
        proof {
            weights.lemma_dimensions();
        }
        if height == 0 {
            return Err(BuildError::Empty);
        }
        let mut conditional: Vec<D> = Vec::new();
        let mut marginal_weights: Vec<u64> = Vec::new();
        let mut y: usize = 0;
        while y < height
            invariant
                g == weights.rows(),
                height == g.len(),
                rows@.len() == height,
                forall|k: int| 0 <= k < height ==> (#[trigger] rows@[k])@ == g[k],
                y <= height,
                conditional@.len() == y,
                marginal_weights@.len() == y,
                rows_reject::<D>(g, 0) == rows_reject::<D>(g, y as int),
                forall|j: int|
                    0 <= j < y ==> (#[trigger] conditional@[j]).wf() && conditional@[j].weights()
                        == g[j],
                forall|j: int| 0 <= j < y ==> #[trigger] marginal_weights@[j] == total(g[j]),
            decreases height - y,
        {
            match D::build(rows[y]) {
                Ok(table) => {
                    marginal_weights.push(table.integral());
                    conditional.push(table);
                },
                Err(e) => {
                    return Err(e);
                },
            }
            y = y + 1;
        }
        proof {
            assert(marginal_weights@ =~= row_totals(g));
        }
        match D::build(marginal_weights.as_slice()) {
            Ok(marginal) => {
                let table = Adapter2D { marginal, conditional };
                proof {
                    assert(table.rows() =~= g);
                    assert forall|j: int| 0 <= j < height implies (
                    #[trigger] table.columns_tables()[j]).weights().len()
                        == table.columns_tables()[0].weights().len() by {
                        assert(g[j] == weights.row(j));
                        assert(g[0] == weights.row(0));
                    }
                }
                Ok(table)
            },
            Err(e) => Err(e),
        }
    }

    /// Draws the row with `uv[1]`, then the column within that row with `uv[0]`.
    fn sample(&self, uv: [Ratio; 2]) -> (r: [usize; 2]) {
        proof {
            self.lemma_outcome(uv[0]@, uv[1]@);
        }
        let y: usize = self.marginal.sample(uv[1]);
        let x: usize = self.conditional[y].sample(uv[0]);
        [x, y]
    }

    /// The weight of a cell, as every `pdf` of this library returns a weight and not a share:
    /// the weight of its row in the marginal distribution times the share that the cell has of
    /// its row. Divided by `integral`, it is the share of the cell in the whole grid.
    fn pdf(&self, uv: [usize; 2]) -> (r: u64) {
        proof {
            self.lemma_rows();
            assert(self.columns_tables()[uv[1] as int].wf());
            lemma_weight_within_total(self.rows()[uv[1] as int], uv[0] as int);
        }
        let pdf_y: u64 = self.marginal.pdf(uv[1]);
        let row: &D = &self.conditional[uv[1]];
        let pdf_x: u64 = row.pdf(uv[0]);
        let within: u64 = row.integral();
        proof {
            lemma_mul_le(pdf_y as int, u64::MAX as int, pdf_x as int, u64::MAX as int);
            assert(pdf_y == within);
            assert(pdf_y * pdf_x == pdf_x * within + 0) by (nonlinear_arith)
                requires
                    pdf_y == within,
            ;
            lemma_div_unique(pdf_y * pdf_x, within as int, pdf_x as int, 0);
        }
        (((pdf_y as u128) * (pdf_x as u128)) / (within as u128)) as u64
    }

    fn integral(&self) -> (r: u64) {
        proof {
            self.lemma_rows();
        }
        self.marginal.integral()
    }

    fn width(&self) -> (r: usize) {
        self.conditional[0].size()
    }

    fn height(&self) -> (r: usize) {
        self.conditional.len()
    }
}

impl<D: Discrete1D> Adapter2D<D> {
    /// The cell that the table gives to the pair of the `s`-th of `a` and the `t`-th of `b`
    /// equally spaced numbers of the unit interval.
    pub open spec fn pair_outcome(&self, a: int, b: int) -> spec_fn(int, int) -> (int, int) {
        |s: int, t: int| self.outcome(Frac { num: s, den: a }, Frac { num: t, den: b })
    }

    /// Where the sampler of the rows and the sampler of a row draw in exact proportion, so does
    /// the table: of `a` times `b` equally spaced pairs, those that draw a cell of that row
    /// are to all pairs as the weight of the cell is to the integral.
    pub proof fn lemma_pair_hits(&self, x: int, y: int, a: int, b: int)
        requires
            self.wf(),
            a >= 1,
            b >= 1,
            0 <= y < self.grid().len(),
            0 <= x < self.grid()[0].len(),
            fair_at(self.rows_table(), b),
            fair_at(self.columns_tables()[y], a),
        ensures
            hits2(self.pair_outcome(a, b), x, y, a, b) * grid_total(self.grid()) == a * b
                * self.grid()[y][x],
    {
        self.lemma_rows();
        let f = self.pair_outcome(a, b);
        let along = step_outcome(self.rows_table(), b);
        let across = step_outcome(self.columns_tables()[y], a);
        assert forall|s: int, t: int| 0 <= s < a && 0 <= t < b implies (#[trigger] f(s, t)).1
            == along(t) by {}
        assert forall|s: int, t: int| 0 <= s < a && 0 <= t < b && along(t) == y implies (
        #[trigger] f(s, t)).0 == across(s) by {}
        lemma_hits2_product(f, along, across, x, y, a, b);
        let hm = hits(along, y, b);
        let hc = hits(across, x, a);
        let s = grid_total(self.grid());
        let row = total(self.grid()[y]);
        let w = self.grid()[y][x] as int;
        assert(self.rows_table().weights()[y] == row);
        assert(hm * s == b * row);
        assert(self.columns_tables()[y].weights() == self.grid()[y]);
        assert(hc * row == a * w);
        assert(((hm * hc) * s) * row == ((a * b) * w) * row) by (nonlinear_arith)
            requires
                hm * s == b * row,
                hc * row == a * w,
        ;
        lemma_mul_cancel((hm * hc) * s, (a * b) * w, row);
        lemma_mul_cancel((a * b) * w, (hm * hc) * s, row);
    }
}

impl<D: Continuous1D> Adapter2D<D> {
    /// Inverting sampled coordinates gives both random numbers back.
    pub proof fn lemma_round_trip(&self, u: Frac, v: Frac)
        requires
            self.wf(),
            u.is_unit(),
            v.is_unit(),
        ensures
            self.unwarp(self.warp(u, v).0, self.warp(u, v).1).0.den > 0,
            self.unwarp(self.warp(u, v).0, self.warp(u, v).1).1.den > 0,
            self.unwarp(self.warp(u, v).0, self.warp(u, v).1).0.same(u),
            self.unwarp(self.warp(u, v).0, self.warp(u, v).1).1.same(v),
    {
        self.lemma_rows();
        self.rows_table().lemma_outcome(v);
        self.rows_table().lemma_agreement(v);
        self.rows_table().lemma_round_trip(v);
        let row = self.rows_table().outcome(v);
        assert(self.columns_tables()[row].wf());
        self.columns_tables()[row].lemma_round_trip(u);
    }

    /// Every pair of coordinates in a cell with a positive weight is sampled, by the pair of
    /// random numbers that inverting it gives.
    pub proof fn lemma_onto(&self, x: Frac, y: Frac)
        requires
            self.wf(),
            x.is_unit(),
            y.is_unit(),
            self.grid()[y.floor_times(self.grid().len() as int)][x.floor_times(
                self.grid()[0].len() as int,
            )] > 0,
        ensures
            self.unwarp(x, y).0.is_unit(),
            self.unwarp(x, y).1.is_unit(),
            self.warp(self.unwarp(x, y).0, self.unwarp(x, y).1).0.same(x),
            self.warp(self.unwarp(x, y).0, self.unwarp(x, y).1).1.same(y),
    {
        self.lemma_rows();
        let height = self.grid().len() as int;
        lemma_cell(height, y);
        let row = y.floor_times(height);
        let cols = self.columns_tables()[row];
        assert(cols.wf());
        lemma_cell(self.grid()[0].len() as int, x);
        let column = x.floor_times(self.grid()[0].len() as int);
        assert(self.grid()[row] == cols.weights());
        lemma_weight_within_total(cols.weights(), column);
        assert(self.rows_table().weights()[row] == total(cols.weights()));
        self.rows_table().lemma_onto(y);
        cols.lemma_onto(x);
        let v = self.rows_table().unwarp(y);
        self.rows_table().lemma_agreement(v);
        self.rows_table().lemma_accepted();
        lemma_same_floor(self.rows_table().warp(v), y, height);
    }
}

/// Two fractions that denote the same number have the same integer part when multiplied.
pub proof fn lemma_same_floor(a: Frac, b: Frac, n: int)
    requires
        a.same(b),
        a.den > 0,
        b.den > 0,
        0 <= a.num,
        0 <= b.num,
        n >= 0,
    ensures
        a.floor_times(n) == b.floor_times(n),
{
    let q = (a.num * n) / a.den;
    let r = (a.num * n) % a.den;
    lemma_mul_le(0, a.num, 0, n);
    lemma_mul_le(0, b.num, 0, n);
    lemma_div_parts(a.num * n, a.den);
    lemma_div_parts(b.num * n, b.den);
    let p = (b.num * n) / b.den;
    let s = (b.num * n) % b.den;
    if q < p {
        assert(false) by (nonlinear_arith)
            requires
                a.num * b.den == b.num * a.den,
                a.num * n == q * a.den + r,
                b.num * n == p * b.den + s,
                0 <= r < a.den,
                0 <= s < b.den,
                q + 1 <= p,
        {
            assert((a.num * n) * b.den == (b.num * n) * a.den);
            assert((q * a.den + r) * b.den == (p * b.den + s) * a.den);
            assert(r * b.den < a.den * b.den);
            assert((p * b.den) * a.den >= ((q + 1) * b.den) * a.den);
        }
    } else if p < q {
        assert(false) by (nonlinear_arith)
            requires
                a.num * b.den == b.num * a.den,
                a.num * n == q * a.den + r,
                b.num * n == p * b.den + s,
                0 <= r < a.den,
                0 <= s < b.den,
                p + 1 <= q,
        {
            assert((a.num * n) * b.den == (b.num * n) * a.den);
            assert((q * a.den + r) * b.den == (p * b.den + s) * a.den);
            assert(s * a.den < b.den * a.den);
            assert((q * a.den) * b.den >= ((p + 1) * a.den) * b.den);
        }
    }
}

impl<D: Continuous1D> Continuous2D for Adapter2D<D> {
    open spec fn warp(&self, u: Frac, v: Frac) -> (Frac, Frac) {
        let row = self.rows_table().outcome(v);
        (self.columns_tables()[row].warp(u), self.rows_table().warp(v))
    }

    open spec fn unwarp(&self, x: Frac, y: Frac) -> (Frac, Frac) {
        let row = y.floor_times(self.columns_tables().len() as int);
        (self.columns_tables()[row].unwarp(x), self.rows_table().unwarp(y))
    }

    open spec fn invertible(&self, x: Ratio, y: Ratio) -> bool {
        x.is_input() && y.is_input()
    }

    proof fn lemma_invertible(&self, x: Ratio, y: Ratio) {
    }

    proof fn lemma_agreement(&self, u: Frac, v: Frac) {
        self.lemma_rows();
        self.rows_table().lemma_outcome(v);
        self.rows_table().lemma_agreement(v);
        let row = self.rows_table().outcome(v);
        assert(self.columns_tables()[row].wf());
        self.columns_tables()[row].lemma_agreement(u);
    }

    /// Draws the coordinate along the rows with `uv[1]`, then the coordinate within the row
    /// that it lies in with `uv[0]`.
    fn sample_continuous(&self, uv: [Ratio; 2]) -> (r: [Ratio; 2])
        ensures
            r[0].den <= u64::MAX && r[1].den <= u64::MAX ==> self.invertible(r[0], r[1]),
    {
        proof {
            self.lemma_rows();
            self.rows_table().lemma_outcome(uv[1]@);
            self.rows_table().lemma_agreement(uv[1]@);
        }
        let y: Ratio = self.marginal.sample_continuous(uv[1]);
        let height: usize = self.conditional.len();
        let offset_y: usize = y.floor_mul(height as u64) as usize;
        let x: Ratio = self.conditional[offset_y].sample_continuous(uv[0]);
        [x, y]
    }

    /// Inverts the coordinate along the rows, and the coordinate across within the row that
    /// the coordinates lie in.
    fn inverse_continuous(&self, uv: [Ratio; 2]) -> (r: [Ratio; 2]) {
        proof {
            self.lemma_rows();
            lemma_cell(self.columns_tables().len() as int, uv[1]@);
        }
        let y: Ratio = self.marginal.inverse_continuous(uv[1]);
        let height: usize = self.conditional.len();
        let offset_y: usize = uv[1].floor_mul(height as u64) as usize;
        let x: Ratio = self.conditional[offset_y].inverse_continuous(uv[0]);
        [x, y]
    }
}

} // verus!
