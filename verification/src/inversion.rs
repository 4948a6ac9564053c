//! Sampling by inverting the cumulative distribution with a binary search.

use vstd::prelude::*;
use crate::adapter2d::{fair_at, step_outcome};
use crate::sums::{hits, lemma_hits_agree};
use crate::weights::{bucket_of_step, lemma_bucket_hits};
use crate::arith::{lemma_mul_le, lemma_mul_lt};
use crate::distribution::{base_rejects, lemma_base_accepted, BuildError, Continuous1D, Discrete1D};
use crate::ratio::{Frac, Ratio};
use crate::utils::lerp;
use crate::weights::{
    bucket, in_bucket, prefix_sum, total, unwarp, warp, lemma_bucket, lemma_cell,
    lemma_warp_agreement, lemma_warp_onto, lemma_warp_round_trip, lemma_weight_within_total,
};

verus! {

/// The partial sums of a sequence of weights, from zero up to the integral.
pub struct Inversion1D {
    cdf: Vec<u64>,
}

/// The weights whose partial sums `cdf` holds.
pub open spec fn steps(cdf: Seq<u64>) -> Seq<u64> {
    Seq::new((cdf.len() - 1) as nat, |i: int| (cdf[i + 1] - cdf[i]) as u64)
}

/// The partial sums start at zero, never fall and end at a positive integral, small enough
/// for the products that sampling takes.
pub open spec fn cdf_wf(cdf: Seq<u64>) -> bool {
    &&& cdf.len() >= 2
    &&& cdf[0] == 0
    &&& forall|k: int| 0 <= k < cdf.len() - 1 ==> cdf[k] <= #[trigger] cdf[k + 1]
    &&& cdf.last() > 0
    &&& (cdf.len() - 1) * cdf.last() <= u64::MAX
}

/// Each entry of the table is the partial sum of the weights before it.
pub proof fn lemma_cdf_is_prefix(cdf: Seq<u64>, k: int)
    requires
        cdf_wf(cdf),
        0 <= k < cdf.len(),
    ensures
        prefix_sum(steps(cdf), k) == cdf[k],
    decreases k,
{
    if k > 0 {
        lemma_cdf_is_prefix(cdf, k - 1);
        assert(cdf[k - 1] <= cdf[k - 1 + 1]);
    }
}

impl Inversion1D {
    /// The partial sums that the table holds.
    pub closed spec fn table(&self) -> Seq<u64> {
        self.cdf@
    }

    /// The cumulative distribution at index `k`: the share of the integral that lies before
    /// weight `k`.
    pub fn cdf(&self, k: usize) -> (r: Ratio)
        requires
            self.wf(),
            k <= self.weights().len(),
        ensures
            r.num == prefix_sum(self.weights(), k as int),
            r.den == total(self.weights()),
    {
        proof {
            lemma_cdf_is_prefix(self.cdf@, k as int);
            lemma_cdf_is_prefix(self.cdf@, self.cdf@.len() - 1);
        }
        Ratio { num: self.cdf[k] as u128, den: self.cdf[self.cdf.len() - 1] as u128 }
    }
}

impl Discrete1D for Inversion1D {
    open spec fn wf(&self) -> bool {
        cdf_wf(self.table())
    }

    open spec fn weights(&self) -> Seq<u64> {
        steps(self.table())
    }

    open spec fn rejects(weights: Seq<u64>) -> Option<BuildError> {
        base_rejects(weights)
    }

    open spec fn outcome(&self, u: Frac) -> int {
        bucket(self.weights(), u)
    }

    proof fn lemma_accepted(&self) {
        lemma_cdf_is_prefix(self.table(), self.table().len() - 1);
        lemma_base_accepted(self.weights());
    }

    proof fn lemma_outcome(&self, u: Frac) {
        self.lemma_accepted();
        lemma_bucket(self.weights(), u);
    }

    /// Adds the weights up into the table.
    fn build(weights: &[u64]) -> (r: Result<Self, BuildError>) {
        let n: usize = weights.len();
        if n == 0 {
            return Err(BuildError::Empty);
        }
        let ghost w = weights@;
        let mut cdf: Vec<u64> = Vec::new();
        cdf.push(0);
        let mut acc: u128 = 0;
        let mut i: usize = 0;
        while i < n
            invariant
                w == weights@,
                n == w.len(),
                n >= 1,
                i <= n,
                cdf@.len() == i + 1,
                acc == prefix_sum(w, i as int),
                acc * n <= u64::MAX,
                forall|k: int| 0 <= k <= i ==> #[trigger] cdf@[k] == prefix_sum(w, k),
            decreases n - i,
        {
            proof {
                assert(acc <= u64::MAX) by (nonlinear_arith)
                    requires
                        acc * n <= u64::MAX,
                        n >= 1,
                        acc >= 0,
                ;
                lemma_weight_within_total(w, i as int);
            }
            acc = acc + (weights[i] as u128);
            proof {
                lemma_mul_le(acc as int, total(w), 1, n as int);
                lemma_mul_le(acc as int, total(w), n as int, n as int);
                assert(total(w) * n == n * total(w)) by (nonlinear_arith);
            }
            if acc > u64::MAX as u128 {
                return Err(BuildError::TooLarge);
            }
            proof {
                lemma_mul_le(acc as int, u64::MAX as int, n as int, u64::MAX as int);
            }
            if acc * (n as u128) > u64::MAX as u128 {
                return Err(BuildError::TooLarge);
            }
            cdf.push(acc as u64);
            i = i + 1;
        }
        if acc == 0 {
            return Err(BuildError::ZeroIntegral);
        }
        let table = Inversion1D { cdf };
        proof {
            assert(acc * n == n * acc) by (nonlinear_arith);
            let t = table.table();
            assert forall|k: int| 0 <= k < t.len() - 1 implies t[k] <= #[trigger] t[k + 1] by {
                lemma_weight_within_total(w, k);
            }
            assert(cdf_wf(t));
            assert forall|k: int| 0 <= k < n implies steps(t)[k] == w[k] by {
                lemma_weight_within_total(w, k);
                assert(t[k + 1] == prefix_sum(w, k + 1));
            }
            assert(steps(t) =~= w);
        }
        Ok(table)
    }

    /// Searches the table for the last partial sum that is not above `u` times the integral.
    fn sample(&self, u: Ratio) -> (r: usize) {
        let n: usize = self.cdf.len() - 1;
        let sum: u64 = self.cdf[n];
        let ghost w = self.weights();
        proof {
            self.lemma_accepted();
            lemma_cdf_is_prefix(self.table(), n as int);
            lemma_mul_le(u.num as int, u64::MAX as int, sum as int, u64::MAX as int);
            lemma_mul_lt(u.num as int, u.den as int, sum as int);
        }
        let point: u128 = u.num * (sum as u128);
        let mut low: usize = 0;
        let mut high: usize = n;
        while high - low > 1
            invariant
                self.wf(),
                n == self.cdf@.len() - 1,
                u.is_input(),
                point == u.num * sum,
                low < high <= n,
                self.cdf@[low as int] * u.den <= point,
                point < self.cdf@[high as int] * u.den,
            decreases high - low,
        {
            let mid: usize = low + (high - low) / 2;
            proof {
                lemma_mul_le(
                    self.cdf@[mid as int] as int,
                    u64::MAX as int,
                    u.den as int,
                    u64::MAX as int,
                );
            }
            if (self.cdf[mid] as u128) * u.den <= point {
                low = mid;
            } else {
                high = mid;
            }
        }
        proof {
            lemma_cdf_is_prefix(self.table(), low as int);
            lemma_cdf_is_prefix(self.table(), low as int + 1);
            assert(in_bucket(w, u@, low as int));
            lemma_bucket(w, u@);
        }
        low
    }

    fn pdf(&self, u: usize) -> (r: u64) {
        let len: usize = self.cdf.len();
        proof {
            assert(u < len - 1);
            assert(self.cdf@[u as int] <= self.cdf@[u as int + 1]);
        }
        self.cdf[u + 1] - self.cdf[u]
    }

    fn integral(&self) -> (r: u64) {
        proof {
            lemma_cdf_is_prefix(self.table(), self.table().len() - 1);
        }
        self.cdf[self.cdf.len() - 1]
    }

    fn size(&self) -> (r: usize) {
        self.cdf.len() - 1
    }
}

impl Continuous1D for Inversion1D {
    open spec fn warp(&self, u: Frac) -> Frac {
        warp(self.weights(), u)
    }

    open spec fn unwarp(&self, y: Frac) -> Frac {
        unwarp(self.weights(), y)
    }

    open spec fn spread(&self) -> int {
        self.weights().len() * total(self.weights())
    }

    proof fn lemma_spread(&self) {
        self.lemma_accepted();
        lemma_mul_le(1, self.weights().len() as int, 1, total(self.weights()));
    }

    proof fn lemma_agreement(&self, u: Frac) {
        self.lemma_accepted();
        lemma_warp_agreement(self.weights(), u);
    }

    proof fn lemma_round_trip(&self, u: Frac) {
        self.lemma_accepted();
        lemma_warp_round_trip(self.weights(), u);
    }

    proof fn lemma_onto(&self, y: Frac) {
        self.lemma_accepted();
        lemma_warp_onto(self.weights(), y);
    }

    /// Places `u` within the cell of its bucket as it lies between the two partial sums
    /// around it.
    fn sample_continuous(&self, u: Ratio) -> (r: Ratio) {
        let offset: usize = self.sample(u);
        let n: usize = self.size();
        let sum: u64 = self.integral();
        let below: u64 = self.cdf[offset];
        let above: u64 = self.cdf[offset + 1];
        let ghost w = self.weights();
        proof {
            self.lemma_accepted();
            lemma_bucket(w, u@);
            lemma_warp_agreement(w, u@);
            lemma_cdf_is_prefix(self.table(), offset as int);
            lemma_cdf_is_prefix(self.table(), offset as int + 1);
            lemma_weight_within_total(w, offset as int);
            lemma_mul_le(u.num as int, u64::MAX as int, sum as int, u64::MAX as int);
            lemma_mul_le(below as int, u64::MAX as int, u.den as int, u64::MAX as int);
            lemma_mul_le(u.den as int, u.den as int, w[offset as int] as int, sum as int);
            lemma_mul_le(u.den as int, u64::MAX as int, sum as int, u64::MAX as int);
            lemma_mul_le(u.den * w[offset as int], u.den * sum, n as int, n as int);
            assert((u.den * sum) * n == u.den * (n * sum)) by (nonlinear_arith);
            lemma_mul_le(u.den as int, u64::MAX as int, n * sum, u64::MAX as int);
        }
        let cell: u128 = u.den * ((above - below) as u128);
        let within: u128 = u.num * (sum as u128) - (below as u128) * u.den;
        proof {
            assert(warp(w, u@).num == offset * cell + within);
            assert(warp(w, u@).den == cell * n);
            assert(cell * n <= u.den * (n * sum)) by (nonlinear_arith)
                requires
                    cell * n <= (u.den * sum) * n,
                    (u.den * sum) * n == u.den * (n * sum),
            ;
        }
        Ratio { num: (offset as u128) * cell + within, den: cell * (n as u128) }
    }

    /// Interpolates between the two partial sums around the cell of `u`.
    fn inverse_continuous(&self, u: Ratio) -> (r: Ratio) {
        let n: usize = self.size();
        let sum: u64 = self.integral();
        let ghost w = self.weights();
        proof {
            self.lemma_accepted();
            lemma_cell(n as int, u@);
            lemma_mul_le(n as int, u64::MAX as int, u.num as int, u64::MAX as int);
        }
        let scaled: u128 = (n as u128) * u.num;
        let idx: usize = (scaled / u.den) as usize;
        let delta: Ratio = Ratio { num: scaled % u.den, den: u.den };
        let between: Ratio = lerp(delta, self.cdf[idx], self.cdf[idx + 1]);
        proof {
            lemma_cdf_is_prefix(self.table(), idx as int);
            lemma_cdf_is_prefix(self.table(), idx as int + 1);
            lemma_weight_within_total(w, idx as int);
            let c = prefix_sum(w, idx as int);
            let wi = w[idx as int] as int;
            assert(between.num == c * u.den + delta.num * wi) by (nonlinear_arith)
                requires
                    between.num == (u.den - delta.num) * c + delta.num * (c + wi),
            ;
            lemma_mul_le(delta.num as int, u.den as int, wi, wi);
            assert(c * u.den + u.den * wi == (c + wi) * u.den) by (nonlinear_arith);
            lemma_mul_le(c + wi, sum as int, u.den as int, u.den as int);
            lemma_mul_le(u.den as int, u64::MAX as int, sum as int, u64::MAX as int);
            assert(sum * u.den == u.den * sum) by (nonlinear_arith);
            assert(u.den * sum > 0) by (nonlinear_arith)
                requires
                    u.den > 0,
                    sum > 0,
            ;
        }
        Ratio { num: between.num, den: between.den * (sum as u128) }
    }
}

/// A distribution over a grid that inverts the cumulative distribution of the rows and of
/// each row.
pub type Inversion2D = crate::adapter2d::Adapter2D<Inversion1D>;

impl Inversion1D {
    /// Drawing once with each of as many equally spaced numbers as the integral counts hits
    /// every index exactly as often as its weight says.
    pub proof fn lemma_fair(&self)
        requires
            self.wf(),
        ensures
            fair_at(*self, total(self.weights())),
    {
        self.lemma_accepted();
        let w = self.weights();
        let s = total(w);
        assert forall|i: int| 0 <= i < w.len() implies #[trigger] hits(
            step_outcome(*self, s),
            i,
            s,
        ) * s == s * w[i] by {
            lemma_hits_agree(step_outcome(*self, s), bucket_of_step(w, s), i, i, s);
            lemma_bucket_hits(w, i);
            assert(w[i] * s == s * w[i]) by (nonlinear_arith);
        }
    }
}

} // verus!
