//! Weighted reservoir sampling: one pass over the weights, keeping one candidate.
//!
//! The random number is rescaled at every weight, so it is kept in the fixed-point scale and
//! rounded down.

use vstd::prelude::*;
use vstd::slice::slice_to_vec;
use crate::arith::{lemma_div_parts, lemma_mul_le};
use crate::distribution::{base_rejects, lemma_base_accepted, measure, BuildError, Discrete1D};
use crate::fixed::{fixed, to_fixed, lemma_fixed, ONE};
use crate::ratio::{Frac, Ratio};
use crate::utils::Sum;
use crate::weights::{prefix_sum, total, lemma_weight_within_total};

verus! {

/// What a reservoir holds: the candidate kept so far, the sum of the weights seen, and what is
/// left of the random number, in the fixed-point scale.
pub struct Reservoir<Candidate> {
    pub selected: Option<Candidate>,
    pub weight_sum: u64,
    pub rand: u64,
}

/// The reservoir after it was offered `candidate` with `weight`.
///
/// The candidate replaces the one kept where the random number lies in the share that the new
/// weight has of all weights seen. Either way the random number is turned into the share of
/// its side at which it lies, rounded down. A candidate without weight changes nothing.
pub open spec fn offered<Candidate>(
    before: Reservoir<Candidate>,
    candidate: Candidate,
    weight: u64,
) -> Reservoir<Candidate> {
    let sum = before.weight_sum + weight;
    if weight == 0 {
        before
    } else if before.rand * sum < weight * ONE {
        Reservoir {
            selected: Some(candidate),
            weight_sum: sum as u64,
            rand: ((before.rand * sum) / (weight as int)) as u64,
        }
    } else {
        Reservoir {
            selected: before.selected,
            weight_sum: sum as u64,
            rand: ((before.rand * sum - weight * ONE) / (before.weight_sum as int)) as u64,
        }
    }
}

/// Offering a candidate keeps the random number below one, and a first candidate with weight
/// is always taken.
pub proof fn lemma_offered<Candidate>(before: Reservoir<Candidate>, candidate: Candidate, weight: u64)
    requires
        before.rand < ONE,
        before.weight_sum + weight <= u64::MAX,
    ensures
        offered(before, candidate, weight).rand < ONE,
        offered(before, candidate, weight).weight_sum == before.weight_sum + weight,
        weight > 0 && before.weight_sum == 0 ==> offered(before, candidate, weight).selected
            == Some(candidate),
        offered(before, candidate, weight).selected == before.selected || (weight > 0 && offered(
            before,
            candidate,
            weight,
        ).selected == Some(candidate)),
        weight > 0 && !(before.rand * (before.weight_sum + weight) < weight * ONE)
            ==> before.weight_sum > 0 && before.rand * (before.weight_sum + weight) - weight * ONE
            < before.weight_sum * ONE,
        weight > 0 ==> 0 <= before.rand * (before.weight_sum + weight) < (before.weight_sum
            + weight) * ONE,
{
    let sum = before.weight_sum + weight;
    let scaled = before.rand * sum;
    if weight > 0 {
        assert(0 <= scaled < sum * ONE && sum * ONE == before.weight_sum * ONE + weight * ONE)
            by (nonlinear_arith)
            requires
                scaled == before.rand * sum,
                0 <= before.rand < ONE,
                sum == before.weight_sum + weight,
                sum > 0,
        ;
        if scaled < weight * ONE {
            lemma_div_parts(scaled, weight as int);
            assert(scaled / (weight as int) < ONE) by (nonlinear_arith)
                requires
                    scaled == (scaled / (weight as int)) * weight + scaled % (weight as int),
                    scaled % (weight as int) >= 0,
                    scaled < weight * ONE,
                    weight > 0,
            ;
        } else {
            let rest = scaled - weight * ONE;
            assert(before.weight_sum > 0) by (nonlinear_arith)
                requires
                    0 <= rest < before.weight_sum * ONE,
            ;
            lemma_div_parts(rest, before.weight_sum as int);
            assert(rest / (before.weight_sum as int) < ONE) by (nonlinear_arith)
                requires
                    rest == (rest / (before.weight_sum as int)) * before.weight_sum + rest % (
                    before.weight_sum as int),
                    rest % (before.weight_sum as int) >= 0,
                    rest < before.weight_sum * ONE,
                    before.weight_sum > 0,
            ;
        }
    }
}

impl<Candidate: Copy> Reservoir<Candidate> {
    /// A reservoir that was offered nothing yet.
    pub fn empty(rand: u64) -> (r: Self)
        ensures
            r.selected is None,
            r.weight_sum == 0,
            r.rand == rand,
    {
        Reservoir { selected: None, weight_sum: 0, rand }
    }

    /// Offers `new_candidate` with `new_weight` to the reservoir.
    pub fn update(&mut self, new_candidate: Candidate, new_weight: u64)
        requires
            old(self).rand < ONE,
            old(self).weight_sum + new_weight <= u64::MAX,
        ensures
            *final(self) == offered(*old(self), new_candidate, new_weight),
            final(self).rand < ONE,
    {
        proof {
            lemma_offered(*self, new_candidate, new_weight);
        }
        if new_weight == 0 {
            return ;
        }
        let before: u64 = self.weight_sum;
        self.weight_sum = self.weight_sum + new_weight;
        proof {
            lemma_mul_le(self.rand as int, ONE as int, self.weight_sum as int, u64::MAX as int);
            lemma_mul_le(new_weight as int, u64::MAX as int, ONE as int, ONE as int);
        }
        let scaled: u128 = (self.rand as u128) * (self.weight_sum as u128);
        let edge: u128 = (new_weight as u128) * (ONE as u128);
        if scaled < edge {
            self.rand = (scaled / (new_weight as u128)) as u64;
            self.selected = Some(new_candidate);
        } else {
            self.rand = ((scaled - edge) / (before as u128)) as u64;
        }
    }
}

/// The reservoir after it was offered the first `k` weights, each with its index.
pub open spec fn run(weights: Seq<u64>, k: int, rand: u64) -> Reservoir<usize>
    decreases k,
{
    if k <= 0 {
        Reservoir { selected: None, weight_sum: 0, rand: rand }
    } else {
        offered(run(weights, k - 1, rand), (k - 1) as usize, weights[k - 1])
    }
}

/// After the first `k` weights the reservoir has seen their sum, and once that is positive it
/// keeps one of their indices, whose weight is positive.
pub proof fn lemma_run(weights: Seq<u64>, k: int, rand: u64)
    requires
        0 <= k <= weights.len(),
        total(weights) <= u64::MAX,
        weights.len() <= usize::MAX,
        rand < ONE,
    ensures
        run(weights, k, rand).weight_sum == prefix_sum(weights, k),
        run(weights, k, rand).rand < ONE,
        prefix_sum(weights, k) > 0 ==> run(weights, k, rand).selected is Some,
        run(weights, k, rand).selected matches Some(i) ==> i < k && weights[i as int] > 0,
    decreases k,
{
    if k > 0 {
        lemma_run(weights, k - 1, rand);
        lemma_weight_within_total(weights, k - 1);
        lemma_offered(run(weights, k - 1, rand), (k - 1) as usize, weights[k - 1]);
    }
}

/// The weights themselves, sampled by a reservoir.
pub struct Reservoir1D {
    weights: Vec<u64>,
}

impl Reservoir1D {
    /// The weights that the sampler holds.
    pub closed spec fn table(&self) -> Seq<u64> {
        self.weights@
    }
}

impl Discrete1D for Reservoir1D {
    open spec fn wf(&self) -> bool {
        &&& base_rejects(self.table()) is None
        &&& self.table().len() <= usize::MAX
    }

    open spec fn weights(&self) -> Seq<u64> {
        self.table()
    }

    open spec fn rejects(weights: Seq<u64>) -> Option<BuildError> {
        base_rejects(weights)
    }

    open spec fn outcome(&self, u: Frac) -> int {
        run(self.table(), self.table().len() as int, fixed(u) as u64).selected.unwrap() as int
    }

    proof fn lemma_accepted(&self) {
        lemma_base_accepted(self.weights());
    }

    proof fn lemma_outcome(&self, u: Frac) {
        lemma_base_accepted(self.weights());
        lemma_fixed(u);
        lemma_run(self.table(), self.table().len() as int, fixed(u) as u64);
    }

    fn build(weights: &[u64]) -> (r: Result<Self, BuildError>) {
        let n: usize = weights.len();
        match measure(weights) {
            Ok(_) => Ok(Reservoir1D { weights: slice_to_vec(weights) }),
            Err(e) => Err(e),
        }
    }

    /// Offers every weight in turn to a reservoir that starts with `u`.
    fn sample(&self, u: Ratio) -> (r: usize) {
        let ghost w = self.table();
        let start: u64 = to_fixed(u);
        let mut r: Reservoir<usize> = Reservoir::empty(start);
        let n: usize = self.weights.len();
        proof {
            lemma_base_accepted(w);
        }
        let mut i: usize = 0;
        while i < n
            invariant
                w == self.weights@,
                n == w.len(),
                i <= n,
                start < ONE,
                total(w) <= u64::MAX,
                r == run(w, i as int, start),
            decreases n - i,
        {
            proof {
                lemma_run(w, i as int, start);
                lemma_weight_within_total(w, i as int);
            }
            r.update(i, self.weights[i]);
            i = i + 1;
        }
        proof {
            lemma_run(w, n as int, start);
        }
        r.selected.unwrap()
    }

    fn pdf(&self, u: usize) -> (r: u64) {
        self.weights[u]
    }

    fn integral(&self) -> (r: u64) {
        proof {
            lemma_base_accepted(self.weights());
        }
        <u64 as Sum>::sum(self.weights.as_slice()).unwrap()
    }

    fn size(&self) -> (r: usize) {
        proof {
            lemma_base_accepted(self.weights());
        }
        self.weights.len()
    }
}

/// A distribution over a grid that uses a reservoir for the rows and for each row.
pub type Reservoir2D = crate::adapter2d::Adapter2D<Reservoir1D>;

} // verus!
