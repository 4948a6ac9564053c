//! Sampling by walking down a reduction pyramid of the weights.

use vstd::prelude::*;
use crate::adapter2d::{fair_at, step_outcome};
use crate::sums::{hits, lemma_hits_agree};
use crate::weights::{bucket_of_step, lemma_bucket_hits};
use vstd::slice::slice_to_vec;
use crate::arith::{lemma_div_parts, lemma_div_unique, lemma_mul_le, lemma_mul_lt};
use crate::distribution::{
    base_rejects, lemma_base_accepted, measure, BuildError, Continuous1D, Discrete1D,
};
use crate::pyramid::{
    at_or_zero, halve, linked, pyramid_wf, reach, lemma_halve_total, lemma_level_reach,
    lemma_level_total, lemma_reach_step,
};
use crate::ratio::{Frac, Ratio};
use crate::utils::lerp;
use crate::weights::{
    bucket, in_bucket, prefix_sum, total, unwarp, warp, lemma_bucket, lemma_cell,
    lemma_warp_agreement, lemma_warp_onto, lemma_warp_round_trip, lemma_weight_within_total,
};

verus! {

/// Which of two neighbouring weights a number takes, and where in it the number lies.
///
/// The number is a share of both weights together; its denominator holds their sum as a
/// factor, and `remap` trades that factor for the weight that was taken.
pub open spec fn remap(first: int, second: int, rand: Frac) -> (bool, Frac) {
    let base = rand.den / (first + second);
    if rand.num < first * base {
        (false, Frac { num: rand.num, den: base * first })
    } else {
        (true, Frac { num: rand.num - first * base, den: base * second })
    }
}

/// Chooses between two neighbouring weights in proportion to them, and turns `rand` into the
/// share of the chosen weight at which it lies. Returns whether the second was chosen.
///
/// The walk hands each level the share that the level above left, whose denominator holds the
/// weight of the node as a factor; that is what keeps the shares exact all the way down.
fn select_remap(weights: [u64; 2], rand: &mut Ratio) -> (right: bool)
    requires
        weights[0] + weights[1] > 0,
        old(rand).num < old(rand).den,
        (old(rand).den as int) % (weights[0] + weights[1]) == 0,
    ensures
        (right, final(rand)@) == remap(weights[0] as int, weights[1] as int, old(rand)@),
        final(rand).num < final(rand).den,
{
    let first: u128 = weights[0] as u128;
    let second: u128 = weights[1] as u128;
    let base: u128 = rand.den / (first + second);
    proof {
        lemma_div_parts(rand.den as int, (first + second) as int);
        assert(first * base + second * base == rand.den) by (nonlinear_arith)
            requires
                rand.den == base * (first + second) + 0,
        ;
        lemma_mul_le(0, first as int, 0, base as int);
        lemma_mul_le(0, second as int, 0, base as int);
        assert(base * first == first * base && base * second == second * base)
            by (nonlinear_arith);
    }
    if rand.num < first * base {
        rand.den = base * first;
        false
    } else {
        rand.num = rand.num - first * base;
        rand.den = base * second;
        true
    }
}

/// The weight at `idx`, or zero beyond the end.
pub fn get_or_zero(v: &[u64], idx: usize) -> (r: u64)
    ensures
        r == at_or_zero(v@, idx as int),
{
    if idx < v.len() {
        v[idx]
    } else {
        0
    }
}

/// Level `j - 1` of `stack` is too long for a root, and level `j` is its halving.
pub open spec fn halved_from(stack: Seq<Seq<u64>>, j: int) -> bool {
    stack[j - 1].len() > 2 && stack[j] == halve(stack[j - 1])
}

/// The next coarser level of a pyramid: the sums of neighbouring pairs of `fine`.
pub fn coarser(fine: &[u64]) -> (r: Vec<u64>)
    requires
        total(fine@) <= u64::MAX,
    ensures
        r@ == halve(fine@),
{
    let m: usize = fine.len();
    let half: usize = m / 2 + m % 2;
    let mut level: Vec<u64> = Vec::new();
    let mut i: usize = 0;
    while i < half
        invariant
            m == fine@.len(),
            half == m / 2 + m % 2,
            half == halve(fine@).len(),
            i <= half,
            level@.len() == i,
            total(fine@) <= u64::MAX,
            forall|j: int| 0 <= j < i ==> level@[j] == halve(fine@)[j],
        decreases half - i,
    {
        proof {
            lemma_reach_step(fine@, 2 * i);
            lemma_reach_step(fine@, 2 * i + 1);
        }
        let first: u64 = get_or_zero(fine, 2 * i);
        let second: u64 = get_or_zero(fine, 2 * i + 1);
        level.push(first + second);
        i = i + 1;
    }
    proof {
        assert(level@ =~= halve(fine@));
    }
    level
}

/// A pyramid of partial sums over a sequence of weights, the root level first.
pub struct Hierarchical1D {
    levels: Vec<Vec<u64>>,
}

/// Two to the power `k`.
pub open spec fn two_to(k: nat) -> int
    decreases k,
{
    if k == 0 {
        1
    } else {
        2 * two_to((k - 1) as nat)
    }
}

/// Level `k` of a pyramid has more than `2^k` weights below the root, and at most `2^(k+1)`.
proof fn lemma_level_len(levels: Seq<Seq<u64>>, k: int)
    requires
        pyramid_wf(levels),
        0 <= k < levels.len(),
    ensures
        two_to(k as nat) <= levels[k].len() <= two_to((k + 1) as nat),
        k >= 1 ==> two_to(k as nat) < levels[k].len(),
    decreases k,
{
    if k == 0 {
        assert(two_to(1) == 2 * two_to(0));
    } else {
        lemma_level_len(levels, k - 1);
        assert(linked(levels, k));
        assert(two_to(1) == 2 * two_to(0));
    }
}

/// The two children of a node split its range of partial sums at the first child's weight.
/// The root level has no parent: its two weights split the whole integral.
proof fn lemma_children(p: Seq<Seq<u64>>, k: int, parent: int)
    requires
        pyramid_wf(p),
        0 <= k < p.len(),
        0 <= parent,
        k == 0 ==> parent == 0,
    ensures
        reach(p[k], 2 * parent) == if k == 0 {
            0
        } else {
            reach(p[k - 1], parent)
        },
        reach(p[k], 2 * parent + 2) == if k == 0 {
            total(p.last())
        } else {
            reach(p[k - 1], parent + 1)
        },
        reach(p[k], 2 * parent + 1) == reach(p[k], 2 * parent) + at_or_zero(p[k], 2 * parent),
        reach(p[k], 2 * parent + 2) == reach(p[k], 2 * parent + 1) + at_or_zero(
            p[k],
            2 * parent + 1,
        ),
        k == 0 || parent < p[k - 1].len() ==> 2 * parent + 1 <= p[k].len(),
{
    lemma_level_total(p, k);
    if k >= 1 {
        assert(linked(p, k));
        lemma_level_reach(p, k, parent);
        lemma_level_reach(p, k, parent + 1);
    }
    lemma_reach_step(p[k], 2 * parent);
    lemma_reach_step(p[k], 2 * parent + 1);
}

/// One step of the walk: a number that lies `num / d` above the partial sum `lo`, within the
/// two weights that follow, lies as far above `lo` or above `lo + first`, whichever `remap`
/// chooses, and within the weight chosen.
proof fn lemma_remap_step(d: int, lo: int, first: int, second: int, num: int, point: int)
    requires
        d > 0,
        first >= 0,
        second >= 0,
        num == point - lo * d,
        0 <= num < d * (first + second),
    ensures
        first + second > 0,
        (d * (first + second)) % (first + second) == 0,
        ({
            let out = remap(first, second, Frac { num: num, den: d * (first + second) });
            let chosen_lo = if out.0 {
                lo + first
            } else {
                lo
            };
            let chosen = if out.0 {
                second
            } else {
                first
            };
            &&& out.1.num == point - chosen_lo * d
            &&& out.1.den == d * chosen
            &&& 0 <= out.1.num < out.1.den
            &&& chosen > 0
        }),
{
    let both = first + second;
    assert(both > 0) by (nonlinear_arith)
        requires
            0 <= num < d * both,
            d > 0,
            both >= 0,
    ;
    assert(d * both == d * both + 0);
    lemma_div_unique(d * both, both, d, 0);
    let out = remap(first, second, Frac { num: num, den: d * both });
    assert((d * both) / both == d);
    assert(d * both == d * first + d * second && first * d == d * first && second * d == d
        * second) by (nonlinear_arith)
        requires
            both == first + second,
    ;
    if num < first * d {
        assert(!out.0);
        assert(first > 0) by (nonlinear_arith)
            requires
                0 <= num < first * d,
                d > 0,
        ;
    } else {
        assert(out.0);
        assert((lo + first) * d == lo * d + first * d) by (nonlinear_arith);
        assert(second > 0) by (nonlinear_arith)
            requires
                num < d * first + d * second,
                num >= first * d,
                first * d == d * first,
                d > 0,
        ;
    }
}

/// The walk stands before level `k` at the node `idx` of the level above, whose weights
/// before it sum to `lo` and with it to `hi`. Before the root level it stands at the whole
/// integral.
#[verifier::opaque]
pub open spec fn at_node(p: Seq<Seq<u64>>, k: int, idx: int, lo: int, hi: int) -> bool {
    if k == 0 {
        idx == 0 && lo == 0 && hi == total(p.last())
    } else {
        0 <= idx && lo == reach(p[k - 1], idx) && hi == reach(p[k - 1], idx + 1)
    }
}

/// One level of the walk: the two children of the node hold its weight between them, and the
/// child that `remap` chooses is the one whose range of partial sums holds the number.
proof fn lemma_walk(
    p: Seq<Seq<u64>>,
    k: int,
    parent: int,
    d: int,
    lo: int,
    hi: int,
    point: int,
    num: int,
)
    requires
        pyramid_wf(p),
        0 <= k < p.len(),
        at_node(p, k, parent, lo, hi),
        k >= 1 ==> parent < p[k - 1].len(),
        d > 0,
        num == point - lo * d,
        0 <= num < d * (hi - lo),
    ensures
        ({
            let first = at_or_zero(p[k], 2 * parent);
            let second = at_or_zero(p[k], 2 * parent + 1);
            let out = remap(first, second, Frac { num: num, den: d * (hi - lo) });
            let idx = if out.0 {
                2 * parent + 1
            } else {
                2 * parent
            };
            let chosen_lo = if out.0 {
                lo + first
            } else {
                lo
            };
            let chosen_hi = if out.0 {
                hi
            } else {
                lo + first
            };
            &&& 0 <= parent
            &&& 2 * parent + 1 <= p[k].len()
            &&& first + second == hi - lo
            &&& first + second > 0
            &&& (d * (hi - lo)) % (first + second) == 0
            &&& at_node(p, k + 1, idx, chosen_lo, chosen_hi)
            &&& 0 <= idx < p[k].len()
            &&& chosen_lo == reach(p[k], idx)
            &&& chosen_hi == reach(p[k], idx + 1)
            &&& out.1.num == point - chosen_lo * d
            &&& out.1.den == d * (chosen_hi - chosen_lo)
            &&& 0 <= out.1.num < out.1.den
            &&& 0 <= chosen_lo < chosen_hi <= total(p.last())
        }),
{
    reveal(at_node);
    lemma_children(p, k, parent);
    let first = at_or_zero(p[k], 2 * parent);
    let second = at_or_zero(p[k], 2 * parent + 1);
    lemma_remap_step(d, lo, first, second, num, point);
    let out = remap(first, second, Frac { num: num, den: d * (hi - lo) });
    let idx = if out.0 {
        2 * parent + 1
    } else {
        2 * parent
    };
    lemma_reach_step(p[k], idx);
    lemma_level_total(p, k);
}

impl Hierarchical1D {
    /// The levels of the pyramid, the root first and the weights themselves last.
    pub closed spec fn table(&self) -> Seq<Seq<u64>> {
        Seq::new(self.levels@.len(), |k: int| self.levels@[k]@)
    }

    /// Walks from the root to the weight that `u` falls into.
    ///
    /// Returns its index and the share of that weight at which `u` lies.
    fn descend(&self, u: Ratio) -> (r: (usize, Ratio))
        requires
            self.wf(),
            u.is_input(),
        ensures
            r.0 == bucket(self.weights(), u@),
            r.0 < self.weights().len(),
            r.1.num == u.num * total(self.weights()) - prefix_sum(self.weights(), r.0 as int)
                * u.den,
            r.1.den == u.den * self.weights()[r.0 as int],
            r.1.num < r.1.den,
    {
        let ghost p = self.table();
        let ghost w = self.weights();
        let count: usize = self.levels.len();
        let sum: u64 = self.integral();
        proof {
            self.lemma_accepted();
            lemma_mul_le(u.num as int, u64::MAX as int, sum as int, u64::MAX as int);
            lemma_mul_le(u.den as int, u64::MAX as int, sum as int, u64::MAX as int);
            lemma_mul_lt(u.num as int, u.den as int, sum as int);
        }
        let mut rand: Ratio = Ratio { num: u.num * (sum as u128), den: u.den * (sum as u128) };
        let mut idx: usize = 0;
        let mut k: usize = 0;
        let ghost mut lo: int = 0;
        let ghost mut hi: int = sum as int;
        proof {
            reveal(at_node);
            assert(at_node(p, 0, 0, lo, hi));
            assert(rand.den == u.den * (hi - lo));
        }
        while k < count
            invariant
                pyramid_wf(p),
                p == self.table(),
                count == p.len(),
                count == self.levels@.len(),
                sum == total(p.last()),
                u.is_input(),
                k <= count,
                at_node(p, k as int, idx as int, lo, hi),
                k >= 1 ==> idx < p[k - 1].len(),
                rand.num == u.num * sum - lo * u.den,
                rand.den == u.den * (hi - lo),
                rand.num < rand.den,
                0 <= lo < hi <= sum,
            decreases count - k,
        {
            proof {
                lemma_walk(
                    p,
                    k as int,
                    idx as int,
                    u.den as int,
                    lo,
                    hi,
                    u.num * sum,
                    rand.num as int,
                );
                assert(p[k as int] == self.levels@[k as int]@);
            }
            let level_len: usize = self.levels[k].len();
            idx = idx * 2;
            let first: u64 = get_or_zero(self.levels[k].as_slice(), idx);
            let second: u64 = get_or_zero(self.levels[k].as_slice(), idx + 1);
            let right: bool = select_remap([first, second], &mut rand);
            if right {
                idx = idx + 1;
                proof {
                    lo = lo + first;
                }
            } else {
                proof {
                    hi = lo + first;
                }
            }
            k = k + 1;
        }
        proof {
            reveal(at_node);
        }
        proof {
            assert(p[count - 1] == w);
            lemma_weight_within_total(w, idx as int);
            assert(lo * u.den + u.den * (hi - lo) == hi * u.den) by (nonlinear_arith);
            assert(in_bucket(w, u@, idx as int));
            lemma_bucket(w, u@);
        }
        (idx, rand)
    }
}

impl Discrete1D for Hierarchical1D {
    open spec fn wf(&self) -> bool {
        &&& pyramid_wf(self.table())
        &&& base_rejects(self.table().last()) is None
    }

    open spec fn weights(&self) -> Seq<u64> {
        self.table().last()
    }

    open spec fn rejects(weights: Seq<u64>) -> Option<BuildError> {
        base_rejects(weights)
    }

    open spec fn outcome(&self, u: Frac) -> int {
        bucket(self.weights(), u)
    }

    proof fn lemma_accepted(&self) {
        lemma_base_accepted(self.weights());
    }

    proof fn lemma_outcome(&self, u: Frac) {
        self.lemma_accepted();
        lemma_bucket(self.weights(), u);
    }

    /// Halves the weights level by level until at most two sums are left.
    fn build(weights: &[u64]) -> (r: Result<Self, BuildError>) {
        let n: usize = weights.len();
        let sum: u64 = match measure(weights) {
            Ok(s) => s,
            Err(e) => {
                return Err(e);
            },
        };
        let ghost w = weights@;
        proof {
            lemma_base_accepted(w);
        }
        let mut rev: Vec<Vec<u64>> = Vec::new();
        rev.push(slice_to_vec(weights));
        let mut m: usize = n;
        let ghost mut stack: Seq<Seq<u64>> = seq![w];
        while m > 2
            invariant
                rev@.len() >= 1,
                stack.len() == rev@.len(),
                stack[0] == w,
                forall|j: int| 0 <= j < rev@.len() ==> (#[trigger] rev@[j])@ == stack[j],
                stack.last().len() == m,
                m >= 1,
                total(stack.last()) == total(w),
                total(w) <= u64::MAX,
                forall|j: int| 1 <= j < stack.len() ==> #[trigger] halved_from(stack, j),
            decreases m,
        {
            let last: usize = rev.len() - 1;
            let level: Vec<u64> = coarser(rev[last].as_slice());
            proof {
                let before = stack;
                stack = stack.push(level@);
                lemma_halve_total(before.last());
                assert forall|j: int| 1 <= j < stack.len() implies #[trigger] halved_from(
                    stack,
                    j,
                ) by {
                    if j < before.len() {
                        assert(halved_from(before, j));
                    }
                }
            }
            rev.push(level);
            m = m / 2 + m % 2;
        }
        let ghost fine_first = rev@;
        let count: usize = rev.len();
        let mut levels: Vec<Vec<u64>> = Vec::new();
        while rev.len() > 0
            invariant
                count == fine_first.len(),
                rev@.len() + levels@.len() == count,
                forall|j: int| 0 <= j < rev@.len() ==> rev@[j] == fine_first[j],
                forall|j: int|
                    0 <= j < levels@.len() ==> #[trigger] levels@[j] == fine_first[count - 1 - j],
            decreases rev@.len(),
        {
            let level: Vec<u64> = rev.pop().unwrap();
            levels.push(level);
        }
        let table = Hierarchical1D { levels };
        proof {
            let p = table.table();
            assert(p.len() == count);
            assert forall|k: int| 0 <= k < count implies #[trigger] p[k] == stack[count - 1
                - k] by {
                assert(table.levels@[k] == fine_first[count - 1 - k]);
            }
            assert(p.last() == w);
            assert forall|k: int| 1 <= k < p.len() implies #[trigger] linked(p, k) by {
                let j = count - k;
                assert(halved_from(stack, j));
                assert(p[k] == stack[j - 1]);
                assert(p[k - 1] == stack[j]);
            }
        }
        Ok(table)
    }

    fn sample(&self, u: Ratio) -> (r: usize) {
        proof {
            self.lemma_accepted();
            lemma_bucket(self.weights(), u@);
        }
        let found: (usize, Ratio) = self.descend(u);
        found.0
    }

    /// The weight of index `u`, read from the finest level.
    ///
    /// Walking back up to the root would multiply the weight by the share that each sum on
    /// the way has of the next; with whole numbers these shares cancel to the weight itself.
    fn pdf(&self, u: usize) -> (r: u64) {
        let last: usize = self.levels.len() - 1;
        proof {
            assert(self.table()[last as int] == self.levels@[last as int]@);
        }
        self.levels[last][u]
    }

    fn integral(&self) -> (r: u64) {
        proof {
            lemma_base_accepted(self.weights());
            lemma_level_total(self.table(), 0);
            lemma_reach_step(self.table()[0], 0);
            lemma_reach_step(self.table()[0], 1);
            assert(self.table()[0] == self.levels@[0]@);
        }
        let first: u64 = get_or_zero(self.levels[0].as_slice(), 0);
        let second: u64 = get_or_zero(self.levels[0].as_slice(), 1);
        first + second
    }

    fn size(&self) -> (r: usize) {
        let last: usize = self.levels.len() - 1;
        proof {
            lemma_base_accepted(self.weights());
            assert(self.table()[last as int] == self.levels@[last as int]@);
        }
        self.levels[last].len()
    }
}

/// Two to the power 32.
pub proof fn lemma_two_to_32()
    ensures
        two_to(32) == 0x1_0000_0000,
{
    assert(two_to(8) == 0x100) by {
        reveal_with_fuel(two_to, 9);
    }
    assert(two_to(16) == 0x1_0000) by {
        lemma_two_to_adds(8, 8);
    }
    assert(two_to(32) == 0x1_0000_0000) by {
        lemma_two_to_adds(16, 16);
    }
}

/// Powers of two multiply as their exponents add.
pub proof fn lemma_two_to_adds(a: nat, b: nat)
    ensures
        two_to(a + b) == two_to(a) * two_to(b),
    decreases b,
{
    if b == 0 {
        assert(two_to(a) * 1 == two_to(a));
    } else {
        lemma_two_to_adds(a, (b - 1) as nat);
        assert(two_to(a + b) == 2 * two_to((a + b - 1) as nat));
        assert(2 * (two_to(a) * two_to((b - 1) as nat)) == two_to(a) * (2 * two_to(
            (b - 1) as nat,
        ))) by (nonlinear_arith);
    }
}

/// Powers of two are positive and grow with the exponent.
pub proof fn lemma_two_to_monotone(a: nat, b: nat)
    requires
        a <= b,
    ensures
        1 <= two_to(a) <= two_to(b),
    decreases b,
{
    if b > 0 {
        if a < b {
            lemma_two_to_monotone(a, (b - 1) as nat);
        } else {
            lemma_two_to_monotone((a - 1) as nat, (b - 1) as nat);
        }
    }
}

/// One level of the walk towards a known cell: the half of the node that holds the cell is
/// the child whose range of partial sums is looked for.
proof fn lemma_bisect(
    p: Seq<Seq<u64>>,
    k: int,
    parent: int,
    out0: int,
    out1: int,
    lo: int,
    width: int,
    target: int,
)
    requires
        pyramid_wf(p),
        0 <= k < p.len(),
        at_node(p, k, parent, out0, out1),
        width == two_to((p.len() - k) as nat),
        lo == parent * width,
        lo <= target < lo + width,
    ensures
        ({
            let half = width / 2;
            let first = at_or_zero(p[k], 2 * parent);
            let right = target >= lo + half;
            let idx = if right {
                2 * parent + 1
            } else {
                2 * parent
            };
            &&& half == two_to((p.len() - k - 1) as nat)
            &&& half >= 1
            &&& 0 <= 2 * parent <= target
            &&& out0 + first <= out1
            &&& out1 <= total(p.last())
            &&& 0 <= out0
            &&& idx * half <= target < idx * half + half
            &&& idx * half == if right {
                lo + half
            } else {
                lo
            }
            &&& at_node(
                p,
                k + 1,
                idx,
                if right {
                    out0 + first
                } else {
                    out0
                },
                if right {
                    out1
                } else {
                    out0 + first
                },
            )
        }),
{
    reveal(at_node);
    lemma_children(p, k, parent);
    lemma_level_total(p, k);
    let half = width / 2;
    lemma_two_to_monotone(0, (p.len() - k - 1) as nat);
    assert(width == 2 * two_to((p.len() - k - 1) as nat));
    assert(2 * parent * half == parent * width && (2 * parent + 1) * half == parent * width
        + half) by (nonlinear_arith)
        requires
            width == 2 * half,
    ;
    assert(2 * parent <= target) by (nonlinear_arith)
        requires
            2 * parent * half <= target,
            half >= 1,
            parent >= 0,
    ;
    lemma_reach_step(p[k], 2 * parent);
    lemma_reach_step(p[k], 2 * parent + 1);
    if k >= 1 {
        lemma_reach_step(p[k - 1], parent);
    }
}

impl Continuous1D for Hierarchical1D {
    open spec fn warp(&self, u: Frac) -> Frac {
        warp(self.weights(), u)
    }

    open spec fn unwarp(&self, y: Frac) -> Frac {
        unwarp(self.weights(), y)
    }

    open spec fn spread(&self) -> int {
        self.weights().len() * total(self.weights())
    }

    proof fn lemma_spread(&self) {
        self.lemma_accepted();
        lemma_mul_le(1, self.weights().len() as int, 1, total(self.weights()));
    }

    proof fn lemma_agreement(&self, u: Frac) {
        self.lemma_accepted();
        lemma_warp_agreement(self.weights(), u);
    }

    proof fn lemma_round_trip(&self, u: Frac) {
        self.lemma_accepted();
        lemma_warp_round_trip(self.weights(), u);
    }

    proof fn lemma_onto(&self, y: Frac) {
        self.lemma_accepted();
        lemma_warp_onto(self.weights(), y);
    }

    /// Walks down as `sample` does; what is left of `u` at the bottom places the coordinate
    /// within the cell of the index.
    fn sample_continuous(&self, u: Ratio) -> (r: Ratio) {
        let found: (usize, Ratio) = self.descend(u);
        let idx: usize = found.0;
        let rand: Ratio = found.1;
        let n: usize = self.size();
        let ghost w = self.weights();
        proof {
            self.lemma_accepted();
            lemma_warp_agreement(w, u@);
            lemma_weight_within_total(w, idx as int);
            let wi = w[idx as int] as int;
            lemma_mul_le(wi, total(w), n as int, n as int);
            assert(total(w) * n == n * total(w)) by (nonlinear_arith);
            lemma_mul_le(u.den as int, u64::MAX as int, wi * n, u64::MAX as int);
            lemma_mul_le(u.den as int, u.den as int, wi * n, total(w) * n);
            assert(rand.den * n == u.den * (wi * n) && u.den * wi * n == rand.den * n)
                by (nonlinear_arith)
                requires
                    rand.den == u.den * wi,
            ;
            lemma_mul_le(idx as int + 1, n as int, rand.den as int, rand.den as int);
            assert((idx + 1) * rand.den == idx * rand.den + rand.den && n * rand.den == rand.den
                * n) by (nonlinear_arith);
            lemma_mul_le(0, idx as int, 0, rand.den as int);
        }
        Ratio { num: (idx as u128) * rand.den + rand.num, den: rand.den * (n as u128) }
    }

    /// Walks down towards the cell of the coordinate `u`, halving the range of cells at each
    /// level and narrowing the range of partial sums to the child on that side, then
    /// interpolates between the two partial sums that are left.
    fn inverse_continuous(&self, u: Ratio) -> (r: Ratio) {
        let n: usize = self.size();
        let sum: u64 = self.integral();
        let count: usize = self.levels.len();
        let ghost p = self.table();
        let ghost w = self.weights();
        proof {
            self.lemma_accepted();
            lemma_cell(n as int, u@);
            lemma_mul_le(n as int, u64::MAX as int, u.num as int, u64::MAX as int);
            lemma_level_len(p, count - 1);
        }
        let scaled: u128 = (n as u128) * u.num;
        let target: usize = (scaled / u.den) as usize;
        let delta: Ratio = Ratio { num: scaled % u.den, den: u.den };
        let mut width: u128 = 1;
        let mut j: usize = 0;
        while j < count
            invariant
                j <= count,
                count >= 1,
                width == two_to(j as nat),
                two_to((count - 1) as nat) <= n,
            decreases count - j,
        {
            proof {
                lemma_two_to_monotone(j as nat, (count - 1) as nat);
            }
            width = width * 2;
            j = j + 1;
        }
        let mut out0: u64 = 0;
        let mut out1: u64 = sum;
        let mut lo: u128 = 0;
        let mut idx: usize = 0;
        let mut k: usize = 0;
        proof {
            reveal(at_node);
            assert(at_node(p, 0, 0, 0, sum as int));
            lemma_level_len(p, count - 1);
            assert(two_to(count as nat) == 2 * two_to((count - 1) as nat));
        }
        while k < count
            invariant
                pyramid_wf(p),
                p == self.table(),
                count == p.len(),
                count == self.levels@.len(),
                sum == total(p.last()),
                k <= count,
                target < n,
                at_node(p, k as int, idx as int, out0 as int, out1 as int),
                width == two_to((count - k) as nat),
                lo == idx * width,
                lo <= target < lo + width,
            decreases count - k,
        {
            proof {
                lemma_bisect(
                    p,
                    k as int,
                    idx as int,
                    out0 as int,
                    out1 as int,
                    lo as int,
                    width as int,
                    target as int,
                );
                assert(p[k as int] == self.levels@[k as int]@);
            }
            idx = idx * 2;
            width = width / 2;
            let mid: u128 = lo + width;
            let first: u64 = get_or_zero(self.levels[k].as_slice(), idx);
            let between: u64 = out0 + first;
            if (target as u128) < mid {
                out1 = between;
            } else {
                out0 = between;
                lo = mid;
                idx = idx + 1;
            }
            k = k + 1;
        }
        proof {
            reveal(at_node);
            assert(two_to(0) == 1);
            assert(idx == target) by (nonlinear_arith)
                requires
                    lo == idx * width,
                    width == 1,
                    lo <= target < lo + width,
            ;
            assert(p[count - 1] == w);
        }
        let around: Ratio = lerp(delta, out0, out1);
        proof {
            lemma_weight_within_total(w, idx as int);
            let c = prefix_sum(w, idx as int);
            let wi = w[idx as int] as int;
            assert(around.num == c * u.den + delta.num * wi) by (nonlinear_arith)
                requires
                    around.num == (u.den - delta.num) * c + delta.num * (c + wi),
            ;
            lemma_mul_le(delta.num as int, u.den as int, wi, wi);
            assert(c * u.den + u.den * wi == (c + wi) * u.den) by (nonlinear_arith);
            lemma_mul_le(c + wi, sum as int, u.den as int, u.den as int);
            lemma_mul_le(u.den as int, u64::MAX as int, sum as int, u64::MAX as int);
            assert(sum * u.den == u.den * sum) by (nonlinear_arith);
            assert(u.den * sum > 0) by (nonlinear_arith)
                requires
                    u.den > 0,
                    sum > 0,
            ;
        }
        Ratio { num: around.num, den: around.den * (sum as u128) }
    }
}

impl Hierarchical1D {
    /// Drawing once with each of as many equally spaced numbers as the integral counts hits
    /// every index exactly as often as its weight says.
    pub proof fn lemma_fair(&self)
        requires
            self.wf(),
        ensures
            fair_at(*self, total(self.weights())),
    {
        self.lemma_accepted();
        let w = self.weights();
        let s = total(w);
        assert forall|i: int| 0 <= i < w.len() implies #[trigger] hits(
            step_outcome(*self, s),
            i,
            s,
        ) * s == s * w[i] by {
            lemma_hits_agree(step_outcome(*self, s), bucket_of_step(w, s), i, i, s);
            lemma_bucket_hits(w, i);
            assert(w[i] * s == s * w[i]) by (nonlinear_arith);
        }
    }
}

} // verus!
