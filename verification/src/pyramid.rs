//! What a reduction pyramid over a sequence of weights means: each coarser level holds the
//! sums of neighbouring pairs of the level below.

use vstd::prelude::*;
use crate::weights::{prefix_sum, total, lemma_prefix_monotone, lemma_weight_within_total};

verus! {

/// The weight at index `i`, or zero beyond the end of the level.
pub open spec fn at_or_zero(level: Seq<u64>, i: int) -> int {
    if 0 <= i < level.len() {
        level[i] as int
    } else {
        0
    }
}

/// The sum of the first `j` weights, or of all of them where the level has fewer.
pub open spec fn reach(level: Seq<u64>, j: int) -> int {
    if j <= level.len() {
        prefix_sum(level, j)
    } else {
        total(level)
    }
}

/// The next coarser level: the sums of neighbouring pairs, a last weight without a neighbour
/// standing alone.
pub open spec fn halve(level: Seq<u64>) -> Seq<u64> {
    Seq::new(
        ((level.len() + 1) / 2) as nat,
        |i: int| (at_or_zero(level, 2 * i) + at_or_zero(level, 2 * i + 1)) as u64,
    )
}

/// Reaching one weight further adds that weight, and nothing beyond the end.
pub proof fn lemma_reach_step(level: Seq<u64>, j: int)
    requires
        0 <= j,
    ensures
        reach(level, j + 1) == reach(level, j) + at_or_zero(level, j),
        0 <= reach(level, j) <= reach(level, j + 1) <= total(level),
        reach(level, 0) == 0,
{
    if j < level.len() {
        lemma_weight_within_total(level, j);
    } else {
        lemma_prefix_monotone(level, 0, level.len() as int);
    }
}

/// A partial sum of the coarser level is the partial sum over twice as many weights of the
/// finer one.
pub proof fn lemma_halve_reach(level: Seq<u64>, i: int)
    requires
        0 <= i,
        total(level) <= u64::MAX,
    ensures
        reach(halve(level), i) == reach(level, 2 * i),
    decreases i,
{
    let coarse = halve(level);
    if i > 0 {
        lemma_halve_reach(level, i - 1);
        lemma_reach_step(coarse, i - 1);
        lemma_reach_step(level, 2 * i - 2);
        lemma_reach_step(level, 2 * i - 1);
        if i - 1 < coarse.len() {
            assert(coarse[i - 1] == at_or_zero(level, 2 * (i - 1)) + at_or_zero(
                level,
                2 * (i - 1) + 1,
            ));
        } else {
            assert(2 * i - 2 >= level.len());
        }
    }
}

/// Both levels have the same integral.
pub proof fn lemma_halve_total(level: Seq<u64>)
    requires
        total(level) <= u64::MAX,
    ensures
        total(halve(level)) == total(level),
{
    let coarse = halve(level);
    lemma_halve_reach(level, coarse.len() as int);
}

/// Level `k` has more than two weights, and the level above it is its halving.
pub open spec fn linked(levels: Seq<Seq<u64>>, k: int) -> bool {
    levels[k].len() > 2 && levels[k - 1] == halve(levels[k])
}

/// The levels from the root down are each the halving of the next, only the root has at
/// most two weights, and the integral fits in 64 bits.
pub open spec fn pyramid_wf(levels: Seq<Seq<u64>>) -> bool {
    &&& levels.len() >= 1
    &&& 1 <= levels[0].len() <= 2
    &&& total(levels.last()) <= u64::MAX
    &&& forall|k: int| 1 <= k < levels.len() ==> #[trigger] linked(levels, k)
}

/// Every level of a pyramid has the integral of the finest one.
pub proof fn lemma_level_total(levels: Seq<Seq<u64>>, k: int)
    requires
        pyramid_wf(levels),
        0 <= k < levels.len(),
    ensures
        total(levels[k]) == total(levels.last()),
    decreases levels.len() - k,
{
    if k < levels.len() - 1 {
        lemma_level_total(levels, k + 1);
        assert(linked(levels, k + 1));
        lemma_halve_total(levels[k + 1]);
    }
}

/// Going one level down doubles the index at which a partial sum is reached.
pub proof fn lemma_level_reach(levels: Seq<Seq<u64>>, k: int, i: int)
    requires
        pyramid_wf(levels),
        1 <= k < levels.len(),
        0 <= i,
    ensures
        reach(levels[k - 1], i) == reach(levels[k], 2 * i),
{
    lemma_level_total(levels, k);
    assert(linked(levels, k));
    lemma_halve_reach(levels[k], i);
}

} // verus!
