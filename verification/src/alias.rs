//! Alias tables: constant-time sampling after a linear-time build.
//!
//! The unit interval is cut into as many slots of equal length as there are weights. Each slot
//! keeps the first part of its length for its own index and hands the rest to one other index,
//! its alias. One slot is worth `weight_sum` units, so that every share is a whole number.

use vstd::prelude::*;
use crate::adapter2d::{fair_at, step_outcome};
use crate::sums::lemma_hits_agree;
use crate::distribution::{base_rejects, lemma_base_accepted, measure, BuildError, Discrete1D};
use crate::ratio::{Frac, Ratio};
use crate::arith::{lemma_div_unique, lemma_mul_le, lemma_mul_lt};
use crate::sums::{
    hits, sum_to, lemma_hits_interval, lemma_hits_split, lemma_sum_add, lemma_sum_agree,
    lemma_sum_nonneg, lemma_sum_single, lemma_sum_update, lemma_sum_zero_nonneg,
    lemma_sum_zero_nonpos, lemma_sum_zeros,
};
use crate::weights::{prefix_sum, total, lemma_cell, lemma_weight_within_total};
use crate::worklist::{
    distinct, listed, lemma_distinct_pop, lemma_distinct_push, lemma_listed_pop, lemma_listed_push,
};

verus! {

/// One slot of an alias table.
#[derive(Clone, Copy, Debug)]
pub struct Entry {
    /// The part of the slot that stays with its own index, out of `weight_sum`.
    pub select: u64,
    /// The index that gets the rest of the slot.
    pub alias: u32,
}

/// An alias table over integer weights.
pub struct Alias1D {
    weight_sum: u64,
    entries: Vec<Entry>,
}

/// What each slot hands to index `i`, counting only the slots marked in `done`.
pub open spec fn given(table: Seq<Entry>, done: Seq<bool>, sum: int, i: int) -> Seq<int> {
    Seq::new(
        table.len(),
        |j: int|
            if done[j] && table[j].alias == i {
                sum - table[j].select
            } else {
                0
            },
    )
}

/// The slots that hand a part of their length to their alias.
pub open spec fn sharing(table: Seq<Entry>, sum: int) -> Seq<bool> {
    Seq::new(table.len(), |j: int| table[j].select < sum)
}

/// The length that falls to index `i`: what its own slot keeps and what other slots hand to it.
pub open spec fn mass(table: Seq<Entry>, sum: int, i: int) -> int {
    table[i].select + sum_to(given(table, sharing(table, sum), sum, i), table.len() as int)
}

/// By how much each slot that is not yet marked in `done` differs from a whole slot.
pub open spec fn excess(table: Seq<Entry>, done: Seq<bool>, sum: int) -> Seq<int> {
    Seq::new(
        table.len(),
        |j: int|
            if done[j] {
                0
            } else {
                table[j].select - sum
            },
    )
}

/// Every index has `n` times its weight, in what its slot holds and what it was handed.
pub open spec fn balanced(table: Seq<Entry>, done: Seq<bool>, sum: int, w: Seq<u64>) -> bool {
    forall|i: int|
        0 <= i < table.len() ==> (#[trigger] table[i]).select + sum_to(
            given(table, done, sum, i),
            table.len() as int,
        ) == table.len() * w[i]
}

/// The slots that are not yet marked hold exactly one slot each, taken together.
pub open spec fn conserved(table: Seq<Entry>, done: Seq<bool>, sum: int) -> bool {
    sum_to(excess(table, done, sum), table.len() as int) == 0
}

/// Before any slot is paired, each holds `n` times its weight and nothing was handed on.
pub proof fn lemma_initial(table: Seq<Entry>, done: Seq<bool>, sum: int, w: Seq<u64>)
    requires
        table.len() == w.len(),
        done.len() == w.len(),
        sum == total(w),
        forall|j: int| 0 <= j < w.len() ==> !done[j],
        forall|j: int| 0 <= j < w.len() ==> (#[trigger] table[j]).select == w.len() * w[j],
    ensures
        balanced(table, done, sum, w),
        conserved(table, done, sum),
{
    let n = w.len() as int;
    assert forall|i: int| 0 <= i < n implies (#[trigger] table[i]).select + sum_to(
        given(table, done, sum, i),
        n,
    ) == n * w[i] by {
        lemma_sum_zeros(given(table, done, sum, i), n);
    }
    lemma_initial_excess(table, done, sum, w, n);
    assert(n * prefix_sum(w, n) - n * sum == 0) by (nonlinear_arith)
        requires
            prefix_sum(w, n) == sum,
    ;
}

proof fn lemma_initial_excess(table: Seq<Entry>, done: Seq<bool>, sum: int, w: Seq<u64>, k: int)
    requires
        table.len() == w.len(),
        done.len() == w.len(),
        0 <= k <= w.len(),
        forall|j: int| 0 <= j < w.len() ==> !done[j],
        forall|j: int| 0 <= j < w.len() ==> (#[trigger] table[j]).select == w.len() * w[j],
    ensures
        sum_to(excess(table, done, sum), k) == w.len() * prefix_sum(w, k) - k * sum,
    decreases k,
{
    if k > 0 {
        lemma_initial_excess(table, done, sum, w, k - 1);
        let n = w.len() as int;
        assert(excess(table, done, sum)[k - 1] == table[k - 1].select - sum);
        assert(table[k - 1].select == n * w[k - 1]);
        assert(k * sum == (k - 1) * sum + sum) by (nonlinear_arith);
        assert(n * prefix_sum(w, k) == n * prefix_sum(w, k - 1) + n * w[k - 1])
            by (nonlinear_arith)
            requires
                prefix_sum(w, k) == prefix_sum(w, k - 1) + w[k - 1],
        ;
    }
}

/// Pairing a slot that holds less than a whole slot with one that holds at least a whole slot
/// keeps the table balanced and conserved: the first is filled up from the second.
pub proof fn lemma_pair(
    before: Seq<Entry>,
    after: Seq<Entry>,
    done: Seq<bool>,
    sum: int,
    w: Seq<u64>,
    less: int,
    more: int,
)
    requires
        before.len() == w.len(),
        after.len() == w.len(),
        done.len() == w.len(),
        0 <= less < w.len(),
        0 <= more < w.len(),
        less != more,
        !done[less],
        !done[more],
        after[less].select == before[less].select,
        after[less].alias == more,
        after[more].select == before[more].select + before[less].select - sum,
        forall|j: int| 0 <= j < w.len() && j != less && j != more ==> after[j] == before[j],
        balanced(before, done, sum, w),
        conserved(before, done, sum),
    ensures
        balanced(after, done.update(less, true), sum, w),
        conserved(after, done.update(less, true), sum),
{
    let n = w.len() as int;
    let marked = done.update(less, true);
    assert forall|i: int| 0 <= i < n implies (#[trigger] after[i]).select + sum_to(
        given(after, marked, sum, i),
        n,
    ) == n * w[i] by {
        let old_given = given(before, done, sum, i);
        let share = if more == i {
            sum - before[less].select
        } else {
            0
        };
        lemma_sum_update(old_given, less, share, n);
        lemma_sum_agree(old_given.update(less, share), given(after, marked, sum, i), n);
        assert(before[i].select + sum_to(old_given, n) == n * w[i]);
    }
    let old_excess = excess(before, done, sum);
    let step = old_excess.update(less, 0);
    lemma_sum_update(old_excess, less, 0, n);
    lemma_sum_update(step, more, after[more].select - sum, n);
    lemma_sum_agree(step.update(more, after[more].select - sum), excess(after, marked, sum), n);
}

/// Once no slot that holds less than a whole slot is left to pair, or none that holds at least
/// one, every slot that was never filled up holds exactly a whole slot.
pub proof fn lemma_leftover(table: Seq<Entry>, done: Seq<bool>, sum: int, all_less: bool)
    requires
        done.len() == table.len(),
        conserved(table, done, sum),
        all_less ==> forall|j: int|
            0 <= j < table.len() && !done[j] ==> (#[trigger] table[j]).select < sum,
        !all_less ==> forall|j: int|
            0 <= j < table.len() && !done[j] ==> (#[trigger] table[j]).select >= sum,
    ensures
        forall|j: int| 0 <= j < table.len() && !done[j] ==> (#[trigger] table[j]).select == sum,
{
    let n = table.len() as int;
    let e = excess(table, done, sum);
    if all_less {
        assert forall|j: int| 0 <= j < n implies e[j] <= 0 by {
            if !done[j] {
                assert(table[j].select < sum);
            }
        }
        lemma_sum_zero_nonpos(e, n);
    } else {
        assert forall|j: int| 0 <= j < n implies e[j] >= 0 by {
            if !done[j] {
                assert(table[j].select >= sum);
            }
        }
        lemma_sum_zero_nonneg(e, n);
    }
    assert forall|j: int| 0 <= j < n && !done[j] implies (#[trigger] table[j]).select == sum by {
        assert(e[j] == 0);
    }
}

impl Alias1D {
    /// The slots of the table.
    pub closed spec fn table(&self) -> Seq<Entry> {
        self.entries@
    }

    /// The length of one slot, which is the sum of the weights.
    pub closed spec fn slot(&self) -> int {
        self.weight_sum as int
    }

    /// Slot `i` of the table.
    pub fn entry(&self, i: usize) -> (r: Entry)
        requires
            i < self.table().len(),
        ensures
            r == self.table()[i as int],
    {
        self.entries[i]
    }
}

/// The table is consistent: each slot keeps at most its length and names an alias in range,
/// and the length that falls to each index is a whole multiple of the number of slots.
pub open spec fn table_wf(table: Seq<Entry>, sum: int) -> bool {
    &&& 1 <= table.len() < u32::MAX
    &&& 0 < sum
    &&& table.len() * sum <= u64::MAX
    &&& forall|j: int|
        0 <= j < table.len() ==> (#[trigger] table[j]).select <= sum && table[j].alias
            < table.len()
    &&& forall|i: int|
        0 <= i < table.len() ==> #[trigger] mass(table, sum, i) == table.len() * table_weights(
            table,
            sum,
        )[i]
    &&& total(table_weights(table, sum)) == sum
}

/// The weights that a table stands for: the length that falls to each index, divided by the
/// number of slots.
pub open spec fn table_weights(table: Seq<Entry>, sum: int) -> Seq<u64> {
    Seq::new(table.len(), |i: int| (mass(table, sum, i) / (table.len() as int)) as u64)
}

/// The index that a table gives to `u`: the slot that `u` falls into, or its alias where `u`
/// lies at or after the part that the slot keeps.
pub open spec fn table_outcome(table: Seq<Entry>, sum: int, u: Frac) -> int {
    let scaled = table.len() * u.num;
    let slot = scaled / u.den;
    let rest = scaled % u.den;
    if table[slot].select * u.den <= rest * sum {
        table[slot].alias as int
    } else {
        slot
    }
}

/// What a slot hands to an index is never negative, and the index holds at least that much.
pub proof fn lemma_mass_bounds(table: Seq<Entry>, sum: int, i: int, j: int)
    requires
        0 <= i < table.len(),
        0 <= j < table.len(),
        forall|k: int| 0 <= k < table.len() ==> (#[trigger] table[k]).select <= sum,
    ensures
        mass(table, sum, i) >= table[i].select,
        table[j].select < sum && table[j].alias == i ==> mass(table, sum, i) >= sum
            - table[j].select,
{
    let g = given(table, sharing(table, sum), sum, i);
    assert forall|k: int| 0 <= k < table.len() implies g[k] >= 0 by {
        assert(table[k].select <= sum);
    }
    lemma_sum_nonneg(g, 0, table.len() as int);
    if table[j].select < sum && table[j].alias == i {
        assert(g[j] == sum - table[j].select);
        assert(g[j] <= sum_to(g, table.len() as int));
    }
}

/// What pairing leaves as it found it: a slot that starts with less than a whole slot is only
/// ever filled up, so it keeps what it started with, `n` times its weight; a slot is only ever
/// filled up from one that started with at least a whole slot; and where no slot starts with
/// less, nothing is paired and every slot is exactly whole.
pub open spec fn pairing_kept(table: Seq<Entry>, sum: int, w: Seq<u64>) -> bool {
    &&& forall|j: int|
        0 <= j < table.len() && table.len() * w[j] < sum ==> (#[trigger] table[j]).select
            == table.len() * w[j]
    &&& forall|j: int|
        0 <= j < table.len() && (#[trigger] table[j]).select < sum ==> table.len()
            * w[table[j].alias as int] >= sum
    &&& !starts_short(table.len() as int, sum, w) ==> forall|j: int|
        0 <= j < table.len() ==> (#[trigger] table[j]).select == sum
}

/// Some slot starts with less than a whole slot.
pub open spec fn starts_short(n: int, sum: int, w: Seq<u64>) -> bool {
    exists|i: int| 0 <= i < n && n * #[trigger] w[i] < sum
}

/// When either list has run out, the table is consistent and stands for the weights it was
/// built from.
pub proof fn lemma_finish(
    t: Seq<Entry>,
    done: Seq<bool>,
    s: int,
    w: Seq<u64>,
    small: Seq<u32>,
    large: Seq<u32>,
)
    requires
        t.len() == w.len(),
        done.len() == w.len(),
        1 <= w.len() < u32::MAX,
        s == total(w),
        0 < s,
        w.len() * s <= u64::MAX,
        small.len() == 0 || large.len() == 0,
        forall|j: int| 0 <= j < t.len() ==> (#[trigger] t[j]).alias < t.len(),
        forall|j: int| 0 <= j < t.len() && done[j] ==> (#[trigger] t[j]).select < s,
        forall|j: int|
            0 <= j < t.len() && !done[j] ==> if (#[trigger] t[j]).select < s {
                listed(small, j)
            } else {
                listed(large, j)
            },
        balanced(t, done, s, w),
        conserved(t, done, s),
    ensures
        table_wf(t, s),
        table_weights(t, s) == w,
        done == sharing(t, s),
{
    let n = w.len() as int;
    let all_less = large.len() == 0;
    assert forall|j: int| 0 <= j < n && !done[j] implies if all_less {
        (#[trigger] t[j]).select < s
    } else {
        t[j].select >= s
    } by {
        if all_less {
            if t[j].select >= s {
                assert(listed(large, j));
            }
        } else {
            if t[j].select < s {
                assert(listed(small, j));
            }
        }
    }
    lemma_leftover(t, done, s, all_less);
    assert(done =~= sharing(t, s));
    assert forall|i: int| 0 <= i < n implies #[trigger] mass(t, s, i) == n * w[i] by {
        assert(t[i].select + sum_to(given(t, done, s, i), n as int) == n * w[i]);
    }
    assert forall|i: int| 0 <= i < n implies table_weights(t, s)[i] == w[i] by {
        assert(mass(t, s, i) == n * w[i]);
        lemma_div_unique(n * w[i], n as int, w[i] as int, 0);
        assert(n * w[i] == w[i] * n) by (nonlinear_arith);
    }
    assert(table_weights(t, s) =~= w);
}

/// Sampling from a consistent table stays in range and never gives an index whose weight
/// is zero.
pub proof fn lemma_table_outcome(table: Seq<Entry>, sum: int, u: Frac)
    requires
        table_wf(table, sum),
        u.is_unit(),
    ensures
        0 <= table_outcome(table, sum, u) < table.len(),
        table_weights(table, sum)[table_outcome(table, sum, u)] > 0,
{
    let n = table.len() as int;
    lemma_cell(n, u);
    let slot = (n * u.num) / u.den;
    let rest = (n * u.num) % u.den;
    let out = table_outcome(table, sum, u);
    assert(table[slot].alias < n);
    lemma_mass_bounds(table, sum, out, slot);
    assert(mass(table, sum, out) == n * table_weights(table, sum)[out]);
    if table[slot].select * u.den <= rest * sum {
        lemma_mul_lt(rest, u.den, sum);
        assert(table[slot].select < sum) by (nonlinear_arith)
            requires
                table[slot].select * u.den <= rest * sum,
                rest * sum < u.den * sum,
                u.den > 0,
        ;
    } else {
        lemma_mul_le(0, rest, 0, sum);
        assert(table[slot].select > 0) by (nonlinear_arith)
            requires
                table[slot].select * u.den > rest * sum,
                rest * sum >= 0,
                u.den > 0,
                table[slot].select >= 0,
        ;
    }
    assert(table_weights(table, sum)[out] > 0) by (nonlinear_arith)
        requires
            mass(table, sum, out) == n * table_weights(table, sum)[out],
            mass(table, sum, out) > 0,
            n > 0,
    ;
}

/// Of the `sum` equally spaced numbers of slot `j`, the first `select` stay with the slot's
/// index and the others go to its alias. Counted over all slots, each index gets as many
/// numbers as `mass` says: `n` times its weight out of `n` times the integral.
pub proof fn lemma_table_share(table: Seq<Entry>, sum: int, j: int, t: int)
    requires
        table_wf(table, sum),
        0 <= j < table.len(),
        0 <= t < sum,
    ensures
        table_outcome(table, sum, Frac { num: j * sum + t, den: table.len() * sum }) == if t
            < table[j].select {
            j
        } else {
            table[j].alias as int
        },
{
    let n = table.len() as int;
    let den = n * sum;
    let num = j * sum + t;
    assert(n * num == j * den + n * t && 0 <= n * t < den) by (nonlinear_arith)
        requires
            num == j * sum + t,
            den == n * sum,
            0 <= t < sum,
            n >= 1,
    ;
    lemma_div_unique(n * num, den, j, n * t);
    let select = table[j].select as int;
    assert((select * den <= (n * t) * sum) == (select <= t)) by (nonlinear_arith)
        requires
            den == n * sum,
            n >= 1,
            sum > 0,
    ;
}

/// The index that a table gives to the `t`-th of `count` equally spaced numbers of the unit
/// interval.
pub open spec fn outcome_of_step(table: Seq<Entry>, sum: int, count: int) -> spec_fn(int) -> int {
    |t: int| table_outcome(table, sum, Frac { num: t, den: count })
}

/// What slot `j` gives to index `i`, of the `sum` equally spaced numbers that fall into it.
pub open spec fn slot_gives(table: Seq<Entry>, sum: int, i: int) -> Seq<int> {
    Seq::new(
        table.len(),
        |j: int|
            (if j == i {
                table[j].select as int
            } else {
                0
            }) + if table[j].alias == i {
                sum - table[j].select
            } else {
                0
            },
    )
}

proof fn lemma_slot_hits(table: Seq<Entry>, sum: int, i: int, j: int)
    requires
        table_wf(table, sum),
        0 <= j < table.len(),
    ensures
        hits(outcome_of_step(table, sum, table.len() * sum), i, (j + 1) * sum) == hits(
            outcome_of_step(table, sum, table.len() * sum),
            i,
            j * sum,
        ) + slot_gives(table, sum, i)[j],
{
    let n = table.len() as int;
    let f = outcome_of_step(table, sum, n * sum);
    let select = table[j].select as int;
    let alias = table[j].alias as int;
    let within = |r: int|
        if r < select {
            j
        } else {
            alias
        };
    assert forall|r: int| 0 <= r < sum implies #[trigger] within(r) == f(j * sum + r) by {
        lemma_table_share(table, sum, j, r);
    }
    assert(0 <= j * sum && (j + 1) * sum == j * sum + sum) by (nonlinear_arith)
        requires
            j >= 0,
            sum > 0,
    ;
    lemma_hits_split(f, within, i, j * sum, sum);
    if j == i && alias == i {
        assert forall|r: int| 0 <= r < sum implies (#[trigger] within(r) == i <==> 0 <= r
            < sum) by {}
        lemma_hits_interval(within, i, 0, sum, sum);
    } else if j == i {
        assert forall|r: int| 0 <= r < sum implies (#[trigger] within(r) == i <==> 0 <= r
            < select) by {}
        lemma_hits_interval(within, i, 0, select, sum);
    } else if alias == i {
        assert forall|r: int| 0 <= r < sum implies (#[trigger] within(r) == i <==> select <= r
            < sum) by {}
        lemma_hits_interval(within, i, select, sum, sum);
    } else {
        assert forall|r: int| 0 <= r < sum implies (#[trigger] within(r) == i <==> 0 <= r < 0) by {}
        lemma_hits_interval(within, i, 0, 0, sum);
    }
}

proof fn lemma_slots_hits(table: Seq<Entry>, sum: int, i: int, j: int)
    requires
        table_wf(table, sum),
        0 <= j <= table.len(),
    ensures
        hits(outcome_of_step(table, sum, table.len() * sum), i, j * sum) == sum_to(
            slot_gives(table, sum, i),
            j,
        ),
    decreases j,
{
    if j > 0 {
        lemma_slots_hits(table, sum, i, j - 1);
        lemma_slot_hits(table, sum, i, j - 1);
    } else {
        assert(0 * sum == 0);
    }
}

/// Drawing once with each of `n` times the integral equally spaced numbers hits every index
/// exactly `n` times as often as its weight says.
pub proof fn lemma_table_hits(table: Seq<Entry>, sum: int, i: int)
    requires
        table_wf(table, sum),
        0 <= i < table.len(),
    ensures
        hits(outcome_of_step(table, sum, table.len() * sum), i, table.len() * sum) == table.len()
            * table_weights(table, sum)[i],
{
    let n = table.len() as int;
    lemma_slots_hits(table, sum, i, n);
    let gives = slot_gives(table, sum, i);
    let own = Seq::new(
        table.len(),
        |j: int|
            if j == i {
                table[j].select as int
            } else {
                0
            },
    );
    let handed = given(table, sharing(table, sum), sum, i);
    assert forall|j: int| 0 <= j < n implies gives[j] == own[j] + handed[j] by {
        assert(table[j].select <= sum);
    }
    lemma_sum_add(own, handed, gives, n);
    lemma_sum_single(own, i, n);
    assert(mass(table, sum, i) == n * table_weights(table, sum)[i]);
}

impl Discrete1D for Alias1D {
    open spec fn wf(&self) -> bool {
        table_wf(self.table(), self.slot())
    }

    open spec fn weights(&self) -> Seq<u64> {
        table_weights(self.table(), self.slot())
    }

    open spec fn rejects(weights: Seq<u64>) -> Option<BuildError> {
        if weights.len() == 0 {
            Some(BuildError::Empty)
        } else if weights.len() >= u32::MAX {
            Some(BuildError::TooManyEntries)
        } else {
            base_rejects(weights)
        }
    }

    open spec fn outcome(&self, u: Frac) -> int {
        table_outcome(self.table(), self.slot(), u)
    }

    proof fn lemma_accepted(&self) {
        lemma_base_accepted(self.weights());
    }

    proof fn lemma_outcome(&self, u: Frac) {
        lemma_table_outcome(self.table(), self.slot(), u);
    }

    /// Pairs the slots by Vose's method.
    ///
    /// Each slot starts with `n` times its weight. A slot that holds less than `weight_sum` is
    /// filled up by one that holds at least as much, which becomes its alias and keeps the
    /// difference. The weights are integers, so nothing is lost on the way: when either list
    /// runs out the other holds only slots that are exactly full.
    fn build(weights: &[u64]) -> (r: Result<Self, BuildError>)
        ensures
            r matches Ok(d) ==> pairing_kept(d.table(), d.slot(), weights@),
    {
        let n: usize = weights.len();
        if n == 0 {
            return Err(BuildError::Empty);
        }
        if n >= u32::MAX as usize {
            return Err(BuildError::TooManyEntries);
        }
        let sum: u64 = match measure(weights) {
            Ok(s) => s,
            Err(e) => {
                return Err(e);
            },
        };
        let ghost w = weights@;
        let mut entries: Vec<Entry> = Vec::new();
        let mut small: Vec<u32> = Vec::new();
        let mut large: Vec<u32> = Vec::new();
        let mut i: usize = 0;
        while i < n
            invariant
                w == weights@,
                n == w.len(),
                1 <= n < u32::MAX,
                sum == total(w),
                0 < sum,
                n * sum <= u64::MAX,
                i <= n,
                entries@.len() == i,
                forall|j: int| 0 <= j < i ==> (#[trigger] entries@[j]).select == n * w[j],
                forall|j: int| 0 <= j < i ==> (#[trigger] entries@[j]).alias == 0,
                forall|k: int|
                    0 <= k < small@.len() ==> (#[trigger] small@[k]) < i && entries@[small@[k] as int].select
                        < sum,
                forall|k: int|
                    0 <= k < large@.len() ==> (#[trigger] large@[k]) < i && entries@[large@[k] as int].select
                        >= sum,
                distinct(small@),
                distinct(large@),
                forall|j: int|
                    0 <= j < i ==> if (#[trigger] entries@[j]).select < sum {
                        listed(small@, j)
                    } else {
                        listed(large@, j)
                    },
            decreases n - i,
        {
            proof {
                lemma_weight_within_total(w, i as int);
                lemma_mul_le(w[i as int] as int, sum as int, n as int, n as int);
                assert(sum * n == n * sum) by (nonlinear_arith);
                assert(w[i as int] * n == n * w[i as int]) by (nonlinear_arith);
            }
            let adjusted: u64 = weights[i] * (n as u64);
            entries.push(Entry { select: adjusted, alias: 0 });
            let ghost old_small = small@;
            let ghost old_large = large@;
            if adjusted < sum {
                small.push(i as u32);
                proof {
                    lemma_listed_push(old_small, i as u32);
                    if listed(old_small, i as int) {
                        let k = choose|k: int|
                            0 <= k < old_small.len() && #[trigger] old_small[k] == i as int;
                        assert(old_small[k] < i);
                    }
                    lemma_distinct_push(old_small, i as u32);
                }
            } else {
                large.push(i as u32);
                proof {
                    lemma_listed_push(old_large, i as u32);
                    if listed(old_large, i as int) {
                        let k = choose|k: int|
                            0 <= k < old_large.len() && #[trigger] old_large[k] == i as int;
                        assert(old_large[k] < i);
                    }
                    lemma_distinct_push(old_large, i as u32);
                }
            }
            i = i + 1;
        }
        let ghost mut done: Seq<bool> = Seq::new(n as nat, |j: int| false);
        proof {
            lemma_initial(entries@, done, sum as int, w);
            assert forall|j: int| 0 <= j < n implies (#[trigger] entries@[j]).select <= n * sum by {
                lemma_weight_within_total(w, j);
                lemma_mul_le(n as int, n as int, w[j] as int, sum as int);
            }
        }
        while small.len() > 0 && large.len() > 0
            invariant
                w == weights@,
                n == w.len(),
                1 <= n < u32::MAX,
                sum == total(w),
                0 < sum,
                n * sum <= u64::MAX,
                entries@.len() == n,
                done.len() == n,
                forall|j: int| 0 <= j < n ==> (#[trigger] entries@[j]).alias < n,
                forall|j: int| 0 <= j < n ==> (#[trigger] entries@[j]).select <= n * sum,
                forall|j: int| 0 <= j < n ==> (#[trigger] entries@[j]).select <= n * w[j],
                forall|j: int|
                    0 <= j < n && n * w[j] < sum ==> (#[trigger] entries@[j]).select == n * w[j],
                starts_short(n as int, sum as int, w) || forall|j: int|
                    0 <= j < n ==> (#[trigger] entries@[j]).select == n * w[j],
                forall|j: int| 0 <= j < n && done[j] ==> (#[trigger] entries@[j]).select < sum,
                forall|j: int|
                    0 <= j < n && done[j] ==> n * w[(#[trigger] entries@[j]).alias as int] >= sum,
                forall|k: int|
                    0 <= k < small@.len() ==> (#[trigger] small@[k]) < n && !done[small@[k] as int]
                        && entries@[small@[k] as int].select < sum,
                forall|k: int|
                    0 <= k < large@.len() ==> (#[trigger] large@[k]) < n && !done[large@[k] as int]
                        && entries@[large@[k] as int].select >= sum,
                distinct(small@),
                distinct(large@),
                forall|j: int|
                    0 <= j < n && !done[j] ==> if (#[trigger] entries@[j]).select < sum {
                        listed(small@, j)
                    } else {
                        listed(large@, j)
                    },
                balanced(entries@, done, sum as int, w),
                conserved(entries@, done, sum as int),
            decreases small@.len() + large@.len(),
        {
            let ghost old_small = small@;
            let ghost old_large = large@;
            let ghost before = entries@;
            let ghost old_done = done;
            proof {
                lemma_listed_pop(old_small);
                lemma_listed_pop(old_large);
                lemma_distinct_pop(old_small);
                lemma_distinct_pop(old_large);
            }
            let less: u32 = small.pop().unwrap();
            let more: u32 = large.pop().unwrap();
            assert(less == old_small[old_small.len() - 1]);
            assert(more == old_large[old_large.len() - 1]);
            proof {
                if before[less as int].select == n * w[less as int] {
                    assert(n * w[less as int] < sum);
                }
                assert(starts_short(n as int, sum as int, w));
            }
            let less_entry: Entry = entries[less as usize];
            let more_entry: Entry = entries[more as usize];
            entries[less as usize] = Entry { select: less_entry.select, alias: more };
            let filled: u128 = (more_entry.select as u128) + (less_entry.select as u128) - (
            sum as u128);
            entries[more as usize] = Entry { select: filled as u64, alias: more_entry.alias };
            proof {
                done = done.update(less as int, true);
                lemma_pair(before, entries@, old_done, sum as int, w, less as int, more as int);
            }
            let ghost mid_small = small@;
            let ghost mid_large = large@;
            if (filled as u64) < sum {
                small.push(more);
                proof {
                    lemma_listed_push(mid_small, more);
                    if listed(mid_small, more as int) {
                        let k = choose|k: int|
                            0 <= k < mid_small.len() && #[trigger] mid_small[k] == more as int;
                        assert(before[old_small[k] as int].select < sum);
                    }
                    lemma_distinct_push(mid_small, more);
                }
            } else {
                large.push(more);
                proof {
                    lemma_listed_push(mid_large, more);
                    lemma_distinct_push(mid_large, more);
                }
            }
            proof {
                assert forall|k: int| 0 <= k < small@.len() implies (#[trigger] small@[k]) < n
                    && !done[small@[k] as int] && entries@[small@[k] as int].select < sum by {
                    if k < mid_small.len() {
                        assert(small@[k] == old_small[k]);
                        assert(old_small[k] != less) by {
                            if old_small[k] == less {
                                assert(listed(mid_small, less as int));
                            }
                        }
                        assert(before[old_small[k] as int].select < sum);
                    }
                }
                assert forall|k: int| 0 <= k < large@.len() implies (#[trigger] large@[k]) < n
                    && !done[large@[k] as int] && entries@[large@[k] as int].select >= sum by {
                    if k < mid_large.len() {
                        assert(large@[k] == old_large[k]);
                        assert(old_large[k] != more) by {
                            if old_large[k] == more {
                                assert(listed(mid_large, more as int));
                            }
                        }
                        assert(before[old_large[k] as int].select >= sum);
                    }
                }
                assert forall|j: int| 0 <= j < n && !done[j] implies if (
                #[trigger] entries@[j]).select < sum {
                    listed(small@, j)
                } else {
                    listed(large@, j)
                } by {
                    if j != more {
                        assert(entries@[j] == before[j]);
                        assert(!old_done[j]);
                        if before[j].select < sum {
                            assert(listed(old_small, j));
                            assert(listed(mid_small, j));
                        } else {
                            assert(listed(old_large, j));
                            assert(listed(mid_large, j));
                        }
                    }
                }
            }
        }
        let table = Alias1D { weight_sum: sum, entries };
        proof {
            lemma_finish(table.table(), done, sum as int, w, small@, large@);
            assert forall|j: int|
                0 <= j < n && (#[trigger] table.table()[j]).select < sum implies n * w[table.table()[j].alias as int]
                >= sum by {
                assert(done[j]);
            }
            if !starts_short(n as int, sum as int, w) {
                assert forall|j: int| 0 <= j < n implies (#[trigger] table.table()[j]).select
                    == sum by {
                    assert(!(n * w[j] < sum));
                }
            }
        }
        Ok(table)
    }

    fn sample(&self, u: Ratio) -> (r: usize) {
        proof {
            self.lemma_outcome(u@);
            lemma_cell(self.table().len() as int, u@);
        }
        let n: usize = self.entries.len();
        proof {
            lemma_mul_le(n as int, u64::MAX as int, u.num as int, u64::MAX as int);
        }
        let scaled: u128 = (n as u128) * u.num;
        let slot: u128 = scaled / u.den;
        let rest: u128 = scaled % u.den;
        let entry: Entry = self.entries[slot as usize];
        proof {
            lemma_mul_le(entry.select as int, u64::MAX as int, u.den as int, u64::MAX as int);
            lemma_mul_le(rest as int, u64::MAX as int, self.weight_sum as int, u64::MAX as int);
        }
        if (entry.select as u128) * u.den <= rest * (self.weight_sum as u128) {
            entry.alias as usize
        } else {
            slot as usize
        }
    }

    /// The weight of index `u`, recovered from the table: what its slot keeps and what the
    /// other slots hand to it, divided by the number of slots.
    fn pdf(&self, u: usize) -> (r: u64) {
        let n: usize = self.entries.len();
        let ghost table = self.table();
        let ghost sum = self.slot();
        let ghost g = given(table, sharing(table, sum), sum, u as int);
        proof {
            assert forall|k: int| 0 <= k < n implies g[k] >= 0 by {
                assert(table[k].select <= sum);
            }
            lemma_sum_nonneg(g, 0, n as int);
            assert(mass(table, sum, u as int) == n * self.weights()[u as int]);
            lemma_weight_within_total(self.weights(), u as int);
            lemma_mul_le(n as int, n as int, self.weights()[u as int] as int, sum);
        }
        let mut handed: u64 = 0;
        let mut j: usize = 0;
        while j < n
            invariant
                n == table.len(),
                table == self.entries@,
                sum == self.weight_sum,
                j <= n,
                g == given(table, sharing(table, sum), sum, u as int),
                forall|k: int| 0 <= k < n ==> g[k] >= 0,
                handed == sum_to(g, j as int),
                sum_to(g, n as int) <= u64::MAX,
            decreases n - j,
        {
            proof {
                lemma_sum_nonneg(g, j as int + 1, n as int);
            }
            let entry: Entry = self.entries[j];
            if entry.select < self.weight_sum && entry.alias as usize == u {
                handed = handed + (self.weight_sum - entry.select);
            }
            j = j + 1;
        }
        let whole: u64 = self.entries[u].select + handed;
        proof {
            lemma_div_unique(whole as int, n as int, self.weights()[u as int] as int, 0);
            assert(n * self.weights()[u as int] == self.weights()[u as int] * n)
                by (nonlinear_arith);
        }
        whole / (n as u64)
    }

    fn integral(&self) -> (r: u64) {
        self.weight_sum
    }

    fn size(&self) -> (r: usize) {
        self.entries.len()
    }
}

impl Alias1D {
    /// Drawing once with each of `n` times the integral equally spaced numbers hits every
    /// index exactly `n` times as often as its weight says.
    pub proof fn lemma_fair(&self)
        requires
            self.wf(),
        ensures
            fair_at(*self, self.weights().len() * total(self.weights())),
    {
        self.lemma_accepted();
        let w = self.weights();
        let s = total(w);
        let n = w.len() as int;
        let table = self.table();
        assert(table.len() == n);
        assert(self.slot() == s);
        assert forall|i: int| 0 <= i < w.len() implies #[trigger] hits(
            step_outcome(*self, n * s),
            i,
            n * s,
        ) * s == (n * s) * w[i] by {
            lemma_hits_agree(
                step_outcome(*self, n * s),
                outcome_of_step(table, s, n * s),
                i,
                i,
                n * s,
            );
            lemma_table_hits(table, s, i);
            assert((n * w[i]) * s == (n * s) * w[i]) by (nonlinear_arith);
        }
    }
}

/// A distribution over a grid that uses an alias table for the rows and for each row.
pub type Alias2D = crate::adapter2d::Adapter2D<Alias1D>;

} // verus!
