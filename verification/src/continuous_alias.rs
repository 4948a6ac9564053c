//! Alias tables that also map the unit interval onto itself.
//!
//! Besides the part that a slot keeps and the alias that gets the rest, each slot records
//! where in the cell of the index the two parts land: the part that stays fills the cell of
//! its own index from the bottom, the part that is handed on fills a region of the alias's
//! cell. Regions are measured in the units of the slots, in which the cell of an index is `n`
//! times its weight long.

use vstd::prelude::*;
use crate::adapter2d::{fair_at, step_outcome};
use crate::alias::{outcome_of_step, lemma_table_hits};
use crate::sums::{hits, lemma_hits_agree};
use crate::alias::{
    balanced, conserved, sharing, table_outcome, table_weights, table_wf, Entry, lemma_finish,
    lemma_initial, lemma_pair, lemma_table_outcome, pairing_kept, starts_short,
};
use crate::arith::{lemma_cell_form, lemma_div_parts, lemma_div_unique, lemma_mul_le, lemma_mul_lt};
use crate::distribution::{lemma_base_accepted, measure, BuildError, Continuous1D, Discrete1D};
use crate::ratio::{Frac, Ratio};
use crate::weights::{total, lemma_cell, lemma_weight_within_total};
use crate::worklist::{
    distinct, listed, lemma_distinct_pop, lemma_distinct_push, lemma_listed_pop, lemma_listed_push,
};

verus! {

/// One slot of a continuous alias table.
#[derive(Clone, Copy, Debug)]
pub struct ContinuousEntry {
    /// The part of the slot that stays with its own index, out of `weight_sum`.
    pub select: u64,
    /// The index that gets the rest of the slot.
    pub alias: u32,
    /// The stretch of the own cell that the part that stays is laid over.
    pub own_region: [u64; 2],
    /// The stretch of the alias's cell that the rest of the slot is laid over.
    pub alias_region: [u64; 2],
    /// The length of the own cell: the number of slots times the weight of the index.
    pub span: u64,
}

/// A continuous alias table over integer weights.
pub struct ContinuousAlias1D {
    weight_sum: u64,
    entries: Vec<ContinuousEntry>,
}

/// The most weights that a continuous alias table takes.
pub const MAX_ENTRIES: usize = 2_000_000;

/// Some weight is too large for a coordinate in its cell to be written down: the square of
/// the number of weights times the weight does not fit in 64 bits.
pub open spec fn heavy(w: Seq<u64>) -> bool {
    exists|i: int| 0 <= i < w.len() && w.len() * w.len() * #[trigger] w[i] > u64::MAX
}

/// The longest cell among the first `k`.
pub open spec fn top_span(table: Seq<ContinuousEntry>, k: int) -> int
    decreases k,
{
    if k <= 0 {
        0
    } else if table[k - 1].span > top_span(table, k - 1) {
        table[k - 1].span as int
    } else {
        top_span(table, k - 1)
    }
}

/// No cell is longer than the longest, and the longest is as short as all are.
pub proof fn lemma_top_span(table: Seq<ContinuousEntry>, k: int, limit: int)
    requires
        0 <= k <= table.len(),
        0 <= limit,
        forall|i: int| 0 <= i < k ==> (#[trigger] table[i]).span <= limit,
    ensures
        0 <= top_span(table, k) <= limit,
        forall|i: int| 0 <= i < k ==> (#[trigger] table[i]).span <= top_span(table, k),
    decreases k,
{
    if k > 0 {
        lemma_top_span(table, k - 1, limit);
    }
}

/// The table without its regions.
pub open spec fn slim(table: Seq<ContinuousEntry>) -> Seq<Entry> {
    Seq::new(table.len(), |j: int| Entry { select: table[j].select, alias: table[j].alias })
}

/// The region of a slot marked in `done` lies in the cell of its alias, above what the
/// alias keeps for itself, and is as long as what the slot hands on.
pub open spec fn region_ok(table: Seq<ContinuousEntry>, done: Seq<bool>, sum: int, j: int) -> bool {
    done[j] ==> {
        let a = table[j].alias as int;
        &&& 0 <= a < table.len()
        &&& table[a].select <= table[j].alias_region[0]
        &&& table[j].alias_region[1] == table[j].alias_region[0] + sum - table[j].select
        &&& table[j].alias_region[1] <= table[a].span
    }
}

/// The regions of two marked slots with the same alias do not overlap.
pub open spec fn apart(table: Seq<ContinuousEntry>, done: Seq<bool>, j: int, k: int) -> bool {
    done[j] && done[k] && j != k && table[j].alias == table[k].alias ==> table[j].alias_region[1]
        <= table[k].alias_region[0] || table[k].alias_region[1] <= table[j].alias_region[0]
}

/// The point `x` of the cell of index `i` lies above what the index keeps for itself.
pub open spec fn in_gap(table: Seq<ContinuousEntry>, i: int, x: int) -> bool {
    0 <= i < table.len() && table[i].select <= x < table[i].span
}

/// The region of the marked slot `j` lies in the cell of index `i` and holds the point `x`.
pub open spec fn covers(
    table: Seq<ContinuousEntry>,
    done: Seq<bool>,
    j: int,
    i: int,
    x: int,
) -> bool {
    &&& 0 <= j < table.len()
    &&& done[j]
    &&& table[j].alias == i
    &&& table[j].alias_region[0] <= x < table[j].alias_region[1]
}

/// The cell of every index is laid out without gap or overlap: from the bottom what the
/// index keeps, above it the regions of the marked slots that hand their rest to it.
pub open spec fn tiled(table: Seq<ContinuousEntry>, done: Seq<bool>, sum: int) -> bool {
    &&& forall|j: int| 0 <= j < table.len() ==> #[trigger] region_ok(table, done, sum, j)
    &&& forall|j: int, k: int|
        0 <= j < table.len() && 0 <= k < table.len() ==> #[trigger] apart(table, done, j, k)
    &&& forall|i: int, x: int| #[trigger]
        in_gap(table, i, x) ==> exists|j: int| #[trigger] covers(table, done, j, i, x)
    &&& forall|j: int|
        0 <= j < table.len() ==> (#[trigger] table[j]).own_region[0] == 0
            && table[j].own_region[1] == table[j].select && table[j].select <= table[j].span
}

/// Filling the slot `less` up from the slot `more` carves the region that `less` hands on
/// out of the top of what `more` kept, and the cells stay laid out without gap or overlap.
pub proof fn lemma_carve(
    before: Seq<ContinuousEntry>,
    after: Seq<ContinuousEntry>,
    done: Seq<bool>,
    sum: int,
    less: int,
    more: int,
)
    requires
        before.len() == after.len(),
        done.len() == before.len(),
        0 <= less < before.len(),
        0 <= more < before.len(),
        less != more,
        !done[less],
        !done[more],
        before[less].select < sum <= before[more].select,
        tiled(before, done, sum),
        after[less].select == before[less].select,
        after[less].alias == more,
        after[less].own_region == before[less].own_region,
        after[less].span == before[less].span,
        after[less].alias_region[0] == before[more].select + before[less].select - sum,
        after[less].alias_region[1] == before[more].select,
        after[more].select == before[more].select + before[less].select - sum,
        after[more].alias == before[more].alias,
        after[more].alias_region == before[more].alias_region,
        after[more].span == before[more].span,
        after[more].own_region[0] == 0,
        after[more].own_region[1] == after[more].select,
        forall|j: int| 0 <= j < before.len() && j != less && j != more ==> after[j] == before[j],
    ensures
        tiled(after, done.update(less, true), sum),
{
    let marked = done.update(less, true);
    assert forall|j: int| 0 <= j < after.len() implies #[trigger] region_ok(
        after,
        marked,
        sum,
        j,
    ) by {
        if j != less && marked[j] {
            assert(region_ok(before, done, sum, j));
            assert(after[j] == before[j]);
            let a = before[j].alias as int;
            assert(after[a].select <= before[a].select);
            assert(after[a].span == before[a].span);
        } else if j == less {
            assert(before[more].own_region[1] == before[more].select);
        }
    }
    assert forall|j: int, k: int|
        0 <= j < after.len() && 0 <= k < after.len() implies #[trigger] apart(
        after,
        marked,
        j,
        k,
    ) by {
        if marked[j] && marked[k] && j != k && after[j].alias == after[k].alias {
            if j == less {
                assert(region_ok(before, done, sum, k));
            } else if k == less {
                assert(region_ok(before, done, sum, j));
            } else {
                assert(apart(before, done, j, k));
            }
        }
    }
    assert forall|i: int, x: int| #[trigger] in_gap(after, i, x) implies exists|j: int| #[trigger]
        covers(after, marked, j, i, x) by {
        if i == more && x < before[more].select {
            assert(covers(after, marked, less, i, x));
        } else {
            assert(in_gap(before, i, x));
            let j = choose|j: int| #[trigger] covers(before, done, j, i, x);
            assert(covers(after, marked, j, i, x));
        }
    }
    assert forall|j: int| 0 <= j < after.len() implies (#[trigger] after[j]).own_region[0] == 0
        && after[j].own_region[1] == after[j].select && after[j].select <= after[j].span by {
        assert(before[j].own_region[0] == 0 && before[j].own_region[1] == before[j].select
            && before[j].select <= before[j].span);
    }
}

/// The table is consistent: it is an alias table for its weights, small enough for the
/// arithmetic of the continuous maps, and the cell of every index is laid out without gap
/// or overlap.
pub open spec fn continuous_wf(table: Seq<ContinuousEntry>, sum: int) -> bool {
    &&& table_wf(slim(table), sum)
    &&& table.len() < MAX_ENTRIES
    &&& forall|i: int| 0 <= i < table.len() ==> table.len() * (#[trigger] table[i]).span <= u64::MAX
    &&& forall|i: int|
        0 <= i < table.len() ==> (#[trigger] table[i]).span == table.len() * table_weights(
            slim(table),
            sum,
        )[i]
    &&& tiled(table, sharing(slim(table), sum), sum)
}

/// The number of cells times the longest cell fits in 64 bits, and bounds that product for
/// every cell.
pub proof fn lemma_longest(table: Seq<ContinuousEntry>)
    requires
        table.len() >= 1,
        forall|i: int| 0 <= i < table.len() ==> table.len() * (#[trigger] table[i]).span <= u64::MAX,
    ensures
        0 <= table.len() * top_span(table, table.len() as int) <= u64::MAX,
        forall|i: int|
            0 <= i < table.len() ==> table.len() * (#[trigger] table[i]).span <= table.len()
                * top_span(table, table.len() as int),
{
    let n = table.len() as int;
    let limit = (u64::MAX as int) / n;
    lemma_div_parts(u64::MAX as int, n);
    assert forall|i: int| 0 <= i < n implies (#[trigger] table[i]).span <= limit by {
        assert(n * table[i].span <= u64::MAX);
        assert(table[i].span <= limit) by (nonlinear_arith)
            requires
                n * table[i].span <= u64::MAX,
                u64::MAX == limit * n + (u64::MAX as int) % n,
                (u64::MAX as int) % n < n,
                n >= 1,
        ;
    }
    lemma_top_span(table, n, limit);
    lemma_mul_le(n, n, top_span(table, n), limit);
    assert(n * limit == limit * n) by (nonlinear_arith);
    assert forall|i: int| 0 <= i < n implies n * (#[trigger] table[i]).span <= n * top_span(
        table,
        n,
    ) by {
        lemma_mul_le(n, n, table[i].span as int, top_span(table, n));
    }
}

impl ContinuousAlias1D {
    /// The slots of the table.
    pub closed spec fn table(&self) -> Seq<ContinuousEntry> {
        self.entries@
    }

    /// The length of one slot, which is the sum of the weights.
    pub closed spec fn slot(&self) -> int {
        self.weight_sum as int
    }

    /// Slot `i` of the table.
    pub fn entry(&self, i: usize) -> (r: ContinuousEntry)
        requires
            i < self.table().len(),
        ensures
            r == self.table()[i as int],
    {
        self.entries[i]
    }
}

impl Discrete1D for ContinuousAlias1D {
    open spec fn wf(&self) -> bool {
        continuous_wf(self.table(), self.slot())
    }

    open spec fn weights(&self) -> Seq<u64> {
        table_weights(slim(self.table()), self.slot())
    }

    open spec fn rejects(weights: Seq<u64>) -> Option<BuildError> {
        if weights.len() == 0 {
            Some(BuildError::Empty)
        } else if weights.len() >= MAX_ENTRIES {
            Some(BuildError::TooManyEntries)
        } else if weights.len() * total(weights) > u64::MAX || heavy(weights) {
            Some(BuildError::TooLarge)
        } else if total(weights) == 0 {
            Some(BuildError::ZeroIntegral)
        } else {
            None
        }
    }

    open spec fn outcome(&self, u: Frac) -> int {
        table_outcome(slim(self.table()), self.slot(), u)
    }

    proof fn lemma_accepted(&self) {
        lemma_base_accepted(self.weights());
    }

    proof fn lemma_outcome(&self, u: Frac) {
        lemma_table_outcome(slim(self.table()), self.slot(), u);
    }

    /// Pairs the slots by Vose's method and lays out the cells as it goes.
    ///
    /// What a slot is filled up with is carved out of the top of what the filling slot
    /// still keeps of its own cell.
    fn build(weights: &[u64]) -> (r: Result<Self, BuildError>)
        ensures
            r matches Ok(d) ==> pairing_kept(slim(d.table()), d.slot(), weights@),
    {
        let n: usize = weights.len();
        if n == 0 {
            return Err(BuildError::Empty);
        }
        if n >= MAX_ENTRIES {
            return Err(BuildError::TooManyEntries);
        }
        let ghost w = weights@;
        let sum: u64 = match measure(weights) {
            Ok(s) => s,
            Err(e) => {
                proof {
                    if e == BuildError::ZeroIntegral {
                        assert forall|i: int| 0 <= i < n implies !(n * n * #[trigger] w[i]
                            > u64::MAX) by {
                            lemma_weight_within_total(w, i);
                            assert(n * n * w[i] == 0) by (nonlinear_arith)
                                requires
                                    w[i] == 0,
                            ;
                        }
                    }
                }
                return Err(e);
            },
        };
        proof {
            lemma_base_accepted(w);
        }
        let mut biggest: u64 = 0;
        let mut at: usize = 0;
        while at < n
            invariant
                w == weights@,
                n == w.len(),
                at <= n,
                forall|j: int| 0 <= j < at ==> w[j] <= biggest,
                biggest == 0 || exists|j: int| 0 <= j < at && biggest == #[trigger] w[j],
            decreases n - at,
        {
            if weights[at] > biggest {
                biggest = weights[at];
            }
            at = at + 1;
        }
        proof {
            lemma_mul_le(n as int, MAX_ENTRIES as int, n as int, MAX_ENTRIES as int);
            lemma_mul_le(n * n, MAX_ENTRIES * MAX_ENTRIES, biggest as int, u64::MAX as int);
        }
        let squared: u128 = ((n as u128) * (n as u128)) * (biggest as u128);
        if squared > u64::MAX as u128 {
            proof {
                assert(biggest != 0) by (nonlinear_arith)
                    requires
                        (n * n) * biggest > u64::MAX,
                ;
                let j = choose|j: int| 0 <= j < n && biggest == #[trigger] w[j];
                assert(n * n * w[j] > u64::MAX);
            }
            return Err(BuildError::TooLarge);
        }
        proof {
            assert forall|i: int| 0 <= i < n implies n * n * #[trigger] w[i] <= u64::MAX by {
                lemma_mul_le(n * n, n * n, w[i] as int, biggest as int);
            }
            assert(!heavy(w));
        }
        let mut entries: Vec<ContinuousEntry> = Vec::new();
        let mut small: Vec<u32> = Vec::new();
        let mut large: Vec<u32> = Vec::new();
        let mut i: usize = 0;
        while i < n
            invariant
                w == weights@,
                n == w.len(),
                1 <= n < MAX_ENTRIES,
                sum == total(w),
                0 < sum,
                n * sum <= u64::MAX,
                i <= n,
                entries@.len() == i,
                forall|j: int| 0 <= j < i ==> (#[trigger] entries@[j]).select == n * w[j],
                forall|j: int| 0 <= j < i ==> (#[trigger] entries@[j]).span == n * w[j],
                forall|j: int| 0 <= j < i ==> (#[trigger] entries@[j]).alias == 0,
                forall|j: int|
                    0 <= j < i ==> (#[trigger] entries@[j]).own_region[0] == 0
                        && entries@[j].own_region[1] == entries@[j].select,
                forall|k: int|
                    0 <= k < small@.len() ==> (#[trigger] small@[k]) < i && entries@[small@[k] as int].select
                        < sum,
                forall|k: int|
                    0 <= k < large@.len() ==> (#[trigger] large@[k]) < i && entries@[large@[k] as int].select
                        >= sum,
                distinct(small@),
                distinct(large@),
                forall|j: int|
                    0 <= j < i ==> if (#[trigger] entries@[j]).select < sum {
                        listed(small@, j)
                    } else {
                        listed(large@, j)
                    },
            decreases n - i,
        {
            proof {
                lemma_weight_within_total(w, i as int);
                lemma_mul_le(w[i as int] as int, sum as int, n as int, n as int);
                assert(sum * n == n * sum) by (nonlinear_arith);
                assert(w[i as int] * n == n * w[i as int]) by (nonlinear_arith);
            }
            let adjusted: u64 = weights[i] * (n as u64);
            entries.push(
                ContinuousEntry {
                    select: adjusted,
                    alias: 0,
                    own_region: [0, adjusted],
                    alias_region: [0, 0],
                    span: adjusted,
                },
            );
            let ghost old_small = small@;
            let ghost old_large = large@;
            if adjusted < sum {
                small.push(i as u32);
                proof {
                    lemma_listed_push(old_small, i as u32);
                    if listed(old_small, i as int) {
                        let k = choose|k: int|
                            0 <= k < old_small.len() && #[trigger] old_small[k] == i as int;
                        assert(old_small[k] < i);
                    }
                    lemma_distinct_push(old_small, i as u32);
                }
            } else {
                large.push(i as u32);
                proof {
                    lemma_listed_push(old_large, i as u32);
                    if listed(old_large, i as int) {
                        let k = choose|k: int|
                            0 <= k < old_large.len() && #[trigger] old_large[k] == i as int;
                        assert(old_large[k] < i);
                    }
                    lemma_distinct_push(old_large, i as u32);
                }
            }
            i = i + 1;
        }
        let ghost mut done: Seq<bool> = Seq::new(n as nat, |j: int| false);
        proof {
            lemma_initial(slim(entries@), done, sum as int, w);
            assert forall|j: int| 0 <= j < n implies (#[trigger] entries@[j]).select <= n * sum by {
                lemma_weight_within_total(w, j);
                lemma_mul_le(n as int, n as int, w[j] as int, sum as int);
            }
            assert(tiled(entries@, done, sum as int));
        }
        while small.len() > 0 && large.len() > 0
            invariant
                w == weights@,
                n == w.len(),
                1 <= n < MAX_ENTRIES,
                sum == total(w),
                0 < sum,
                n * sum <= u64::MAX,
                entries@.len() == n,
                done.len() == n,
                forall|j: int| 0 <= j < n ==> (#[trigger] entries@[j]).alias < n,
                forall|j: int| 0 <= j < n ==> (#[trigger] entries@[j]).select <= n * sum,
                forall|j: int| 0 <= j < n ==> (#[trigger] entries@[j]).span == n * w[j],
                forall|j: int| 0 <= j < n ==> (#[trigger] entries@[j]).select <= n * w[j],
                forall|j: int|
                    0 <= j < n && n * w[j] < sum ==> (#[trigger] entries@[j]).select == n * w[j],
                starts_short(n as int, sum as int, w) || forall|j: int|
                    0 <= j < n ==> (#[trigger] entries@[j]).select == n * w[j],
                forall|j: int| 0 <= j < n && done[j] ==> (#[trigger] entries@[j]).select < sum,
                forall|j: int|
                    0 <= j < n && done[j] ==> n * w[(#[trigger] entries@[j]).alias as int] >= sum,
                forall|k: int|
                    0 <= k < small@.len() ==> (#[trigger] small@[k]) < n && !done[small@[k] as int]
                        && entries@[small@[k] as int].select < sum,
                forall|k: int|
                    0 <= k < large@.len() ==> (#[trigger] large@[k]) < n && !done[large@[k] as int]
                        && entries@[large@[k] as int].select >= sum,
                distinct(small@),
                distinct(large@),
                forall|j: int|
                    0 <= j < n && !done[j] ==> if (#[trigger] entries@[j]).select < sum {
                        listed(small@, j)
                    } else {
                        listed(large@, j)
                    },
                balanced(slim(entries@), done, sum as int, w),
                conserved(slim(entries@), done, sum as int),
                tiled(entries@, done, sum as int),
            decreases small@.len() + large@.len(),
        {
            let ghost old_small = small@;
            let ghost old_large = large@;
            let ghost before = entries@;
            let ghost old_done = done;
            proof {
                lemma_listed_pop(old_small);
                lemma_listed_pop(old_large);
                lemma_distinct_pop(old_small);
                lemma_distinct_pop(old_large);
            }
            let less: u32 = small.pop().unwrap();
            let more: u32 = large.pop().unwrap();
            assert(less == old_small[old_small.len() - 1]);
            assert(more == old_large[old_large.len() - 1]);
            proof {
                if before[less as int].select == n * w[less as int] {
                    assert(n * w[less as int] < sum);
                }
                assert(starts_short(n as int, sum as int, w));
            }
            let less_entry: ContinuousEntry = entries[less as usize];
            let more_entry: ContinuousEntry = entries[more as usize];
            let filled: u128 = (more_entry.select as u128) + (less_entry.select as u128) - (
            sum as u128);
            let kept: u64 = filled as u64;
            proof {
                assert(more_entry.own_region[1] == more_entry.select);
            }
            let region: [u64; 2] = [kept, more_entry.own_region[1]];
            entries[less as usize] = ContinuousEntry {
                select: less_entry.select,
                alias: more,
                own_region: less_entry.own_region,
                alias_region: region,
                span: less_entry.span,
            };
            entries[more as usize] = ContinuousEntry {
                select: kept,
                alias: more_entry.alias,
                own_region: [more_entry.own_region[0], region[0]],
                alias_region: more_entry.alias_region,
                span: more_entry.span,
            };
            proof {
                done = done.update(less as int, true);
                lemma_pair(
                    slim(before),
                    slim(entries@),
                    old_done,
                    sum as int,
                    w,
                    less as int,
                    more as int,
                );
                lemma_carve(before, entries@, old_done, sum as int, less as int, more as int);
            }
            let ghost mid_small = small@;
            let ghost mid_large = large@;
            if kept < sum {
                small.push(more);
                proof {
                    lemma_listed_push(mid_small, more);
                    if listed(mid_small, more as int) {
                        let k = choose|k: int|
                            0 <= k < mid_small.len() && #[trigger] mid_small[k] == more as int;
                        assert(before[old_small[k] as int].select < sum);
                    }
                    lemma_distinct_push(mid_small, more);
                }
            } else {
                large.push(more);
                proof {
                    lemma_listed_push(mid_large, more);
                    lemma_distinct_push(mid_large, more);
                }
            }
            proof {
                assert forall|k: int| 0 <= k < small@.len() implies (#[trigger] small@[k]) < n
                    && !done[small@[k] as int] && entries@[small@[k] as int].select < sum by {
                    if k < mid_small.len() {
                        assert(small@[k] == old_small[k]);
                        assert(old_small[k] != less) by {
                            if old_small[k] == less {
                                assert(listed(mid_small, less as int));
                            }
                        }
                        assert(before[old_small[k] as int].select < sum);
                    }
                }
                assert forall|k: int| 0 <= k < large@.len() implies (#[trigger] large@[k]) < n
                    && !done[large@[k] as int] && entries@[large@[k] as int].select >= sum by {
                    if k < mid_large.len() {
                        assert(large@[k] == old_large[k]);
                        assert(old_large[k] != more) by {
                            if old_large[k] == more {
                                assert(listed(mid_large, more as int));
                            }
                        }
                        assert(before[old_large[k] as int].select >= sum);
                    }
                }
                assert forall|j: int| 0 <= j < n && !done[j] implies if (
                #[trigger] entries@[j]).select < sum {
                    listed(small@, j)
                } else {
                    listed(large@, j)
                } by {
                    if j != more {
                        assert(entries@[j] == before[j]);
                        assert(!old_done[j]);
                        if before[j].select < sum {
                            assert(listed(old_small, j));
                            assert(listed(mid_small, j));
                        } else {
                            assert(listed(old_large, j));
                            assert(listed(mid_large, j));
                        }
                    }
                }
            }
        }
        let table = ContinuousAlias1D { weight_sum: sum, entries };
        proof {
            let t = table.table();
            lemma_finish(slim(t), done, sum as int, w, small@, large@);
            assert forall|i: int| 0 <= i < n implies n * (#[trigger] t[i]).span <= u64::MAX by {
                assert(n * n * w[i] <= u64::MAX);
                assert(n * (n * w[i]) == n * n * w[i]) by (nonlinear_arith);
            }
            assert forall|j: int| 0 <= j < n && n * w[j] < sum implies (#[trigger] slim(
                t,
            )[j]).select == n * w[j] by {
                assert(t[j].select == n * w[j]);
            }
            assert forall|j: int|
                0 <= j < n && (#[trigger] slim(t)[j]).select < sum implies n * w[slim(t)[j].alias as int]
                >= sum by {
                assert(done[j]);
                assert(t[j].alias == slim(t)[j].alias);
            }
            if !starts_short(n as int, sum as int, w) {
                assert forall|j: int| 0 <= j < n implies (#[trigger] slim(t)[j]).select
                    == sum by {
                    assert(t[j].select == n * w[j]);
                    assert(!(n * w[j] < sum));
                }
            }
        }
        Ok(table)
    }

    fn sample(&self, u: Ratio) -> (r: usize) {
        proof {
            self.lemma_outcome(u@);
            lemma_cell(self.table().len() as int, u@);
        }
        let n: usize = self.entries.len();
        proof {
            lemma_mul_le(n as int, u64::MAX as int, u.num as int, u64::MAX as int);
        }
        let scaled: u128 = (n as u128) * u.num;
        let mut index: usize = (scaled / u.den) as usize;
        let rest: u128 = scaled % u.den;
        let entry: ContinuousEntry = self.entries[index];
        proof {
            assert(slim(self.table())[index as int].select == entry.select);
            lemma_mul_le(entry.select as int, u64::MAX as int, u.den as int, u64::MAX as int);
            lemma_mul_le(rest as int, u64::MAX as int, self.weight_sum as int, u64::MAX as int);
        }
        if (entry.select as u128) * u.den <= rest * (self.weight_sum as u128) {
            index = entry.alias as usize;
        }
        index
    }

    fn pdf(&self, u: usize) -> (r: u64) {
        let n: usize = self.entries.len();
        proof {
            assert(slim(self.table()).len() == n);
            assert(self.weights().len() == n);
            let wu = self.weights()[u as int] as int;
            assert(self.table()[u as int].span == n * wu);
            assert(n * wu == wu * n + 0) by (nonlinear_arith);
            lemma_div_unique(n * wu, n as int, wu, 0);
        }
        self.entries[u].span / (n as u64)
    }

    fn integral(&self) -> (r: u64) {
        self.weight_sum
    }

    fn size(&self) -> (r: usize) {
        self.entries.len()
    }
}

/// Where the number `u` lands: the index, the length of its cell and how far into the cell,
/// the last two in units of which `u.den` make one unit of the regions.
pub open spec fn landing(table: Seq<ContinuousEntry>, sum: int, u: Frac) -> (int, int, int) {
    let scaled = table.len() * u.num;
    let slot = scaled / u.den;
    let rest = scaled % u.den;
    let e = table[slot];
    if e.select * u.den <= rest * sum {
        (
            e.alias as int,
            u.den * table[e.alias as int].span,
            e.alias_region[0] * u.den + (rest * sum - e.select * u.den),
        )
    } else {
        (slot, u.den * e.span, e.own_region[0] * u.den + rest * sum)
    }
}

/// The coordinate that a table carries `u` to.
pub open spec fn table_warp(table: Seq<ContinuousEntry>, sum: int, u: Frac) -> Frac {
    let at = landing(table, sum, u);
    Frac { num: at.0 * at.1 + at.2, den: at.1 * table.len() }
}

/// The region of slot `j` lies in the cell of index `i` and holds the point that lies `at`
/// units of `1 / den` into the cell.
pub open spec fn holds(
    table: Seq<ContinuousEntry>,
    sum: int,
    j: int,
    i: int,
    at: int,
    den: int,
) -> bool {
    &&& 0 <= j < table.len()
    &&& table[j].select < sum
    &&& table[j].alias == i
    &&& table[j].alias_region[0] * den <= at < table[j].alias_region[1] * den
}

/// Where the coordinate `y` comes from: the slot, and how far into the slot in units of
/// which `y.den` make one unit of the slot. A coordinate in the cell of an index without
/// weight comes from nowhere, and is given the start of the slot of that index.
pub open spec fn source(table: Seq<ContinuousEntry>, sum: int, y: Frac) -> (int, int) {
    let scaled = table.len() * y.num;
    let i = scaled / y.den;
    let rest = scaled % y.den;
    let e = table[i];
    let at = rest * e.span;
    if at < e.own_region[1] * y.den {
        (i, at - e.own_region[0] * y.den)
    } else if exists|j: int| holds(table, sum, j, i, at, y.den) {
        let j = choose|j: int| holds(table, sum, j, i, at, y.den);
        (j, table[j].select * y.den + (at - table[j].alias_region[0] * y.den))
    } else {
        (i, 0)
    }
}

/// The number that a table carries to the coordinate `y`.
pub open spec fn table_unwarp(table: Seq<ContinuousEntry>, sum: int, y: Frac) -> Frac {
    let from = source(table, sum, y);
    Frac { num: from.0 * (y.den * sum) + from.1, den: y.den * sum * table.len() }
}

/// A number lands in the cell of the index that sampling gives it, within the cell's length.
pub proof fn lemma_landing(table: Seq<ContinuousEntry>, sum: int, u: Frac)
    requires
        continuous_wf(table, sum),
        u.is_unit(),
    ensures
        landing(table, sum, u).0 == table_outcome(slim(table), sum, u),
        0 <= landing(table, sum, u).0 < table.len(),
        0 <= landing(table, sum, u).2 < landing(table, sum, u).1,
        landing(table, sum, u).1 == u.den * table[landing(table, sum, u).0].span,
        table[landing(table, sum, u).0].span > 0,
{
    let n = table.len() as int;
    lemma_cell(n, u);
    let slot = (n * u.num) / u.den;
    let rest = (n * u.num) % u.den;
    let e = table[slot];
    let flags = sharing(slim(table), sum);
    assert(slim(table)[slot].select == e.select);
    assert(e.own_region[0] == 0 && e.own_region[1] == e.select && e.select <= e.span);
    lemma_mul_le(0, rest, 0, sum);
    if e.select * u.den <= rest * sum {
        lemma_mul_lt(rest, u.den, sum);
        assert(e.select < sum) by (nonlinear_arith)
            requires
                e.select * u.den <= rest * sum,
                rest * sum < u.den * sum,
                u.den > 0,
        ;
        assert(flags[slot]);
        assert(region_ok(table, flags, sum, slot));
        let a = e.alias as int;
        let lo = e.alias_region[0] as int;
        let hi = e.alias_region[1] as int;
        assert(lo * u.den + (rest * sum - e.select * u.den) < hi * u.den) by (nonlinear_arith)
            requires
                hi == lo + sum - e.select,
                rest * sum < u.den * sum,
        ;
        lemma_mul_le(hi, table[a].span as int, u.den, u.den);
        lemma_mul_le(0, lo, 0, u.den);
        assert(table[a].span * u.den == u.den * table[a].span) by (nonlinear_arith);
    } else {
        assert(e.select > 0) by (nonlinear_arith)
            requires
                e.select * u.den > rest * sum,
                rest * sum >= 0,
                u.den > 0,
                e.select >= 0,
        ;
        lemma_mul_le(e.select as int, e.span as int, u.den, u.den);
        assert(e.span * u.den == u.den * e.span) by (nonlinear_arith);
    }
}

/// Two slots whose regions hold the same point of the same cell are one slot.
pub proof fn lemma_holds_unique(
    table: Seq<ContinuousEntry>,
    sum: int,
    j: int,
    k: int,
    i: int,
    at: int,
    den: int,
)
    requires
        continuous_wf(table, sum),
        den > 0,
        holds(table, sum, j, i, at, den),
        holds(table, sum, k, i, at, den),
    ensures
        j == k,
{
    let flags = sharing(slim(table), sum);
    if j != k {
        assert(slim(table)[j].select == table[j].select);
        assert(slim(table)[k].select == table[k].select);
        assert(flags[j] && flags[k]);
        assert(apart(table, flags, j, k));
        if table[j].alias_region[1] <= table[k].alias_region[0] {
            lemma_mul_le(
                table[j].alias_region[1] as int,
                table[k].alias_region[0] as int,
                den,
                den,
            );
        } else {
            lemma_mul_le(
                table[k].alias_region[1] as int,
                table[j].alias_region[0] as int,
                den,
                den,
            );
        }
    }
}

/// A coordinate comes from a slot in range, from within the slot's length.
pub proof fn lemma_source(table: Seq<ContinuousEntry>, sum: int, y: Frac)
    requires
        continuous_wf(table, sum),
        y.is_unit(),
    ensures
        0 <= source(table, sum, y).0 < table.len(),
        0 <= source(table, sum, y).1 <= y.den * sum,
        table_weights(slim(table), sum)[(table.len() * y.num) / y.den] > 0 ==> source(
            table,
            sum,
            y,
        ).1 < y.den * sum,
        ({
            let i = (table.len() * y.num) / y.den;
            let at = ((table.len() * y.num) % y.den) * table[i].span;
            table_weights(slim(table), sum)[i] > 0 && at >= table[i].own_region[1] * y.den
                ==> exists|j: int| holds(table, sum, j, i, at, y.den)
        }),
{
    let n = table.len() as int;
    lemma_cell(n, y);
    let i = (n * y.num) / y.den;
    let rest = (n * y.num) % y.den;
    let e = table[i];
    let at = rest * e.span;
    let flags = sharing(slim(table), sum);
    assert(slim(table)[i].select == e.select);
    assert(e.own_region[0] == 0 && e.own_region[1] == e.select && e.select <= e.span);
    lemma_mul_le(0, rest, 0, e.span as int);
    lemma_mul_le(0, y.den, 0, sum);
    assert(e.own_region[0] * y.den == 0) by (nonlinear_arith)
        requires
            e.own_region[0] == 0,
    ;
    if at < e.own_region[1] * y.den {
        lemma_mul_le(e.select as int, sum, y.den, y.den);
        assert(sum * y.den == y.den * sum) by (nonlinear_arith);
    } else if exists|j: int| holds(table, sum, j, i, at, y.den) {
        let j = choose|j: int| holds(table, sum, j, i, at, y.den);
        assert(slim(table)[j].select == table[j].select);
        assert(flags[j]);
        assert(region_ok(table, flags, sum, j));
        let lo = table[j].alias_region[0] as int;
        let hi = table[j].alias_region[1] as int;
        let sel = table[j].select as int;
        assert(sel * y.den + (at - lo * y.den) < y.den * sum && sel * y.den >= 0)
            by (nonlinear_arith)
            requires
                hi == lo + sum - sel,
                at < hi * y.den,
                lo * y.den <= at,
                sel >= 0,
                y.den > 0,
        ;
    } else {
        let wi = table_weights(slim(table), sum)[i] as int;
        if wi > 0 {
            assert(e.span == n * wi);
            lemma_mul_le(1, n, 1, wi);
            lemma_div_parts(at, y.den);
            let x = at / y.den;
            lemma_mul_lt(rest, y.den, e.span as int);
            assert(e.select <= x < e.span) by (nonlinear_arith)
                requires
                    at == x * y.den + at % y.den,
                    0 <= at % y.den < y.den,
                    at >= e.select * y.den,
                    at < y.den * e.span,
            ;
            assert(in_gap(table, i, x));
            let j = choose|j: int| #[trigger] covers(table, flags, j, i, x);
            assert(covers(table, flags, j, i, x));
            assert(slim(table)[j].select == table[j].select);
            let lo = table[j].alias_region[0] as int;
            let hi = table[j].alias_region[1] as int;
            assert(lo * y.den <= at < hi * y.den) by (nonlinear_arith)
                requires
                    at == x * y.den + at % y.den,
                    0 <= at % y.den < y.den,
                    lo <= x < hi,
            ;
            assert(holds(table, sum, j, i, at, y.den));
        }
    }
}

/// A sampled coordinate lies in the unit interval, in the cell of the index that was drawn.
pub proof fn lemma_table_agreement(table: Seq<ContinuousEntry>, sum: int, u: Frac)
    requires
        continuous_wf(table, sum),
        u.is_unit(),
    ensures
        table_warp(table, sum, u).is_unit(),
        table_warp(table, sum, u).floor_times(table.len() as int) == table_outcome(
            slim(table),
            sum,
            u,
        ),
{
    lemma_landing(table, sum, u);
    let at = landing(table, sum, u);
    lemma_cell_form(table.len() as int, at.0, at.1, at.2);
}

proof fn lemma_back_identity(a: int, d: int, s: int, n: int, slot: int, rest: int, span: int)
    requires
        n * a == slot * d + rest,
    ensures
        (slot * ((d * span * n) * s) + ((rest * s) * n) * span) * d == a * ((d * span * n) * s
            * n),
{
    let k = span * n;
    assert(d * span * n == d * k) by (nonlinear_arith)
        requires
            k == span * n,
    ;
    assert(((rest * s) * n) * span == rest * (s * k)) by (nonlinear_arith)
        requires
            k == span * n,
    ;
    assert(slot * ((d * k) * s) == (slot * d) * (s * k)) by (nonlinear_arith);
    assert((slot * d) * (s * k) + rest * (s * k) == (n * a) * (s * k)) by (nonlinear_arith)
        requires
            n * a == slot * d + rest,
    ;
    assert(((n * a) * (s * k)) * d == a * ((d * k) * s * n)) by (nonlinear_arith);
}

proof fn lemma_forth_identity(b: int, e: int, s: int, n: int, i: int, rest: int, span: int)
    requires
        n * b == i * e + rest,
    ensures
        (i * ((e * s * n) * span) + ((rest * span) * n) * s) * e == b * ((e * s * n) * span * n),
{
    let m = s * n * span;
    assert((e * s * n) * span == e * m) by (nonlinear_arith)
        requires
            m == s * n * span,
    ;
    assert(((rest * span) * n) * s == rest * m) by (nonlinear_arith)
        requires
            m == s * n * span,
    ;
    assert(i * (e * m) + rest * m == (n * b) * m) by (nonlinear_arith)
        requires
            n * b == i * e + rest,
    ;
    assert(((n * b) * m) * e == b * ((e * m) * n)) by (nonlinear_arith);
}

/// Inverting a sampled coordinate gives the random number back.
pub proof fn lemma_table_round_trip(table: Seq<ContinuousEntry>, sum: int, u: Frac)
    requires
        continuous_wf(table, sum),
        u.is_unit(),
    ensures
        table_unwarp(table, sum, table_warp(table, sum, u)).den > 0,
        table_unwarp(table, sum, table_warp(table, sum, u)).same(u),
{
    let n = table.len() as int;
    let flags = sharing(slim(table), sum);
    lemma_landing(table, sum, u);
    lemma_cell(n, u);
    let slot = (n * u.num) / u.den;
    let rest = (n * u.num) % u.den;
    let e = table[slot];
    let at = landing(table, sum, u);
    let idx = at.0;
    let cell = at.1;
    let within = at.2;
    let y = table_warp(table, sum, u);
    lemma_cell_form(n, idx, cell, within);
    assert(y.num == idx * cell + within);
    assert(y.den == cell * n);
    assert((n * y.num) / y.den == idx);
    assert((n * y.num) % y.den == within * n);
    let target = table[idx];
    let span = target.span as int;
    let place = (within * n) * span;
    assert(slim(table)[slot].select == e.select);
    assert(slim(table)[idx].select == target.select);
    assert(target.own_region[0] == 0 && target.own_region[1] == target.select);
    assert(e.own_region[0] == 0 && e.own_region[1] == e.select);
    assert(target.own_region[0] * y.den == 0) by (nonlinear_arith)
        requires
            target.own_region[0] == 0,
    ;
    assert(e.own_region[0] * u.den == 0) by (nonlinear_arith)
        requires
            e.own_region[0] == 0,
    ;
    assert(y.den == u.den * span * n);
    let k = span * n;
    assert(k > 0) by (nonlinear_arith)
        requires
            k == span * n,
            span > 0,
            n > 0,
    ;
    assert(place == within * k && y.den == u.den * k) by (nonlinear_arith)
        requires
            place == (within * n) * span,
            y.den == u.den * span * n,
            k == span * n,
    ;
    let back = table_unwarp(table, sum, y);
    let from = source(table, sum, y);
    if e.select * u.den <= rest * sum {
        lemma_mul_lt(rest, u.den, sum);
        assert(e.select < sum) by (nonlinear_arith)
            requires
                e.select * u.den <= rest * sum,
                rest * sum < u.den * sum,
                u.den > 0,
        ;
        assert(flags[slot]);
        assert(region_ok(table, flags, sum, slot));
        let lo = e.alias_region[0] as int;
        let hi = e.alias_region[1] as int;
        assert(within == lo * u.den + (rest * sum - e.select * u.den));
        assert(lo * u.den <= within < hi * u.den) by (nonlinear_arith)
            requires
                within == lo * u.den + (rest * sum - e.select * u.den),
                e.select * u.den <= rest * sum,
                rest * sum < u.den * sum,
                hi == lo + sum - e.select,
        ;
        assert(target.select * y.den <= place && lo * y.den <= place < hi * y.den)
            by (nonlinear_arith)
            requires
                place == within * k,
                y.den == u.den * k,
                k > 0,
                lo * u.den <= within < hi * u.den,
                target.select <= lo,
                u.den > 0,
        ;
        assert(holds(table, sum, slot, idx, place, y.den));
        let j = choose|j: int| holds(table, sum, j, idx, place, y.den);
        lemma_holds_unique(table, sum, j, slot, idx, place, y.den);
        assert(from.0 == slot);
        assert(from.1 == e.select * y.den + (place - lo * y.den));
        assert(within * k == (lo * u.den) * k + (rest * sum) * k - (e.select * u.den) * k)
            by (nonlinear_arith)
            requires
                within == lo * u.den + (rest * sum - e.select * u.den),
        ;
        assert(e.select * (u.den * k) == (e.select * u.den) * k) by (nonlinear_arith);
        assert(lo * (u.den * k) == (lo * u.den) * k) by (nonlinear_arith);
        assert((rest * sum) * k == ((rest * sum) * n) * span) by (nonlinear_arith)
            requires
                k == span * n,
        ;
        assert(from.1 == ((rest * sum) * n) * span);
    } else {
        assert(within == rest * sum);
        assert(place < target.select * y.den) by (nonlinear_arith)
            requires
                place == within * k,
                y.den == u.den * k,
                k > 0,
                within == rest * sum,
                e.select * u.den > rest * sum,
                target.select == e.select,
        ;
        assert(from.0 == slot);
        assert(from.1 == ((rest * sum) * n) * span);
    }
    lemma_back_identity(u.num, u.den, sum, n, slot, rest, span);
    assert(back.num == slot * (y.den * sum) + from.1);
    assert(back.den == y.den * sum * n);
    assert(back.den > 0) by (nonlinear_arith)
        requires
            back.den == y.den * sum * n,
            y.den > 0,
            sum > 0,
            n > 0,
    ;
}

/// Every coordinate in the cell of an index with a positive weight is sampled, by the
/// number that inverting it gives.
pub proof fn lemma_table_onto(table: Seq<ContinuousEntry>, sum: int, y: Frac)
    requires
        continuous_wf(table, sum),
        y.is_unit(),
        table_weights(slim(table), sum)[y.floor_times(table.len() as int)] > 0,
    ensures
        table_unwarp(table, sum, y).is_unit(),
        table_warp(table, sum, table_unwarp(table, sum, y)).same(y),
{
    let n = table.len() as int;
    let flags = sharing(slim(table), sum);
    lemma_cell(n, y);
    lemma_source(table, sum, y);
    let i = (n * y.num) / y.den;
    let rest = (n * y.num) % y.den;
    let e = table[i];
    let span = e.span as int;
    let place = rest * span;
    let from = source(table, sum, y);
    let u = table_unwarp(table, sum, y);
    let slot_len = y.den * sum;
    assert(slot_len > 0) by (nonlinear_arith)
        requires
            slot_len == y.den * sum,
            y.den > 0,
            sum > 0,
    ;
    lemma_cell_form(n, from.0, slot_len, from.1);
    assert(u.num == from.0 * slot_len + from.1);
    assert(u.den == slot_len * n);
    assert(u.is_unit());
    assert((n * u.num) / u.den == from.0);
    assert((n * u.num) % u.den == from.1 * n);
    lemma_landing(table, sum, u);
    let at = landing(table, sum, u);
    let s = table[from.0];
    assert(slim(table)[i].select == e.select);
    assert(slim(table)[from.0].select == s.select);
    assert(e.own_region[0] == 0 && e.own_region[1] == e.select);
    assert(s.own_region[0] == 0 && s.own_region[1] == s.select);
    assert(e.own_region[0] * y.den == 0) by (nonlinear_arith)
        requires
            e.own_region[0] == 0,
    ;
    assert(s.own_region[0] * u.den == 0) by (nonlinear_arith)
        requires
            s.own_region[0] == 0,
    ;
    let m = n * sum;
    assert(m > 0) by (nonlinear_arith)
        requires
            m == n * sum,
            n > 0,
            sum > 0,
    ;
    assert(u.den == y.den * m && (from.1 * n) * sum == from.1 * m) by (nonlinear_arith)
        requires
            u.den == (y.den * sum) * n,
            m == n * sum,
    ;
    if place < e.own_region[1] * y.den {
        assert(from.0 == i && from.1 == place);
        assert(!(s.select * u.den <= (from.1 * n) * sum)) by (nonlinear_arith)
            requires
                u.den == y.den * m,
                (from.1 * n) * sum == from.1 * m,
                from.1 < s.select * y.den,
                m > 0,
        ;
        assert(at.0 == i);
        assert(at.1 == u.den * span);
        assert(at.2 == (from.1 * n) * sum);
    } else {
        assert(exists|j: int| holds(table, sum, j, i, place, y.den));
        let j = choose|j: int| holds(table, sum, j, i, place, y.den);
        assert(from.0 == j);
        let lo = s.alias_region[0] as int;
        assert(from.1 == s.select * y.den + (place - lo * y.den));
        assert(s.select * u.den <= (from.1 * n) * sum) by (nonlinear_arith)
            requires
                u.den == y.den * m,
                (from.1 * n) * sum == from.1 * m,
                from.1 >= s.select * y.den,
                m > 0,
        ;
        assert(at.0 == i);
        assert(at.1 == u.den * span);
        assert(at.2 == lo * u.den + ((from.1 * n) * sum - s.select * u.den));
        assert(from.1 * m == (s.select * y.den) * m + place * m - (lo * y.den) * m)
            by (nonlinear_arith)
            requires
                from.1 == s.select * y.den + (place - lo * y.den),
        ;
        assert(lo * (y.den * m) == (lo * y.den) * m) by (nonlinear_arith);
        assert(s.select * (y.den * m) == (s.select * y.den) * m) by (nonlinear_arith);
        assert(place * m == (place * n) * sum) by (nonlinear_arith)
            requires
                m == n * sum,
        ;
        assert(at.2 == (place * n) * sum);
    }
    let z = table_warp(table, sum, u);
    assert(z.num == i * (u.den * span) + (place * n) * sum);
    assert(z.den == (u.den * span) * n);
    assert(u.den == y.den * sum * n);
    lemma_forth_identity(y.num, y.den, sum, n, i, rest, span);
}

impl Continuous1D for ContinuousAlias1D {
    open spec fn warp(&self, u: Frac) -> Frac {
        table_warp(self.table(), self.slot(), u)
    }

    open spec fn unwarp(&self, y: Frac) -> Frac {
        table_unwarp(self.table(), self.slot(), y)
    }

    open spec fn spread(&self) -> int {
        let longest = self.table().len() * top_span(self.table(), self.table().len() as int);
        if longest >= 1 {
            longest
        } else {
            1
        }
    }

    proof fn lemma_spread(&self) {
        lemma_longest(self.table());
    }

    proof fn lemma_agreement(&self, u: Frac) {
        lemma_table_agreement(self.table(), self.slot(), u);
    }

    proof fn lemma_round_trip(&self, u: Frac) {
        lemma_table_round_trip(self.table(), self.slot(), u);
    }

    proof fn lemma_onto(&self, y: Frac) {
        lemma_table_onto(self.table(), self.slot(), y);
    }

    /// Lays the place of `u` within its slot over the region that the slot records: its own
    /// region where `u` stays with the slot's index, the alias's region where it does not.
    fn sample_continuous(&self, u: Ratio) -> (r: Ratio) {
        let n: usize = self.entries.len();
        let ghost table = self.table();
        let ghost sum = self.slot();
        proof {
            lemma_cell(n as int, u@);
            lemma_landing(table, sum, u@);
            lemma_table_agreement(table, sum, u@);
            lemma_mul_le(n as int, u64::MAX as int, u.num as int, u64::MAX as int);
        }
        let scaled: u128 = (n as u128) * u.num;
        let initial_index: usize = (scaled / u.den) as usize;
        let rest: u128 = scaled % u.den;
        let initial_entry: ContinuousEntry = self.entries[initial_index];
        proof {
            lemma_mul_le(
                initial_entry.select as int,
                u64::MAX as int,
                u.den as int,
                u64::MAX as int,
            );
            lemma_mul_le(rest as int, u64::MAX as int, sum, u64::MAX as int);
        }
        let stays: u128 = (initial_entry.select as u128) * u.den;
        let reached: u128 = rest * (self.weight_sum as u128);
        let index: usize;
        let cell: u128;
        let within: u128;
        if stays <= reached {
            index = initial_entry.alias as usize;
            proof {
                lemma_mul_le(
                    u.den as int,
                    u64::MAX as int,
                    table[index as int].span as int,
                    u64::MAX as int,
                );
                lemma_mul_le(
                    initial_entry.alias_region[0] as int,
                    u64::MAX as int,
                    u.den as int,
                    u64::MAX as int,
                );
            }
            cell = u.den * (self.entries[index].span as u128);
            within = (initial_entry.alias_region[0] as u128) * u.den + (reached - stays);
        } else {
            index = initial_index;
            proof {
                lemma_mul_le(
                    u.den as int,
                    u64::MAX as int,
                    initial_entry.span as int,
                    u64::MAX as int,
                );
                lemma_mul_le(
                    initial_entry.own_region[0] as int,
                    u64::MAX as int,
                    u.den as int,
                    u64::MAX as int,
                );
            }
            cell = u.den * (initial_entry.span as u128);
            within = (initial_entry.own_region[0] as u128) * u.den + reached;
        }
        proof {
            let span = table[index as int].span as int;
            let wi = self.weights()[index as int] as int;
            assert(span == n * wi);
            assert(n * table[index as int].span <= u64::MAX);
            assert(span * n == n * span) by (nonlinear_arith);
            lemma_longest(table);
            lemma_mul_le(u.den as int, u64::MAX as int, span * n, u64::MAX as int);
            lemma_mul_le(u.den as int, u.den as int, span * n, self.spread());
            assert(cell * n == u.den * (span * n)) by (nonlinear_arith)
                requires
                    cell == u.den * span,
            ;
            lemma_cell_form(n as int, index as int, cell as int, within as int);
        }
        Ratio { num: (index as u128) * cell + within, den: cell * (n as u128) }
    }

    /// Finds the slot whose recorded region holds the coordinate `u`, and the place in the
    /// slot that is laid over it.
    ///
    /// The own region of the cell's index is tried first; otherwise every slot is looked at,
    /// since nothing records which slots hand their rest to an index.
    fn inverse_continuous(&self, u: Ratio) -> (r: Ratio) {
        let n: usize = self.entries.len();
        let ghost table = self.table();
        let ghost sum = self.slot();
        proof {
            lemma_cell(n as int, u@);
            lemma_source(table, sum, u@);
            lemma_mul_le(n as int, u64::MAX as int, u.num as int, u64::MAX as int);
        }
        let scaled: u128 = (n as u128) * u.num;
        let initial_index: usize = (scaled / u.den) as usize;
        let rest: u128 = scaled % u.den;
        let initial_entry: ContinuousEntry = self.entries[initial_index];
        proof {
            lemma_mul_le(rest as int, u64::MAX as int, initial_entry.span as int, u64::MAX as int);
            lemma_mul_le(
                initial_entry.own_region[1] as int,
                u64::MAX as int,
                u.den as int,
                u64::MAX as int,
            );
            lemma_mul_le(
                initial_entry.own_region[0] as int,
                u64::MAX as int,
                u.den as int,
                u64::MAX as int,
            );
            lemma_mul_le(u.den as int, u64::MAX as int, sum, u64::MAX as int);
            assert((u.den * sum) * n == u.den * (n * sum)) by (nonlinear_arith);
            lemma_mul_le(u.den as int, u64::MAX as int, n * sum, u64::MAX as int);
        }
        let place: u128 = rest * (initial_entry.span as u128);
        let slot_len: u128 = u.den * (self.weight_sum as u128);
        let index: usize;
        let within: u128;
        if place < (initial_entry.own_region[1] as u128) * u.den {
            index = initial_index;
            within = place - (initial_entry.own_region[0] as u128) * u.den;
        } else {
            let mut found: Option<usize> = None;
            let mut j: usize = 0;
            while j < n
                invariant
                    continuous_wf(table, sum),
                    table == self.entries@,
                    sum == self.weight_sum,
                    n == table.len(),
                    j <= n,
                    0 < u.den <= u64::MAX,
                    initial_index < n,
                    forall|k: int|
                        0 <= k < j && found != Some(k as usize) ==> !holds(
                            table,
                            sum,
                            k,
                            initial_index as int,
                            place as int,
                            u.den as int,
                        ),
                    found matches Some(k) ==> k < j && holds(
                        table,
                        sum,
                        k as int,
                        initial_index as int,
                        place as int,
                        u.den as int,
                    ),
                decreases n - j,
            {
                let entry: ContinuousEntry = self.entries[j];
                proof {
                    lemma_mul_le(
                        entry.alias_region[0] as int,
                        u64::MAX as int,
                        u.den as int,
                        u64::MAX as int,
                    );
                    lemma_mul_le(
                        entry.alias_region[1] as int,
                        u64::MAX as int,
                        u.den as int,
                        u64::MAX as int,
                    );
                }
                if entry.select < self.weight_sum && entry.alias as usize == initial_index && (
                entry.alias_region[0] as u128) * u.den <= place && place < (
                entry.alias_region[1] as u128) * u.den {
                    proof {
                        if let Some(k) = found {
                            lemma_holds_unique(
                                table,
                                sum,
                                k as int,
                                j as int,
                                initial_index as int,
                                place as int,
                                u.den as int,
                            );
                        }
                    }
                    found = Some(j);
                }
                j = j + 1;
            }
            match found {
                Some(k) => {
                    let entry: ContinuousEntry = self.entries[k];
                    proof {
                        let c = choose|c: int|
                            holds(
                                table,
                                sum,
                                c,
                                initial_index as int,
                                place as int,
                                u.den as int,
                            );
                        lemma_holds_unique(
                            table,
                            sum,
                            c,
                            k as int,
                            initial_index as int,
                            place as int,
                            u.den as int,
                        );
                        lemma_mul_le(
                            entry.select as int,
                            u64::MAX as int,
                            u.den as int,
                            u64::MAX as int,
                        );
                        lemma_mul_le(
                            entry.alias_region[0] as int,
                            u64::MAX as int,
                            u.den as int,
                            u64::MAX as int,
                        );
                    }
                    index = k;
                    within = (entry.select as u128) * u.den + (place - (
                    entry.alias_region[0] as u128) * u.den);
                },
                None => {
                    index = initial_index;
                    within = 0;
                },
            }
        }
        proof {
            assert(index == source(table, sum, u@).0);
            assert(within == source(table, sum, u@).1);
            lemma_mul_le(index as int + 1, n as int, slot_len as int, slot_len as int);
            assert((index + 1) * slot_len == index * slot_len + slot_len && n * slot_len
                == slot_len * n) by (nonlinear_arith);
            lemma_mul_le(0, index as int, 0, slot_len as int);
            assert(slot_len > 0) by (nonlinear_arith)
                requires
                    slot_len == u.den * sum,
                    u.den > 0,
                    sum > 0,
            ;
            assert(slot_len * n > 0) by (nonlinear_arith)
                requires
                    slot_len > 0,
                    n > 0,
            ;
        }
        Ratio { num: (index as u128) * slot_len + within, den: slot_len * (n as u128) }
    }
}

impl ContinuousAlias1D {
    /// Drawing once with each of `n` times the integral equally spaced numbers hits every
    /// index exactly `n` times as often as its weight says.
    pub proof fn lemma_fair(&self)
        requires
            self.wf(),
        ensures
            fair_at(*self, self.weights().len() * total(self.weights())),
    {
        self.lemma_accepted();
        let w = self.weights();
        let s = total(w);
        let n = w.len() as int;
        let table = slim(self.table());
        assert(table.len() == n);
        assert(self.slot() == s);
        assert forall|i: int| 0 <= i < w.len() implies #[trigger] hits(
            step_outcome(*self, n * s),
            i,
            n * s,
        ) * s == (n * s) * w[i] by {
            lemma_hits_agree(
                step_outcome(*self, n * s),
                outcome_of_step(table, s, n * s),
                i,
                i,
                n * s,
            );
            lemma_table_hits(table, s, i);
            assert((n * w[i]) * s == (n * s) * w[i]) by (nonlinear_arith);
        }
    }
}

/// A distribution over a grid that uses a continuous alias table for the rows and for each
/// row.
pub type ContinuousAlias2D = crate::adapter2d::Adapter2D<ContinuousAlias1D>;

} // verus!
