//! Finite sums over sequences of integers, and how they move when one term changes.

use vstd::prelude::*;

verus! {

/// The sum of the first `k` terms of `s`.
pub open spec fn sum_to(s: Seq<int>, k: int) -> int
    decreases k,
{
    if k <= 0 {
        0
    } else {
        sum_to(s, k - 1) + s[k - 1]
    }
}

/// Sequences that agree on their first `k` terms have the same sum there.
pub proof fn lemma_sum_agree(s: Seq<int>, t: Seq<int>, k: int)
    requires
        0 <= k <= s.len(),
        k <= t.len(),
        forall|i: int| 0 <= i < k ==> s[i] == t[i],
    ensures
        sum_to(s, k) == sum_to(t, k),
    decreases k,
{
    if k > 0 {
        lemma_sum_agree(s, t, k - 1);
    }
}

/// Replacing term `j` by `v` moves every sum that reaches it by `v - s[j]`.
pub proof fn lemma_sum_update(s: Seq<int>, j: int, v: int, k: int)
    requires
        0 <= j < s.len(),
        0 <= k <= s.len(),
    ensures
        sum_to(s.update(j, v), k) == sum_to(s, k) + if j < k {
            v - s[j]
        } else {
            0
        },
    decreases k,
{
    if k > 0 {
        lemma_sum_update(s, j, v, k - 1);
    }
}

/// A sum of non-negative terms is at least each of them, and grows with its length.
pub proof fn lemma_sum_nonneg(s: Seq<int>, k: int, m: int)
    requires
        0 <= k <= m <= s.len(),
        forall|i: int| 0 <= i < m ==> s[i] >= 0,
    ensures
        0 <= sum_to(s, k) <= sum_to(s, m),
        forall|i: int| 0 <= i < m ==> s[i] <= sum_to(s, m),
    decreases m,
{
    if m > 0 {
        if k < m {
            lemma_sum_nonneg(s, k, m - 1);
        } else {
            lemma_sum_nonneg(s, m - 1, m - 1);
        }
    }
}

/// A sum of zeros is zero.
pub proof fn lemma_sum_zeros(s: Seq<int>, k: int)
    requires
        0 <= k <= s.len(),
        forall|i: int| 0 <= i < k ==> s[i] == 0,
    ensures
        sum_to(s, k) == 0,
    decreases k,
{
    if k > 0 {
        lemma_sum_zeros(s, k - 1);
    }
}

/// Non-negative terms that sum to zero are all zero.
pub proof fn lemma_sum_zero_nonneg(s: Seq<int>, k: int)
    requires
        0 <= k <= s.len(),
        forall|i: int| 0 <= i < k ==> s[i] >= 0,
        sum_to(s, k) == 0,
    ensures
        forall|i: int| 0 <= i < k ==> s[i] == 0,
    decreases k,
{
    if k > 0 {
        lemma_sum_nonneg(s, k - 1, k - 1);
        lemma_sum_zero_nonneg(s, k - 1);
    }
}

/// Terms that are never positive and sum to zero are all zero.
pub proof fn lemma_sum_zero_nonpos(s: Seq<int>, k: int)
    requires
        0 <= k <= s.len(),
        forall|i: int| 0 <= i < k ==> s[i] <= 0,
        sum_to(s, k) == 0,
    ensures
        forall|i: int| 0 <= i < k ==> s[i] == 0,
    decreases k,
{
    let neg = Seq::new(s.len(), |i: int| -s[i]);
    lemma_sum_negate(s, neg, k);
    lemma_sum_zero_nonneg(neg, k);
    assert forall|i: int| 0 <= i < k implies s[i] == 0 by {
        assert(neg[i] == 0);
    }
}

/// Negating every term negates the sum.
pub proof fn lemma_sum_negate(s: Seq<int>, neg: Seq<int>, k: int)
    requires
        0 <= k <= s.len(),
        neg.len() == s.len(),
        forall|i: int| 0 <= i < k ==> neg[i] == -s[i],
    ensures
        sum_to(neg, k) == -sum_to(s, k),
    decreases k,
{
    if k > 0 {
        lemma_sum_negate(s, neg, k - 1);
    }
}

/// The sum of two sequences added term by term is the sum of their sums.
pub proof fn lemma_sum_add(a: Seq<int>, b: Seq<int>, c: Seq<int>, k: int)
    requires
        0 <= k <= a.len(),
        k <= b.len(),
        k <= c.len(),
        forall|i: int| 0 <= i < k ==> c[i] == a[i] + b[i],
    ensures
        sum_to(c, k) == sum_to(a, k) + sum_to(b, k),
    decreases k,
{
    if k > 0 {
        lemma_sum_add(a, b, c, k - 1);
    }
}

/// A sequence that is zero but at `j` sums to its term at `j`, once the sum reaches it.
pub proof fn lemma_sum_single(s: Seq<int>, j: int, k: int)
    requires
        0 <= k <= s.len(),
        0 <= j,
        forall|i: int| 0 <= i < k && i != j ==> s[i] == 0,
    ensures
        sum_to(s, k) == if j < k {
            s[j]
        } else {
            0
        },
    decreases k,
{
    if k > 0 {
        lemma_sum_single(s, j, k - 1);
    }
}

/// How many of the numbers `0 .. k` the function `f` sends to `i`.
pub open spec fn hits(f: spec_fn(int) -> int, i: int, k: int) -> int
    decreases k,
{
    if k <= 0 {
        0
    } else {
        hits(f, i, k - 1) + if f(k - 1) == i {
            1int
        } else {
            0int
        }
    }
}

/// Where `f` sends to `i` exactly the numbers from `lo` up to, but not at, `hi`, the count of
/// hits is the length of the part of that range that lies below `k`.
pub proof fn lemma_hits_interval(f: spec_fn(int) -> int, i: int, lo: int, hi: int, k: int)
    requires
        0 <= lo <= hi,
        0 <= k,
        forall|t: int| 0 <= t < k ==> (#[trigger] f(t) == i <==> lo <= t < hi),
    ensures
        hits(f, i, k) == if k <= lo {
            0
        } else if k >= hi {
            hi - lo
        } else {
            k - lo
        },
    decreases k,
{
    if k > 0 {
        lemma_hits_interval(f, i, lo, hi, k - 1);
        assert(f(k - 1) == i <==> lo <= k - 1 < hi);
    }
}

/// Counting further from `from` adds the hits among the numbers `from .. from + more`.
pub proof fn lemma_hits_split(
    f: spec_fn(int) -> int,
    g: spec_fn(int) -> int,
    i: int,
    from: int,
    more: int,
)
    requires
        0 <= from,
        0 <= more,
        forall|r: int| 0 <= r < more ==> #[trigger] g(r) == f(from + r),
    ensures
        hits(f, i, from + more) == hits(f, i, from) + hits(g, i, more),
    decreases more,
{
    if more > 0 {
        lemma_hits_split(f, g, i, from, more - 1);
        assert(g(more - 1) == f(from + (more - 1)));
    }
}

/// Functions that hit their marks at the same numbers have the same count of hits.
pub proof fn lemma_hits_agree(
    f: spec_fn(int) -> int,
    g: spec_fn(int) -> int,
    i: int,
    j: int,
    k: int,
)
    requires
        forall|t: int| 0 <= t < k ==> (#[trigger] f(t) == i <==> #[trigger] g(t) == j),
    ensures
        hits(f, i, k) == hits(g, j, k),
    decreases k,
{
    if k > 0 {
        lemma_hits_agree(f, g, i, j, k - 1);
        assert(f(k - 1) == i <==> g(k - 1) == j);
    }
}

/// A function that never hits its mark has no hits.
pub proof fn lemma_hits_none(f: spec_fn(int) -> int, i: int, k: int)
    requires
        forall|t: int| 0 <= t < k ==> #[trigger] f(t) != i,
    ensures
        hits(f, i, k) == 0,
    decreases k,
{
    if k > 0 {
        lemma_hits_none(f, i, k - 1);
        assert(f(k - 1) != i);
    }
}

/// Whether `f` sends the pair `(s, t)` to `(x, y)`, as one or zero, for each `s`.
pub open spec fn row_marks(f: spec_fn(int, int) -> (int, int), x: int, y: int, t: int) -> spec_fn(
    int,
) -> int {
    |s: int|
        if f(s, t) == (x, y) {
            1int
        } else {
            0int
        }
}

/// How many of the pairs `(s, t)` with `s` in `0 .. a` and `t` in `0 .. b` the function `f`
/// sends to `(x, y)`.
pub open spec fn hits2(f: spec_fn(int, int) -> (int, int), x: int, y: int, a: int, b: int) -> int
    decreases b,
{
    if b <= 0 {
        0
    } else {
        hits2(f, x, y, a, b - 1) + hits(row_marks(f, x, y, b - 1), 1, a)
    }
}

/// Where the second number alone decides the second part of the outcome, and the first
/// number the first part once the second is decided, the hits on a pair are the product of
/// the hits on its parts.
pub proof fn lemma_hits2_product(
    f: spec_fn(int, int) -> (int, int),
    along: spec_fn(int) -> int,
    across: spec_fn(int) -> int,
    x: int,
    y: int,
    a: int,
    b: int,
)
    requires
        0 <= a,
        0 <= b,
        forall|s: int, t: int| 0 <= s < a && 0 <= t < b ==> (#[trigger] f(s, t)).1 == along(t),
        forall|s: int, t: int|
            0 <= s < a && 0 <= t < b && along(t) == y ==> (#[trigger] f(s, t)).0 == across(s),
    ensures
        hits2(f, x, y, a, b) == hits(along, y, b) * hits(across, x, a),
    decreases b,
{
    if b > 0 {
        lemma_hits2_product(f, along, across, x, y, a, b - 1);
        let t = b - 1;
        let marks = row_marks(f, x, y, t);
        if along(t) == y {
            assert forall|s: int| 0 <= s < a implies (#[trigger] marks(s) == 1 <==> #[trigger] across(
                s,
            ) == x) by {
                assert(f(s, t).1 == along(t));
                assert(f(s, t).0 == across(s));
            }
            lemma_hits_agree(marks, across, 1, x, a);
        } else {
            assert forall|s: int| 0 <= s < a implies #[trigger] marks(s) != 1 by {
                assert(f(s, t).1 == along(t));
            }
            lemma_hits_none(marks, 1, a);
        }
        let h = hits(across, x, a);
        let before = hits(along, y, b - 1);
        assert((before + 1) * h == before * h + h && before * h + 0 == before * h)
            by (nonlinear_arith);
    } else {
        assert(0 * hits(across, x, a) == 0);
    }
}

} // verus!
