//! What a sequence of weights means: partial sums, the integral, and the bucket that a number
//! of the unit interval falls into.

use vstd::prelude::*;
use crate::ratio::Frac;
use crate::arith::{lemma_div_parts, lemma_div_unique, lemma_mul_le, lemma_mul_lt};
use crate::sums::{hits, lemma_hits_interval};

verus! {

/// The sum of the first `k` weights.
pub open spec fn prefix_sum(w: Seq<u64>, k: int) -> int
    decreases k,
{
    if k <= 0 {
        0
    } else {
        prefix_sum(w, k - 1) + w[k - 1]
    }
}

/// The sum of all weights.
pub open spec fn total(w: Seq<u64>) -> int {
    prefix_sum(w, w.len() as int)
}

/// Partial sums are never negative and grow with their length.
pub proof fn lemma_prefix_monotone(w: Seq<u64>, j: int, k: int)
    requires
        0 <= j <= k <= w.len(),
    ensures
        0 <= prefix_sum(w, j) <= prefix_sum(w, k),
    decreases k,
{
    if k > 0 {
        if j < k {
            lemma_prefix_monotone(w, j, k - 1);
        } else {
            lemma_prefix_monotone(w, k - 1, k - 1);
        }
    }
}

/// A weight and the partial sum before it stay within the integral.
pub proof fn lemma_weight_within_total(w: Seq<u64>, i: int)
    requires
        0 <= i < w.len(),
    ensures
        0 <= prefix_sum(w, i),
        prefix_sum(w, i) + w[i] == prefix_sum(w, i + 1),
        prefix_sum(w, i + 1) <= total(w),
        w[i] <= total(w),
{
    lemma_prefix_monotone(w, i, i);
    lemma_prefix_monotone(w, i + 1, w.len() as int);
}

/// The number `u` lies in bucket `i`: at or after the partial sum before it and before the
/// partial sum after it, both taken as shares of the integral.
pub open spec fn in_bucket(w: Seq<u64>, u: Frac, i: int) -> bool {
    &&& 0 <= i < w.len()
    &&& prefix_sum(w, i) * u.den <= u.num * total(w)
    &&& u.num * total(w) < prefix_sum(w, i + 1) * u.den
}

/// The bucket that `u` lies in.
pub open spec fn bucket(w: Seq<u64>, u: Frac) -> int {
    choose|i: int| in_bucket(w, u, i)
}

proof fn lemma_bucket_below(w: Seq<u64>, u: Frac, k: int)
    requires
        0 <= k <= w.len(),
        0 <= u.num,
        0 < u.den,
        u.num * total(w) < prefix_sum(w, k) * u.den,
    ensures
        exists|i: int| in_bucket(w, u, i),
    decreases k,
{
    if k == 0 {
        lemma_prefix_monotone(w, 0, w.len() as int);
        lemma_mul_le(0, u.num, 0, total(w));
        assert(prefix_sum(w, 0) * u.den == 0);
    } else {
        if prefix_sum(w, k - 1) * u.den <= u.num * total(w) {
            assert(in_bucket(w, u, k - 1));
        } else {
            lemma_bucket_below(w, u, k - 1);
        }
    }
}

/// Every number of the unit interval lies in exactly one bucket, and that bucket has a
/// positive weight.
pub proof fn lemma_bucket(w: Seq<u64>, u: Frac)
    requires
        u.is_unit(),
        total(w) > 0,
    ensures
        in_bucket(w, u, bucket(w, u)),
        w[bucket(w, u)] > 0,
        forall|i: int| in_bucket(w, u, i) ==> i == bucket(w, u),
{
    lemma_mul_lt(u.num, u.den, total(w));
    assert(total(w) * u.den == u.den * total(w)) by (nonlinear_arith);
    lemma_bucket_below(w, u, w.len() as int);
    let b = bucket(w, u);
    assert forall|i: int| in_bucket(w, u, i) implies i == b by {
        lemma_bucket_unique(w, u, i, b);
    }
    lemma_bucket_positive(w, u, b);
}

/// Two buckets that hold the same number are one bucket.
pub proof fn lemma_bucket_unique(w: Seq<u64>, u: Frac, i: int, j: int)
    requires
        in_bucket(w, u, i),
        in_bucket(w, u, j),
        0 < u.den,
    ensures
        i == j,
{
    if i < j {
        lemma_prefix_monotone(w, i + 1, j);
        lemma_mul_le(prefix_sum(w, i + 1), prefix_sum(w, j), u.den, u.den);
        lemma_prefix_monotone(w, 0, i + 1);
    } else if j < i {
        lemma_prefix_monotone(w, j + 1, i);
        lemma_mul_le(prefix_sum(w, j + 1), prefix_sum(w, i), u.den, u.den);
        lemma_prefix_monotone(w, 0, j + 1);
    }
}

/// A bucket that holds a number has a positive weight.
pub proof fn lemma_bucket_positive(w: Seq<u64>, u: Frac, i: int)
    requires
        in_bucket(w, u, i),
        0 < u.den,
    ensures
        w[i] > 0,
{
    if w[i] == 0 {
        assert(prefix_sum(w, i + 1) == prefix_sum(w, i));
    }
}

/// Of as many equally spaced numbers as the integral counts, those that fall into a bucket are
/// as many as its weight: the number `t / total` falls into bucket `i` exactly when `t` lies
/// from the partial sum before the bucket up to, but not at, the partial sum after it.
pub proof fn lemma_bucket_share(w: Seq<u64>, i: int, t: int)
    requires
        0 <= i < w.len(),
        0 <= t < total(w),
    ensures
        bucket(w, Frac { num: t, den: total(w) }) == i <==> prefix_sum(w, i) <= t < prefix_sum(
            w,
            i + 1,
        ),
{
    let s = total(w);
    let u = Frac { num: t, den: s };
    lemma_bucket(w, u);
    lemma_weight_within_total(w, i);
    let lo = prefix_sum(w, i);
    let hi = prefix_sum(w, i + 1);
    assert((lo * s <= t * s) == (lo <= t) && (t * s < hi * s) == (t < hi)) by (nonlinear_arith)
        requires
            s > 0,
    ;
    if lo <= t < hi {
        assert(in_bucket(w, u, i));
    }
}

/// The bucket that the `t`-th of `count` equally spaced numbers of the unit interval falls into.
pub open spec fn bucket_of_step(w: Seq<u64>, count: int) -> spec_fn(int) -> int {
    |t: int| bucket(w, Frac { num: t, den: count })
}

/// Drawing once with each of as many equally spaced numbers as the integral counts hits every
/// bucket exactly as often as its weight says.
pub proof fn lemma_bucket_hits(w: Seq<u64>, i: int)
    requires
        0 <= i < w.len(),
        total(w) > 0,
    ensures
        hits(bucket_of_step(w, total(w)), i, total(w)) == w[i],
{
    let s = total(w);
    let f = bucket_of_step(w, s);
    lemma_weight_within_total(w, i);
    assert forall|t: int| 0 <= t < s implies (#[trigger] f(t) == i <==> prefix_sum(w, i) <= t
        < prefix_sum(w, i + 1)) by {
        lemma_bucket_share(w, i, t);
    }
    lemma_hits_interval(f, i, prefix_sum(w, i), prefix_sum(w, i + 1), s);
}

/// The coordinate that `u` is carried to: the bucket of `u`, and within its cell of the unit
/// interval the same share that `u` has of the bucket.
pub open spec fn warp(w: Seq<u64>, u: Frac) -> Frac {
    let i = bucket(w, u);
    Frac {
        num: i * (u.den * w[i]) + (u.num * total(w) - prefix_sum(w, i) * u.den),
        den: u.den * w[i] * w.len(),
    }
}

/// The number that is carried to the coordinate `y`: the partial sum before the cell of `y`,
/// and of the weight of the cell the same share that `y` has of the cell, as a share of the
/// integral.
pub open spec fn unwarp(w: Seq<u64>, y: Frac) -> Frac {
    let scaled = w.len() * y.num;
    let i = scaled / y.den;
    let rest = scaled % y.den;
    Frac { num: prefix_sum(w, i) * y.den + rest * w[i], den: y.den * total(w) }
}

/// The cell of the unit interval that a coordinate lies in, and where in it.
pub proof fn lemma_cell(n: int, y: Frac)
    requires
        n >= 1,
        y.is_unit(),
    ensures
        0 <= (n * y.num) / y.den < n,
        0 <= (n * y.num) % y.den < y.den,
        n * y.num == ((n * y.num) / y.den) * y.den + (n * y.num) % y.den,
        (n * y.num) / y.den == y.floor_times(n),
{
    lemma_mul_le(0, n, 0, y.num);
    lemma_div_parts(n * y.num, y.den);
    lemma_mul_lt(y.num, y.den, n);
    let q = (n * y.num) / y.den;
    assert(q < n) by (nonlinear_arith)
        requires
            n * y.num == q * y.den + (n * y.num) % y.den,
            (n * y.num) % y.den >= 0,
            n * y.num < n * y.den,
            y.den > 0,
    ;
    assert(n * y.num == y.num * n) by (nonlinear_arith);
}

proof fn lemma_round_trip_identity(a: int, d: int, s: int, c: int, w: int, n: int)
    ensures
        (c * ((d * w) * n) + ((a * s - c * d) * n) * w) * d == a * (((d * w) * n) * s),
{
    let k = n * w;
    assert((d * w) * n == d * k) by (nonlinear_arith)
        requires
            k == n * w,
    ;
    assert(((a * s - c * d) * n) * w == (a * s) * k - (c * d) * k) by (nonlinear_arith)
        requires
            k == n * w,
    ;
    assert(c * (d * k) == (c * d) * k) by (nonlinear_arith);
    assert(((a * s) * k) * d == a * ((d * k) * s)) by (nonlinear_arith);
}

proof fn lemma_onto_identity(b: int, e: int, s: int, c: int, w: int, n: int, i: int, rest: int)
    requires
        n * b == i * e + rest,
    ensures
        (i * ((e * s) * w) + ((c * e + rest * w) * s - c * (e * s))) * e == b * (((e * s) * w)
            * n),
{
    let k = s * w;
    assert((e * s) * w == e * k) by (nonlinear_arith)
        requires
            k == s * w,
    ;
    assert((c * e + rest * w) * s - c * (e * s) == rest * k) by (nonlinear_arith)
        requires
            k == s * w,
    ;
    assert(i * (e * k) + rest * k == (i * e + rest) * k) by (nonlinear_arith);
    assert(((n * b) * k) * e == b * ((e * k) * n)) by (nonlinear_arith);
}

/// A sampled coordinate lies in the unit interval, in the cell of the bucket that was drawn.
pub proof fn lemma_warp_agreement(w: Seq<u64>, u: Frac)
    requires
        u.is_unit(),
        total(w) > 0,
    ensures
        warp(w, u).is_unit(),
        warp(w, u).floor_times(w.len() as int) == bucket(w, u),
{
    lemma_bucket(w, u);
    let i = bucket(w, u);
    let n = w.len() as int;
    let y = warp(w, u);
    let cell = u.den * w[i];
    let p = u.num * total(w) - prefix_sum(w, i) * u.den;
    lemma_weight_within_total(w, i);
    assert(0 <= p < cell) by (nonlinear_arith)
        requires
            prefix_sum(w, i) * u.den <= u.num * total(w),
            u.num * total(w) < (prefix_sum(w, i) + w[i]) * u.den,
            p == u.num * total(w) - prefix_sum(w, i) * u.den,
            cell == u.den * w[i],
    ;
    assert(cell > 0) by (nonlinear_arith)
        requires
            cell == u.den * w[i],
            u.den > 0,
            w[i] > 0,
    ;
    assert(y.num * n == i * (cell * n) + p * n && 0 <= p * n < cell * n && 0 <= y.num < cell * n
        && cell * n > 0) by (nonlinear_arith)
        requires
            y.num == i * cell + p,
            0 <= p < cell,
            0 <= i < n,
    ;
    assert(y.den == cell * n);
    lemma_div_unique(y.num * n, y.den, i, p * n);
}

/// Inverting a sampled coordinate gives the random number back.
pub proof fn lemma_warp_round_trip(w: Seq<u64>, u: Frac)
    requires
        u.is_unit(),
        total(w) > 0,
    ensures
        unwarp(w, warp(w, u)).den > 0,
        unwarp(w, warp(w, u)).same(u),
{
    lemma_bucket(w, u);
    lemma_warp_agreement(w, u);
    let i = bucket(w, u);
    let n = w.len() as int;
    let y = warp(w, u);
    let cell = u.den * w[i];
    let p = u.num * total(w) - prefix_sum(w, i) * u.den;
    let s = total(w);
    let c = prefix_sum(w, i);
    lemma_weight_within_total(w, i);
    assert(0 <= p < cell) by (nonlinear_arith)
        requires
            prefix_sum(w, i) * u.den <= u.num * total(w),
            u.num * total(w) < (prefix_sum(w, i) + w[i]) * u.den,
            p == u.num * total(w) - prefix_sum(w, i) * u.den,
            cell == u.den * w[i],
    ;
    assert(n * y.num == i * y.den + p * n && 0 <= p * n < y.den) by (nonlinear_arith)
        requires
            y.num == i * cell + p,
            y.den == cell * n,
            0 <= p < cell,
            0 <= i < n,
    ;
    lemma_div_unique(n * y.num, y.den, i, p * n);
    let back = unwarp(w, y);
    assert(back.num == c * y.den + (p * n) * w[i]);
    assert(back.den == y.den * s);
    assert(back.den > 0) by (nonlinear_arith)
        requires
            back.den == y.den * s,
            y.den > 0,
            s > 0,
    ;
    lemma_round_trip_identity(u.num, u.den, s, c, w[i] as int, n);
}

/// Every coordinate in the cell of a bucket with a positive weight is sampled, by the number
/// that inverting it gives.
pub proof fn lemma_warp_onto(w: Seq<u64>, y: Frac)
    requires
        y.is_unit(),
        total(w) > 0,
        w.len() >= 1,
        w[y.floor_times(w.len() as int)] > 0,
    ensures
        unwarp(w, y).is_unit(),
        bucket(w, unwarp(w, y)) == y.floor_times(w.len() as int),
        warp(w, unwarp(w, y)).same(y),
{
    let n = w.len() as int;
    lemma_cell(n, y);
    let i = (n * y.num) / y.den;
    let rest = (n * y.num) % y.den;
    let s = total(w);
    let c = prefix_sum(w, i);
    let u = unwarp(w, y);
    lemma_weight_within_total(w, i);
    assert(0 <= rest * w[i] < y.den * w[i]) by (nonlinear_arith)
        requires
            0 <= rest < y.den,
            w[i] > 0,
    ;
    assert(c * y.den + y.den * w[i] <= s * y.den && c * y.den >= 0 && s * y.den == y.den * s)
        by (nonlinear_arith)
        requires
            c + w[i] <= s,
            0 <= c,
            y.den > 0,
    ;
    assert(u.is_unit());
    assert(in_bucket(w, u, i)) by {
        assert(c * u.den <= u.num * s && u.num * s < (c + w[i]) * u.den) by (nonlinear_arith)
            requires
                u.num == c * y.den + rest * w[i],
                u.den == y.den * s,
                0 <= rest * w[i] < y.den * w[i],
                s > 0,
        ;
    }
    lemma_bucket(w, u);
    let z = warp(w, u);
    assert(z.num == i * (u.den * w[i]) + (u.num * s - c * u.den));
    assert(z.den == u.den * w[i] * n);
    lemma_onto_identity(y.num, y.den, s, c, w[i] as int, n, i, rest);
}

} // verus!
