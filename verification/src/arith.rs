//! Facts about integer products, quotients and remainders that the samplers lean on.

use vstd::prelude::*;

verus! {

/// A quotient and remainder that recompose `x` are the Euclidean ones.
pub proof fn lemma_div_unique(x: int, d: int, q: int, r: int)
    requires
        d > 0,
        0 <= r < d,
        x == q * d + r,
    ensures
        q == x / d,
        r == x % d,
{
    vstd::arithmetic::div_mod::lemma_fundamental_div_mod_converse(x, d, q, r);
}

/// Euclidean division of a non-negative number: the quotient is non-negative and the
/// remainder is below the divisor.
pub proof fn lemma_div_parts(x: int, d: int)
    requires
        x >= 0,
        d > 0,
    ensures
        0 <= x / d,
        0 <= x % d < d,
        x == (x / d) * d + x % d,
        x / d <= x,
{
    vstd::arithmetic::div_mod::lemma_fundamental_div_mod(x, d);
    vstd::arithmetic::div_mod::lemma_mod_pos_bound(x, d);
    vstd::arithmetic::div_mod::lemma_div_pos_is_pos(x, d);
    assert(d * (x / d) == (x / d) * d) by (nonlinear_arith);
    assert(x / d <= x) by (nonlinear_arith)
        requires
            x == (x / d) * d + x % d,
            0 <= x % d,
            0 <= x / d,
            d >= 1,
    ;
}

/// Products of non-negative factors grow with each factor.
pub proof fn lemma_mul_le(a: int, b: int, c: int, d: int)
    requires
        0 <= a <= b,
        0 <= c <= d,
    ensures
        0 <= a * c <= b * d,
{
    assert(0 <= a * c <= b * d) by (nonlinear_arith)
        requires
            0 <= a <= b,
            0 <= c <= d,
    ;
}

/// A strictly smaller first factor gives a strictly smaller product.
pub proof fn lemma_mul_lt(a: int, b: int, c: int)
    requires
        0 <= a < b,
        0 < c,
    ensures
        a * c < b * c,
        c * a < c * b,
{
    assert(a * c < b * c && c * a < c * b) by (nonlinear_arith)
        requires
            0 <= a < b,
            0 < c,
    ;
}

/// Products of smaller non-negative factors are strictly smaller.
pub proof fn lemma_mul_lt_both(a: int, b: int, c: int, d: int)
    requires
        0 <= a < b,
        0 <= c < d,
    ensures
        a * c < b * d,
{
    assert(a * c < b * d) by (nonlinear_arith)
        requires
            0 <= a < b,
            0 <= c < d,
    ;
}

/// Cancelling a positive common factor from an inequality.
pub proof fn lemma_mul_cancel(a: int, b: int, c: int)
    requires
        0 < c,
    ensures
        a * c <= b * c ==> a <= b,
        a * c < b * c ==> a < b,
{
    assert((a * c <= b * c ==> a <= b) && (a * c < b * c ==> a < b)) by (nonlinear_arith)
        requires
            0 < c,
    ;
}

/// The point that lies `within` into cell `idx` of `n` cells, each `cell` units long, is a
/// fraction of the unit interval whose cell and place in the cell can be read back.
pub proof fn lemma_cell_form(n: int, idx: int, cell: int, within: int)
    requires
        0 <= idx < n,
        0 <= within < cell,
    ensures
        0 <= idx * cell + within < cell * n,
        (n * (idx * cell + within)) / (cell * n) == idx,
        (n * (idx * cell + within)) % (cell * n) == within * n,
        ((idx * cell + within) * n) / (cell * n) == idx,
{
    let num = idx * cell + within;
    assert(0 <= num < cell * n && n * num == idx * (cell * n) + within * n && 0 <= within * n
        < cell * n && num * n == n * num) by (nonlinear_arith)
        requires
            num == idx * cell + within,
            0 <= idx < n,
            0 <= within < cell,
    ;
    lemma_div_unique(n * num, cell * n, idx, within * n);
}

} // verus!
