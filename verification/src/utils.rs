//! Numeric helpers shared by the samplers.

use vstd::prelude::*;
use crate::arith::{lemma_div_parts, lemma_mul_le};
use crate::ratio::{Frac, Ratio};
use crate::weights::{prefix_sum, total};

verus! {

/// How the values of a type are added up.
pub trait Sum: Sized {
    /// The sum of `input`, or nothing where the type cannot hold it.
    spec fn sum_of(input: Seq<Self>) -> Option<Self>;

    /// Adds up `input`.
    fn sum(input: &[Self]) -> (r: Option<Self>)
        ensures
            r == Self::sum_of(input@),
    ;
}

impl Sum for u64 {
    open spec fn sum_of(input: Seq<u64>) -> Option<u64> {
        if total(input) <= u64::MAX {
            Some(total(input) as u64)
        } else {
            None
        }
    }

    /// Integers are added exactly, in a wider accumulator that cannot overflow.
    fn sum(input: &[u64]) -> (r: Option<u64>) {
        let n: usize = input.len();
        let mut acc: u128 = 0;
        let mut i: usize = 0;
        while i < n
            invariant
                n == input@.len(),
                i <= n,
                acc == prefix_sum(input@, i as int),
                acc <= i * u64::MAX,
            decreases n - i,
        {
            acc = acc + (input[i] as u128);
            i = i + 1;
        }
        if acc <= u64::MAX as u128 {
            assert(<u64 as Sum>::sum_of(input@) == Some(total(input@) as u64));
            Some(acc as u64)
        } else {
            None
        }
    }
}

/// The point that lies the share `by` of the way from `from` to `to`.
pub open spec fn lerp_spec(by: Frac, from: int, to: int) -> Frac {
    Frac { num: (by.den - by.num) * from + by.num * to, den: by.den }
}

/// Interpolates between `from` and `to`: the share `by` of `to` and the rest of `from`.
pub fn lerp(by: Ratio, from: u64, to: u64) -> (r: Ratio)
    requires
        by.num <= by.den <= u64::MAX,
    ensures
        r@ == lerp_spec(by@, from as int, to as int),
{
    proof {
        let top: int = if from <= to {
            to as int
        } else {
            from as int
        };
        lemma_mul_le((by.den - by.num) as int, (by.den - by.num) as int, from as int, top);
        lemma_mul_le(by.num as int, by.num as int, to as int, top);
        assert((by.den - by.num) * top + by.num * top == by.den * top) by (nonlinear_arith);
        lemma_mul_le(by.den as int, u64::MAX as int, top, u64::MAX as int);
    }
    Ratio { num: (by.den - by.num) * (from as u128) + by.num * (to as u128), den: by.den }
}

/// The bases that radical inverses are taken in, by index.
pub open spec fn prime(base_index: int) -> int {
    if base_index == 0 {
        2
    } else if base_index == 1 {
        3
    } else if base_index == 2 {
        5
    } else if base_index == 3 {
        7
    } else {
        11
    }
}

/// The most that the mirrored digits may have reached for another digit to be added.
pub open spec fn digit_limit(base: int) -> int {
    (u64::MAX as int) / base - base
}

/// The digits of `a` in `base`, taken from the lowest up and appended to `reversed`, with
/// `scale` growing by the base for each digit. No digit is added once `reversed` has reached
/// the limit.
pub open spec fn mirror(base: int, a: int, reversed: int, scale: int) -> (int, int)
    decreases a,
{
    if a <= 0 || base < 2 || reversed >= digit_limit(base) {
        (reversed, scale)
    } else {
        proof {
            vstd::arithmetic::div_mod::lemma_div_decreases(a, base);
        }
        mirror(base, a / base, reversed * base + a % base, scale * base)
    }
}

/// The radical inverse of `a` in the base of index `base_index`: the digits of `a` mirrored
/// around the point.
pub open spec fn radical_inverse_spec(base_index: int, a: int) -> Frac {
    let mirrored = mirror(prime(base_index), a, 0, 1);
    Frac { num: mirrored.0, den: mirrored.1 }
}

/// The radical inverse of `a` in the base of index `base_index`, a number of the unit
/// interval. The lowest digits come first; digits beyond what 64 bits hold are left out.
pub fn radical_inverse(base_index: usize, a: u64) -> (r: Ratio)
    requires
        base_index < 5,
    ensures
        r@ == radical_inverse_spec(base_index as int, a as int),
        r.num < r.den,
{
    let primes: [u64; 5] = [2, 3, 5, 7, 11];
    let base: u64 = primes[base_index];
    assert(base == prime(base_index as int));
    let limit: u64 = u64::MAX / base - base;
    let mut rest: u64 = a;
    let mut reversed_digits: u64 = 0;
    let mut scale: u128 = 1;
    while rest != 0 && reversed_digits < limit
        invariant
            2 <= base <= 11,
            base == prime(base_index as int),
            limit == digit_limit(base as int),
            mirror(base as int, rest as int, reversed_digits as int, scale as int) == mirror(
                base as int,
                a as int,
                0,
                1,
            ),
            reversed_digits < scale,
            scale >= 1,
            scale * rest <= a,
        decreases rest,
    {
        let next: u64 = rest / base;
        let digit: u64 = rest - next * base;
        proof {
            lemma_div_parts(rest as int, base as int);
            lemma_div_parts(u64::MAX as int, base as int);
            assert(next * base == base * next) by (nonlinear_arith);
            assert(digit == rest % base);
            assert(reversed_digits * base + digit <= u64::MAX) by (nonlinear_arith)
                requires
                    reversed_digits < limit,
                    limit == (u64::MAX as int) / (base as int) - base,
                    u64::MAX == ((u64::MAX as int) / (base as int)) * base + (u64::MAX as int) % (
                    base as int),
                    (u64::MAX as int) % (base as int) >= 0,
                    0 <= digit < base,
                    base >= 2,
            ;
            assert(reversed_digits * base + digit < scale * base) by (nonlinear_arith)
                requires
                    reversed_digits < scale,
                    0 <= digit < base,
            ;
            assert(scale * base <= a * base && (scale * base) * next <= a) by (nonlinear_arith)
                requires
                    scale * rest <= a,
                    rest >= 1,
                    rest == next * base + digit,
                    digit >= 0,
                    scale >= 1,
                    base >= 2,
                    next >= 0,
            ;
            lemma_mul_le(a as int, u64::MAX as int, base as int, 11);
        }
        reversed_digits = reversed_digits * base + digit;
        scale = scale * (base as u128);
        rest = next;
    }
    Ratio { num: reversed_digits as u128, den: scale }
}

/// Three numbers of the unit interval that tell `a` apart from its neighbours: its radical
/// inverses in the bases two, three and five.
pub fn u64_to_color(a: u64) -> (r: [Ratio; 3])
    ensures
        r[0]@ == radical_inverse_spec(0, a as int),
        r[1]@ == radical_inverse_spec(1, a as int),
        r[2]@ == radical_inverse_spec(2, a as int),
        r[0].num < r[0].den,
        r[1].num < r[1].den,
        r[2].num < r[2].den,
{
    [radical_inverse(0, a), radical_inverse(1, a), radical_inverse(2, a)]
}

} // verus!
