//! Exact fractions: the scalars that random inputs and sampled coordinates are made of.

use vstd::prelude::*;
use crate::arith::{lemma_div_unique, lemma_div_parts, lemma_mul_le};

verus! {

/// A fraction of two mathematical integers.
pub struct Frac {
    pub num: int,
    pub den: int,
}

impl Frac {
    /// The fraction lies in the half-open unit interval.
    pub open spec fn is_unit(self) -> bool {
        0 <= self.num < self.den
    }

    /// Both fractions denote the same number.
    pub open spec fn same(self, other: Frac) -> bool {
        self.num * other.den == other.num * self.den
    }

    /// The fraction denotes a smaller number than `other`; both denominators are positive.
    pub open spec fn below(self, other: Frac) -> bool {
        self.num * other.den < other.num * self.den
    }

    /// The integer part of the fraction multiplied by `n`.
    pub open spec fn floor_times(self, n: int) -> int {
        (self.num * n) / self.den
    }
}

/// Two to the power 64.
pub open spec fn limb() -> int {
    0x1_0000_0000_0000_0000
}

/// The number that a pair of 128-bit words stands for, most significant word first.
pub open spec fn wide_value(hi: u128, lo: u128) -> int {
    hi * limb() * limb() + lo
}

/// The full 256-bit product of two 128-bit words.
pub fn mul_wide(a: u128, b: u128) -> (r: (u128, u128))
    ensures
        wide_value(r.0, r.1) == a * b,
{
    let base: u128 = 0x1_0000_0000_0000_0000;
    let a1: u128 = a / base;
    let a0: u128 = a % base;
    let b1: u128 = b / base;
    let b0: u128 = b % base;
    proof {
        lemma_div_parts(a as int, base as int);
        lemma_div_parts(b as int, base as int);
        assert(a1 < base) by (nonlinear_arith)
            requires
                a == a1 * base + a0,
                a0 >= 0,
                a < base * base,
                base > 0,
        ;
        assert(b1 < base) by (nonlinear_arith)
            requires
                b == b1 * base + b0,
                b0 >= 0,
                b < base * base,
                base > 0,
        ;
        lemma_mul_le(a0 as int, base - 1, b0 as int, base - 1);
        lemma_mul_le(a0 as int, base - 1, b1 as int, base - 1);
        lemma_mul_le(a1 as int, base - 1, b0 as int, base - 1);
        lemma_mul_le(a1 as int, base - 1, b1 as int, base - 1);
    }
    let p00: u128 = a0 * b0;
    let p01: u128 = a0 * b1;
    let p10: u128 = a1 * b0;
    let p11: u128 = a1 * b1;
    let h00: u128 = p00 / base;
    let l00: u128 = p00 % base;
    let h01: u128 = p01 / base;
    let l01: u128 = p01 % base;
    let h10: u128 = p10 / base;
    let l10: u128 = p10 % base;
    proof {
        lemma_div_parts(p00 as int, base as int);
        lemma_div_parts(p01 as int, base as int);
        lemma_div_parts(p10 as int, base as int);
    }
    let t: u128 = h00 + l01 + l10;
    let ht: u128 = t / base;
    let lt: u128 = t % base;
    proof {
        lemma_div_parts(t as int, base as int);
        assert(ht <= 2) by (nonlinear_arith)
            requires
                t == ht * base + lt,
                lt >= 0,
                t < 3 * base,
                base > 0,
        ;
        assert(h01 <= base - 2) by (nonlinear_arith)
            requires
                p01 == h01 * base + l01,
                l01 >= 0,
                p01 <= (base - 1) * (base - 1),
                base > 1,
        ;
        assert(h10 <= base - 2) by (nonlinear_arith)
            requires
                p10 == h10 * base + l10,
                l10 >= 0,
                p10 <= (base - 1) * (base - 1),
                base > 1,
        ;
        assert(p11 <= (base - 1) * (base - 1));
        assert((base - 1) * (base - 1) + 2 * (base - 2) + 2 < base * base) by (nonlinear_arith)
            requires
                base == 0x1_0000_0000_0000_0000,
        ;
    }
    let hi: u128 = p11 + h01 + h10 + ht;
    let lo: u128 = lt * base + l00;
    proof {
        let bb = base as int;
        assert(a * b == (p11 * bb + p01 + p10) * bb + p00) by (nonlinear_arith)
            requires
                a == a1 * bb + a0,
                b == b1 * bb + b0,
                p00 == a0 * b0,
                p01 == a0 * b1,
                p10 == a1 * b0,
                p11 == a1 * b1,
        ;
        assert(hi * bb * bb + lo == (p11 * bb + p01 + p10) * bb + p00) by (nonlinear_arith)
            requires
                hi == p11 + h01 + h10 + ht,
                lo == lt * bb + l00,
                t == h00 + l01 + l10,
                t == ht * bb + lt,
                p00 == h00 * bb + l00,
                p01 == h01 * bb + l01,
                p10 == h10 * bb + l10,
        ;
    }
    (hi, lo)
}

/// The number `d` divides `x`.
pub open spec fn divides(d: int, x: int) -> bool {
    exists|k: int| x == #[trigger] (k * d)
}

/// The number `g` is the greatest common divisor of `a` and `b`: it is positive, and what
/// divides it is what divides both.
pub open spec fn is_gcd(g: int, a: int, b: int) -> bool {
    g > 0 && forall|d: int| #[trigger] divides(d, g) <==> divides(d, a) && divides(d, b)
}

/// A remainder has the divisors that the number and the divisor have in common.
proof fn lemma_divides_rem(d: int, x: int, y: int)
    requires
        0 <= x,
        0 < y,
    ensures
        divides(d, x) && divides(d, y) <==> divides(d, y) && divides(d, x % y),
{
    lemma_div_parts(x, y);
    let q = x / y;
    let r = x % y;
    if divides(d, y) {
        let ky = choose|k: int| y == #[trigger] (k * d);
        if divides(d, x) {
            let kx = choose|k: int| x == #[trigger] (k * d);
            assert(r == (kx - q * ky) * d) by (nonlinear_arith)
                requires
                    x == q * y + r,
                    x == kx * d,
                    y == ky * d,
            ;
        }
        if divides(d, r) {
            let kr = choose|k: int| r == #[trigger] (k * d);
            assert(x == (q * ky + kr) * d) by (nonlinear_arith)
                requires
                    x == q * y + r,
                    r == kr * d,
                    y == ky * d,
            ;
        }
    }
}

/// The greatest common divisor of two numbers that are not both zero, by Euclid's algorithm.
pub fn gcd(a: u128, b: u128) -> (g: u128)
    requires
        a > 0 || b > 0,
    ensures
        is_gcd(g as int, a as int, b as int),
{
    let mut x: u128 = a;
    let mut y: u128 = b;
    while y != 0
        invariant
            x > 0 || y > 0,
            forall|d: int|
                divides(d, x as int) && divides(d, y as int) <==> #[trigger] divides(d, a as int)
                    && divides(d, b as int),
        decreases y,
    {
        let rest: u128 = x % y;
        proof {
            assert forall|d: int|
                divides(d, y as int) && divides(d, rest as int) <==> #[trigger] divides(
                    d,
                    a as int,
                ) && divides(d, b as int) by {
                lemma_divides_rem(d, x as int, y as int);
            }
        }
        x = y;
        y = rest;
    }
    proof {
        assert forall|d: int| #[trigger]
            divides(d, x as int) <==> divides(d, a as int) && divides(d, b as int) by {
            assert(0 == 0 * d);
            assert(divides(d, 0));
        }
    }
    x
}

/// A fraction of two machine integers.
#[derive(Clone, Copy, Debug)]
pub struct Ratio {
    pub num: u128,
    pub den: u128,
}

impl View for Ratio {
    type V = Frac;

    open spec fn view(&self) -> Frac {
        Frac { num: self.num as int, den: self.den as int }
    }
}

impl Ratio {
    /// The fraction lies in the half-open unit interval and its denominator fits in 64 bits:
    /// what every sampler asks of a random input or of a coordinate to invert.
    pub open spec fn is_input(self) -> bool {
        self.num < self.den <= u64::MAX
    }

    /// The fraction `num / den`, provided the denominator is not zero.
    pub fn new(num: u128, den: u128) -> (r: Option<Ratio>)
        ensures
            den == 0 <==> r is None,
            r matches Some(q) ==> q.num == num && q.den == den,
    {
        if den == 0 {
            None
        } else {
            Some(Ratio { num, den })
        }
    }

    /// Whether the fraction can be handed to a sampler.
    pub fn check_input(&self) -> (r: bool)
        ensures
            r == self.is_input(),
    {
        self.num < self.den && self.den <= u64::MAX as u128
    }

    /// The same number in lowest terms: both parts divided by their greatest common divisor.
    pub fn reduce(&self) -> (r: Ratio)
        requires
            self.den > 0,
        ensures
            r@.same(self@),
            0 < r.den <= self.den,
            exists|g: int|
                is_gcd(g, self.num as int, self.den as int) && self.num == #[trigger] (r.num * g)
                    && self.den == r.den * g,
    {
        let g: u128 = gcd(self.num, self.den);
        proof {
            assert(divides(g as int, g as int)) by {
                assert(g == 1 * g);
            }
            let kn = choose|k: int| self.num == #[trigger] (k * g);
            let kd = choose|k: int| self.den == #[trigger] (k * g);
            lemma_div_unique(self.num as int, g as int, kn, 0);
            lemma_div_unique(self.den as int, g as int, kd, 0);
            assert((kn * self.den) == (self.num * kd)) by (nonlinear_arith)
                requires
                    self.num == kn * g,
                    self.den == kd * g,
            ;
            assert(0 < kd <= self.den) by (nonlinear_arith)
                requires
                    self.den == kd * g,
                    self.den > 0,
                    g > 0,
            ;
        }
        Ratio { num: self.num / g, den: self.den / g }
    }

    /// Whether both fractions denote the same number.
    pub fn same_value(&self, other: &Ratio) -> (r: bool)
        ensures
            r == self@.same(other@),
    {
        let left: (u128, u128) = mul_wide(self.num, other.den);
        let right: (u128, u128) = mul_wide(other.num, self.den);
        left.0 == right.0 && left.1 == right.1
    }

    /// Whether this fraction denotes a smaller number than `other`.
    pub fn less_than(&self, other: &Ratio) -> (r: bool)
        ensures
            r == self@.below(other@),
    {
        let left: (u128, u128) = mul_wide(self.num, other.den);
        let right: (u128, u128) = mul_wide(other.num, self.den);
        left.0 < right.0 || (left.0 == right.0 && left.1 < right.1)
    }

    /// The integer part of the fraction multiplied by `n`, for a fraction that is at most one.
    ///
    /// The product is never formed: the quotient is built from the binary digits of `n`, so no
    /// intermediate value leaves 128 bits.
    pub fn floor_mul(&self, n: u64) -> (r: u64)
        requires
            self.num <= self.den,
            self.den > 0,
        ensures
            r == self@.floor_times(n as int),
            r <= n,
            self.num < self.den && n > 0 ==> r < n,
    {
        let num: u128 = self.num;
        let den: u128 = self.den;
        // quot * den + rem == num * low, where low is made of the digits of n seen so far
        let mut quot: u128 = 0;
        let mut rem: u128 = 0;
        // step_q * den + step_r == num * weight, where weight is the value of the next digit
        let mut step_q: u128 = if num == den {
            1
        } else {
            0
        };
        let mut step_r: u128 = if num == den {
            0
        } else {
            num
        };
        let mut rest: u64 = n;
        let ghost mut weight: int = 1;
        let ghost mut low: int = 0;
        while rest > 0
            invariant
                num <= den,
                den > 0,
                num == self.num,
                den == self.den,
                weight >= 1,
                0 <= low < weight,
                n == rest * weight + low,
                quot * den + rem == num * low,
                rem < den,
                step_q * den + step_r == num * weight,
                step_r < den,
                quot <= low,
                step_q <= weight,
                rest > 0 ==> weight <= n,
            decreases rest,
        {
            let digit: u64 = rest % 2;
            let ghost old_low = low;
            let ghost old_weight = weight;
            let ghost old_rest = rest;
            let ghost old_quot = quot;
            let ghost old_rem = rem;
            let ghost old_step_q = step_q;
            let ghost old_step_r = step_r;
            proof {
                assert(rest * weight >= weight) by (nonlinear_arith)
                    requires
                        rest >= 1,
                        weight >= 1,
                ;
            }
            if digit == 1 {
                if rem >= den - step_r {
                    quot = quot + step_q + 1;
                    rem = rem - (den - step_r);
                } else {
                    quot = quot + step_q;
                    rem = rem + step_r;
                }
                proof {
                    low = low + weight;
                    assert(quot * den + rem == num * low) by (nonlinear_arith)
                        requires
                            old_quot * den + old_rem == num * old_low,
                            old_step_q * den + old_step_r == num * old_weight,
                            low == old_low + old_weight,
                            (quot == old_quot + old_step_q + 1 && rem == old_rem + old_step_r - den)
                                || (quot == old_quot + old_step_q && rem == old_rem + old_step_r),
                    ;
                    assert(quot <= low) by (nonlinear_arith)
                        requires
                            quot * den + rem == num * low,
                            0 <= num <= den,
                            0 < den,
                            0 <= rem,
                            0 <= quot,
                            0 <= low,
                    ;
                }
            }
            if step_r >= den - step_r {
                step_q = step_q + step_q + 1;
                step_r = step_r - (den - step_r);
            } else {
                step_q = step_q + step_q;
                step_r = step_r + step_r;
            }
            rest = rest / 2;
            proof {
                weight = weight + weight;
                assert(step_q * den + step_r == num * weight) by (nonlinear_arith)
                    requires
                        old_step_q * den + old_step_r == num * old_weight,
                        weight == 2 * old_weight,
                        (step_q == 2 * old_step_q + 1 && step_r == 2 * old_step_r - den)
                            || (step_q == 2 * old_step_q && step_r == 2 * old_step_r),
                ;
                assert(step_q <= weight) by (nonlinear_arith)
                    requires
                        step_q * den + step_r == num * weight,
                        0 <= num <= den,
                        0 < den,
                        0 <= step_r,
                        0 <= step_q,
                        0 <= weight,
                ;
                assert(n == rest * weight + low) by (nonlinear_arith)
                    requires
                        n == old_rest * old_weight + old_low,
                        old_rest == 2 * rest + digit,
                        weight == 2 * old_weight,
                        (digit == 0 && low == old_low) || (digit == 1 && low == old_low
                            + old_weight),
                ;
                if rest > 0 {
                    assert(rest * weight >= weight) by (nonlinear_arith)
                        requires
                            rest >= 1,
                            weight >= 1,
                    ;
                }
            }
        }
        proof {
            assert(low == n);
            assert(num * n == quot * den + rem);
            lemma_div_unique(num * n, den as int, quot as int, rem as int);
            if n > 0 && num < den {
                assert(quot < n) by (nonlinear_arith)
                    requires
                        quot * den + rem == num * n,
                        0 <= num < den,
                        0 <= rem,
                        0 <= quot,
                        0 < n,
                ;
            }
        }
        quot as u64
    }
}

} // verus!
