//! Numbers of the unit interval kept to 63 binary places.
//!
//! Where a random number is rescaled again and again, its exact value would need ever more
//! digits. The samplers that do so keep it in this scale and round down.

use vstd::prelude::*;
use crate::arith::{lemma_div_parts, lemma_mul_le, lemma_mul_lt};
use crate::ratio::{Frac, Ratio};

verus! {

/// The number one in the fixed-point scale: two to the power 63.
pub const ONE: u64 = 0x8000_0000_0000_0000;

/// The number `u` of the unit interval in the fixed-point scale, rounded down.
pub open spec fn fixed(u: Frac) -> int {
    (u.num * ONE) / u.den
}

/// A number of the unit interval is below one in the fixed-point scale.
pub proof fn lemma_fixed(u: Frac)
    requires
        u.is_unit(),
    ensures
        0 <= fixed(u) < ONE,
{
    lemma_mul_le(0, u.num, 0, ONE as int);
    lemma_div_parts(u.num * ONE, u.den);
    lemma_mul_lt(u.num, u.den, ONE as int);
    assert(fixed(u) < ONE) by (nonlinear_arith)
        requires
            u.num * ONE == fixed(u) * u.den + (u.num * ONE) % u.den,
            (u.num * ONE) % u.den >= 0,
            u.num * ONE < u.den * ONE,
            u.den > 0,
    ;
}

/// The number `u` in the fixed-point scale.
pub fn to_fixed(u: Ratio) -> (r: u64)
    requires
        u.is_input(),
    ensures
        r == fixed(u@),
        r < ONE,
{
    proof {
        lemma_fixed(u@);
        lemma_mul_le(u.num as int, u64::MAX as int, ONE as int, ONE as int);
    }
    ((u.num * (ONE as u128)) / u.den) as u64
}

} // verus!
