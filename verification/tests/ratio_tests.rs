use discrete_sampling::ratio::{gcd, mul_wide, Ratio};
use discrete_sampling::utils::{lerp, radical_inverse, u64_to_color, Sum};

fn ratio(num: u128, den: u128) -> Ratio {
    Ratio::new(num, den).unwrap()
}

#[test]
fn ratio_new_rejects_zero_denominator() {
    assert!(Ratio::new(1, 0).is_none());
    let r = Ratio::new(3, 4).unwrap();
    assert_eq!(r.num, 3);
    assert_eq!(r.den, 4);
}

#[test]
fn check_input_wants_unit_interval_and_narrow_denominator() {
    assert!(ratio(0, 1).check_input());
    assert!(ratio(3, 4).check_input());
    assert!(!ratio(4, 4).check_input());
    assert!(!ratio(5, 4).check_input());
    assert!(ratio(1, u64::MAX as u128).check_input());
    assert!(!ratio(1, u64::MAX as u128 + 1).check_input());
}

#[test]
fn gcd_is_greatest_common_divisor() {
    assert_eq!(gcd(12, 18), 6);
    assert_eq!(gcd(18, 12), 6);
    assert_eq!(gcd(7, 13), 1);
    assert_eq!(gcd(0, 5), 5);
    assert_eq!(gcd(5, 0), 5);
    assert_eq!(gcd(1 << 100, 1 << 70), 1 << 70);
    assert_eq!(gcd(u128::MAX, u128::MAX), u128::MAX);
}

#[test]
fn reduce_gives_lowest_terms() {
    let r = ratio(24, 60).reduce();
    assert_eq!((r.num, r.den), (2, 5));
    let z = ratio(0, 9).reduce();
    assert_eq!((z.num, z.den), (0, 1));
    let p = ratio(7, 13).reduce();
    assert_eq!((p.num, p.den), (7, 13));
    let big = ratio(3 << 100, 4 << 100).reduce();
    assert_eq!((big.num, big.den), (3, 4));
    assert!(big.check_input());
}

#[test]
fn mul_wide_small_products() {
    assert_eq!(mul_wide(0, 0), (0, 0));
    assert_eq!(mul_wide(7, 6), (0, 42));
    assert_eq!(mul_wide(u128::MAX, 1), (0, u128::MAX));
}

#[test]
fn mul_wide_carries_into_high_word() {
    // 2^64 * 2^64 = 2^128
    assert_eq!(mul_wide(1 << 64, 1 << 64), (1, 0));
    // (2^128 - 1)^2 = 2^256 - 2^129 + 1
    assert_eq!(mul_wide(u128::MAX, u128::MAX), (u128::MAX - 1, 1));
    // (2^127) * 6 = 3 * 2^128
    assert_eq!(mul_wide(1 << 127, 6), (3, 0));
    // (2^64 + 1) * (2^64 + 1) = 2^128 + 2^65 + 1
    assert_eq!(mul_wide((1 << 64) + 1, (1 << 64) + 1), (1, (1 << 65) + 1));
}

#[test]
fn same_value_compares_numbers_not_digits() {
    assert!(ratio(1, 2).same_value(&ratio(2, 4)));
    assert!(ratio(2, 8).same_value(&ratio(1, 4)));
    assert!(!ratio(1, 2).same_value(&ratio(2, 5)));
    assert!(ratio(0, 7).same_value(&ratio(0, 3)));
    let big = u128::MAX - 1;
    assert!(ratio(big / 2, big).same_value(&ratio(1, 2)));
    assert!(!ratio(big / 2 - 1, big).same_value(&ratio(1, 2)));
}

#[test]
fn less_than_orders_numbers() {
    assert!(ratio(1, 3).less_than(&ratio(1, 2)));
    assert!(!ratio(1, 2).less_than(&ratio(1, 3)));
    assert!(!ratio(2, 4).less_than(&ratio(1, 2)));
    let big = u128::MAX;
    assert!(ratio(big - 2, big).less_than(&ratio(big - 1, big)));
    assert!(!ratio(big - 1, big).less_than(&ratio(big - 2, big)));
}

#[test]
fn floor_mul_takes_integer_part() {
    assert_eq!(ratio(3, 10).floor_mul(5), 1);
    assert_eq!(ratio(0, 10).floor_mul(5), 0);
    assert_eq!(ratio(9, 10).floor_mul(10), 9);
    assert_eq!(ratio(1, 3).floor_mul(3), 1);
    assert_eq!(ratio(1, 3).floor_mul(2), 0);
    assert_eq!(ratio(7, 7).floor_mul(12), 12);
    assert_eq!(ratio(5, 8).floor_mul(0), 0);
    assert_eq!(ratio(1, 2).floor_mul(u64::MAX), u64::MAX / 2);
}

#[test]
fn floor_mul_survives_wide_denominators() {
    let den = u128::MAX;
    // just below one half
    assert_eq!(ratio(den / 2, den).floor_mul(1000), 499);
    assert_eq!(ratio(den - 1, den).floor_mul(u64::MAX), u64::MAX - 1);
    assert_eq!(ratio(den, den).floor_mul(u64::MAX), u64::MAX);
}

#[test]
fn lerp_mixes_both_ends() {
    // a quarter of the way from 4 to 12 is 6
    let r = lerp(ratio(1, 4), 4, 12);
    assert_eq!(r.den, 4);
    assert_eq!(r.num, 24);
    assert!(r.same_value(&ratio(6, 1)));
    assert!(lerp(ratio(0, 5), 3, 9).same_value(&ratio(3, 1)));
    assert!(lerp(ratio(5, 5), 3, 9).same_value(&ratio(9, 1)));
    assert!(lerp(ratio(1, 2), 9, 3).same_value(&ratio(6, 1)));
}

#[test]
fn sum_of_integers_is_exact() {
    assert_eq!(<u64 as Sum>::sum(&[]), Some(0));
    assert_eq!(<u64 as Sum>::sum(&[1, 1, 2, 4, 8]), Some(16));
    assert_eq!(<u64 as Sum>::sum(&[u64::MAX]), Some(u64::MAX));
    assert_eq!(<u64 as Sum>::sum(&[u64::MAX, 1]), None);
    assert_eq!(<u64 as Sum>::sum(&[1 << 63, 1 << 63]), None);
}

#[test]
fn radical_inverse_mirrors_digits() {
    // 6 = 110 in base two, mirrored 0.011 = 3/8
    let r = radical_inverse(0, 6);
    assert_eq!((r.num, r.den), (3, 8));
    // 1 in any base is one digit: 1/base
    assert_eq!((radical_inverse(0, 1).num, radical_inverse(0, 1).den), (1, 2));
    assert_eq!((radical_inverse(1, 1).num, radical_inverse(1, 1).den), (1, 3));
    assert_eq!((radical_inverse(2, 1).num, radical_inverse(2, 1).den), (1, 5));
    assert_eq!((radical_inverse(3, 1).num, radical_inverse(3, 1).den), (1, 7));
    assert_eq!((radical_inverse(4, 1).num, radical_inverse(4, 1).den), (1, 11));
    // 5 = 12 in base three, mirrored 0.21 = 7/9
    let t = radical_inverse(1, 5);
    assert_eq!((t.num, t.den), (7, 9));
    // zero has no digits
    let z = radical_inverse(0, 0);
    assert_eq!((z.num, z.den), (0, 1));
    // 8 = 1000 in base two, mirrored 0.0001 = 1/16
    let e = radical_inverse(0, 8);
    assert_eq!((e.num, e.den), (1, 16));
}

#[test]
fn radical_inverse_stays_below_one() {
    for a in [1u64, 2, 3, 10, 1000, u64::MAX / 3, u64::MAX] {
        for base_index in 0..5 {
            let r = radical_inverse(base_index, a);
            assert!(r.num < r.den);
        }
    }
}

#[test]
fn u64_to_color_uses_first_three_bases() {
    let c = u64_to_color(6);
    // base two: 110 -> 3/8; base three: 20 -> 0.02 = 2/9; base five: 11 -> 0.11 = 6/25
    assert_eq!((c[0].num, c[0].den), (3, 8));
    assert_eq!((c[1].num, c[1].den), (2, 9));
    assert_eq!((c[2].num, c[2].den), (6, 25));
}
