use discrete_sampling::distribution::Discrete1D;
use discrete_sampling::fixed::{to_fixed, ONE};
use discrete_sampling::reservoir::Reservoir;
use discrete_sampling::{Ratio, Reservoir1D};

#[test]
fn to_fixed_scales_and_rounds_down() {
    assert_eq!(ONE, 1 << 63);
    assert_eq!(to_fixed(Ratio { num: 0, den: 1 }), 0);
    assert_eq!(to_fixed(Ratio { num: 1, den: 2 }), 1 << 62);
    assert_eq!(to_fixed(Ratio { num: 3, den: 4 }), 3 << 61);
    assert_eq!(to_fixed(Ratio { num: 1, den: 3 }), ((1u128 << 63) / 3) as u64);
}

#[test]
fn reservoir_empty_holds_nothing() {
    let r: Reservoir<usize> = Reservoir::empty(17);
    assert!(r.selected.is_none());
    assert_eq!(r.weight_sum, 0);
    assert_eq!(r.rand, 17);
}

#[test]
fn reservoir_first_candidate_is_taken() {
    let mut r: Reservoir<u8> = Reservoir::empty(1 << 62);
    r.update(7, 4);
    assert_eq!(r.selected, Some(7));
    assert_eq!(r.weight_sum, 4);
    assert_eq!(r.rand, 1 << 62);
}

#[test]
fn reservoir_keeps_candidate_when_number_is_high() {
    // one half against a share of one half for the newcomer: the number is not below it
    let mut r: Reservoir<u8> = Reservoir::empty(1 << 62);
    r.update(0, 4);
    r.update(1, 4);
    assert_eq!(r.selected, Some(0));
    assert_eq!(r.weight_sum, 8);
    // (0.5 * 8 - 4) / 4 = 0
    assert_eq!(r.rand, 0);
}

#[test]
fn reservoir_replaces_candidate_when_number_is_low() {
    // one quarter lies in the newcomer's share of one half, half way in
    let mut r: Reservoir<u8> = Reservoir::empty(1 << 61);
    r.update(0, 4);
    r.update(1, 4);
    assert_eq!(r.selected, Some(1));
    assert_eq!(r.weight_sum, 8);
    assert_eq!(r.rand, 1 << 62);
}

#[test]
fn reservoir_ignores_candidates_without_weight() {
    let mut r: Reservoir<u8> = Reservoir::empty(123);
    r.update(0, 0);
    assert!(r.selected.is_none());
    assert_eq!(r.weight_sum, 0);
    assert_eq!(r.rand, 123);
    r.update(1, 5);
    r.update(2, 0);
    assert_eq!(r.selected, Some(1));
    assert_eq!(r.weight_sum, 5);
    assert_eq!(r.rand, 123);
}

#[test]
fn reservoir_sample_two_weights() {
    let dist = Reservoir1D::build(&[1, 3]).unwrap();
    // the second weight takes the numbers below its share of three quarters
    assert_eq!(dist.sample(Ratio { num: 0, den: 1 }), 1);
    assert_eq!(dist.sample(Ratio { num: 74, den: 100 }), 1);
    assert_eq!(dist.sample(Ratio { num: 3, den: 4 }), 0);
    assert_eq!(dist.sample(Ratio { num: 99, den: 100 }), 0);
}

#[test]
fn reservoir_first_weight_zero() {
    let dist = Reservoir1D::build(&[0, 2, 0]).unwrap();
    for t in 0..100u128 {
        assert_eq!(dist.sample(Ratio { num: t, den: 100 }), 1);
    }
}
