use discrete_sampling::distribution::{Continuous1D, Discrete1D};
use discrete_sampling::{Inversion1D, Ratio};

fn ratio(num: u128, den: u128) -> Ratio {
    Ratio::new(num, den).unwrap()
}

#[test]
fn inversion_cdf_is_normalised_prefix_sum() {
    let dist = Inversion1D::build(&[2, 2, 4]).unwrap();
    assert!(dist.cdf(0).same_value(&ratio(0, 1)));
    assert!(dist.cdf(1).same_value(&ratio(1, 4)));
    assert!(dist.cdf(2).same_value(&ratio(1, 2)));
    assert!(dist.cdf(3).same_value(&ratio(1, 1)));
    assert_eq!(dist.integral(), 8);
    assert_eq!(dist.pdf(0), 2);
    assert_eq!(dist.pdf(1), 2);
    assert_eq!(dist.pdf(2), 4);
}

#[test]
fn inversion_sample_scenario() {
    let dist = Inversion1D::build(&[2, 2, 4]).unwrap();
    assert_eq!(dist.sample(ratio(3, 10)), 1);
    assert_eq!(dist.sample(ratio(6, 10)), 2);
}

#[test]
fn inversion_sample_edges() {
    let dist = Inversion1D::build(&[2, 2, 4]).unwrap();
    assert_eq!(dist.sample(ratio(0, 1)), 0);
    assert_eq!(dist.sample(ratio(u64::MAX as u128 - 1, u64::MAX as u128)), 2);
    // a number on the edge of two buckets belongs to the later one
    assert_eq!(dist.sample(ratio(1, 4)), 1);
    assert_eq!(dist.sample(ratio(1, 2)), 2);
    assert_eq!(dist.sample(ratio(249, 1000)), 0);
    assert_eq!(dist.sample(ratio(499, 1000)), 1);
}

#[test]
fn inversion_sample_continuous_interpolates() {
    let dist = Inversion1D::build(&[2, 2, 4]).unwrap();
    // 0.3 of the integral 8 is 2.4: 0.2 into the second weight, so (1 + 0.2) / 3
    let y = dist.sample_continuous(ratio(3, 10));
    assert_eq!((y.num, y.den), (24, 60));
    assert!(y.same_value(&ratio(2, 5)));
    // 0.75 of 8 is 6: half way into the third weight, so (2 + 0.5) / 3
    assert!(dist.sample_continuous(ratio(3, 4)).same_value(&ratio(5, 6)));
    assert!(dist.sample_continuous(ratio(0, 1)).same_value(&ratio(0, 1)));
}

#[test]
fn inversion_inverse_continuous_interpolates() {
    let dist = Inversion1D::build(&[2, 2, 4]).unwrap();
    let u = dist.inverse_continuous(ratio(2, 5));
    assert!(u.same_value(&ratio(3, 10)));
    assert!(dist.inverse_continuous(ratio(5, 6)).same_value(&ratio(3, 4)));
    assert!(dist.inverse_continuous(ratio(0, 1)).same_value(&ratio(0, 1)));
    // the middle of the first cell is half of the first weight
    assert!(dist.inverse_continuous(ratio(1, 6)).same_value(&ratio(1, 8)));
}

#[test]
fn inversion_inverse_of_cell_without_weight_is_flat() {
    let dist = Inversion1D::build(&[3, 0, 1]).unwrap();
    let low = dist.inverse_continuous(ratio(1, 3));
    let mid = dist.inverse_continuous(ratio(1, 2));
    let high = dist.inverse_continuous(ratio(599, 900));
    assert!(low.same_value(&ratio(3, 4)));
    assert!(mid.same_value(&ratio(3, 4)));
    assert!(high.same_value(&ratio(3, 4)));
    // behind the last weight the inverse reaches one
    let end = Inversion1D::build(&[1, 0]).unwrap();
    assert!(end.inverse_continuous(ratio(3, 4)).same_value(&ratio(1, 1)));
}
