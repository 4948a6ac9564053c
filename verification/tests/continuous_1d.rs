use discrete_sampling::distribution::{Continuous1D, Discrete1D};
use discrete_sampling::{ContinuousAlias1D, Hierarchical1D, Inversion1D, Ratio};

fn float(r: &Ratio) -> f64 {
    r.num as f64 / r.den as f64
}

fn increasing() -> Vec<u64> {
    (0..100).map(|i| 5 * (i + 1)).collect()
}

fn surjective<D: Continuous1D>() {
    let dist = D::build(&[1; 1_000]).unwrap();
    let sample_count = 1000;
    let mut values = Vec::with_capacity(sample_count);
    for i in 0..sample_count {
        let x = dist.sample_continuous(Ratio { num: i as u128, den: sample_count as u128 });
        values.push(float(&x));
    }
    values.sort_by(|a, b| a.partial_cmp(b).unwrap());

    let mut last = values[0];
    for i in 1..sample_count {
        let current = values[i];
        assert!((last - current).abs() <= (1.0 / sample_count as f64) * 1.001);
        last = current;
    }
    let max = values[sample_count - 1];
    let min = values[0];
    assert!((1.0 - max).abs() < 0.01);
    assert!((0.0 - min).abs() < 0.01);
}

fn injective<D: Continuous1D>() {
    let dist = D::build(&[1, 1, 2, 4, 8]).unwrap();
    let sample_count = 1000;
    let mut values: Vec<Ratio> = Vec::with_capacity(sample_count);
    for i in 0..sample_count {
        values.push(dist.sample_continuous(Ratio { num: i as u128, den: sample_count as u128 }));
    }
    values.sort_by(|a, b| {
        if a.less_than(b) {
            std::cmp::Ordering::Less
        } else if b.less_than(a) {
            std::cmp::Ordering::Greater
        } else {
            std::cmp::Ordering::Equal
        }
    });
    for i in 1..sample_count {
        assert!(!values[i - 1].same_value(&values[i]));
        assert!(values[i - 1].less_than(&values[i]));
    }
}

/// A sampled coordinate whose denominator has outgrown 64 bits can be inverted once it is
/// reduced to lowest terms.
fn inverse_after_reduce<D: Continuous1D>() {
    let dist = D::build(&[1 << 20, 3 << 20, 1 << 22]).unwrap();
    let den: u128 = 1 << 44;
    for t in [0u128, 1, 12345, 1 << 43, den - 1] {
        let u = Ratio { num: t, den };
        let y = dist.sample_continuous(u);
        assert!(y.den > u64::MAX as u128);
        let small = y.reduce();
        assert!(small.same_value(&y));
        assert!(small.check_input());
        assert!(dist.inverse_continuous(small).same_value(&u));
    }
}

fn test_inv_1d<D: Continuous1D>(weights: &[u64], sample_count: usize) {
    let dist = D::build(weights).unwrap();
    for i in 0..sample_count {
        let x = Ratio { num: i as u128, den: sample_count as u128 };
        let y = dist.sample_continuous(x);
        assert!(y.num < y.den && y.den <= u64::MAX as u128);
        let inv = dist.inverse_continuous(y);
        assert!(
            (float(&inv) - float(&x)).abs() < 0.01,
            "{} does not come back: the inverse is {} for the sample {}",
            float(&x),
            float(&inv),
            float(&y)
        );
        assert!(inv.same_value(&x));
    }
}

fn test_continuous_discrete_matching_1d<D: Continuous1D>(weights: &[u64], sample_count: usize) {
    let dist = D::build(weights).unwrap();
    for i in 0..sample_count {
        let input = Ratio { num: i as u128, den: sample_count as u128 };
        let output_discrete = dist.sample(input);
        let output_continuous = dist.sample_continuous(input);
        assert!(output_continuous.num < output_continuous.den);
        assert_eq!(output_continuous.floor_mul(dist.size() as u64) as usize, output_discrete);
    }
}

/// Every coordinate in a cell with weight is the image of the number that inverting it gives.
fn onto<D: Continuous1D>(weights: &[u64], sample_count: usize) {
    let dist = D::build(weights).unwrap();
    for i in 0..sample_count {
        let y = Ratio { num: i as u128, den: sample_count as u128 };
        let cell = y.floor_mul(dist.size() as u64) as usize;
        let u = dist.inverse_continuous(y);
        assert!(u.num <= u.den);
        if weights[cell] > 0 {
            assert!(u.num < u.den && u.den <= u64::MAX as u128);
            assert_eq!(dist.sample(u), cell);
            assert!(dist.sample_continuous(u).same_value(&y));
        }
    }
}

#[test]
fn inversion_inverse_after_reduce() {
    inverse_after_reduce::<Inversion1D>();
}

#[test]
fn hierarchical_inverse_after_reduce() {
    inverse_after_reduce::<Hierarchical1D>();
}

#[test]
fn continuous_alias_many_moderate_weights_round_trip() {
    let weights: Vec<u64> = (0..50_000u64).map(|i| 1 + (i % 7) * 100_000).collect();
    let dist = ContinuousAlias1D::build(&weights).unwrap();
    for t in 0..2000u128 {
        let u = Ratio { num: t, den: 2000 };
        let y = dist.sample_continuous(u);
        assert_eq!(y.floor_mul(50_000) as usize, dist.sample(u));
        let small = y.reduce();
        assert!(small.check_input());
        assert!(dist.inverse_continuous(small).same_value(&u));
    }
}

#[test]
fn inversion_surjective() {
    surjective::<Inversion1D>();
}

#[test]
fn inversion_injective() {
    injective::<Inversion1D>();
}

#[test]
fn inversion_inverse_uniform() {
    test_inv_1d::<Inversion1D>(&[1; 1_000], 1000);
}

#[test]
fn inversion_inverse_basic() {
    test_inv_1d::<Inversion1D>(&[1, 2, 4, 8], 1000);
}

#[test]
fn inversion_inverse_increasing() {
    test_inv_1d::<Inversion1D>(&increasing(), 1000);
}

#[test]
fn inversion_continuous_discrete_matching_uniform() {
    test_continuous_discrete_matching_1d::<Inversion1D>(&[1; 1_000], 1024);
}

#[test]
fn inversion_continuous_discrete_matching_basic() {
    test_continuous_discrete_matching_1d::<Inversion1D>(&[1, 1, 2, 4, 8], 1024);
}

#[test]
fn inversion_continuous_discrete_matching_increasing() {
    test_continuous_discrete_matching_1d::<Inversion1D>(&increasing(), 1024);
}

#[test]
fn inversion_onto() {
    onto::<Inversion1D>(&[1, 1, 2, 4, 8], 1000);
    onto::<Inversion1D>(&[0, 3, 0, 5, 0], 1000);
}

#[test]
fn continuous_alias_surjective() {
    surjective::<ContinuousAlias1D>();
}

#[test]
fn continuous_alias_injective() {
    injective::<ContinuousAlias1D>();
}

#[test]
fn continuous_alias_inverse_uniform() {
    test_inv_1d::<ContinuousAlias1D>(&[1; 1_000], 1000);
}

#[test]
fn continuous_alias_inverse_basic() {
    test_inv_1d::<ContinuousAlias1D>(&[1, 2, 4, 8], 1000);
}

#[test]
fn continuous_alias_inverse_increasing() {
    test_inv_1d::<ContinuousAlias1D>(&increasing(), 1000);
}

#[test]
fn continuous_alias_continuous_discrete_matching_uniform() {
    test_continuous_discrete_matching_1d::<ContinuousAlias1D>(&[1; 1_000], 1024);
}

#[test]
fn continuous_alias_continuous_discrete_matching_basic() {
    test_continuous_discrete_matching_1d::<ContinuousAlias1D>(&[1, 1, 2, 4, 8], 1024);
}

#[test]
fn continuous_alias_continuous_discrete_matching_increasing() {
    test_continuous_discrete_matching_1d::<ContinuousAlias1D>(&increasing(), 1024);
}

#[test]
fn continuous_alias_onto() {
    onto::<ContinuousAlias1D>(&[1, 1, 2, 4, 8], 1000);
    onto::<ContinuousAlias1D>(&[0, 3, 0, 5, 0], 1000);
}

#[test]
fn hierarchical_surjective() {
    surjective::<Hierarchical1D>();
}

#[test]
fn hierarchical_injective() {
    injective::<Hierarchical1D>();
}

#[test]
fn hierarchical_inverse_uniform() {
    test_inv_1d::<Hierarchical1D>(&[1; 1_000], 1000);
}

#[test]
fn hierarchical_inverse_basic() {
    test_inv_1d::<Hierarchical1D>(&[1, 2, 4, 8], 1000);
}

#[test]
fn hierarchical_inverse_increasing() {
    test_inv_1d::<Hierarchical1D>(&increasing(), 1000);
}

#[test]
fn hierarchical_continuous_discrete_matching_uniform() {
    test_continuous_discrete_matching_1d::<Hierarchical1D>(&[1; 1_000], 1024);
}

#[test]
fn hierarchical_continuous_discrete_matching_basic() {
    test_continuous_discrete_matching_1d::<Hierarchical1D>(&[1, 1, 2, 4, 8], 1024);
}

#[test]
fn hierarchical_continuous_discrete_matching_increasing() {
    test_continuous_discrete_matching_1d::<Hierarchical1D>(&increasing(), 1024);
}

#[test]
fn hierarchical_onto() {
    onto::<Hierarchical1D>(&[1, 1, 2, 4, 8], 1000);
    onto::<Hierarchical1D>(&[0, 3, 0, 5, 0], 1000);
}

#[test]
fn hierarchical_continuous_maps_agree_with_inversion() {
    let weights = increasing();
    let tree = Hierarchical1D::build(&weights).unwrap();
    let table = Inversion1D::build(&weights).unwrap();
    for t in 0..1009u128 {
        let u = Ratio { num: t, den: 1009 };
        let a = tree.sample_continuous(u);
        let b = table.sample_continuous(u);
        assert_eq!((a.num, a.den), (b.num, b.den));
        let c = tree.inverse_continuous(u);
        let d = table.inverse_continuous(u);
        assert_eq!((c.num, c.den), (d.num, d.den));
    }
}
