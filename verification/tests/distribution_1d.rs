use discrete_sampling::distribution::{BuildError, Discrete1D};
use discrete_sampling::{Alias1D, ContinuousAlias1D, Hierarchical1D, Inversion1D, Ratio, Reservoir1D};
use rand::rngs::StdRng;
use rand::{Rng, SeedableRng};
use statrs::distribution::{ChiSquared, ContinuousCDF};

/// A random float of the unit interval as the exact fraction it stands for.
fn unit(x: f64) -> Ratio {
    let scale: u128 = 1 << 53;
    let num = (x * scale as f64) as u128;
    assert!(num < scale);
    Ratio { num, den: scale }
}

fn chisq_distribution_1d<D: Discrete1D>(expected: &[u64], sample_count: usize) {
    let dist = D::build(expected).unwrap();
    let mut observed = vec![0.0f64; expected.len()];
    let mut hist = vec![0usize; expected.len()];
    let mut rng = StdRng::seed_from_u64(0);

    for _ in 0..sample_count {
        let idx = dist.sample(unit(rng.gen::<f64>()));
        hist[idx] += 1;
    }

    for (weight, obs) in hist.iter().zip(observed.iter_mut()) {
        *obs = ((*weight as f64) / (sample_count as f64)) * dist.integral() as f64;
    }

    let mut chsq = 0.0;
    let dof = expected.len() - 1;
    for (obs, exp) in observed.iter().zip(expected.iter()) {
        let diff = *obs - *exp as f64;
        chsq += diff * diff / *exp as f64;
    }

    let pval = 1.0 - ChiSquared::new(dof as f64).unwrap().cdf(chsq);
    assert!(pval >= 0.99, "failed chi-squared statistical test, p = {}", pval);
}

fn increasing() -> Vec<u64> {
    (0..100).map(|i| 5 * (i + 1)).collect()
}

/// Draws with every number `t / (n * integral)` once and counts what each index gets: with
/// exact arithmetic these counts are `n` times the weights.
fn exhaustive_counts<D: Discrete1D>(weights: &[u64]) {
    let dist = D::build(weights).unwrap();
    let n = weights.len() as u128;
    let den = n * dist.integral() as u128;
    let mut hist = vec![0u128; weights.len()];
    for t in 0..den {
        hist[dist.sample(Ratio { num: t, den })] += 1;
    }
    for (count, weight) in hist.iter().zip(weights.iter()) {
        assert_eq!(*count, n * *weight as u128);
    }
}

fn pdf_matches_weights<D: Discrete1D>(weights: &[u64]) {
    let dist = D::build(weights).unwrap();
    assert_eq!(dist.size(), weights.len());
    assert_eq!(dist.integral(), weights.iter().sum::<u64>());
    for (i, weight) in weights.iter().enumerate() {
        assert_eq!(dist.pdf(i), *weight);
    }
}

fn never_samples_zero_weight<D: Discrete1D>() {
    let weights = [0u64, 3, 0, 0, 5, 1, 0];
    let dist = D::build(&weights).unwrap();
    for t in 0..997u128 {
        let idx = dist.sample(Ratio { num: t, den: 997 });
        assert!(idx < weights.len());
        assert!(weights[idx] > 0);
    }
}

fn rejects_bad_weights<D: Discrete1D>() {
    assert_eq!(D::build(&[]).err(), Some(BuildError::Empty));
    assert_eq!(D::build(&[0, 0, 0]).err(), Some(BuildError::ZeroIntegral));
    assert_eq!(D::build(&[u64::MAX, 1]).err(), Some(BuildError::TooLarge));
    assert_eq!(D::build(&[1 << 63, 0]).err(), Some(BuildError::TooLarge));
    assert!(D::build(&[u64::MAX]).is_ok() || D::build(&[u64::MAX]).err() == Some(BuildError::TooLarge));
    assert!(D::build(&[1]).is_ok());
}

#[test]
fn inversion_basic() {
    chisq_distribution_1d::<Inversion1D>(&[1, 1, 2, 4, 8], 10_000);
}

#[test]
fn inversion_uniform() {
    chisq_distribution_1d::<Inversion1D>(&[1; 10_000], 1_000_000);
}

#[test]
fn inversion_increasing() {
    chisq_distribution_1d::<Inversion1D>(&increasing(), 100_000);
}

#[test]
fn inversion_exhaustive_counts() {
    exhaustive_counts::<Inversion1D>(&[1, 1, 2, 4, 8]);
    exhaustive_counts::<Inversion1D>(&[3, 0, 5, 0]);
}

#[test]
fn inversion_pdf_matches_weights() {
    pdf_matches_weights::<Inversion1D>(&[1, 1, 2, 4, 8]);
    pdf_matches_weights::<Inversion1D>(&increasing());
    pdf_matches_weights::<Inversion1D>(&[0, 7, 0]);
}

#[test]
fn inversion_never_samples_zero_weight() {
    never_samples_zero_weight::<Inversion1D>();
}

#[test]
fn inversion_rejects_bad_weights() {
    rejects_bad_weights::<Inversion1D>();
    assert!(Inversion1D::build(&[u64::MAX]).is_ok());
}

#[test]
fn alias_basic() {
    chisq_distribution_1d::<Alias1D>(&[1, 1, 2, 4, 8], 10_000);
}

#[test]
fn alias_thousand_samples() {
    chisq_distribution_1d::<Alias1D>(&[1, 1, 2, 4, 8], 1000);
}

#[test]
fn alias_uniform() {
    chisq_distribution_1d::<Alias1D>(&[1; 10_000], 1_000_000);
}

#[test]
fn alias_increasing() {
    chisq_distribution_1d::<Alias1D>(&increasing(), 100_000);
}

#[test]
fn alias_exhaustive_counts() {
    exhaustive_counts::<Alias1D>(&[1, 1, 2, 4, 8]);
    exhaustive_counts::<Alias1D>(&[3, 0, 5, 0]);
    exhaustive_counts::<Alias1D>(&[7]);
    exhaustive_counts::<Alias1D>(&[1, 2, 3, 4, 5, 6, 7, 8, 9]);
}

#[test]
fn alias_pdf_matches_weights() {
    pdf_matches_weights::<Alias1D>(&[1, 1, 2, 4, 8]);
    pdf_matches_weights::<Alias1D>(&increasing());
    pdf_matches_weights::<Alias1D>(&[0, 7, 0]);
}

#[test]
fn alias_never_samples_zero_weight() {
    never_samples_zero_weight::<Alias1D>();
}

#[test]
fn alias_rejects_bad_weights() {
    rejects_bad_weights::<Alias1D>();
}

#[test]
fn continuous_alias_basic() {
    chisq_distribution_1d::<ContinuousAlias1D>(&[1, 1, 2, 4, 8], 10_000);
}

#[test]
fn continuous_alias_uniform() {
    chisq_distribution_1d::<ContinuousAlias1D>(&[1; 10_000], 1_000_000);
}

#[test]
fn continuous_alias_increasing() {
    chisq_distribution_1d::<ContinuousAlias1D>(&increasing(), 100_000);
}

#[test]
fn continuous_alias_exhaustive_counts() {
    exhaustive_counts::<ContinuousAlias1D>(&[1, 1, 2, 4, 8]);
    exhaustive_counts::<ContinuousAlias1D>(&[3, 0, 5, 0]);
    exhaustive_counts::<ContinuousAlias1D>(&[1, 2, 3, 4, 5, 6, 7, 8, 9]);
}

#[test]
fn continuous_alias_pdf_matches_weights() {
    pdf_matches_weights::<ContinuousAlias1D>(&[1, 1, 2, 4, 8]);
    pdf_matches_weights::<ContinuousAlias1D>(&increasing());
    pdf_matches_weights::<ContinuousAlias1D>(&[0, 7, 0]);
}

#[test]
fn continuous_alias_never_samples_zero_weight() {
    never_samples_zero_weight::<ContinuousAlias1D>();
}

#[test]
fn continuous_alias_rejects_bad_weights() {
    rejects_bad_weights::<ContinuousAlias1D>();
    // the square of the number of weights times the integral must fit in 64 bits
    assert_eq!(ContinuousAlias1D::build(&[1 << 62, 0]).err(), Some(BuildError::TooLarge));
    assert!(ContinuousAlias1D::build(&[1 << 61, 0]).is_ok());
}

#[test]
fn continuous_alias_takes_many_moderate_weights() {
    // the limit is on the heaviest weight, not on the integral
    let weights = vec![1_000_000u64; 100_000];
    let dist = ContinuousAlias1D::build(&weights).unwrap();
    assert_eq!(dist.integral(), 100_000_000_000);
    assert_eq!(dist.pdf(99_999), 1_000_000);
    for t in 0..1000u128 {
        assert_eq!(dist.sample(Ratio { num: t, den: 1000 }) as u128, t * 100);
    }
    let mut heavy = weights.clone();
    heavy[7] = 1 << 40;
    assert_eq!(ContinuousAlias1D::build(&heavy).err(), Some(BuildError::TooLarge));
}

#[test]
fn continuous_alias_rejects_too_many_entries() {
    let weights = vec![1u64; 2_000_000];
    assert_eq!(ContinuousAlias1D::build(&weights).err(), Some(BuildError::TooManyEntries));
    assert!(ContinuousAlias1D::build(&weights[..1_999_999]).is_ok());
}

#[test]
fn hierarchical_basic() {
    chisq_distribution_1d::<Hierarchical1D>(&[1, 1, 2, 4, 8], 10_000);
}

#[test]
fn hierarchical_uniform() {
    chisq_distribution_1d::<Hierarchical1D>(&[1; 10_000], 1_000_000);
}

#[test]
fn hierarchical_increasing() {
    chisq_distribution_1d::<Hierarchical1D>(&increasing(), 100_000);
}

#[test]
fn hierarchical_exhaustive_counts() {
    exhaustive_counts::<Hierarchical1D>(&[1, 1, 2, 4, 8]);
    exhaustive_counts::<Hierarchical1D>(&[3, 0, 5, 0]);
    exhaustive_counts::<Hierarchical1D>(&[7]);
    exhaustive_counts::<Hierarchical1D>(&[1, 2]);
    exhaustive_counts::<Hierarchical1D>(&[1, 2, 3, 4, 5, 6, 7, 8, 9]);
}

#[test]
fn hierarchical_pdf_matches_weights() {
    pdf_matches_weights::<Hierarchical1D>(&[1, 1, 2, 4, 8]);
    pdf_matches_weights::<Hierarchical1D>(&increasing());
    pdf_matches_weights::<Hierarchical1D>(&[0, 7, 0]);
}

#[test]
fn hierarchical_never_samples_zero_weight() {
    never_samples_zero_weight::<Hierarchical1D>();
}

#[test]
fn hierarchical_rejects_bad_weights() {
    rejects_bad_weights::<Hierarchical1D>();
}

#[test]
fn hierarchical_agrees_with_inversion() {
    let weights = increasing();
    let tree = Hierarchical1D::build(&weights).unwrap();
    let table = Inversion1D::build(&weights).unwrap();
    for t in 0..10_007u128 {
        let u = Ratio { num: t, den: 10_007 };
        assert_eq!(tree.sample(u), table.sample(u));
    }
}

#[test]
fn reservoir_basic() {
    chisq_distribution_1d::<Reservoir1D>(&[1, 1, 2, 4, 8], 10_000);
}

#[test]
fn reservoir_uniform() {
    // every draw passes over all the weights: fewer draws than for the other samplers
    chisq_distribution_1d::<Reservoir1D>(&[1; 10_000], 20_000);
}

#[test]
fn reservoir_uniform_short() {
    chisq_distribution_1d::<Reservoir1D>(&[1; 100], 1_000_000);
}

#[test]
fn reservoir_increasing() {
    chisq_distribution_1d::<Reservoir1D>(&increasing(), 100_000);
}

#[test]
fn reservoir_pdf_matches_weights() {
    pdf_matches_weights::<Reservoir1D>(&[1, 1, 2, 4, 8]);
    pdf_matches_weights::<Reservoir1D>(&increasing());
    pdf_matches_weights::<Reservoir1D>(&[0, 7, 0]);
}

#[test]
fn reservoir_never_samples_zero_weight() {
    never_samples_zero_weight::<Reservoir1D>();
}

#[test]
fn reservoir_rejects_bad_weights() {
    rejects_bad_weights::<Reservoir1D>();
}
