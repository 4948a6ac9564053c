use discrete_sampling::distribution::{Continuous1D, Discrete1D};
use discrete_sampling::{Alias1D, ContinuousAlias1D, Ratio};

fn ratio(num: u128, den: u128) -> Ratio {
    Ratio::new(num, den).unwrap()
}

#[test]
fn alias_table_keeps_mass() {
    let weights = [1u64, 1, 2, 4, 8];
    let dist = Alias1D::build(&weights).unwrap();
    let n = weights.len();
    let sum = dist.integral();
    assert_eq!(sum, 16);
    let mut mass = vec![0u64; n];
    for j in 0..n {
        let entry = dist.entry(j);
        assert!(entry.select <= sum);
        assert!((entry.alias as usize) < n);
        mass[j] += entry.select;
        if entry.select < sum {
            mass[entry.alias as usize] += sum - entry.select;
        }
    }
    for i in 0..n {
        assert_eq!(mass[i], n as u64 * weights[i]);
    }
}

#[test]
fn alias_sample_uses_select_and_alias() {
    let weights = [1u64, 1, 2, 4, 8];
    let dist = Alias1D::build(&weights).unwrap();
    let n = 5u128;
    let sum = 16u128;
    for j in 0..5usize {
        let entry = dist.entry(j);
        for t in 0..sum {
            let u = ratio(j as u128 * sum + t, n * sum);
            let expected = if t < entry.select as u128 { j } else { entry.alias as usize };
            assert_eq!(dist.sample(u), expected);
        }
    }
}

#[test]
fn alias_uniform_table_never_redirects() {
    let dist = Alias1D::build(&[3, 3, 3, 3]).unwrap();
    for j in 0..4usize {
        assert_eq!(dist.entry(j).select, 12);
        for t in 0..12u128 {
            assert_eq!(dist.sample(ratio(j as u128 * 12 + t, 48)), j);
        }
    }
}

#[test]
fn alias_pairing_for_one_and_three() {
    let dist = Alias1D::build(&[1, 3]).unwrap();
    // the first slot keeps half of itself and hands the rest to the second, which stays whole
    assert_eq!((dist.entry(0).select, dist.entry(0).alias), (2, 1));
    assert_eq!(dist.entry(1).select, 4);
    assert_eq!(dist.sample(ratio(0, 1)), 0);
    assert_eq!(dist.sample(ratio(1, 8)), 0);
    assert_eq!(dist.sample(ratio(3, 8)), 1);
    assert_eq!(dist.sample(ratio(3, 4)), 1);
}

#[test]
fn alias_equal_weights_take_whole_part() {
    let dist = Alias1D::build(&[1; 4]).unwrap();
    assert_eq!(dist.sample(ratio(0, 1)), 0);
    assert_eq!(dist.sample(ratio(1, 2)), 2);
    assert_eq!(dist.sample(ratio(3, 4)), 3);
    let many = Alias1D::build(&[1; 10_000]).unwrap();
    for t in 0..30_000u128 {
        assert_eq!(many.sample(ratio(t, 30_000)) as u128, t / 3);
    }
}

#[test]
fn continuous_alias_values_for_one_and_three() {
    let dist = ContinuousAlias1D::build(&[1, 3]).unwrap();
    assert!(dist.sample_continuous(ratio(0, 1)).same_value(&ratio(0, 1)));
    assert!(dist.sample_continuous(ratio(1, 8)).same_value(&ratio(1, 4)));
    assert!(dist.inverse_continuous(ratio(0, 1)).same_value(&ratio(0, 1)));
    assert!(dist.inverse_continuous(ratio(1, 4)).same_value(&ratio(1, 8)));
}

#[test]
fn alias_single_weight() {
    let dist = Alias1D::build(&[5]).unwrap();
    assert_eq!(dist.size(), 1);
    assert_eq!(dist.sample(ratio(0, 1)), 0);
    assert_eq!(dist.sample(ratio(999, 1000)), 0);
    assert_eq!(dist.pdf(0), 5);
}

#[test]
fn continuous_alias_regions_tile_each_cell() {
    let weights = [1u64, 1, 2, 4, 8];
    let dist = ContinuousAlias1D::build(&weights).unwrap();
    let n = weights.len();
    let sum = dist.integral();
    for i in 0..n {
        let own = dist.entry(i);
        assert_eq!(own.span, n as u64 * weights[i]);
        assert_eq!(own.own_region, [0, own.select]);
        let mut pieces: Vec<[u64; 2]> = vec![own.own_region];
        for j in 0..n {
            let other = dist.entry(j);
            if other.select < sum && other.alias as usize == i {
                assert_eq!(other.alias_region[1] - other.alias_region[0], sum - other.select);
                pieces.push(other.alias_region);
            }
        }
        pieces.sort();
        let mut at = 0;
        for piece in pieces {
            assert_eq!(piece[0], at);
            at = piece[1];
        }
        assert_eq!(at, own.span);
    }
}

#[test]
fn continuous_alias_sample_continuous_lands_in_sampled_cell() {
    let weights = [1u64, 1, 2, 4, 8];
    let dist = ContinuousAlias1D::build(&weights).unwrap();
    for t in 0..2000u128 {
        let u = ratio(t, 2000);
        let y = dist.sample_continuous(u);
        assert!(y.num < y.den);
        assert_eq!(y.floor_mul(5) as usize, dist.sample(u));
    }
}

#[test]
fn continuous_alias_inverse_of_cell_without_weight() {
    let dist = ContinuousAlias1D::build(&[3, 0, 1]).unwrap();
    // nothing is drawn into the middle cell; its coordinates are given the start of its slot
    let u = dist.inverse_continuous(ratio(1, 2));
    assert!(u.same_value(&ratio(1, 3)));
}

#[test]
fn continuous_alias_measure_is_kept() {
    // equally spaced numbers land equally spaced within each cell: the map keeps lengths
    let weights = [1u64, 1, 2, 4, 8];
    let dist = ContinuousAlias1D::build(&weights).unwrap();
    let den = 5 * 16u128;
    let mut hits = vec![Vec::new(); 5];
    for t in 0..den {
        let y = dist.sample_continuous(ratio(t, den));
        let cell = y.floor_mul(5) as usize;
        hits[cell].push(y);
    }
    for (cell, weight) in weights.iter().enumerate() {
        assert_eq!(hits[cell].len() as u64, 5 * weight);
        for a in 0..hits[cell].len() {
            for b in 0..a {
                assert!(!hits[cell][a].same_value(&hits[cell][b]));
            }
        }
    }
}
