use discrete_sampling::distribution::{BuildError, Continuous1D, Continuous2D, Discrete1D, Discrete2D};
use discrete_sampling::{
    Adapter2D, Alias1D, Alias2D, ContinuousAlias1D, ContinuousAlias2D, Data2D, Hierarchical1D,
    Inversion1D, Inversion2D, Ratio, Reservoir2D,
};

fn ratio(num: u128, den: u128) -> Ratio {
    Ratio::new(num, den).unwrap()
}

fn grid(rows: &[&[u64]]) -> Data2D<u64> {
    let height = rows.len();
    let width = rows[0].len();
    let mut out = Data2D::new_same(width, height, 0u64);
    for (y, row) in rows.iter().enumerate() {
        for (x, weight) in row.iter().enumerate() {
            out.insert(x, y, *weight);
        }
    }
    out
}

fn scenario() -> Data2D<u64> {
    grid(&[&[1, 3], &[2, 4]])
}

fn joint_pdf<D: Discrete1D>() {
    let dist = Adapter2D::<D>::build(&scenario()).unwrap();
    assert_eq!(dist.width(), 2);
    assert_eq!(dist.height(), 2);
    assert_eq!(dist.integral(), 10);
    assert_eq!(dist.pdf([0, 0]), 1);
    assert_eq!(dist.pdf([1, 0]), 3);
    assert_eq!(dist.pdf([0, 1]), 2);
    assert_eq!(dist.pdf([1, 1]), 4);
}

/// Draws with every pair of a grid of equally spaced numbers once: with exact arithmetic the
/// cells are hit in proportion to their weights.
fn exhaustive_counts<D: Discrete1D>() {
    let dist = Adapter2D::<D>::build(&scenario()).unwrap();
    let mut hist = [[0u32; 2]; 2];
    for a in 0..24u128 {
        for b in 0..20u128 {
            let [x, y] = dist.sample([ratio(a, 24), ratio(b, 20)]);
            hist[y][x] += 1;
        }
    }
    assert_eq!(hist, [[48, 144], [96, 192]]);
}

fn round_trip<D: Continuous1D>() {
    let dist = Adapter2D::<D>::build(&scenario()).unwrap();
    for a in 0..50u128 {
        for b in 0..50u128 {
            let uv = [ratio(a, 50), ratio(b, 50)];
            let at = dist.sample(uv);
            let xy = dist.sample_continuous(uv);
            assert_eq!(xy[0].floor_mul(2) as usize, at[0]);
            assert_eq!(xy[1].floor_mul(2) as usize, at[1]);
            let back = dist.inverse_continuous(xy);
            assert!(back[0].same_value(&uv[0]));
            assert!(back[1].same_value(&uv[1]));
        }
    }
}

#[test]
fn adapter_row_integrals_feed_marginal() {
    let rows = Inversion1D::build(&[4, 6]).unwrap();
    let dist = Inversion2D::build(&scenario()).unwrap();
    for b in 0..10u128 {
        let v = ratio(b, 10);
        assert_eq!(dist.sample([ratio(0, 1), v])[1], rows.sample(v));
    }
}

#[test]
fn adapter_parts_can_be_read() {
    let dist = Inversion2D::build(&scenario()).unwrap();
    assert_eq!(dist.marginal().size(), 2);
    assert_eq!(dist.marginal().pdf(0), 4);
    assert_eq!(dist.marginal().pdf(1), 6);
    assert_eq!(dist.conditional(0).pdf(1), 3);
    assert_eq!(dist.conditional(1).integral(), 6);
}

#[test]
fn adapter_scenario_row_one() {
    let dist = Inversion2D::build(&scenario()).unwrap();
    // v = 0.5 falls into the second row, which holds six tenths of the weight
    assert_eq!(dist.sample([ratio(1, 4), ratio(1, 2)]), [0, 1]);
    assert_eq!(dist.sample([ratio(1, 3), ratio(1, 2)]), [1, 1]);
    assert_eq!(dist.sample([ratio(1, 2), ratio(1, 2)]), [1, 1]);
    // v = 0.3 falls into the first row
    assert_eq!(dist.sample([ratio(1, 5), ratio(3, 10)]), [0, 0]);
    assert_eq!(dist.sample([ratio(1, 4), ratio(3, 10)]), [1, 0]);
    // the joint density is the weight over the integral
    let total = dist.integral();
    let rows = [[1u64, 3], [2, 4]];
    for y in 0..2 {
        for x in 0..2 {
            assert!(ratio(dist.pdf([x, y]) as u128, total as u128)
                .same_value(&ratio(rows[y][x] as u128, 10)));
        }
    }
}

#[test]
fn inversion2d_joint_pdf() {
    joint_pdf::<Inversion1D>();
}

#[test]
fn alias2d_joint_pdf() {
    joint_pdf::<Alias1D>();
}

#[test]
fn continuous_alias2d_joint_pdf() {
    joint_pdf::<ContinuousAlias1D>();
}

#[test]
fn hierarchical_adapter_joint_pdf() {
    joint_pdf::<Hierarchical1D>();
}

#[test]
fn inversion2d_exhaustive_counts() {
    exhaustive_counts::<Inversion1D>();
}

#[test]
fn alias2d_exhaustive_counts() {
    exhaustive_counts::<Alias1D>();
}

#[test]
fn continuous_alias2d_exhaustive_counts() {
    exhaustive_counts::<ContinuousAlias1D>();
}

#[test]
fn hierarchical_adapter_exhaustive_counts() {
    exhaustive_counts::<Hierarchical1D>();
}

#[test]
fn inversion2d_round_trip() {
    round_trip::<Inversion1D>();
}

#[test]
fn continuous_alias2d_round_trip() {
    round_trip::<ContinuousAlias1D>();
}

#[test]
fn hierarchical_adapter_round_trip() {
    round_trip::<Hierarchical1D>();
}

#[test]
fn reservoir2d_samples_cells_with_weight() {
    let dist = Reservoir2D::build(&grid(&[&[0, 3, 0], &[0, 0, 1], &[2, 0, 4]])).unwrap();
    assert_eq!(dist.integral(), 10);
    let rows = [[0u64, 3, 0], [0, 0, 1], [2, 0, 4]];
    let mut hist = [[0u32; 3]; 3];
    for a in 0..300u128 {
        for b in 0..300u128 {
            let [x, y] = dist.sample([ratio(2 * a + 1, 600), ratio(2 * b + 1, 600)]);
            assert!(rows[y][x] > 0);
            hist[y][x] += 1;
        }
    }
    for y in 0..3 {
        for x in 0..3 {
            let expected = rows[y][x] as f64 / 10.0;
            let observed = hist[y][x] as f64 / 90_000.0;
            assert!(
                (expected - observed).abs() < 0.01,
                "cell ({}, {}): expected {} observed {}",
                x,
                y,
                expected,
                observed
            );
        }
    }
}

#[test]
fn adapter_inverse_uses_row_of_coordinate() {
    // the second row holds nearly all the weight, so a coordinate in the first row lies at a
    // small random number, and its column is inverted within the first row
    let dist = Inversion2D::build(&grid(&[&[1, 0], &[0, 99]])).unwrap();
    let back = dist.inverse_continuous([ratio(1, 4), ratio(1, 4)]);
    // row: half way into the first row, which is one hundredth of the weight
    assert!(back[1].same_value(&ratio(1, 200)));
    // column: half way into the first cell of the first row, which is all of that row
    assert!(back[0].same_value(&ratio(1, 2)));
    let forth = dist.sample_continuous([ratio(1, 2), ratio(1, 200)]);
    assert!(forth[0].same_value(&ratio(1, 4)));
    assert!(forth[1].same_value(&ratio(1, 4)));
}

#[test]
fn adapter_rejects_bad_grids() {
    let empty: Data2D<u64> = Data2D::default();
    assert_eq!(Inversion2D::build(&empty).err(), Some(BuildError::Empty));
    let no_columns = Data2D::new_same(0, 3, 1u64);
    assert_eq!(Inversion2D::build(&no_columns).err(), Some(BuildError::Empty));
    // a row without weight is rejected, as its own distribution would be
    assert_eq!(
        Inversion2D::build(&grid(&[&[1, 2], &[0, 0]])).err(),
        Some(BuildError::ZeroIntegral)
    );
    assert_eq!(Alias2D::build(&grid(&[&[0, 0], &[1, 2]])).err(), Some(BuildError::ZeroIntegral));
    // the first row that fails decides the error
    assert_eq!(
        ContinuousAlias2D::build(&grid(&[&[1, 1], &[u64::MAX, 1], &[0, 0]])).err(),
        Some(BuildError::TooLarge)
    );
    // rows that pass, but whose sums are too large together
    assert_eq!(
        Inversion2D::build(&grid(&[&[1 << 62, 0], &[1 << 62, 0]])).err(),
        Some(BuildError::TooLarge)
    );
    assert!(Inversion2D::build(&grid(&[&[5]])).is_ok());
}
