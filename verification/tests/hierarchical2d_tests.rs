use discrete_sampling::distribution::{BuildError, Continuous2D, Discrete2D};
use discrete_sampling::hierarchical::get_or_zero;
use discrete_sampling::hierarchical2d::{coarser, get_or_zero_2d, select_fixed, split};
use discrete_sampling::fixed::{to_fixed, ONE};
use discrete_sampling::{Data2D, Hierarchical2D, Ratio};

fn ratio(num: u128, den: u128) -> Ratio {
    Ratio::new(num, den).unwrap()
}

fn float(r: &Ratio) -> f64 {
    r.num as f64 / r.den as f64
}

fn grid(rows: &[&[u64]]) -> Data2D<u64> {
    let height = rows.len();
    let width = rows[0].len();
    let mut out = Data2D::new_same(width, height, 0u64);
    for (y, row) in rows.iter().enumerate() {
        for (x, weight) in row.iter().enumerate() {
            out.insert(x, y, *weight);
        }
    }
    out
}

fn check_frequencies(rows: &[&[u64]], steps: u128, tolerance: f64) {
    let dist = Hierarchical2D::build(&grid(rows)).unwrap();
    let height = rows.len();
    let width = rows[0].len();
    assert_eq!(dist.width(), width);
    assert_eq!(dist.height(), height);
    let total: u64 = rows.iter().map(|row| row.iter().sum::<u64>()).sum();
    assert_eq!(dist.integral(), total);
    let mut hist = vec![vec![0u64; width]; height];
    for a in 0..steps {
        for b in 0..steps {
            let uv = [ratio(2 * a + 1, 2 * steps), ratio(2 * b + 1, 2 * steps)];
            let [x, y] = dist.sample(uv);
            assert!(x < width && y < height);
            assert!(rows[y][x] > 0);
            hist[y][x] += 1;
            let xy = dist.sample_continuous(uv);
            assert!(xy[0].num < xy[0].den && xy[1].num < xy[1].den);
            assert_eq!(xy[0].floor_mul(width as u64) as usize, x);
            assert_eq!(xy[1].floor_mul(height as u64) as usize, y);
        }
    }
    for y in 0..height {
        for x in 0..width {
            assert_eq!(dist.pdf([x, y]), rows[y][x]);
            let expected = rows[y][x] as f64 / total as f64;
            let observed = hist[y][x] as f64 / (steps * steps) as f64;
            assert!(
                (expected - observed).abs() < tolerance,
                "cell ({}, {}): expected {} observed {}",
                x,
                y,
                expected,
                observed
            );
        }
    }
}

#[test]
fn select_fixed_left_and_right() {
    let mut low: u64 = 1 << 60;
    // one eighth of 4 is 0.5: half way into the first weight
    assert!(!select_fixed([1, 3], &mut low));
    assert_eq!(low, 1 << 62);
    let mut high: u64 = 1 << 62;
    // one half of 4 is 2: one third into the second weight, rounded down
    assert!(select_fixed([1, 3], &mut high));
    assert_eq!(high, ((1u128 << 63) / 3) as u64);
    let mut edge: u64 = 1 << 61;
    assert!(select_fixed([1, 3], &mut edge));
    assert_eq!(edge, 0);
    let mut only: u64 = ONE - 1;
    assert!(!select_fixed([5, 0], &mut only));
    assert_eq!(only, ONE - 1);
}

#[test]
fn split_cuts_in_proportion() {
    assert_eq!(split(1, 3, 0, ONE), 1 << 61);
    assert_eq!(split(3, 1, 0, ONE), 3 << 61);
    assert_eq!(split(1, 1, 1 << 62, ONE), 3 << 61);
    assert_eq!(split(5, 0, 10, 20), 20);
    assert_eq!(split(0, 5, 10, 20), 10);
    assert_eq!(split(0, 0, 10, 20), 10);
    assert_eq!(split(1, 2, 0, 10), 3);
}

#[test]
fn get_or_zero_pads_with_zero() {
    assert_eq!(get_or_zero(&[4, 5], 0), 4);
    assert_eq!(get_or_zero(&[4, 5], 1), 5);
    assert_eq!(get_or_zero(&[4, 5], 2), 0);
    assert_eq!(get_or_zero(&[], 0), 0);
    let cells = grid(&[&[1, 2], &[3, 4]]);
    assert_eq!(get_or_zero_2d(&cells, [1, 0]), 2);
    assert_eq!(get_or_zero_2d(&cells, [0, 1]), 3);
    assert_eq!(get_or_zero_2d(&cells, [2, 0]), 0);
    assert_eq!(get_or_zero_2d(&cells, [0, 2]), 0);
}

#[test]
fn coarser_sums_blocks() {
    let fine = grid(&[&[1, 2, 3], &[4, 5, 6], &[7, 8, 9]]);
    let level = coarser(&fine);
    assert_eq!(level.width(), 2);
    assert_eq!(level.height(), 2);
    assert_eq!(*level.index([0, 0]), 12);
    assert_eq!(*level.index([1, 0]), 9);
    assert_eq!(*level.index([0, 1]), 15);
    assert_eq!(*level.index([1, 1]), 9);
    let wide = coarser(&grid(&[&[1, 2, 3, 4, 5]]));
    assert_eq!((wide.width(), wide.height()), (3, 1));
    assert_eq!(*wide.index([0, 0]), 3);
    assert_eq!(*wide.index([1, 0]), 7);
    assert_eq!(*wide.index([2, 0]), 5);
}

#[test]
fn hierarchical2d_two_by_two() {
    check_frequencies(&[&[1, 3], &[2, 4]], 100, 0.01);
}

#[test]
fn hierarchical2d_three_by_three() {
    check_frequencies(&[&[1, 2, 3], &[4, 5, 6], &[7, 8, 9]], 120, 0.01);
}

#[test]
fn hierarchical2d_wide_and_tall() {
    check_frequencies(&[&[1, 2, 3, 4, 5, 6, 7, 8]], 128, 0.01);
    check_frequencies(&[&[1], &[2], &[3], &[4], &[5]], 128, 0.01);
    check_frequencies(&[&[1, 0, 2, 0, 3], &[0, 4, 0, 5, 0]], 128, 0.01);
}

#[test]
fn hierarchical2d_single_cell() {
    let dist = Hierarchical2D::build(&grid(&[&[9]])).unwrap();
    assert_eq!(dist.sample([ratio(1, 2), ratio(1, 3)]), [0, 0]);
    assert_eq!(dist.pdf([0, 0]), 9);
    assert_eq!(dist.integral(), 9);
    let xy = dist.sample_continuous([ratio(1, 2), ratio(1, 4)]);
    assert!(xy[0].same_value(&ratio(1, 2)));
    assert!(xy[1].same_value(&ratio(1, 4)));
}

#[test]
fn hierarchical2d_uniform_is_identity() {
    let dist = Hierarchical2D::build(&Data2D::new_same(4, 4, 1u64)).unwrap();
    for a in 0..32u128 {
        for b in 0..32u128 {
            let uv = [ratio(a, 32), ratio(b, 32)];
            assert_eq!(dist.sample(uv), [(a / 8) as usize, (b / 8) as usize]);
            let xy = dist.sample_continuous(uv);
            assert!(xy[0].same_value(&uv[0]));
            assert!(xy[1].same_value(&uv[1]));
            let back = dist.inverse_continuous(uv);
            assert!(back[0].same_value(&uv[0]));
            assert!(back[1].same_value(&uv[1]));
        }
    }
}

#[test]
fn hierarchical2d_inverse_comes_back() {
    let rows: [&[u64]; 3] = [&[1, 2, 3], &[4, 5, 6], &[7, 8, 9]];
    let dist = Hierarchical2D::build(&grid(&rows)).unwrap();
    for a in 0..64u128 {
        for b in 0..64u128 {
            let uv = [ratio(2 * a + 1, 128), ratio(2 * b + 1, 128)];
            let xy = dist.sample_continuous(uv);
            let back = dist.inverse_continuous(xy);
            assert!(back[0].num <= back[0].den && back[1].num <= back[1].den);
            assert!((float(&back[0]) - float(&uv[0])).abs() < 0.01);
            assert!((float(&back[1]) - float(&uv[1])).abs() < 0.01);
            // two levels: at most six units of the last place are lost, none is gained
            for k in 0..2 {
                let start = to_fixed(uv[k]) as u128;
                assert_eq!(back[k].den, ONE as u128);
                assert!(back[k].num <= start && start <= back[k].num + 6);
            }
        }
    }
}

#[test]
fn hierarchical2d_inverse_of_cell_without_weight() {
    // only the last cell has weight: every coordinate before it comes from the number zero
    let dist = Hierarchical2D::build(&grid(&[&[0, 0, 0], &[0, 0, 0], &[0, 0, 7]])).unwrap();
    for a in 0..9u128 {
        for b in 0..9u128 {
            let back = dist.inverse_continuous([ratio(2 * a + 1, 18), ratio(2 * b + 1, 18)]);
            assert!(back[0].num <= back[0].den && back[1].num <= back[1].den);
            if a < 6 {
                assert_eq!(back[0].num, 0);
            }
            if b < 6 {
                assert_eq!(back[1].num, 0);
            }
        }
    }
    // within the last cell the inverse follows the coordinate
    let back = dist.inverse_continuous([ratio(5, 6), ratio(5, 6)]);
    assert!(back[0].same_value(&ratio(1, 2)));
    assert!(back[1].same_value(&ratio(1, 2)));
}

#[test]
fn hierarchical2d_sampled_coordinates_can_be_inverted() {
    let dist = Hierarchical2D::build(&grid(&[&[1, 3], &[2, 4]])).unwrap();
    let xy = dist.sample_continuous([ratio(1, 2), ratio(1, 2)]);
    assert_eq!(xy[0].den, 2 * ONE as u128);
    assert_eq!(xy[1].den, 2 * ONE as u128);
    let back = dist.inverse_continuous(xy);
    // one level: each number comes back within three units of the last place
    assert!(back[0].num <= 1 << 62 && (1 << 62) <= back[0].num + 3);
    assert!(back[1].num <= 1 << 62 && (1 << 62) <= back[1].num + 3);
}

#[test]
fn hierarchical2d_rejects_bad_grids() {
    let empty: Data2D<u64> = Data2D::default();
    assert_eq!(Hierarchical2D::build(&empty).err(), Some(BuildError::Empty));
    let no_columns = Data2D::new_same(0, 3, 1u64);
    assert_eq!(Hierarchical2D::build(&no_columns).err(), Some(BuildError::Empty));
    assert_eq!(
        Hierarchical2D::build(&Data2D::new_same(3, 2, 0u64)).err(),
        Some(BuildError::ZeroIntegral)
    );
    assert_eq!(
        Hierarchical2D::build(&grid(&[&[u64::MAX, 0], &[0, 1]])).err(),
        Some(BuildError::TooLarge)
    );
    assert_eq!(
        Hierarchical2D::build(&grid(&[&[u64::MAX, 1]])).err(),
        Some(BuildError::TooLarge)
    );
    // a row without weight is no obstacle here
    assert!(Hierarchical2D::build(&grid(&[&[1, 2], &[0, 0]])).is_ok());
    assert!(Hierarchical2D::build(&grid(&[&[u64::MAX - 1, 0], &[0, 1]])).is_ok());
}
