use discrete_sampling::distribution::{visualize_warping, Discrete2D};
use discrete_sampling::utils::u64_to_color;
use discrete_sampling::{Data2D, Hierarchical2D, Inversion2D, Ratio};

fn ratio(num: u128, den: u128) -> Ratio {
    Ratio::new(num, den).unwrap()
}

fn grid(rows: &[&[u64]]) -> Data2D<u64> {
    let height = rows.len();
    let width = rows[0].len();
    let mut out = Data2D::new_same(width, height, 0u64);
    for (y, row) in rows.iter().enumerate() {
        for (x, weight) in row.iter().enumerate() {
            out.insert(x, y, *weight);
        }
    }
    out
}

fn marks(demo: &Data2D<u8>) -> Vec<Vec<u8>> {
    demo.iter().iter().map(|row| row.to_vec()).collect()
}

#[test]
fn fill_demo_image_marks_two_by_two() {
    let dist = Inversion2D::build(&grid(&[&[0, 0, 1], &[0, 1, 0], &[0, 0, 1]])).unwrap();
    let mut demo = Data2D::new_same(3, 3, 0u8);
    // the middle row holds a third of the weight, from one third on
    dist.fill_demo_image(&mut demo, &[[ratio(1, 2), ratio(1, 2)]], 9);
    assert_eq!(marks(&demo), vec![vec![9, 9, 0], vec![9, 9, 0], vec![0, 0, 0]]);
}

#[test]
fn fill_demo_image_clamps_at_the_edge() {
    let dist = Inversion2D::build(&grid(&[&[1, 1], &[1, 1]])).unwrap();
    let mut demo = Data2D::new_same(2, 2, 0u8);
    dist.fill_demo_image(&mut demo, &[[ratio(0, 1), ratio(0, 1)]], 1);
    assert_eq!(marks(&demo), vec![vec![1, 0], vec![0, 0]]);
    dist.fill_demo_image(&mut demo, &[[ratio(3, 4), ratio(0, 1)]], 2);
    assert_eq!(marks(&demo), vec![vec![2, 2], vec![0, 0]]);
    dist.fill_demo_image(&mut demo, &[], 7);
    assert_eq!(marks(&demo), vec![vec![2, 2], vec![0, 0]]);
}

#[test]
fn fill_demo_image_fits_smaller_image() {
    let dist = Hierarchical2D::build(&grid(&[&[0, 0, 0, 0], &[0, 0, 0, 0], &[0, 0, 0, 5]])).unwrap();
    let mut demo = Data2D::new_same(2, 2, 0u8);
    dist.fill_demo_image(&mut demo, &[[ratio(1, 3), ratio(2, 3)], [ratio(0, 1), ratio(0, 1)]], 4);
    // the sample lies beyond the image: its mark is pushed into the last row and column
    assert_eq!(marks(&demo), vec![vec![0, 0], vec![0, 4]]);
}

#[test]
fn visualize_warping_uniform_numbers_tiles_in_order() {
    let dist = Inversion2D::build(&grid(&[&[1, 1], &[1, 1]])).unwrap();
    let out = visualize_warping(&dist, 2);
    assert_eq!(out.width(), 2);
    assert_eq!(out.height(), 2);
    let expected = [[1u64, 2], [3, 4]];
    for y in 0..2 {
        for x in 0..2 {
            let colour = out.index([x, y]);
            let tile = u64_to_color(expected[y][x]);
            for c in 0..3 {
                assert_eq!((colour[c].num, colour[c].den), (tile[c].num, tile[c].den));
            }
        }
    }
    let first = out.index([0, 0]);
    assert_eq!((first[0].num, first[0].den), (1, 2));
    assert_eq!((first[1].num, first[1].den), (1, 3));
    assert_eq!((first[2].num, first[2].den), (1, 5));
}

#[test]
fn visualize_warping_follows_weight() {
    // the right column holds nearly all the weight: the middle of the left column is drawn
    // from the far left of the unit square, the middle of the right column from its middle
    let dist = Inversion2D::build(&grid(&[&[1, 99]])).unwrap();
    let out = visualize_warping(&dist, 4);
    // x = 0.25 comes from u = 0.005, tile 0; x = 0.75 from u = 0.01 + 0.495 = 0.505, tile 2
    // y = 0.5 comes from v = 0.5, row of tiles 2
    let left = out.index([0, 0]);
    let right = out.index([1, 0]);
    let tile_left = u64_to_color(0 + 4 * 2 + 1);
    let tile_right = u64_to_color(2 + 4 * 2 + 1);
    for c in 0..3 {
        assert_eq!((left[c].num, left[c].den), (tile_left[c].num, tile_left[c].den));
        assert_eq!((right[c].num, right[c].den), (tile_right[c].num, tile_right[c].den));
    }
}
