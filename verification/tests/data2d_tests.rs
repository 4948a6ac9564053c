use discrete_sampling::Data2D;

#[test]
fn new_same_fills_every_cell() {
    let grid = Data2D::new_same(3, 2, 7u64);
    assert_eq!(grid.width(), 3);
    assert_eq!(grid.height(), 2);
    for y in 0..2 {
        for x in 0..3 {
            assert_eq!(grid.get([x, y]), Some(&7));
        }
    }
}

#[test]
fn default_grid_is_empty() {
    let grid: Data2D<u64> = Data2D::default();
    assert_eq!(grid.width(), 0);
    assert_eq!(grid.height(), 0);
    assert_eq!(grid.get([0, 0]), None);
    assert!(grid.iter().is_empty());
}

#[test]
fn grid_without_columns_has_no_rows() {
    let grid = Data2D::new_same(0, 5, 1u64);
    assert_eq!(grid.width(), 0);
    assert_eq!(grid.height(), 0);
}

#[test]
fn insert_changes_one_cell() {
    let mut grid = Data2D::new_same(3, 2, 0u64);
    grid.insert(1, 0, 5);
    grid.insert(2, 1, 9);
    let expected = [[0, 5, 0], [0, 0, 9]];
    for y in 0..2 {
        for x in 0..3 {
            assert_eq!(*grid.get([x, y]).unwrap(), expected[y][x]);
            assert_eq!(*grid.index([x, y]), expected[y][x]);
        }
    }
}

#[test]
fn get_outside_is_none() {
    let grid = Data2D::new_same(3, 2, 0u64);
    assert_eq!(grid.get([3, 0]), None);
    assert_eq!(grid.get([0, 2]), None);
    assert_eq!(grid.get([usize::MAX, usize::MAX]), None);
    assert!(grid.get([2, 1]).is_some());
}

#[test]
fn iter_yields_rows_in_order() {
    let mut grid = Data2D::new_same(2, 3, 0u64);
    for y in 0..3 {
        for x in 0..2 {
            grid.insert(x, y, (10 * y + x) as u64);
        }
    }
    let rows = grid.iter();
    assert_eq!(rows.len(), 3);
    assert_eq!(rows[0], &[0, 1]);
    assert_eq!(rows[1], &[10, 11]);
    assert_eq!(rows[2], &[20, 21]);
}

#[test]
fn index_mut_writes_through() {
    let mut grid = Data2D::new_same(2, 2, 1u64);
    *grid.index_mut([1, 1]) = 8;
    assert_eq!(*grid.index([1, 1]), 8);
    assert_eq!(*grid.index([0, 1]), 1);
    assert_eq!(*grid.index([1, 0]), 1);
}

#[test]
fn duplicate_copies_cells() {
    let mut grid = Data2D::new_same(2, 2, 1u64);
    grid.insert(0, 1, 4);
    let copy = grid.duplicate();
    grid.insert(0, 1, 5);
    assert_eq!(*copy.index([0, 1]), 4);
    assert_eq!(copy.width(), 2);
    assert_eq!(copy.height(), 2);
    let cloned = grid.clone();
    assert_eq!(*cloned.index([0, 1]), 5);
}
