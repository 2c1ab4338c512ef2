use worldgen::grid::{gray, Grid, ONE};

#[test]
fn new_grid_is_zero() {
    let grid = Grid::new(4, 3);
    assert_eq!(grid.width(), 4);
    assert_eq!(grid.height(), 3);
    for x in 0..4 {
        for y in 0..3 {
            assert_eq!(grid.get(x, y), 0);
        }
    }
}

#[test]
fn set_changes_one_cell() {
    let mut grid = Grid::new(3, 3);
    grid.set(1, 2, 7);
    for x in 0..3 {
        for y in 0..3 {
            let expected = if (x, y) == (1, 2) { 7 } else { 0 };
            assert_eq!(grid.get(x, y), expected);
        }
    }
}

#[test]
fn flatten_xy_is_row_major() {
    let grid = Grid::new(5, 4);
    assert_eq!(grid.flatten_xy(0, 0), 0);
    assert_eq!(grid.flatten_xy(4, 0), 4);
    assert_eq!(grid.flatten_xy(0, 1), 5);
    assert_eq!(grid.flatten_xy(3, 2), 13);
    assert_eq!(grid.flatten_xy(4, 3), 19);
}

#[test]
fn map_applies_to_every_cell() {
    let mut grid = Grid::new(3, 2);
    grid.set(0, 0, 5);
    grid.set(2, 1, -4);
    grid.map(|h| 2 * h + 1);
    assert_eq!(grid.get(0, 0), 11);
    assert_eq!(grid.get(2, 1), -7);
    assert_eq!(grid.get(1, 1), 1);
}

#[test]
fn map_coords_sees_coordinates() {
    let mut grid = Grid::new(4, 3);
    grid.map_coords(|x, y, h| h + (x as i64) * 10 + y as i64);
    for x in 0..4 {
        for y in 0..3 {
            assert_eq!(grid.get(x, y), (x as i64) * 10 + y as i64);
        }
    }
}

#[test]
fn combine_uses_both_grids() {
    let mut a = Grid::new(2, 2);
    let mut b = Grid::new(2, 2);
    a.map_coords(|x, y, _| (x + 2 * y) as i64);
    b.map(|_| 3);
    a.combine(&b, |h, s| h * s);
    assert_eq!(a.get(0, 0), 0);
    assert_eq!(a.get(1, 0), 3);
    assert_eq!(a.get(0, 1), 6);
    assert_eq!(a.get(1, 1), 9);
    assert_eq!(b.get(1, 1), 3);
}

#[test]
fn minmax_finds_extremes() {
    let mut grid = Grid::new(3, 3);
    grid.map_coords(|x, y, _| (x as i64 - 1) * (y as i64 + 2));
    assert_eq!(grid.minmax(), (-4, 4));
    grid.map(|_| 9);
    assert_eq!(grid.minmax(), (9, 9));
}

#[test]
fn minmax_of_empty_grid() {
    let grid = Grid::new(0, 5);
    assert_eq!(grid.minmax(), (i64::MAX, i64::MIN));
}

#[test]
fn one_is_the_unit() {
    assert_eq!(ONE, 65536);
}

#[test]
fn clone_keeps_every_cell() {
    let mut grid = Grid::new(3, 4);
    grid.map_coords(|x, y, _| (x * 7 + y) as i64);
    let mut copy = grid.clone();
    assert_eq!(copy.width(), 3);
    assert_eq!(copy.height(), 4);
    for x in 0..3 {
        for y in 0..4 {
            assert_eq!(copy.get(x, y), grid.get(x, y));
        }
    }
    copy.set(1, 1, -1);
    assert_eq!(grid.get(1, 1), 8);
}

#[test]
fn gray_levels_run_from_black_to_white() {
    let mut grid = Grid::new(3, 2);
    grid.map_coords(|x, y, _| (100 * y + 10 * x) as i64 - 20);
    // the values are -20, -10, 0 in the first row and 80, 90, 100 in the second
    assert_eq!(grid.gray_levels(), vec![0, 21, 42, 212, 233, 255]);
}

#[test]
fn gray_levels_of_a_level_grid_are_black() {
    let mut grid = Grid::new(2, 2);
    grid.map(|_| 5);
    assert_eq!(grid.gray_levels(), vec![0, 0, 0, 0]);
    assert_eq!(Grid::new(0, 3).gray_levels(), Vec::<u8>::new());
}

#[test]
fn gray_is_spread_evenly_and_rounded_down() {
    assert_eq!(gray(0, 0, 10), 0);
    assert_eq!(gray(10, 0, 10), 255);
    assert_eq!(gray(5, 0, 10), 127);
    assert_eq!(gray(1, 0, 3), 85);
    assert_eq!(gray(i64::MAX, i64::MIN, i64::MAX), 255);
    assert_eq!(gray(0, i64::MIN, i64::MAX), 127);
    assert_eq!(gray(4, 4, 4), 0);
}
