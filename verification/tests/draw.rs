use std::cell::RefCell;
use worldgen::draw::draw_line;
use worldgen::grid::Grid;

fn touched(grid: &Grid) -> Vec<(usize, usize, i64)> {
    let mut cells = Vec::new();
    for x in 0..grid.width() {
        for y in 0..grid.height() {
            if grid.get(x, y) != 0 {
                cells.push((x, y, grid.get(x, y)));
            }
        }
    }
    cells
}

#[test]
fn line_along_a_row_adds_one_to_five_cells() {
    let mut grid = Grid::new(6, 3);
    draw_line(&mut grid, 0, 0, 4, 0, |h| h + 1);
    assert_eq!(
        touched(&grid),
        vec![(0, 0, 1), (1, 0, 1), (2, 0, 1), (3, 0, 1), (4, 0, 1)]
    );
}

#[test]
fn line_along_a_row_goes_from_left_to_right() {
    let mut grid = Grid::new(6, 3);
    grid.map_coords(|x, y, _| (10 * x + y) as i64);
    let seen = RefCell::new(Vec::new());
    draw_line(&mut grid, 0, 0, 4, 0, |h| {
        seen.borrow_mut().push(h);
        h + 1
    });
    assert_eq!(*seen.borrow(), vec![0, 10, 20, 30, 40]);
    for x in 0..6 {
        for y in 0..3 {
            let base = (10 * x + y) as i64;
            let expected = if y == 0 && x <= 4 { base + 1 } else { base };
            assert_eq!(grid.get(x, y), expected);
        }
    }
}

#[test]
fn line_backwards_covers_the_same_row() {
    let mut grid = Grid::new(6, 3);
    grid.map_coords(|x, y, _| (10 * x + y) as i64);
    let seen = RefCell::new(Vec::new());
    draw_line(&mut grid, 4, 1, 1, 1, |h| {
        seen.borrow_mut().push(h);
        h
    });
    assert_eq!(*seen.borrow(), vec![41, 31, 21, 11]);
}

#[test]
fn line_of_one_cell() {
    let mut grid = Grid::new(3, 3);
    draw_line(&mut grid, 1, 2, 1, 2, |h| h + 5);
    assert_eq!(touched(&grid), vec![(1, 2, 5)]);
}

#[test]
fn diagonal_line() {
    let mut grid = Grid::new(4, 4);
    draw_line(&mut grid, 0, 0, 3, 3, |_| 1);
    assert_eq!(touched(&grid), vec![(0, 0, 1), (1, 1, 1), (2, 2, 1), (3, 3, 1)]);
}

#[test]
fn shallow_line_rounds_to_the_nearest_row() {
    let mut grid = Grid::new(5, 3);
    draw_line(&mut grid, 0, 0, 4, 1, |h| h + 1);
    assert_eq!(
        touched(&grid),
        vec![(0, 0, 1), (1, 0, 1), (2, 1, 1), (3, 1, 1), (4, 1, 1)]
    );
}

#[test]
fn steep_line_has_no_gaps() {
    let mut grid = Grid::new(3, 6);
    draw_line(&mut grid, 2, 5, 0, 0, |h| h + 1);
    let cells = touched(&grid);
    assert_eq!(cells.len(), 6);
    for y in 0..6 {
        assert_eq!(cells.iter().filter(|c| c.1 == y).count(), 1);
    }
    assert_eq!(grid.get(2, 5), 1);
    assert_eq!(grid.get(0, 0), 1);
}

#[test]
fn every_line_draws_each_cell_once() {
    for &(x1, y1, x2, y2) in &[
        (0isize, 0isize, 7isize, 3isize),
        (7, 3, 0, 0),
        (2, 7, 5, 0),
        (6, 1, 1, 6),
        (3, 3, 3, 7),
        (0, 7, 7, 0),
    ] {
        let mut grid = Grid::new(8, 8);
        draw_line(&mut grid, x1, y1, x2, y2, |h| h + 1);
        let cells = touched(&grid);
        let steps = (x2 - x1).abs().max((y2 - y1).abs()) as usize;
        assert_eq!(cells.len(), steps + 1);
        assert!(cells.iter().all(|c| c.2 == 1));
        assert_eq!(grid.get(x1 as usize, y1 as usize), 1);
        assert_eq!(grid.get(x2 as usize, y2 as usize), 1);
    }
}
