use worldgen::flow::{find_targets, in_range, next_target, points};
use worldgen::grid::{Grid, ONE};

/// A simplex based height map with a central raise and edges scaled down.
fn simplex_map(width: usize, height: usize) -> Grid {
    let iter = 4;
    let persistence = 0.3;
    let scale = 5.02 / width as f32;
    let edge_pow = 9.0;

    let simplex = fuss::Simplex::new();
    let mut map = Grid::new(width, height);

    for x in 0..width {
        for y in 0..height {
            let height_scaling = {
                let (x, y, width, height) = (x as f32, y as f32, width as f32, height as f32);
                let (dx, dy) = (x - width * 0.5, y - height * 0.5);
                let edge_scaling = {
                    let dist = dx.abs().powf(edge_pow) + dy.abs().powf(edge_pow);
                    let fade0 = (0.5 * width.min(height)).powf(edge_pow);
                    let fade1 = (0.8f32).powf(edge_pow) * fade0;
                    let v = (dist - fade0) / (fade1 - fade0);
                    let v = v.max(0.0).min(1.0);
                    (((v - 0.5) * std::f32::consts::PI).sin() + 1.0) * 0.5
                };
                let mountain_scaling = {
                    let scale = 4.5 / width;
                    let (dx, dy) = (dx * scale, dy * scale);
                    6.0 / (dx * dx + dy * dy + 1.0)
                };
                edge_scaling * mountain_scaling
            };
            let noise = simplex.sum_octave_2d(iter, x as _, y as _, persistence, scale);
            let scaled_height = height_scaling * (16.0 * noise + 17.0);
            map.set(x, y, (scaled_height as f64 * ONE as f64).round() as i64);
        }
    }
    map
}

/// A map of heights that look random and repeat often.
fn rough_map(width: usize, height: usize, seed: u64, levels: u64) -> Grid {
    let mut state = seed;
    let mut map = Grid::new(width, height);
    for x in 0..width {
        for y in 0..height {
            state = state
                .wrapping_mul(6364136223846793005)
                .wrapping_add(1442695040888963407);
            map.set(x, y, ((state >> 33) % levels) as i64);
        }
    }
    map
}

/// The lowest height within the distance `range` of `(x, y)`.
fn lowest_within(map: &Grid, range: usize, x: usize, y: usize) -> i64 {
    let r = range as i64;
    let mut lowest = map.get(x, y);
    for px in 0..map.width() {
        for py in 0..map.height() {
            let dx = px as i64 - x as i64;
            let dy = py as i64 - y as i64;
            if dx * dx + dy * dy <= r * r {
                lowest = lowest.min(map.get(px, py));
            }
        }
    }
    lowest
}

/// Check if the efficient DP solution does find the local minimum of each point correctly
#[test]
fn check_dp_solution() {
    let size = 128;
    let map = simplex_map(size, size);
    let range = 6;
    let targets = find_targets(&map, range);
    let circle = |x: isize, y: isize| x * x + y * y <= (range * range) as isize;
    let points = points(range, &circle);

    for x in 0..size {
        for y in 0..size {
            let target = next_target(&map, x, y, &points, true);

            // Check if found _a_ minimum, not the specific minimum the target function would have
            // found. If the height is the same, but the coordinates are different, there are
            // multiple valid solutions.
            assert_eq!(
                map.get(target.0, target.1),
                map.get(targets[x][y].0, targets[x][y].1)
            );
        }
    }
}

#[test]
fn targets_are_the_lowest_cells_within_reach() {
    for &(range, seed, levels) in &[(1usize, 1u64, 1000u64), (2, 2, 50), (3, 3, 5), (5, 4, 3)] {
        let map = rough_map(23, 17, seed, levels);
        let targets = find_targets(&map, range);
        assert_eq!(targets.len(), 23);
        for x in 0..23 {
            assert_eq!(targets[x].len(), 17);
            for y in 0..17 {
                let (tx, ty) = targets[x][y];
                let dx = tx as i64 - x as i64;
                let dy = ty as i64 - y as i64;
                assert!(dx * dx + dy * dy <= (range * range) as i64);
                assert_eq!(map.get(tx, ty), lowest_within(&map, range, x, y));
            }
        }
    }
}

#[test]
fn sinks_are_the_cells_with_nothing_lower_within_reach() {
    let map = rough_map(20, 20, 99, 4);
    let range = 2;
    let targets = find_targets(&map, range);
    for x in 0..20 {
        for y in 0..20 {
            let lowest = lowest_within(&map, range, x, y);
            let (tx, ty) = targets[x][y];
            if lowest == map.get(x, y) {
                assert_eq!((tx, ty), (x, y));
            } else {
                assert!((tx, ty) != (x, y));
                assert!(map.get(tx, ty) < map.get(x, y));
            }
        }
    }
}

#[test]
fn reuse_gives_the_same_targets_as_the_full_scan() {
    let map = rough_map(31, 29, 7, 6);
    let range = 4;
    let targets = find_targets(&map, range);
    let disc = points(range, |dx, dy| in_range(range, dx, dy));
    for x in 0..31 {
        for y in 0..29 {
            let found = next_target(&map, x, y, &disc, true);
            let expected = if map.get(found.0, found.1) < map.get(x, y) {
                found
            } else {
                (x, y)
            };
            assert_eq!(targets[x][y], expected);
        }
    }
}

#[test]
fn flat_map_has_only_sinks() {
    let mut map = Grid::new(9, 7);
    map.map(|_| 3 * ONE);
    let targets = find_targets(&map, 3);
    for x in 0..9 {
        for y in 0..7 {
            assert_eq!(targets[x][y], (x, y));
        }
    }
}

#[test]
fn equal_lows_are_told_apart_by_column_then_row() {
    let mut map = Grid::new(7, 7);
    map.map(|_| 10);
    map.set(4, 2, 1);
    map.set(2, 4, 1);
    map.set(2, 5, 1);
    let targets = find_targets(&map, 2);
    // (3, 3) reaches (4, 2) and (2, 4); (2, 4) lies in the lower column
    assert_eq!(targets[3][3], (2, 4));
    // (2, 6) reaches (2, 4) and (2, 5); (2, 4) lies in the lower row
    assert_eq!(targets[2][6], (2, 4));
    // the lows are as low as anything around them
    assert_eq!(targets[2][4], (2, 4));
    assert_eq!(targets[2][5], (2, 5));
    assert_eq!(targets[4][2], (4, 2));
}

#[test]
fn pit_in_a_plain_with_radius_one() {
    let mut map = Grid::new(5, 5);
    map.map(|_| 10 * ONE);
    map.set(2, 2, 0);
    let targets = find_targets(&map, 1);
    for &(x, y) in &[(1usize, 2usize), (3, 2), (2, 1), (2, 3)] {
        assert_eq!(targets[x][y], (2, 2));
    }
    // the cells across the corners lie further than one cell from the pit
    for &(x, y) in &[(1usize, 1usize), (1, 3), (3, 1), (3, 3)] {
        assert_eq!(targets[x][y], (x, y));
    }
    assert_eq!(targets[2][2], (2, 2));
}

#[test]
fn pit_in_a_plain_with_radius_two() {
    let mut map = Grid::new(5, 5);
    map.map(|_| 10 * ONE);
    map.set(2, 2, 0);
    let targets = find_targets(&map, 2);
    for x in 1..4 {
        for y in 1..4 {
            assert_eq!(targets[x][y], (2, 2));
        }
    }
    for &(x, y) in &[(0usize, 2usize), (4, 2), (2, 0), (2, 4)] {
        assert_eq!(targets[x][y], (2, 2));
    }
    for &(x, y) in &[(0usize, 0usize), (0, 1), (1, 0), (4, 4), (3, 4), (0, 3)] {
        assert_eq!(targets[x][y], (x, y));
    }
}

#[test]
fn points_lists_the_disc_by_column_then_row() {
    let disc = |range: usize| points(range, |dx, dy| in_range(range, dx, dy));
    assert_eq!(disc(1), vec![(-1, 0), (0, -1), (0, 0), (0, 1), (1, 0)]);
    assert_eq!(disc(0), vec![(0, 0)]);
    assert_eq!(disc(2).len(), 13);
    assert_eq!(disc(6).len(), 113);
}

#[test]
fn points_lists_what_the_property_admits() {
    assert_eq!(points(1, |_, _| false), vec![]);
    assert_eq!(
        points(1, |_, _| true),
        vec![(-1, -1), (-1, 0), (-1, 1), (0, -1), (0, 0), (0, 1), (1, -1), (1, 0), (1, 1)]
    );
    assert_eq!(points(3, |dx, dy| dx == 2 * dy && dx != 0), vec![(-2, -1), (2, 1)]);
}

#[test]
fn points_leaves_out_what_the_neighbours_reach() {
    let circle = |range: usize, dx: isize, dy: isize| in_range(range, dx, dy);
    // what the cell to the left does not reach is the right rim of the disc
    assert_eq!(
        points(1, |x, y| circle(1, x, y) && !circle(1, x + 1, y)),
        vec![(0, -1), (0, 1), (1, 0)]
    );
    // what the cell above does not reach is the lower rim
    assert_eq!(
        points(1, |x, y| circle(1, x, y) && !circle(1, x, y + 1)),
        vec![(-1, 0), (0, 1), (1, 0)]
    );
    assert_eq!(
        points(1, |x, y| circle(1, x, y) && !circle(1, x + 1, y) && !circle(1, x, y + 1)),
        vec![(0, 1), (1, 0)]
    );
    assert_eq!(
        points(2, |x, y| circle(2, x, y) && !circle(2, x + 1, y) && !circle(2, x, y + 1)),
        vec![(0, 2), (1, 1), (2, 0)]
    );
}

#[test]
fn in_range_is_a_closed_disc() {
    assert!(in_range(1, 1, 0));
    assert!(in_range(1, 0, -1));
    assert!(!in_range(1, 1, 1));
    assert!(in_range(2, 1, 1));
    assert!(in_range(5, 3, 4));
    assert!(!in_range(5, 4, 4));
    assert!(!in_range(3, isize::MAX, 0));
    assert!(in_range(0, 0, 0));
}

#[test]
fn next_target_skips_offsets_off_the_map() {
    let mut map = Grid::new(3, 3);
    map.map_coords(|x, y, _| (10 * x + y) as i64);
    let disc = points(1, |dx, dy| in_range(1, dx, dy));
    assert_eq!(next_target(&map, 0, 0, &disc, true), (0, 0));
    assert_eq!(next_target(&map, 2, 2, &disc, true), (1, 2));
    assert_eq!(next_target(&map, 1, 1, &disc, false), (0, 1));
    assert_eq!(next_target(&map, 1, 1, &Vec::new(), false), (1, 1));
    // no offset leads into the map
    assert_eq!(next_target(&map, 0, 0, &[(-1, 0), (0, -1)], true), (0, 0));
}

#[test]
fn next_target_compares_the_listed_cells_only() {
    let mut map = Grid::new(2, 1);
    map.set(1, 0, ONE);
    // the one listed cell is found, though the cell itself is lower
    assert_eq!(next_target(&map, 0, 0, &[(1, 0)], true), (1, 0));
    assert_eq!(next_target(&map, 0, 0, &[(1, 0), (0, 0)], true), (0, 0));
    assert_eq!(next_target(&map, 1, 0, &[(0, 0), (-1, 0)], true), (0, 0));
}

#[test]
fn next_target_finds_the_first_of_the_lowest() {
    let mut map = Grid::new(3, 3);
    map.map(|_| 5);
    map.set(1, 1, 9);
    assert_eq!(next_target(&map, 1, 1, &[(1, 0), (-1, 0), (0, 1)], false), (2, 1));
    assert_eq!(next_target(&map, 1, 1, &[(0, 1), (1, 0), (-1, 0)], false), (1, 2));
    map.set(0, 1, 4);
    assert_eq!(next_target(&map, 1, 1, &[(0, 1), (1, 0), (-1, 0)], false), (0, 1));
    // the highest value there is can be found
    map.map(|_| i64::MAX);
    assert_eq!(next_target(&map, 1, 1, &[(0, 1), (1, 0)], false), (1, 2));
}
