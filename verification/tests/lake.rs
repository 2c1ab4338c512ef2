use worldgen::flood::flood_lake;
use worldgen::flow::find_targets;
use worldgen::grid::{Grid, ONE};
use worldgen::lake::{lake_map, level_lakes};

/// The cells above zero that paths over shared edges connect with `(x, y)`.
fn region(lakes: &Grid, x: usize, y: usize) -> Vec<(usize, usize)> {
    let mut seen = vec![vec![false; lakes.height()]; lakes.width()];
    let mut stack = vec![(x, y)];
    let mut cells = Vec::new();
    seen[x][y] = true;
    while let Some((cx, cy)) = stack.pop() {
        cells.push((cx, cy));
        let mut next = Vec::new();
        if cx > 0 {
            next.push((cx - 1, cy));
        }
        if cx + 1 < lakes.width() {
            next.push((cx + 1, cy));
        }
        if cy > 0 {
            next.push((cx, cy - 1));
        }
        if cy + 1 < lakes.height() {
            next.push((cx, cy + 1));
        }
        for (nx, ny) in next {
            if !seen[nx][ny] && lakes.get(nx, ny) > 0 {
                seen[nx][ny] = true;
                stack.push((nx, ny));
            }
        }
    }
    cells
}

fn count_wet(lakes: &Grid) -> usize {
    let mut count = 0;
    for x in 0..lakes.width() {
        for y in 0..lakes.height() {
            if lakes.get(x, y) > 0 {
                count += 1;
            }
        }
    }
    count
}

#[test]
fn depression_becomes_one_lake_at_rim_height() {
    let size = 20;
    let mut map = Grid::new(size, size);
    map.map_coords(|x, y, _| {
        let dx = x as i64 - 10;
        let dy = y as i64 - 10;
        if dx * dx + dy * dy <= 9 {
            0
        } else {
            50 * ONE
        }
    });
    let range = 2;
    let targets = find_targets(&map, range);
    assert_eq!(targets[10][10], (10, 10));
    let mut rivers = Grid::new(size, size);
    rivers.set(10, 10, 1000);

    let lakes = lake_map(&map, &rivers, &targets, -ONE, range, 100, 10);

    // the depression is under water
    for x in 0..size {
        for y in 0..size {
            let dx = x as i64 - 10;
            let dy = y as i64 - 10;
            if dx * dx + dy * dy <= 9 {
                assert_eq!(lakes.get(x, y), 50 * ONE);
            }
            // every cell shows the height of the rim, or is dry
            assert!(lakes.get(x, y) == 50 * ONE || lakes.get(x, y) == 0);
        }
    }
    // all water is one lake
    assert_eq!(region(&lakes, 10, 10).len(), count_wet(&lakes));
    // and some land is left
    assert!(count_wet(&lakes) < size * size);
}

#[test]
fn no_lake_without_enough_river() {
    let size = 20;
    let mut map = Grid::new(size, size);
    map.map_coords(|x, y, _| {
        let dx = x as i64 - 10;
        let dy = y as i64 - 10;
        if dx * dx + dy * dy <= 9 {
            0
        } else {
            50 * ONE
        }
    });
    let range = 2;
    let targets = find_targets(&map, range);
    let mut rivers = Grid::new(size, size);
    rivers.set(10, 10, 100);

    // a volume at the threshold is not over it
    let lakes = lake_map(&map, &rivers, &targets, -ONE, range, 100, 10);
    for x in 0..size {
        for y in 0..size {
            let at_border = x < range || x >= size - range || y < range || y >= size - range;
            let expected = if at_border { 50 * ONE } else { 0 };
            assert_eq!(lakes.get(x, y), expected);
        }
    }
}

#[test]
fn cells_below_the_ocean_are_water() {
    let mut map = Grid::new(8, 8);
    map.map_coords(|x, _, _| if x < 4 { 5 } else { 30 });
    let targets = find_targets(&map, 1);
    let rivers = Grid::new(8, 8);
    let lakes = lake_map(&map, &rivers, &targets, 20, 1, 100, 3);
    // the low half and the border belong to one body of water, as high as its highest cell
    for x in 0..8 {
        for y in 0..8 {
            let at_border = x < 1 || x >= 7 || y < 1 || y >= 7;
            let expected = if x < 4 || at_border { 30 } else { 0 };
            assert_eq!(lakes.get(x, y), expected);
        }
    }
}

#[test]
fn flood_spreads_from_the_lowest_cell_until_it_touches_water() {
    let mut map = Grid::new(7, 7);
    map.map(|_| 10);
    map.set(3, 3, 0);
    let targets = find_targets(&map, 1);
    let mut lakes = Grid::new(7, 7);
    lakes.map_coords(|x, y, _| if x < 1 || x >= 6 || y < 1 || y >= 6 { 1 } else { 0 });

    flood_lake(&map, &targets, &mut lakes, 3, 3);

    let flooded = [(3, 3), (2, 3), (4, 3), (3, 2), (3, 4), (1, 3), (2, 2), (2, 4)];
    for x in 1..6 {
        for y in 1..6 {
            let expected = if flooded.contains(&(x, y)) { 1 } else { 0 };
            assert_eq!(lakes.get(x, y), expected);
        }
    }
    for x in 0..7 {
        assert_eq!(lakes.get(x, 0), 1);
        assert_eq!(lakes.get(x, 6), 1);
        assert_eq!(lakes.get(0, x), 1);
        assert_eq!(lakes.get(6, x), 1);
    }
}

#[test]
fn flood_runs_down_a_trench() {
    let mut map = Grid::new(9, 9);
    map.map(|_| 100);
    map.set(4, 4, 0);
    map.set(4, 5, 50);
    map.set(4, 6, 60);
    map.set(4, 7, 40);
    let targets = find_targets(&map, 1);
    assert_eq!(targets[4][6], (4, 7));
    let mut lakes = Grid::new(9, 9);
    lakes.map_coords(|x, y, _| if x < 1 || x >= 8 || y < 1 || y >= 8 { 1 } else { 0 });

    flood_lake(&map, &targets, &mut lakes, 4, 4);

    // from (4, 4) to (4, 5), (4, 6) and (4, 7), whose lower neighbour is water
    for &(x, y) in &[(4, 4), (4, 5), (4, 6), (4, 7)] {
        assert_eq!(lakes.get(x, y), 1);
    }
    // the cells beside the trench were reached and are part of the lake
    for &(x, y) in &[(3, 4), (5, 4), (4, 3), (3, 5), (5, 5), (3, 6), (5, 6), (3, 7), (5, 7)] {
        assert_eq!(lakes.get(x, y), 1);
    }
    // nothing else was
    assert_eq!(count_wet(&lakes), 32 + 13);
}

#[test]
fn flood_jumps_to_the_flow_target() {
    // the flow of (6, 4) crosses the ridge at (5, 4) and ends in the pit at (4, 4)
    let mut map = Grid::new(9, 9);
    map.map(|_| 100);
    map.set(4, 4, 0);
    map.set(6, 4, 10);
    let targets = find_targets(&map, 2);
    assert_eq!(targets[6][4], (4, 4));
    let mut lakes = Grid::new(9, 9);
    lakes.map_coords(|x, y, _| if x < 1 || x >= 8 || y < 1 || y >= 8 { 1 } else { 0 });

    flood_lake(&map, &targets, &mut lakes, 6, 4);

    let flooded = [
        (6, 4),
        (5, 4),
        (7, 4),
        (6, 3),
        (6, 5),
        (4, 4),
        (3, 4),
        (4, 3),
        (4, 5),
        (2, 4),
        (3, 3),
        (3, 5),
        (1, 4),
        (2, 3),
        (2, 5),
    ];
    for x in 1..8 {
        for y in 1..8 {
            let expected = if flooded.contains(&(x, y)) { 1 } else { 0 };
            assert_eq!(lakes.get(x, y), expected);
        }
    }
}

#[test]
fn flood_from_water_changes_nothing() {
    let mut map = Grid::new(5, 5);
    map.map(|_| 10);
    let targets = find_targets(&map, 1);
    let mut lakes = Grid::new(5, 5);
    lakes.map_coords(|x, y, _| if x < 1 || x >= 4 || y < 1 || y >= 4 { 1 } else { 0 });
    lakes.set(2, 2, 1);
    flood_lake(&map, &targets, &mut lakes, 2, 2);
    for x in 1..4 {
        for y in 1..4 {
            let expected = if (x, y) == (2, 2) { 1 } else { 0 };
            assert_eq!(lakes.get(x, y), expected);
        }
    }
}

#[test]
fn small_lakes_dry_up_and_large_ones_rise_to_their_highest_cell() {
    let mut map = Grid::new(6, 4);
    map.map_coords(|x, y, _| (10 * x + y) as i64);
    let mut lakes = Grid::new(6, 4);
    for &(x, y) in &[(0, 0), (1, 0), (1, 1), (4, 2)] {
        lakes.set(x, y, 1);
    }
    level_lakes(&map, &mut lakes, -5, 2);
    for x in 0..6 {
        for y in 0..4 {
            let expected = if [(0, 0), (1, 0), (1, 1)].contains(&(x, y)) {
                11
            } else {
                0
            };
            assert_eq!(lakes.get(x, y), expected);
        }
    }
}

#[test]
fn lake_of_exactly_the_smallest_area_dries_up() {
    let map = Grid::new(4, 4);
    let mut lakes = Grid::new(4, 4);
    for &(x, y) in &[(1, 1), (1, 2), (2, 2)] {
        lakes.set(x, y, 7);
    }
    let mut kept = Grid::new(4, 4);
    kept.combine(&lakes, |_, l| l);
    level_lakes(&map, &mut lakes, 3, 3);
    assert_eq!(count_wet(&lakes), 0);
    level_lakes(&map, &mut kept, 3, 2);
    assert_eq!(count_wet(&kept), 3);
}

#[test]
fn flat_lake_lies_at_its_own_height() {
    let mut map = Grid::new(5, 5);
    map.map(|_| 42);
    let mut lakes = Grid::new(5, 5);
    for x in 1..4 {
        for y in 1..4 {
            lakes.set(x, y, 1);
        }
    }
    level_lakes(&map, &mut lakes, 0, 1);
    for x in 0..5 {
        for y in 0..5 {
            let inside = (1..4).contains(&x) && (1..4).contains(&y);
            assert_eq!(lakes.get(x, y), if inside { 42 } else { 0 });
        }
    }
}

#[test]
fn lake_below_the_ocean_lies_at_ocean_height() {
    let mut map = Grid::new(3, 3);
    map.map(|_| -8);
    let mut lakes = Grid::new(3, 3);
    lakes.map(|_| 1);
    level_lakes(&map, &mut lakes, 20, 0);
    for x in 0..3 {
        for y in 0..3 {
            assert_eq!(lakes.get(x, y), 20);
        }
    }
}

#[test]
fn lakes_that_touch_at_a_corner_stay_apart() {
    let mut map = Grid::new(4, 4);
    map.map_coords(|x, _, _| x as i64 + 1);
    let mut lakes = Grid::new(4, 4);
    lakes.set(0, 0, 1);
    lakes.set(0, 1, 1);
    lakes.set(1, 2, 1);
    lakes.set(2, 2, 1);
    lakes.set(3, 2, 1);
    // together the two lakes would have five cells and the height four
    level_lakes(&map, &mut lakes, -1, 2);
    assert_eq!(lakes.get(0, 0), 0);
    assert_eq!(lakes.get(0, 1), 0);
    assert_eq!(lakes.get(1, 2), 4);
    assert_eq!(lakes.get(2, 2), 4);
    assert_eq!(lakes.get(3, 2), 4);
}

#[test]
fn no_cell_of_a_lake_lies_above_its_surface() {
    let mut state = 77u64;
    let mut map = Grid::new(12, 12);
    let mut lakes = Grid::new(12, 12);
    for x in 0..12 {
        for y in 0..12 {
            state = state
                .wrapping_mul(6364136223846793005)
                .wrapping_add(1442695040888963407);
            map.set(x, y, ((state >> 33) % 100) as i64);
            lakes.set(x, y, ((state >> 50) % 2) as i64);
        }
    }
    let mut wet = Grid::new(12, 12);
    wet.combine(&lakes, |_, l| l);
    level_lakes(&map, &mut lakes, 10, 4);
    for x in 0..12 {
        for y in 0..12 {
            if wet.get(x, y) > 0 {
                let cells = region(&wet, x, y);
                let highest = cells.iter().map(|&(cx, cy)| map.get(cx, cy)).max().unwrap();
                for &(cx, cy) in &cells {
                    if cells.len() > 4 {
                        assert_eq!(lakes.get(cx, cy), highest.max(10));
                        assert!(map.get(cx, cy) <= lakes.get(cx, cy));
                    } else {
                        assert_eq!(lakes.get(cx, cy), 0);
                    }
                }
            } else {
                assert_eq!(lakes.get(x, y), 0);
            }
        }
    }
}
