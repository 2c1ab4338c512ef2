use worldgen::flow::find_targets;
use worldgen::grid::{Grid, ONE};
use worldgen::river::{create_flow_map, create_volume_map, is_descending_field};

fn rough_map(width: usize, height: usize, seed: u64, levels: u64) -> Grid {
    let mut state = seed;
    let mut map = Grid::new(width, height);
    for x in 0..width {
        for y in 0..height {
            state = state
                .wrapping_mul(6364136223846793005)
                .wrapping_add(1442695040888963407);
            map.set(x, y, ((state >> 33) % levels) as i64);
        }
    }
    map
}

/// The cell in which the water of `(x, y)` ends.
fn sink_of(targets: &Vec<Vec<(usize, usize)>>, x: usize, y: usize) -> (usize, usize) {
    let mut cell = (x, y);
    while targets[cell.0][cell.1] != cell {
        cell = targets[cell.0][cell.1];
    }
    cell
}

#[test]
fn pit_gathers_its_neighbours() {
    let mut map = Grid::new(5, 5);
    map.map(|_| 10 * ONE);
    map.set(2, 2, 0);

    // within one cell the pit is reached along the rows and columns only
    let targets = find_targets(&map, 1);
    let volume = create_volume_map(&map, &targets);
    assert_eq!(volume.get(2, 2), 5);
    // the lines of the four cells end in the pit, which shows its own water too
    let rivers = create_flow_map(&map, &targets);
    assert_eq!(rivers.get(2, 2), 4 + 5);
    assert_eq!(rivers.get(1, 2), 1);
    assert_eq!(rivers.get(1, 1), 1);

    // within two cells it is reached from the eight cells around it and four more
    let targets = find_targets(&map, 2);
    let volume = create_volume_map(&map, &targets);
    assert_eq!(volume.get(2, 2), 13);
    for x in 0..5 {
        for y in 0..5 {
            if (x, y) != (2, 2) {
                assert_eq!(volume.get(x, y), 1);
            }
        }
    }
}

#[test]
fn volume_of_a_sink_counts_the_cells_that_drain_into_it() {
    for &(range, seed, levels) in &[(1usize, 11u64, 1000u64), (2, 12, 40), (4, 13, 6)] {
        let (width, height) = (19, 14);
        let map = rough_map(width, height, seed, levels);
        let targets = find_targets(&map, range);
        let volume = create_volume_map(&map, &targets);
        let mut total = 0;
        for x in 0..width {
            for y in 0..height {
                if targets[x][y] == (x, y) {
                    let mut count = 0;
                    for px in 0..width {
                        for py in 0..height {
                            if sink_of(&targets, px, py) == (x, y) {
                                count += 1;
                            }
                        }
                    }
                    assert_eq!(volume.get(x, y), count);
                    total += count;
                }
            }
        }
        assert_eq!(total, (width * height) as i64);
    }
}

#[test]
fn volume_grows_downstream() {
    let map = rough_map(16, 16, 5, 30);
    let targets = find_targets(&map, 3);
    let volume = create_volume_map(&map, &targets);
    for x in 0..16 {
        for y in 0..16 {
            let (tx, ty) = targets[x][y];
            assert!(volume.get(x, y) >= 1);
            if (tx, ty) != (x, y) {
                assert!(volume.get(tx, ty) > volume.get(x, y));
            }
        }
    }
}

#[test]
fn river_along_a_slope() {
    // the lower row slopes to the right, the upper row lies far above it
    let mut map = Grid::new(5, 2);
    map.map_coords(|x, y, _| 100 - 10 * x as i64 + 1000 * y as i64);
    let targets = find_targets(&map, 1);
    for x in 0..4 {
        assert_eq!(targets[x][0], (x + 1, 0));
    }
    assert_eq!(targets[4][0], (4, 0));
    for x in 0..5 {
        assert_eq!(targets[x][1], (x, 0));
    }

    let volume = create_volume_map(&map, &targets);
    let rivers = create_flow_map(&map, &targets);
    for x in 0..5 {
        assert_eq!(volume.get(x, 1), 1);
        assert_eq!(rivers.get(x, 1), 1);
        assert_eq!(volume.get(x, 0), 2 * (x as i64 + 1));
    }
    assert_eq!(rivers.get(0, 0), 3);
    assert_eq!(rivers.get(1, 0), 7);
    assert_eq!(rivers.get(2, 0), 11);
    assert_eq!(rivers.get(3, 0), 15);
    // the sink shows what arrives in it and all that it holds
    assert_eq!(rivers.get(4, 0), 9 + 10);
}

#[test]
fn river_lines_cover_the_cells_between() {
    let mut map = Grid::new(7, 7);
    map.map(|_| 10);
    map.set(3, 3, 0);
    let targets = find_targets(&map, 3);
    assert_eq!(targets[0][3], (3, 3));
    assert_eq!(targets[1][3], (3, 3));
    let rivers = create_flow_map(&map, &targets);
    // the lines from (0, 3), (1, 3), (1, 2) and (1, 4) all pass (2, 3), which draws its own as well
    assert_eq!(rivers.get(0, 3), 1);
    assert_eq!(rivers.get(1, 3), 2);
    assert_eq!(rivers.get(2, 3), 5);
    // the corners are too far from the pit and keep their own water
    assert_eq!(targets[0][0], (0, 0));
    assert_eq!(rivers.get(0, 0), 1);
}

#[test]
fn flat_map_keeps_its_water_where_it_is() {
    let mut map = Grid::new(4, 4);
    map.map(|_| 7);
    let targets = find_targets(&map, 2);
    let volume = create_volume_map(&map, &targets);
    let rivers = create_flow_map(&map, &targets);
    let mut total = 0;
    for x in 0..4 {
        for y in 0..4 {
            assert_eq!(volume.get(x, y), 1);
            assert_eq!(rivers.get(x, y), 1);
            total += rivers.get(x, y);
        }
    }
    assert_eq!(total, 16);
}

#[test]
fn every_cell_a_sink() {
    let map = Grid::new(3, 3);
    let targets: Vec<Vec<(usize, usize)>> = (0..3)
        .map(|x| (0..3).map(|y| (x, y)).collect())
        .collect();
    let rivers = create_flow_map(&map, &targets);
    for x in 0..3 {
        for y in 0..3 {
            assert_eq!(rivers.get(x, y), 1);
        }
    }
}

#[test]
fn river_never_falls_along_a_chain() {
    let mut map = Grid::new(3, 1);
    map.map_coords(|x, _, _| 2 - x as i64);
    let targets = vec![vec![(1, 0)], vec![(2, 0)], vec![(2, 0)]];
    assert!(is_descending_field(&map, &targets));
    let rivers = create_flow_map(&map, &targets);
    assert_eq!(rivers.get(0, 0), 1);
    assert_eq!(rivers.get(1, 0), 3);
    assert_eq!(rivers.get(2, 0), 5);
    let volume = create_volume_map(&map, &targets);
    assert_eq!(volume.get(2, 0), 3);
}

#[test]
fn river_of_a_sink_is_twice_its_volume_less_one_between_neighbours() {
    // within one cell every line joins two cells that share an edge
    let map = rough_map(17, 12, 31, 9);
    let targets = find_targets(&map, 1);
    let volume = create_volume_map(&map, &targets);
    let rivers = create_flow_map(&map, &targets);
    for x in 0..17 {
        for y in 0..12 {
            assert_eq!(rivers.get(x, y), 2 * volume.get(x, y) - 1);
            let (tx, ty) = targets[x][y];
            assert!(rivers.get(tx, ty) >= rivers.get(x, y));
        }
    }
}

#[test]
fn resolved_targets_descend() {
    let map = rough_map(14, 9, 21, 8);
    for range in 1..5 {
        let targets = find_targets(&map, range);
        assert!(is_descending_field(&map, &targets));
    }
}

#[test]
fn fields_that_do_not_descend_are_told() {
    let mut map = Grid::new(3, 2);
    map.map_coords(|x, y, _| (3 * y + x) as i64);
    let own: Vec<Vec<(usize, usize)>> = (0..3)
        .map(|x| (0..2).map(|y| (x, y)).collect())
        .collect();
    assert!(is_descending_field(&map, &own));

    // to a lower cell
    let mut down = own.clone();
    down[2][1] = (0, 0);
    assert!(is_descending_field(&map, &down));
    // to a higher cell
    let mut up = own.clone();
    up[0][0] = (1, 0);
    assert!(!is_descending_field(&map, &up));
    // to a cell of the same height
    let mut level = Grid::new(3, 2);
    level.map(|_| 4);
    assert!(!is_descending_field(&level, &down));
    // off the map
    let mut off = own.clone();
    off[1][1] = (3, 0);
    assert!(!is_descending_field(&map, &off));
    let mut off = own.clone();
    off[1][1] = (0, 2);
    assert!(!is_descending_field(&map, &off));
    // of the wrong shape
    let mut short = own.clone();
    short[1].pop();
    assert!(!is_descending_field(&map, &short));
    let mut narrow = own.clone();
    narrow.pop();
    assert!(!is_descending_field(&map, &narrow));
}
