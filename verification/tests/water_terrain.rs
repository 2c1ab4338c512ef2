use worldgen::grid::{Grid, ONE};
use worldgen::water_terrain::{can_grow, create_heightmap, slope_increment, MAX_LEVEL, MAX_VOLUME};

/// The heights that growing from the lakes gives, found by trying again and
/// again until nothing gets lower.
fn relaxed(rivers: &Grid, lakes: &Grid) -> Vec<Vec<i64>> {
    let (width, height) = (lakes.width(), lakes.height());
    let mut best = vec![vec![0i64; height]; width];
    for x in 0..width {
        for y in 0..height {
            if lakes.get(x, y) > 0 {
                best[x][y] = lakes.get(x, y);
            }
        }
    }
    let mut changed = true;
    while changed {
        changed = false;
        for x in 1..width - 1 {
            for y in 1..height - 1 {
                if best[x][y] == 0 {
                    continue;
                }
                let nz = best[x][y] + ONE * ONE / (ONE / 2 + rivers.get(x, y));
                for nx in x - 1..=x + 1 {
                    for ny in y - 1..=y + 1 {
                        if (nx, ny) != (x, y) && (best[nx][ny] == 0 || nz < best[nx][ny]) {
                            best[nx][ny] = nz;
                            changed = true;
                        }
                    }
                }
            }
        }
    }
    best
}

fn rough_grids(width: usize, height: usize, seed: u64) -> (Grid, Grid) {
    let mut state = seed;
    let mut rivers = Grid::new(width, height);
    let mut lakes = Grid::new(width, height);
    for x in 0..width {
        for y in 0..height {
            state = state
                .wrapping_mul(6364136223846793005)
                .wrapping_add(1442695040888963407);
            rivers.set(x, y, ((state >> 33) % (4 * ONE as u64)) as i64);
            if (state >> 20) % 17 == 0 {
                lakes.set(x, y, ((state >> 40) % (30 * ONE as u64)) as i64 + 1);
            }
        }
    }
    (rivers, lakes)
}

#[test]
fn slope_is_one_over_a_half_more_than_the_volume() {
    assert_eq!(slope_increment(0), 2 * ONE);
    assert_eq!(slope_increment(ONE / 2), ONE);
    assert_eq!(slope_increment(3 * ONE / 2), ONE / 2);
    assert_eq!(slope_increment(ONE), 43690);
    assert_eq!(slope_increment(100 * ONE), 652);
    assert_eq!(slope_increment(0x3fff_ffff_ffff_ffff), 0);
}

#[test]
fn terrain_rises_around_a_lake() {
    let rivers = Grid::new(5, 5);
    let mut lakes = Grid::new(5, 5);
    lakes.set(2, 2, 3 * ONE);
    let terrain = create_heightmap(&rivers, &lakes);
    for x in 0..5usize {
        for y in 0..5usize {
            let rings = (x as i64 - 2).abs().max((y as i64 - 2).abs());
            assert_eq!(terrain.get(x, y), 3 * ONE + rings * 2 * ONE);
        }
    }
}

#[test]
fn rivers_carve_gentler_slopes() {
    let mut rivers = Grid::new(7, 3);
    let mut lakes = Grid::new(7, 3);
    lakes.set(1, 1, ONE);
    // much water flows to the right of the lake
    for x in 1..6 {
        rivers.set(x, 1, 3 * ONE / 2);
    }
    let terrain = create_heightmap(&rivers, &lakes);
    assert_eq!(terrain.get(1, 1), ONE);
    assert_eq!(terrain.get(2, 1), ONE + ONE / 2);
    assert_eq!(terrain.get(3, 1), ONE + 2 * (ONE / 2));
    assert_eq!(terrain.get(5, 1), ONE + 4 * (ONE / 2));
    assert_eq!(terrain.get(6, 1), ONE + 5 * (ONE / 2));
    // the edge rows are reached from the row between them
    assert_eq!(terrain.get(3, 0), ONE + 2 * (ONE / 2));
    assert_eq!(terrain.get(0, 0), ONE + ONE / 2);
}

#[test]
fn terrain_does_not_grow_on_from_the_edge() {
    let rivers = Grid::new(4, 4);
    let mut lakes = Grid::new(4, 4);
    lakes.set(0, 0, 5);
    let terrain = create_heightmap(&rivers, &lakes);
    for x in 0..4 {
        for y in 0..4 {
            assert_eq!(terrain.get(x, y), if (x, y) == (0, 0) { 5 } else { 0 });
        }
    }
}

#[test]
fn no_lakes_no_terrain() {
    let rivers = Grid::new(6, 6);
    let lakes = Grid::new(6, 6);
    let terrain = create_heightmap(&rivers, &lakes);
    assert_eq!(terrain.minmax(), (0, 0));
}

#[test]
fn lower_lake_floods_a_higher_one() {
    let rivers = Grid::new(5, 5);
    let mut lakes = Grid::new(5, 5);
    lakes.set(1, 1, ONE);
    lakes.set(2, 2, 100 * ONE);
    let terrain = create_heightmap(&rivers, &lakes);
    assert_eq!(terrain.get(1, 1), ONE);
    assert_eq!(terrain.get(2, 2), 3 * ONE);
    assert_eq!(terrain.get(3, 3), 5 * ONE);
}

#[test]
fn terrain_is_the_lowest_that_reaches_each_cell() {
    for seed in 1..6 {
        let (rivers, lakes) = rough_grids(13, 11, seed);
        let terrain = create_heightmap(&rivers, &lakes);
        let expected = relaxed(&rivers, &lakes);
        for x in 0..13 {
            for y in 0..11 {
                assert_eq!(terrain.get(x, y), expected[x][y]);
            }
        }
    }
}

#[test]
fn terrain_does_not_fall_along_the_way_it_grew() {
    let (rivers, lakes) = rough_grids(15, 15, 42);
    let terrain = create_heightmap(&rivers, &lakes);
    for x in 0..15usize {
        for y in 0..15usize {
            let here = terrain.get(x, y);
            if here == 0 || (lakes.get(x, y) > 0 && here == lakes.get(x, y)) {
                continue;
            }
            // the height came from one of the cells around, which is no higher
            let mut found = false;
            for nx in x.saturating_sub(1)..=(x + 1).min(14) {
                for ny in y.saturating_sub(1)..=(y + 1).min(14) {
                    let inner = nx > 0 && nx < 14 && ny > 0 && ny < 14;
                    if inner && (nx, ny) != (x, y) && terrain.get(nx, ny) != 0 {
                        let from = terrain.get(nx, ny);
                        if from + slope_increment(rivers.get(nx, ny)) == here {
                            assert!(from <= here);
                            found = true;
                        }
                    }
                }
            }
            assert!(found);
        }
    }
}

#[test]
fn grids_that_terrain_can_grow_from() {
    let mut rivers = Grid::new(4, 3);
    let mut lakes = Grid::new(4, 3);
    assert!(can_grow(&rivers, &lakes));
    rivers.set(1, 1, MAX_VOLUME);
    lakes.set(2, 2, MAX_LEVEL);
    lakes.set(0, 0, -5);
    assert!(can_grow(&rivers, &lakes));

    assert!(!can_grow(&rivers, &Grid::new(3, 4)));
    rivers.set(0, 2, -1);
    assert!(!can_grow(&rivers, &lakes));
    rivers.set(0, 2, MAX_VOLUME + 1);
    assert!(!can_grow(&rivers, &lakes));
    rivers.set(0, 2, 0);
    lakes.set(3, 0, MAX_LEVEL + 1);
    assert!(!can_grow(&rivers, &lakes));
    assert!(can_grow(&Grid::new(0, 7), &Grid::new(0, 7)));
}
