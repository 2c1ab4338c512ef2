use worldgen::flow::find_targets;
use worldgen::grid::{Grid, ONE};
use worldgen::lake::lake_map;
use worldgen::river::create_flow_map;
use worldgen::water_terrain::create_heightmap;

/// An island: a cone with a crater, rippled so that water gathers in places.
fn island(size: usize) -> Grid {
    let mut map = Grid::new(size, size);
    map.map_coords(|x, y, _| {
        let dx = x as f64 - size as f64 / 2.0;
        let dy = y as f64 - size as f64 / 2.0;
        let dist = (dx * dx + dy * dy).sqrt();
        let cone = 40.0 - (dist - 6.0).abs() * 1.5;
        let ripple = 3.0 * ((x as f64 * 0.9).sin() + (y as f64 * 0.7).cos());
        ((cone + ripple) * ONE as f64).round() as i64
    });
    map
}

#[test]
fn island_from_heights_to_terrain() {
    let size = 48;
    let range = 3;
    let ocean = 20 * ONE;
    let map = island(size);

    let targets = find_targets(&map, range);
    let mut rivers = create_flow_map(&map, &targets);
    let lakes = lake_map(&map, &rivers, &targets, ocean, range, 20, 10);

    // the sea around the island is one body of water
    assert!(lakes.get(0, 0) >= ocean);
    assert_eq!(lakes.get(0, 0), lakes.get(size - 1, size - 1));
    // no lake lies below a cell of its own
    for x in 0..size {
        for y in 0..size {
            if lakes.get(x, y) > 0 {
                assert!(lakes.get(x, y) >= map.get(x, y));
                assert!(lakes.get(x, y) >= ocean);
            }
        }
    }

    rivers.map(|volume| volume * ONE);
    let terrain = create_heightmap(&rivers, &lakes);
    for x in 0..size {
        for y in 0..size {
            // the border is water, so the terrain reaches every cell
            assert!(terrain.get(x, y) > 0);
            // and lies no higher than the water where there is some
            if lakes.get(x, y) > 0 {
                assert!(terrain.get(x, y) <= lakes.get(x, y));
            }
        }
    }
}
