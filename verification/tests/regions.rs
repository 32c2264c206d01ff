use nexus_engine::regions::detect_regions;
use nexus_engine::world::{Grid, RegionKind, Terrain, Tile, NO_REGION};

fn is_water(terrain: Terrain) -> bool {
    matches!(terrain, Terrain::DeepWater | Terrain::ShallowWater)
}

fn make_test_grid(pattern: &[&str]) -> Grid {
    let width = pattern[0].len() as u32;
    let height = pattern.len() as u32;
    let mut tiles = Vec::new();
    for row in pattern {
        for c in row.chars() {
            let terrain = match c {
                'L' => Terrain::Grassland,
                'W' => Terrain::DeepWater,
                _ => Terrain::Plains,
            };
            tiles.push(Tile { terrain });
        }
    }
    let tc = tiles.len();
    Grid {
        width,
        height,
        tiles,
        region_ids: vec![u32::MAX; tc],
        regions: Vec::new(),
        resources: Vec::new(),
        renewable_resources: Vec::new(),
    }
}

#[test]
fn every_tile_receives_a_region() {
    let mut grid = make_test_grid(&["LLWWW", "LLWWW", "WWLWW", "WWLLW"]);
    detect_regions(&mut grid);
    for (i, &rid) in grid.region_ids.iter().enumerate() {
        assert_ne!(rid, u32::MAX, "tile {} has no region", i);
    }
}

#[test]
fn connected_land_has_same_region() {
    let mut grid = make_test_grid(&["LLWWW", "LLWWW", "WWLWW", "WWLLW"]);
    detect_regions(&mut grid);
    let r00 = grid.region_ids[0];
    let r10 = grid.region_ids[1];
    let r01 = grid.region_ids[5];
    let r11 = grid.region_ids[6];
    assert_eq!(r00, r10);
    assert_eq!(r00, r01);
    assert_eq!(r00, r11);
}

#[test]
fn water_and_land_never_share_region() {
    let mut grid = make_test_grid(&["LLWWW", "LLWWW", "WWLWW", "WWLLW"]);
    detect_regions(&mut grid);
    for (i, tile) in grid.tiles.iter().enumerate() {
        let rid = grid.region_ids[i];
        let region = &grid.regions[rid as usize];
        if tile.terrain.is_water() {
            assert_eq!(region.kind, RegionKind::Water);
        } else {
            assert_eq!(region.kind, RegionKind::Land);
        }
    }
}

#[test]
fn region_detection_is_deterministic() {
    let mut g1 = make_test_grid(&["LLWWW", "LLWWW", "WWLWW", "WWLLW"]);
    let mut g2 = make_test_grid(&["LLWWW", "LLWWW", "WWLWW", "WWLLW"]);
    detect_regions(&mut g1);
    detect_regions(&mut g2);
    assert_eq!(g1.region_ids, g2.region_ids);
    assert_eq!(g1.regions.len(), g2.regions.len());
    for (a, b) in g1.regions.iter().zip(g2.regions.iter()) {
        assert_eq!(a.kind, b.kind);
        assert_eq!(a.tile_count, b.tile_count);
    }
}

#[test]
fn region_bounds_cover_their_tiles() {
    let mut grid = make_test_grid(&["WWWWW", "WLLLW", "WLLLW", "WWWWW"]);
    detect_regions(&mut grid);
    let land = grid.regions.iter().find(|r| r.kind == RegionKind::Land).unwrap();
    assert_eq!((land.min_x, land.min_y, land.max_x, land.max_y), (1, 1, 3, 2));
    assert_eq!(land.tile_count, 6);
    assert!(!land.touches_border);
    assert!(grid.region_ids.iter().all(|&id| id != NO_REGION));
    assert!(is_water(grid.tiles[0].terrain));
}

#[test]
fn region_lookup_and_coast() {
    let mut grid = make_test_grid(&["LLW"]);
    assert_eq!(grid.region_id_at(0, 0), None);
    detect_regions(&mut grid);
    assert_eq!(grid.region_id_at(0, 0), Some(0));
    assert_eq!(grid.region_id_at(2, 0), Some(1));
    assert_eq!(grid.region_id_at(3, 0), None);
    assert!(grid.is_coastal(1, 0));
    assert!(!grid.is_coastal(0, 0));
    assert!(!grid.is_coastal(2, 0));
}

#[test]
fn sample_pattern_has_four_connected_regions() {
    let mut grid = make_test_grid(&["LLWWW", "LLWWW", "WWLWW", "WWLLW"]);
    detect_regions(&mut grid);
    assert_eq!(grid.regions.len(), 4);
    assert_eq!(grid.region_ids[12], grid.region_ids[17]);
    assert_ne!(grid.region_ids[0], grid.region_ids[12]);
    assert_ne!(grid.region_ids[10], grid.region_ids[2]);
    let bottom_land = &grid.regions[grid.region_ids[12] as usize];
    assert_eq!(bottom_land.kind, RegionKind::Land);
    assert_eq!(bottom_land.tile_count, 3);
    assert!(bottom_land.touches_border);
}

#[test]
fn ring_of_water_is_one_region() {
    let mut grid = make_test_grid(&["WWWWW", "WLLLW", "WLLLW", "WWWWW"]);
    detect_regions(&mut grid);
    let water_regions: Vec<_> = grid
        .regions
        .iter()
        .filter(|r| r.kind == RegionKind::Water)
        .collect();
    assert_eq!(water_regions.len(), 1);
    assert_eq!(water_regions[0].tile_count, 14);
}

#[test]
fn regions_are_numbered_by_their_first_tile() {
    let mut grid = make_test_grid(&["LLWWW", "LLWWW", "WWLWW", "WWLLW"]);
    detect_regions(&mut grid);
    assert_eq!(grid.region_ids[0], 0);
    assert_eq!(grid.region_ids[2], 1);
    assert_eq!(grid.region_ids[10], 2);
    assert_eq!(grid.region_ids[12], 3);
}

#[test]
fn region_records_span_exactly_their_tiles() {
    let mut grid = make_test_grid(&["LLWWW", "LLWWW", "WWLWW", "WWLLW"]);
    detect_regions(&mut grid);
    let water = &grid.regions[1];
    assert_eq!(water.kind, RegionKind::Water);
    assert_eq!(water.tile_count, 9);
    assert_eq!((water.min_x, water.min_y, water.max_x, water.max_y), (2, 0, 4, 3));
    assert!(water.touches_border);
    let land = &grid.regions[3];
    assert_eq!(land.tile_count, 3);
    assert_eq!((land.min_x, land.min_y, land.max_x, land.max_y), (2, 2, 3, 3));
}

#[test]
fn enclosed_single_tile_is_a_region_of_its_own() {
    let mut grid = make_test_grid(&["WWW", "WLW", "WWW"]);
    detect_regions(&mut grid);
    assert_eq!(grid.regions.len(), 2);
    let island = &grid.regions[grid.region_ids[4] as usize];
    assert_eq!(island.kind, RegionKind::Land);
    assert_eq!(island.tile_count, 1);
    assert!(!island.touches_border);
    assert_eq!((island.min_x, island.min_y, island.max_x, island.max_y), (1, 1, 1, 1));
}
