use nexus_engine::resources::{encode_resource_texture, generate_resources, regenerate};
use nexus_engine::world::{Grid, RenewableResource, ResourceDeposit, ResourceKind, Terrain, Tile};

fn grid_of(terrain: Terrain, count: usize) -> Grid {
    Grid {
        width: count as u32,
        height: 1,
        tiles: vec![Tile { terrain }; count],
        region_ids: Vec::new(),
        regions: Vec::new(),
        resources: Vec::new(),
        renewable_resources: Vec::new(),
    }
}

#[test]
fn resource_generation_is_deterministic() {
    let mut first = grid_of(Terrain::Forest, 512);
    let mut second = grid_of(Terrain::Forest, 512);
    generate_resources(42, &mut first);
    generate_resources(42, &mut second);
    assert_eq!(first.resources, second.resources);
}

#[test]
fn different_seeds_change_resources() {
    let mut first = grid_of(Terrain::Grassland, 512);
    let mut second = grid_of(Terrain::Grassland, 512);
    generate_resources(1, &mut first);
    generate_resources(999, &mut second);
    assert_ne!(first.resources, second.resources);
}

#[test]
fn ocean_has_no_land_resources() {
    for terrain in [Terrain::DeepWater, Terrain::ShallowWater] {
        let mut grid = grid_of(terrain, 512);
        generate_resources(42, &mut grid);
        assert!(grid.resources.iter().all(Option::is_none));
    }
}

#[test]
fn forests_can_generate_timber() {
    let mut grid = grid_of(Terrain::Forest, 512);
    generate_resources(42, &mut grid);
    assert!(grid
        .resources
        .iter()
        .flatten()
        .any(|deposit| { deposit.kind == ResourceKind::Timber && deposit.amount > 0 }));
}

#[test]
fn mountains_can_generate_stone_and_iron() {
    let mut grid = grid_of(Terrain::Mountain, 1_024);
    generate_resources(42, &mut grid);
    assert!(grid
        .resources
        .iter()
        .flatten()
        .any(|deposit| deposit.kind == ResourceKind::Stone));
    assert!(grid
        .resources
        .iter()
        .flatten()
        .any(|deposit| deposit.kind == ResourceKind::Iron));
}

#[test]
fn resource_count_matches_world_size() {
    let mut grid = grid_of(Terrain::Plains, 4_096);
    generate_resources(42, &mut grid);
    assert_eq!(grid.resources.len(), grid.tiles.len());
}

#[test]
fn encodes_kind_and_u16_amount() {
    let grid = Grid {
        width: 1,
        height: 1,
        tiles: vec![Tile { terrain: Terrain::Forest }],
        region_ids: Vec::new(),
        regions: Vec::new(),
        resources: vec![Some(ResourceDeposit { kind: ResourceKind::Timber, amount: 840 })],
        renewable_resources: Vec::new(),
    };

    assert_eq!(encode_resource_texture(&grid), vec![2, 72, 3, 255]);
}

#[test]
fn empty_tiles_encode_as_zeroes() {
    let mut grid = grid_of(Terrain::DeepWater, 2);
    grid.resources = vec![None, Some(ResourceDeposit { kind: ResourceKind::Iron, amount: 5 })];
    assert_eq!(encode_resource_texture(&grid), vec![0, 0, 0, 0, 4, 5, 0, 255]);
}

#[test]
fn renewables_grow_by_a_hundredth_up_to_capacity() {
    let mut grid = grid_of(Terrain::Plains, 4);
    grid.resources = vec![
        None,
        Some(ResourceDeposit { kind: ResourceKind::Food, amount: 198 }),
        Some(ResourceDeposit { kind: ResourceKind::Stone, amount: 3 }),
        Some(ResourceDeposit { kind: ResourceKind::Food, amount: 10 }),
    ];
    grid.renewable_resources = vec![
        RenewableResource { index: 0, kind: ResourceKind::Food, capacity: 250 },
        RenewableResource { index: 1, kind: ResourceKind::Food, capacity: 200 },
        RenewableResource { index: 2, kind: ResourceKind::Food, capacity: 200 },
        RenewableResource { index: 3, kind: ResourceKind::Food, capacity: 10 },
        RenewableResource { index: 9, kind: ResourceKind::Food, capacity: 10 },
    ];
    assert!(regenerate(&mut grid));
    assert_eq!(grid.resources[0], Some(ResourceDeposit { kind: ResourceKind::Food, amount: 3 }));
    assert_eq!(grid.resources[1], Some(ResourceDeposit { kind: ResourceKind::Food, amount: 200 }));
    assert_eq!(grid.resources[2], Some(ResourceDeposit { kind: ResourceKind::Stone, amount: 3 }));
    assert_eq!(grid.resources[3], Some(ResourceDeposit { kind: ResourceKind::Food, amount: 10 }));

    grid.renewable_resources = vec![RenewableResource { index: 3, kind: ResourceKind::Food, capacity: 10 }];
    assert!(!regenerate(&mut grid));
}
