use nexus_engine::approach::{
    approach_heading, approach_walk, refresh_route, settle_approach, ApproachState, ApproachWalk, Heading,
};
use nexus_engine::mind::{Action, Goal, KnownEntity, Mind};
use nexus_engine::pathfinding::PathfindingWorkspace;
use nexus_engine::perception::EntityPosition;
use nexus_engine::world::{Grid, Region, Terrain, Tile};

fn open_grid(width: u32, height: u32) -> Grid {
    Grid {
        width,
        height,
        tiles: (0..width * height).map(|_| Tile { terrain: Terrain::Plains }).collect(),
        region_ids: Vec::new(),
        regions: Vec::<Region>::new(),
        resources: vec![None; (width * height) as usize],
        renewable_resources: Vec::new(),
    }
}

fn seen_at(id: u32, x: u32, y: u32) -> KnownEntity {
    KnownEntity {
        id,
        first_seen_tick: 0,
        last_seen_tick: 0,
        last_seen_x: x,
        last_seen_y: y,
        observed_ticks: 1,
        affinity: 0,
        last_interaction_tick: 0,
        interaction_count: 0,
        seek_retry_after_tick: None,
    }
}

fn seeking(goal: Goal) -> Mind {
    let mut mind = Mind::new();
    mind.set_plan(goal, vec![Action::ApproachEntity(4), Action::Interact(4)], 0);
    mind
}

#[test]
fn heading_uses_the_seen_position_then_the_remembered_one() {
    let population = vec![EntityPosition { id: 4, x: 7, y: 1 }];
    let mut watching = seeking(Goal::Socialize);
    watching.visible_entities = vec![4];
    assert_eq!(approach_heading(&mut watching, 4, &population, false), Some(Heading { x: 7, y: 1, visible: true }));
    let mut remembering = seeking(Goal::Socialize);
    remembering.memory.known_entities.push(seen_at(4, 3, 3));
    assert_eq!(approach_heading(&mut remembering, 4, &population, false), Some(Heading { x: 3, y: 3, visible: false }));
    let mut ignorant = seeking(Goal::Socialize);
    assert_eq!(approach_heading(&mut ignorant, 4, &population, false), None);
    assert_eq!(ignorant.current_goal, None);
}

#[test]
fn a_protector_stops_once_the_dependent_is_out_of_care() {
    let population = vec![EntityPosition { id: 4, x: 7, y: 1 }];
    let mut protector = seeking(Goal::ProtectDependent);
    protector.visible_entities = vec![4];
    assert_eq!(approach_heading(&mut protector, 4, &population, false), None);
    assert_eq!(protector.current_goal, None);
}

#[test]
fn getting_close_finishes_or_abandons_the_approach() {
    let mut near = seeking(Goal::Socialize);
    let seen = Heading { x: 2, y: 2, visible: true };
    assert_eq!(settle_approach(&mut near, (1, 1), 4, seen, false, 9), ApproachState::Reached);
    assert_eq!(near.plan_index, 1);
    let mut far = seeking(Goal::Socialize);
    assert_eq!(settle_approach(&mut far, (9, 9), 4, seen, false, 9), ApproachState::OnTheWay);
    let mut lost = seeking(Goal::Socialize);
    lost.memory.known_entities.push(seen_at(4, 2, 2));
    let remembered = Heading { x: 2, y: 2, visible: false };
    assert_eq!(settle_approach(&mut lost, (2, 3), 4, remembered, false, 9), ApproachState::GaveUp);
    assert_eq!(lost.current_goal, None);
    assert_eq!(lost.memory.known_entities[0].seek_retry_after_tick, Some(59));
}

#[test]
fn the_route_is_pointed_at_the_heading_and_walked() {
    let grid = open_grid(8, 3);
    let mut workspace = PathfindingWorkspace::new();
    let mut mind = seeking(Goal::Socialize);
    let heading = Heading { x: 5, y: 0, visible: true };
    let mut path = Vec::new();
    let mut index = 0;
    refresh_route(&mut workspace, &grid, (0, 0), heading, &mut path, &mut index);
    assert_eq!(path, vec![(1, 0), (2, 0), (3, 0), (4, 0), (5, 0)]);
    let mut position = (0, 0);
    assert_eq!(
        approach_walk(&mut mind, &grid, &mut position, &mut path, &mut index, 4, heading, true, 1),
        ApproachWalk::Walking
    );
    assert_eq!((position, index), ((1, 0), 1));
    refresh_route(&mut workspace, &grid, position, heading, &mut path, &mut index);
    assert_eq!(index, 1);
}
