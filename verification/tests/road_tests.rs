use jerry_core::coord_pool::CoordPool;
use jerry_core::road_builder::{
    choose_tile_to_pave, generate_road_builders, get_2_furthest_nodes, material_hunt_step,
    material_request, new_road_builder, pave_outcome_step, pave_outcome_step_bounded,
    plan_node_2_node, plan_node_2_road, plan_road_2_global, road_builder_step, shrink_path,
    PaveDecision, PaveOutcome, RoadBuilderData, RoadBuilderError, RoadStep,
};
use jerry_core::tiles::{ContentKind, Tile, TileKind, WeatherKind};
use jerry_core::utils::{Coord, MissionData, MissionKind, MissionStatus};

fn bare(kind: TileKind) -> Option<Tile> {
    Some(Tile { tile_type: kind, content: ContentKind::Empty, content_amount: 0, elevation: 0 })
}

fn flat_grass(n: usize) -> Vec<Vec<Option<Tile>>> {
    vec![vec![bare(TileKind::Grass); n]; n]
}

#[test]
fn paving_an_existing_street_skips_the_tile() {
    // the actuator refuses a tile already of street type: the tile leaves
    // the work-list and the mission continues without an error
    let mut to_pave = CoordPool::new();
    let street = Coord::new(2, 3);
    to_pave.insert(street);
    to_pave.insert(Coord::new(2, 4));
    let mut data = RoadBuilderData { to_pave, paved: CoordPool::new() };
    let decision = pave_outcome_step(&mut data, street, PaveOutcome::CannotPlaceHere, false,
        false);
    assert_eq!(decision, PaveDecision::SkipTile);
    assert!(!data.to_pave.contains(street));
    assert!(data.to_pave.contains(Coord::new(2, 4)));
    assert_eq!(data.paved.len(), 0);
}

#[test]
fn pave_outcomes_map_to_the_recovery_policy() {
    let tile = Coord::new(1, 1);
    let mut data = RoadBuilderData { to_pave: CoordPool::new(), paved: CoordPool::new() };
    data.to_pave.insert(tile);
    assert_eq!(pave_outcome_step(&mut data, tile, PaveOutcome::NoMaterial, false, false),
        PaveDecision::CollectMaterial);
    assert_eq!(pave_outcome_step(&mut data, tile, PaveOutcome::NotEnoughEnergy, false, false),
        PaveDecision::PauseLowEnergy);
    assert_eq!(pave_outcome_step(&mut data, tile, PaveOutcome::MustDestroyContentFirst, false,
        true), PaveDecision::SkipTile);
    let mut data2 = RoadBuilderData { to_pave: CoordPool::new(), paved: CoordPool::new() };
    data2.to_pave.insert(tile);
    assert_eq!(pave_outcome_step(&mut data2, tile, PaveOutcome::MustDestroyContentFirst, false,
        false), PaveDecision::DestroyContent);
    assert!(data2.to_pave.contains(tile));
    assert_eq!(pave_outcome_step(&mut data2, tile, PaveOutcome::Other, true, false),
        PaveDecision::MountainPlacement);
    assert_eq!(pave_outcome_step(&mut data2, tile, PaveOutcome::Other, false, false),
        PaveDecision::Fault);
    assert_eq!(pave_outcome_step(&mut data2, tile, PaveOutcome::Paved, false, false),
        PaveDecision::Done);
    assert!(!data2.to_pave.contains(tile));
    assert!(data2.paved.contains(tile));
}

#[test]
fn furthest_nodes_by_manhattan_distance() {
    let nodes = vec![Coord::new(0, 0), Coord::new(3, 3), Coord::new(9, 1), Coord::new(2, 2)];
    let (a, b) = get_2_furthest_nodes(&nodes);
    let dist = |x: Coord, y: Coord| {
        (x.row as i64 - y.row as i64).abs() + (x.col as i64 - y.col as i64).abs()
    };
    assert_eq!(dist(a, b), 10);
    for &n1 in &nodes {
        for &n2 in &nodes {
            assert!(dist(n1, n2) <= dist(a, b));
        }
    }
}

#[test]
fn choose_tile_to_pave_takes_the_global_minimum() {
    let mut to_pave = CoordPool::new();
    to_pave.insert(Coord::new(0, 0));
    to_pave.insert(Coord::new(0, 1));
    to_pave.insert(Coord::new(0, 2));
    let costs = vec![9, 2, u32::MAX];
    let (c, w) = choose_tile_to_pave(&to_pave, &costs).unwrap();
    assert_eq!(c, Coord::new(0, 1));
    assert_eq!(w, 2);
    let costs = vec![u32::MAX, u32::MAX, u32::MAX];
    assert_eq!(choose_tile_to_pave(&to_pave, &costs),
        Err(RoadBuilderError::RoadNonAccessible));
}

#[test]
fn shrink_strips_water_from_both_ends() {
    let mut map = flat_grass(6);
    map[0][0] = bare(TileKind::ShallowWater);
    map[0][5] = bare(TileKind::DeepWater);
    let mut path = vec![
        Coord::new(0, 0),
        Coord::new(0, 1),
        Coord::new(0, 2),
        Coord::new(0, 3),
        Coord::new(0, 4),
        Coord::new(0, 5),
    ];
    shrink_path(&mut path, &map);
    assert_eq!(path, vec![Coord::new(0, 1), Coord::new(0, 2), Coord::new(0, 3),
        Coord::new(0, 4)]);
}

#[test]
fn plan_connects_two_nodes() {
    let map = flat_grass(6);
    let path = plan_node_2_node(&map, WeatherKind::Sunny, Coord::new(0, 0), Coord::new(0, 4));
    assert!(!path.is_empty());
    assert_eq!(*path.last().unwrap(), Coord::new(0, 4));
    // every consecutive pair of planned tiles is grid-adjacent
    for w in path.windows(2) {
        let d = (w[0].row as i64 - w[1].row as i64).abs() + (w[0].col as i64
            - w[1].col as i64).abs();
        assert_eq!(d, 1);
    }
}

#[test]
fn road_planning_covers_every_node() {
    // three nodes on open ground, no global road yet: after planning, every
    // node belongs to the global road set and the union of planned tiles
    // plus nodes is 4-connected
    let map = flat_grass(7);
    let nodes = vec![Coord::new(0, 0), Coord::new(6, 6), Coord::new(0, 6)];
    let mut road_tiles = CoordPool::new();
    let missions = generate_road_builders(&map, WeatherKind::Sunny, &nodes, &mut road_tiles);
    assert!(!missions.is_empty());
    for m in &missions {
        assert_eq!(m.kind, MissionKind::RoadBuilder);
        assert_eq!(m.status, MissionStatus::Paused);
    }
    for n in &nodes {
        assert!(road_tiles.contains(*n));
    }
    // collect the union of road tiles and check connectivity by flooding
    let mut tiles: Vec<Coord> = Vec::new();
    for k in 0..road_tiles.len() {
        tiles.push(road_tiles.get(k));
    }
    let mut reached = vec![false; tiles.len()];
    reached[0] = true;
    let mut changed = true;
    while changed {
        changed = false;
        for i in 0..tiles.len() {
            if reached[i] {
                continue;
            }
            for j in 0..tiles.len() {
                if reached[j] {
                    let d = (tiles[i].row as i64 - tiles[j].row as i64).abs()
                        + (tiles[i].col as i64 - tiles[j].col as i64).abs();
                    if d <= 1 {
                        reached[i] = true;
                        changed = true;
                        break;
                    }
                }
            }
        }
    }
    assert!(reached.iter().all(|&r| r), "road network has an isolated segment");
}

#[test]
fn new_road_builder_queues_the_whole_path() {
    let path = vec![Coord::new(1, 1), Coord::new(1, 2), Coord::new(1, 3)];
    let m = new_road_builder(&path);
    assert_eq!(m.kind, MissionKind::RoadBuilder);
    assert_eq!(m.status, MissionStatus::Paused);
    match m.additional_data {
        MissionData::RoadBuilder(d) => {
            assert_eq!(d.to_pave.len(), 3);
            for c in &path {
                assert!(d.to_pave.contains(*c));
            }
            assert_eq!(d.paved.len(), 0);
        },
        _ => panic!("wrong payload"),
    }
}

#[test]
fn road_builder_tick_decisions() {
    let empty = RoadBuilderData { to_pave: CoordPool::new(), paved: CoordPool::new() };
    assert_eq!(road_builder_step(&empty, &Vec::new(), 100), RoadStep::Completed);
    let mut to_pave = CoordPool::new();
    to_pave.insert(Coord::new(1, 1));
    to_pave.insert(Coord::new(1, 2));
    let data = RoadBuilderData { to_pave, paved: CoordPool::new() };
    assert_eq!(road_builder_step(&data, &vec![u32::MAX, u32::MAX], 100),
        RoadStep::InvariantViolated);
    assert_eq!(road_builder_step(&data, &vec![7, 3], 100),
        RoadStep::Pave(Coord::new(1, 2), 3));
    assert_eq!(road_builder_step(&data, &vec![7, 3], 2),
        RoadStep::LowEnergy(Coord::new(1, 2), 3));
}

#[test]
fn retries_are_bounded_per_session() {
    let tile = Coord::new(1, 1);
    let mut data = RoadBuilderData { to_pave: CoordPool::new(), paved: CoordPool::new() };
    data.to_pave.insert(tile);
    let mut attempts: u8 = 2;
    assert_eq!(pave_outcome_step_bounded(&mut data, tile, PaveOutcome::NoMaterial, false,
        false, &mut attempts), PaveDecision::CollectMaterial);
    assert_eq!(attempts, 1);
    assert_eq!(pave_outcome_step_bounded(&mut data, tile,
        PaveOutcome::MustDestroyContentFirst, false, false, &mut attempts),
        PaveDecision::DestroyContent);
    assert_eq!(attempts, 0);
    // the budget is spent: the next recovery turns into the terminal fault
    assert_eq!(pave_outcome_step_bounded(&mut data, tile, PaveOutcome::NoMaterial, false,
        false, &mut attempts), PaveDecision::Fault);
    // non-recovery outcomes still pass through unchanged
    assert_eq!(pave_outcome_step_bounded(&mut data, tile, PaveOutcome::CannotPlaceHere,
        false, false, &mut attempts), PaveDecision::SkipTile);
}

#[test]
fn shrinking_strips_every_watery_end() {
    // more than half the plan is leading water: all of it goes
    let mut map = flat_grass(8);
    for j in 0..5 {
        map[0][j] = bare(TileKind::ShallowWater);
    }
    let mut path: Vec<Coord> = (0..7).map(|j| Coord::new(0, j)).collect();
    shrink_path(&mut path, &map);
    assert_eq!(path, vec![Coord::new(0, 5), Coord::new(0, 6)]);
}

#[test]
fn node_connects_to_an_existing_road() {
    let map = flat_grass(6);
    let mut road = CoordPool::new();
    road.insert(Coord::new(0, 5));
    let path = plan_node_2_road(&map, WeatherKind::Sunny, Coord::new(0, 0), &road);
    assert!(!path.is_empty());
    assert_eq!(*path.last().unwrap(), Coord::new(0, 5));
}

#[test]
fn local_network_bridges_to_the_global_road() {
    let map = flat_grass(6);
    let mut local = CoordPool::new();
    local.insert(Coord::new(5, 0));
    let mut global = CoordPool::new();
    global.insert(Coord::new(0, 5));
    let path = plan_road_2_global(&map, WeatherKind::Sunny, &local, &global);
    assert!(!path.is_empty());
    assert_eq!(*path.last().unwrap(), Coord::new(0, 5));
}

#[test]
fn material_policy_is_rock_twenty_off_the_planned_road() {
    let mut to_pave = CoordPool::new();
    to_pave.insert(Coord::new(1, 1));
    to_pave.insert(Coord::new(1, 2));
    let data = RoadBuilderData { to_pave, paved: CoordPool::new() };
    let (kind, amount, avoid) = material_request(&data);
    assert_eq!(kind, ContentKind::Rock);
    assert_eq!(amount, 20);
    assert_eq!(avoid.len(), 2);
    assert!(avoid.contains(&Coord::new(1, 1)));
    assert!(avoid.contains(&Coord::new(1, 2)));
    // a hunt that finds no reachable source completes the mission; any
    // harvest resumes it
    assert_eq!(material_hunt_step(None), MissionStatus::Completed);
    assert_eq!(material_hunt_step(Some(20)), MissionStatus::Active);
}
