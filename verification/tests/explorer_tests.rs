use jerry_core::explorer::{
    choose_frontier_tile, coordinate_to_direction, explorer_step, initialize_frontier,
    is_adjacent, is_frontier, is_within_n, remove_tile_from_frontier,
    should_cheat_recharge_with, update_frontier, ExplorerData, ExplorerError, ExplorerStep,
};
use jerry_core::coord_pool::CoordPool;
use jerry_core::tiles::{ContentKind, Direction, Tile, TileKind};
use jerry_core::utils::Coord;

fn grass() -> Option<Tile> {
    Some(Tile { tile_type: TileKind::Grass, content: ContentKind::Empty, content_amount: 0,
        elevation: 0 })
}

#[test]
fn frontier_after_init_is_the_two_neighbors() {
    // a 4x4 all-grass window explored from (0,0): the frontier is exactly
    // {(0,1), (1,0)}
    let map: Vec<Vec<Option<Tile>>> = vec![vec![grass(); 4]; 4];
    let frontier = initialize_frontier(&map, Coord::new(0, 0));
    assert_eq!(frontier.len(), 2);
    assert!(frontier.contains(Coord::new(0, 1)));
    assert!(frontier.contains(Coord::new(1, 0)));
    assert!(!frontier.contains(Coord::new(0, 0)));
    assert!(!frontier.contains(Coord::new(1, 1)));
}

#[test]
fn frontier_membership_tracks_qualification() {
    // after an update around the agent, every member is observed, walkable
    // and borders unknown ground; disqualified tiles are gone
    let mut map: Vec<Vec<Option<Tile>>> = vec![vec![None; 5]; 5];
    for i in 0..3 {
        for j in 0..3 {
            map[i][j] = grass();
        }
    }
    map[1][2] = Some(Tile { tile_type: TileKind::Wall, content: ContentKind::Empty,
        content_amount: 0, elevation: 0 });
    let frontier = initialize_frontier(&map, Coord::new(1, 1));
    let mut data = ExplorerData { frontier, spatial_index: 0 };
    update_frontier(&mut data, &map, Coord::new(1, 1));
    // walls never qualify
    assert!(!data.frontier.contains(Coord::new(1, 2)));
    // interior observed tiles bordering unknown ground qualify
    assert!(data.frontier.contains(Coord::new(2, 1)));
    assert!(data.frontier.contains(Coord::new(2, 2)));
    // every member qualifies under the map
    for k in 0..data.frontier.len() {
        let c = data.frontier.get(k);
        assert!(is_frontier(&map, c));
    }
    // removal keeps the sequence and the membership set in step
    let victim = Coord::new(2, 1);
    remove_tile_from_frontier(&mut data, victim);
    assert!(!data.frontier.contains(victim));
    for k in 0..data.frontier.len() {
        let c = data.frontier.get(k);
        assert!(data.frontier.contains(c));
        assert_ne!(c, victim);
    }
}

#[test]
fn choose_frontier_prefers_recent_batch() {
    let mut frontier = CoordPool::new();
    let mut costs: Vec<u32> = Vec::new();
    // twelve entries: the oldest two are cheap, the newest batch of ten
    // holds a reachable entry of cost 7
    for k in 0..12u32 {
        frontier.insert(Coord::new(0, k as usize));
        if k < 2 {
            costs.push(1);
        } else if k == 5 {
            costs.push(7);
        } else {
            costs.push(u32::MAX);
        }
    }
    let (c, w) = choose_frontier_tile(&frontier, &costs).unwrap();
    // the newest batch covers indices 2..12, so its minimum (cost 7) wins
    // over the cheaper but older entries
    assert_eq!(w, 7);
    assert_eq!(c, Coord::new(0, 5));
}

#[test]
fn choose_frontier_reports_inaccessible() {
    let mut frontier = CoordPool::new();
    frontier.insert(Coord::new(0, 0));
    frontier.insert(Coord::new(0, 1));
    let costs = vec![u32::MAX, u32::MAX];
    let r = choose_frontier_tile(&frontier, &costs);
    assert_eq!(r, Err(ExplorerError::FrontierNotAccessible));
}

#[test]
fn adjacency_and_directions() {
    assert!(is_adjacent(Coord::new(2, 2), Coord::new(2, 3)));
    assert!(is_adjacent(Coord::new(2, 2), Coord::new(1, 2)));
    assert!(!is_adjacent(Coord::new(2, 2), Coord::new(3, 3)));
    assert!(is_within_n(Coord::new(2, 2), Coord::new(4, 4), 3));
    assert!(!is_within_n(Coord::new(2, 2), Coord::new(5, 2), 3));
    assert_eq!(coordinate_to_direction(Coord::new(2, 2), Coord::new(2, 3)), Direction::Right);
    assert_eq!(coordinate_to_direction(Coord::new(2, 2), Coord::new(2, 1)), Direction::Left);
    assert_eq!(coordinate_to_direction(Coord::new(2, 2), Coord::new(3, 2)), Direction::Down);
    assert_eq!(coordinate_to_direction(Coord::new(2, 2), Coord::new(1, 2)), Direction::Up);
}

#[test]
fn foreign_sectors_are_reported() {
    // a map wider than one sector: neighbors across the sector border are
    // reported so a mission can be opened for them
    let mut map: Vec<Vec<Option<Tile>>> = vec![vec![grass(); 75]; 75];
    map[72][72] = None;
    let frontier = initialize_frontier(&map, Coord::new(70, 69));
    let mut data = ExplorerData { frontier, spatial_index: 2 };
    let foreign = update_frontier(&mut data, &map, Coord::new(70, 69));
    // the ring spans columns 68..=70 and rows 69..=71: column 70 lies in the
    // next sector column over
    assert!(foreign.contains(&3));
}

#[test]
fn explorer_tick_decisions() {
    let map: Vec<Vec<Option<Tile>>> = vec![vec![grass(); 4]; 4];
    let frontier = initialize_frontier(&map, Coord::new(0, 0));
    let data = ExplorerData { frontier, spatial_index: 0 };
    let costs = vec![5, 9];
    // bad weather with a good forecast suspends
    assert_eq!(explorer_step(&data, &map, Coord::new(0, 0), &costs, 100, false, true),
        ExplorerStep::ExpectingNiceWeather);
    // bad weather with no hope of better pushes through
    assert_eq!(explorer_step(&data, &map, Coord::new(0, 0), &costs, 100, false, false),
        ExplorerStep::GoTo(Coord::new(1, 0), 5));
    // too little energy pauses on the chosen tile
    assert_eq!(explorer_step(&data, &map, Coord::new(0, 0), &costs, 3, true, true),
        ExplorerStep::LowEnergy(Coord::new(1, 0), 5));
    // an unreachable frontier completes the sector
    assert_eq!(explorer_step(&data, &map, Coord::new(0, 0), &vec![u32::MAX, u32::MAX], 100,
        true, true), ExplorerStep::SectorComplete);
    // an empty frontier completes the sector
    let idle = ExplorerData { frontier: CoordPool::new(), spatial_index: 0 };
    assert_eq!(explorer_step(&idle, &map, Coord::new(0, 0), &Vec::new(), 100, true, true),
        ExplorerStep::SectorComplete);
    // an oversized path cost turns into a nearby walkable waypoint
    let mut big: Vec<Vec<Option<Tile>>> = vec![vec![grass(); 9]; 9];
    big[4][4] = None;
    let mut far = CoordPool::new();
    far.insert(Coord::new(8, 8));
    let fdata = ExplorerData { frontier: far, spatial_index: 0 };
    match explorer_step(&fdata, &big, Coord::new(0, 0), &vec![2000], 3000, true, true) {
        ExplorerStep::InsertWaypoint(c) => {
            assert!(c.row < 9 && c.col < 9);
            assert!(big[c.row][c.col].is_some());
        },
        other => panic!("unexpected decision {:?}", other),
    }
}

#[test]
fn recharge_follows_the_roll_and_the_cutoff() {
    // a short-of-energy agent recharges exactly when its roll is under the
    // cutoff; a full agent and a zero cutoff never do
    assert!(should_cheat_recharge_with(50, 30, 29));
    assert!(!should_cheat_recharge_with(50, 30, 30));
    assert!(!should_cheat_recharge_with(100, 30, 0));
    assert!(!should_cheat_recharge_with(50, 0, 0));
}
