use jerry_core::pathfinder::{
    calculate_go_cost, dijkstra, get_adjacent_tiles, get_path_to_coordinates,
    path_to_coordinates, Action, PathError,
};
use jerry_core::coord_pool::CoordPool;
use jerry_core::tiles::{ContentKind, Direction, Tile, TileKind, WeatherKind};
use jerry_core::utils::Coord;

fn tile_e(kind: TileKind, elevation: usize) -> Option<Tile> {
    Some(Tile { tile_type: kind, content: ContentKind::Empty, content_amount: 0, elevation })
}

fn grass(elevation: usize) -> Option<Tile> {
    tile_e(TileKind::Grass, elevation)
}

fn flat_grass(n: usize) -> Vec<Vec<Option<Tile>>> {
    vec![vec![grass(0); n]; n]
}

#[test]
fn elevation_rule_exact_costs() {
    // stepping up costs base + (e2-e1)^2; level or downhill costs exactly base
    let mut map = flat_grass(3);
    map[0][1] = grass(4);
    let origin = Coord::new(0, 0);
    let up = calculate_go_cost(&map, origin, WeatherKind::Sunny, false, Coord::new(0, 0),
        Direction::Right)
        .unwrap();
    assert_eq!(up, 1 + 16);
    let down = calculate_go_cost(&map, origin, WeatherKind::Sunny, false, Coord::new(0, 2),
        Direction::Left)
        .unwrap();
    assert_eq!(down, 1 + 16);
    let level = calculate_go_cost(&map, origin, WeatherKind::Sunny, false, Coord::new(1, 0),
        Direction::Right)
        .unwrap();
    assert_eq!(level, 1);
    let downhill = calculate_go_cost(&map, origin, WeatherKind::Sunny, false, Coord::new(0, 1),
        Direction::Right)
        .unwrap();
    assert_eq!(downhill, 1);
}

#[test]
fn road_mode_cost_table() {
    let mut map = flat_grass(3);
    map[0][1] = tile_e(TileKind::DeepWater, 0);
    map[1][0] = Some(Tile {
        tile_type: TileKind::Grass,
        content: ContentKind::Crate,
        content_amount: 0,
        elevation: 0,
    });
    let origin = Coord::new(0, 0);
    let w = calculate_go_cost(&map, origin, WeatherKind::Sunny, true, Coord::new(0, 0),
        Direction::Right)
        .unwrap();
    assert_eq!(w, 3);
    let c = calculate_go_cost(&map, origin, WeatherKind::Sunny, true, Coord::new(0, 0),
        Direction::Down)
        .unwrap();
    assert_eq!(c, 1 + 1000);
}

#[test]
fn unwalkable_and_unknown_steps_fail() {
    let mut map = flat_grass(3);
    map[0][1] = tile_e(TileKind::Wall, 0);
    map[1][0] = None;
    let origin = Coord::new(0, 0);
    let r = calculate_go_cost(&map, origin, WeatherKind::Sunny, false, Coord::new(0, 0),
        Direction::Right);
    assert_eq!(r, Err(PathError::GoNotAllowed));
    let r = calculate_go_cost(&map, origin, WeatherKind::Sunny, false, Coord::new(0, 0),
        Direction::Down);
    assert_eq!(r, Err(PathError::DestinationNotVisible));
}

#[test]
fn dijkstra_matches_brute_force_on_flat_grid() {
    // all grass, flat: the cheapest path pays 1 per step, Manhattan distance
    let map = flat_grass(4);
    let origin = Coord::new(0, 0);
    let targets = vec![Coord::new(3, 2)];
    let path = dijkstra(&map, origin, WeatherKind::Sunny, Coord::new(0, 0), &targets, None)
        .unwrap();
    assert_eq!(path.cost, 5);
    assert_eq!(path.actions.len(), 5);
    assert_eq!(path.source, Coord::new(0, 0));
    assert_eq!(path.destination, Coord::new(3, 2));
    let coords = path_to_coordinates(&path, &map, origin);
    assert_eq!(coords.len(), 5);
    assert_eq!(*coords.last().unwrap(), Coord::new(3, 2));
}

#[test]
fn dijkstra_avoids_expensive_climb() {
    // a tall ridge on the straight line makes the detour cheaper; compare
    // against the exhaustive optimum for this 3x3 grid
    let mut map = flat_grass(3);
    map[0][1] = grass(10);
    // straight: (0,0)->(0,1)->(0,2): cost (1+100) + 1 = 102
    // detour: (0,0)->(1,0)->(1,1)->(1,2)->(0,2): cost 1+1+1+1 = 4
    let origin = Coord::new(0, 0);
    let targets = vec![Coord::new(0, 2)];
    let path = dijkstra(&map, origin, WeatherKind::Sunny, Coord::new(0, 0), &targets, None)
        .unwrap();
    assert_eq!(path.cost, 4);
}

#[test]
fn dijkstra_uses_teleports_at_flat_fare() {
    // two active teleports across a large flat field: the hop costs 30
    let mut map = flat_grass(40);
    map[0][0] = tile_e(TileKind::Teleport(true), 0);
    map[39][39] = tile_e(TileKind::Teleport(true), 0);
    let origin = Coord::new(0, 0);
    let targets = vec![Coord::new(39, 39)];
    let path = dijkstra(&map, origin, WeatherKind::Sunny, Coord::new(0, 0), &targets, None)
        .unwrap();
    assert_eq!(path.cost, 30);
    assert_eq!(path.actions.len(), 1);
    assert!(matches!(path.actions[0], Action::Teleport(_)));
}

#[test]
fn dijkstra_reports_unreachable_and_outside_targets() {
    let mut map = flat_grass(3);
    // wall off the bottom-right corner
    map[2][1] = tile_e(TileKind::Wall, 0);
    map[1][2] = tile_e(TileKind::Wall, 0);
    map[1][1] = tile_e(TileKind::Wall, 0);
    let origin = Coord::new(0, 0);
    let r = dijkstra(&map, origin, WeatherKind::Sunny, Coord::new(0, 0),
        &vec![Coord::new(2, 2)], None);
    assert!(matches!(r, Err(PathError::PathNotFound)));
    // a requested target outside the slice fails the whole request
    let r = dijkstra(&map, origin, WeatherKind::Sunny, Coord::new(0, 0),
        &vec![Coord::new(5, 5)], None);
    assert!(matches!(r, Err(PathError::PathNotFound)));
    // an empty target set without a road fails immediately
    let r = dijkstra(&map, origin, WeatherKind::Sunny, Coord::new(0, 0), &Vec::new(), None);
    assert!(matches!(r, Err(PathError::PathNotFound)));
}

#[test]
fn dijkstra_stops_on_any_road_tile() {
    let map = flat_grass(5);
    let origin = Coord::new(0, 0);
    let mut road = CoordPool::new();
    road.insert(Coord::new(0, 3));
    road.insert(Coord::new(4, 0));
    let path = dijkstra(&map, origin, WeatherKind::Sunny, Coord::new(0, 0), &Vec::new(),
        Some(&road))
        .unwrap();
    // the nearest road tile is three steps away either way
    assert_eq!(path.cost, 3);
    assert!(path.destination == Coord::new(0, 3) || path.destination == Coord::new(4, 0));
}

#[test]
fn weather_doubles_affected_terrain() {
    let map = flat_grass(2);
    let origin = Coord::new(0, 0);
    let sunny = calculate_go_cost(&map, origin, WeatherKind::Sunny, false, Coord::new(0, 0),
        Direction::Right)
        .unwrap();
    let rainy = calculate_go_cost(&map, origin, WeatherKind::Rainy, false, Coord::new(0, 0),
        Direction::Right)
        .unwrap();
    assert_eq!(sunny, 1);
    assert_eq!(rainy, 2);
}

#[test]
fn adjacent_tiles_skips_unknown_cells() {
    let mut map = flat_grass(3);
    map[0][1] = None;
    let r = get_adjacent_tiles(&map, Coord::new(1, 1));
    assert_eq!(r.len(), 3);
    assert!(!r.contains(&Coord::new(0, 1)));
    assert!(r.contains(&Coord::new(1, 0)));
    assert!(r.contains(&Coord::new(1, 2)));
    assert!(r.contains(&Coord::new(2, 1)));
}

#[test]
fn windowed_path_request_reaches_the_destination() {
    let map = flat_grass(9);
    let p = get_path_to_coordinates(&map, Coord::new(4, 4), WeatherKind::Sunny, false,
        Coord::new(4, 7), 9)
        .unwrap();
    assert_eq!(p.source, Coord::new(4, 4));
    assert_eq!(p.destination, Coord::new(4, 7));
    assert_eq!(p.cost, 3);
    // adjacent mode stops one step short, on a neighbor of the destination
    let p = get_path_to_coordinates(&map, Coord::new(4, 4), WeatherKind::Sunny, true,
        Coord::new(4, 7), 9)
        .unwrap();
    let d = (p.destination.row as i64 - 4).abs() + (p.destination.col as i64 - 7).abs();
    assert_eq!(d, 1);
    assert_eq!(p.cost, 2);
}
