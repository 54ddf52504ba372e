use jerry_core::coord_pool::CoordPool;
use jerry_core::explorer::ExplorerData;
use jerry_core::road_builder::RoadBuilderData;
use jerry_core::scheduler::{schedule_missions, select_active};
use jerry_core::utils::{
    calculate_spatial_index, get_direction, get_tl_and_br_from_spatial_index, robot_map_slice,
    Coord, Mission, MissionData, MissionKind, MissionStatus,
};
use jerry_core::tiles::{ContentKind, Direction, Tile, TileKind};
use jerry_core::biomes::{detect_biome, is_weather_gonna_be_nice_n, is_weather_nice, Biome};
use jerry_core::resources::{disposal_candidates, disposal_directions, harvest_directions, ways_to_dispose};
use jerry_core::tiles::WeatherKind;

fn explorer(status: MissionStatus) -> Mission {
    Mission {
        kind: MissionKind::Explore,
        status,
        additional_data: MissionData::Explorer(ExplorerData {
            frontier: CoordPool::new(),
            spatial_index: 0,
        }),
    }
}

fn road_builder(status: MissionStatus) -> Mission {
    Mission {
        kind: MissionKind::RoadBuilder,
        status,
        additional_data: MissionData::RoadBuilder(RoadBuilderData {
            to_pave: CoordPool::new(),
            paved: CoordPool::new(),
        }),
    }
}

#[test]
fn completed_explorers_hand_over_to_road_builders() {
    // two completed explorers and a waiting road builder: active explorers
    // pause and the road builder activates
    let mut missions = vec![
        explorer(MissionStatus::Completed),
        explorer(MissionStatus::Completed),
        explorer(MissionStatus::Active),
        road_builder(MissionStatus::Paused),
    ];
    schedule_missions(&mut missions);
    assert_eq!(missions[2].status, MissionStatus::Paused);
    assert_eq!(missions[3].status, MissionStatus::Active);
    assert_eq!(select_active(&missions), Some(3));
}

#[test]
fn an_odd_number_of_completed_explorers_changes_nothing() {
    let mut missions = vec![
        explorer(MissionStatus::Completed),
        explorer(MissionStatus::Active),
        road_builder(MissionStatus::Paused),
    ];
    schedule_missions(&mut missions);
    assert_eq!(missions[1].status, MissionStatus::Active);
    assert_eq!(missions[2].status, MissionStatus::Paused);
    assert_eq!(select_active(&missions), Some(1));
}

#[test]
fn finished_road_builders_wake_the_explorers() {
    let mut missions = vec![
        explorer(MissionStatus::Paused),
        road_builder(MissionStatus::Completed),
        road_builder(MissionStatus::Completed),
        road_builder(MissionStatus::Active),
    ];
    schedule_missions(&mut missions);
    assert_eq!(missions[0].status, MissionStatus::Active);
    assert_eq!(missions[3].status, MissionStatus::Paused);
    assert_eq!(select_active(&missions), Some(0));
}

#[test]
fn no_active_mission_selects_none() {
    let missions = vec![explorer(MissionStatus::Completed),
        road_builder(MissionStatus::Completed)];
    assert_eq!(select_active(&missions), None);
}

#[test]
fn spatial_index_and_sector_corners_roundtrip() {
    // a 140-wide world has two sector columns
    assert_eq!(calculate_spatial_index(0, 0, 140), 0);
    assert_eq!(calculate_spatial_index(0, 70, 140), 1);
    assert_eq!(calculate_spatial_index(70, 0, 140), 2);
    assert_eq!(calculate_spatial_index(70, 70, 140), 3);
    let (tl, br) = get_tl_and_br_from_spatial_index(3, 140);
    assert_eq!(tl, Coord::new(70, 70));
    assert_eq!(br, Coord::new(139, 139));
    // an 80-wide world clips the outer sectors
    let (tl, br) = get_tl_and_br_from_spatial_index(1, 80);
    assert_eq!(tl, Coord::new(0, 70));
    assert_eq!(br, Coord::new(69, 79));
    let (tl, br) = get_tl_and_br_from_spatial_index(3, 80);
    assert_eq!(tl, Coord::new(70, 70));
    assert_eq!(br, Coord::new(79, 79));
}

#[test]
fn directions_between_coordinates() {
    assert_eq!(get_direction(Coord::new(2, 2), Coord::new(2, 5)), Some(Direction::Right));
    assert_eq!(get_direction(Coord::new(2, 5), Coord::new(2, 2)), Some(Direction::Left));
    assert_eq!(get_direction(Coord::new(2, 2), Coord::new(5, 2)), Some(Direction::Down));
    assert_eq!(get_direction(Coord::new(5, 2), Coord::new(2, 2)), Some(Direction::Up));
    assert_eq!(get_direction(Coord::new(1, 2), Coord::new(5, 4)), None);
}

#[test]
fn map_slice_copies_the_rectangle() {
    let mut map: Vec<Vec<Option<Tile>>> = vec![vec![None; 4]; 4];
    map[1][2] = Some(Tile { tile_type: TileKind::Sand, content: ContentKind::Empty,
        content_amount: 0, elevation: 7 });
    let s = robot_map_slice(&map, Coord::new(1, 1), Coord::new(2, 3)).unwrap();
    assert_eq!(s.len(), 2);
    assert_eq!(s[0].len(), 3);
    assert_eq!(s[0][1], map[1][2]);
    assert_eq!(s[1][0], None);
}

#[test]
fn test_detect_biome() {
    let grass = Some(Tile { tile_type: TileKind::Grass, content: ContentKind::Empty,
        content_amount: 0, elevation: 0 });
    let sand = Some(Tile { tile_type: TileKind::Sand, content: ContentKind::Empty,
        content_amount: 0, elevation: 0 });
    let street = Some(Tile { tile_type: TileKind::Street, content: ContentKind::Empty,
        content_amount: 0, elevation: 0 });
    let hill = Some(Tile { tile_type: TileKind::Hill, content: ContentKind::Empty,
        content_amount: 0, elevation: 0 });
    let robot_view: Vec<Vec<Option<Tile>>> = vec![vec![grass; 3]; 3];
    assert_eq!(detect_biome(&robot_view), Biome::Field);
    let robot_view = vec![vec![sand; 3], vec![grass; 3], vec![street; 3]];
    assert_eq!(detect_biome(&robot_view), Biome::Field);
    let robot_view = vec![vec![sand; 3], vec![grass; 3], vec![hill; 3]];
    assert_eq!(detect_biome(&robot_view), Biome::Unknown);
}

#[test]
fn weather_gates() {
    assert!(!is_weather_nice(Biome::Field, WeatherKind::Rainy));
    assert!(!is_weather_nice(Biome::Highlands, WeatherKind::TrentinoSnow));
    assert!(is_weather_nice(Biome::Field, WeatherKind::TrentinoSnow));
    assert!(is_weather_nice(Biome::Beach, WeatherKind::Sunny));
    let forecast = vec![WeatherKind::Rainy, WeatherKind::Rainy, WeatherKind::Sunny];
    assert!(is_weather_gonna_be_nice_n(&forecast, Biome::Field, 3));
    assert!(!is_weather_gonna_be_nice_n(&forecast, Biome::Field, 2));
}

#[test]
fn disposal_respects_rules_and_planned_road() {
    let grass = Some(Tile { tile_type: TileKind::Grass, content: ContentKind::Empty,
        content_amount: 0, elevation: 0 });
    let view: Vec<Vec<Option<Tile>>> = vec![vec![grass; 3]; 3];
    let mut road = CoordPool::new();
    // the tile north of the agent lies on the planned road
    road.insert(Coord::new(4, 5));
    let plan = disposal_directions(&view, Coord::new(5, 5), Some(&road),
        ContentKind::Rock);
    assert!(!plan.up);
    assert!(plan.left && plan.right && plan.down);
    // fish can only go into water or a market, never onto bare grass
    let plan = disposal_directions(&view, Coord::new(5, 5), None, ContentKind::Fish);
    assert!(!plan.up && !plan.left && !plan.right && !plan.down);
    let (tile_kinds, containers) = ways_to_dispose(ContentKind::Fish);
    assert!(tile_kinds.contains(&TileKind::DeepWater));
    assert!(!tile_kinds.contains(&TileKind::Grass));
    assert!(containers.contains(&ContentKind::Market));
}

#[test]
fn harvest_directions_read_the_view() {
    let grass = Some(Tile { tile_type: TileKind::Grass, content: ContentKind::Empty,
        content_amount: 0, elevation: 0 });
    let rock = Some(Tile { tile_type: TileKind::Grass, content: ContentKind::Rock,
        content_amount: 2, elevation: 0 });
    let view: Vec<Vec<Option<Tile>>> = vec![
        vec![grass, rock, grass],
        vec![grass, grass, grass],
        vec![grass, rock, grass],
    ];
    let plan = harvest_directions(&view, ContentKind::Rock);
    assert!(plan.up && plan.down);
    assert!(!plan.left && !plan.right);
}

#[test]
fn disposal_candidates_keep_the_paving_material() {
    let backpack = vec![
        (ContentKind::Rock, 12u64),
        (ContentKind::Tree, 3u64),
        (ContentKind::Coin, 0u64),
        (ContentKind::Fish, 5u64),
    ];
    let c = disposal_candidates(&backpack);
    assert_eq!(c, vec![ContentKind::Tree, ContentKind::Fish]);
}
