use jerry_core::dbscan::{cluster, get_distance, map_into_db_input, Classification, DbPoint};
use jerry_core::morans::morans_i_values;
use jerry_core::sector_analyzer::{
    analyzer_execute, count_mountain_tiles, dominant_resource_tiles,
    find_largest_connected_subset, get_centroid, get_weighted_centroid, is_content_random,
    most_frequent_resource, sector_collectable, new_sector_analyzer,
};
use jerry_core::tiles::{ContentKind, Tile, TileKind};
use jerry_core::utils::{Coord, Mission, MissionData, MissionKind, MissionStatus};

fn tile(kind: TileKind, content: ContentKind, amount: usize) -> Option<Tile> {
    Some(Tile { tile_type: kind, content, content_amount: amount, elevation: 0 })
}

fn bare(kind: TileKind) -> Option<Tile> {
    tile(kind, ContentKind::Empty, 0)
}

#[test]
fn test_find_largest_connected_subset() {
    let map: Vec<Vec<Option<Tile>>> = vec![
        vec![bare(TileKind::Grass), bare(TileKind::Sand), bare(TileKind::Sand)],
        vec![
            tile(TileKind::Hill, ContentKind::Crate, 0),
            tile(TileKind::Hill, ContentKind::Tree, 2),
            bare(TileKind::Sand),
        ],
        vec![bare(TileKind::Sand), bare(TileKind::Grass), bare(TileKind::Sand)],
    ];
    let subset = find_largest_connected_subset(&map);
    println!("{:?}", subset);
    assert_eq!(subset.len(), 3);
}

#[test]
fn test_get_weighted_centroid() {
    let cores = vec![(Coord::new(0, 0), 0u64), (Coord::new(0, 2), 2u64)];
    let c = get_weighted_centroid(&cores, 2);
    assert_eq!(c, Coord::new(0, 2));
}

#[test]
fn centroid_is_the_arithmetic_mean() {
    let cores = vec![Coord::new(2, 4), Coord::new(4, 6), Coord::new(6, 8)];
    assert_eq!(get_centroid(&cores), Coord::new(4, 6));
}

#[test]
fn resource_tally_sums_amounts_per_kind() {
    let sector: Vec<Vec<Option<Tile>>> = vec![
        vec![tile(TileKind::Grass, ContentKind::Rock, 3), tile(TileKind::Grass,
            ContentKind::Coin, 5)],
        vec![tile(TileKind::Grass, ContentKind::Rock, 4), None],
    ];
    let tally = sector_collectable(&sector);
    assert_eq!(tally.get(ContentKind::Rock), 7);
    assert_eq!(tally.get(ContentKind::Coin), 5);
    assert_eq!(tally.get(ContentKind::Tree), 0);
}

#[test]
fn mountain_tiles_are_counted() {
    let sector: Vec<Vec<Option<Tile>>> = vec![
        vec![bare(TileKind::Mountain), bare(TileKind::Grass)],
        vec![None, bare(TileKind::Mountain)],
    ];
    assert_eq!(count_mountain_tiles(&sector), 2);
}

#[test]
fn distant_or_differing_points_never_share_a_core() {
    // the metric keeps differing derived values infinitely apart, so no
    // cluster ever mixes values; nearby same-valued points do cluster
    let a = DbPoint { row: 0, col: 0, value: 4 };
    let b = DbPoint { row: 0, col: 1, value: 7 };
    assert_eq!(get_distance(&a, &b), u64::MAX);
    let c = DbPoint { row: 3, col: 4, value: 4 };
    assert_eq!(get_distance(&a, &c), 25);
    // two dense same-valued blobs of different values: cluster ids never mix
    let mut input: Vec<DbPoint> = Vec::new();
    for i in 0..3usize {
        for j in 0..3usize {
            input.push(DbPoint { row: i, col: j, value: 4 });
            input.push(DbPoint { row: i + 100, col: j, value: 7 });
        }
    }
    let r = cluster(9, 4, &input);
    for (k1, c1) in r.iter().enumerate() {
        for (k2, c2) in r.iter().enumerate() {
            let id1 = match c1 {
                Classification::Core(_, m) => Some(m),
                Classification::Edge(_, m) => Some(m),
                Classification::Noise => None,
            };
            let id2 = match c2 {
                Classification::Core(_, m) => Some(m),
                Classification::Edge(_, m) => Some(m),
                Classification::Noise => None,
            };
            if id1.is_some() && id1 == id2 {
                assert_eq!(input[k1].value, input[k2].value);
            }
        }
    }
}

#[test]
fn dense_block_forms_one_cluster_at_its_centroid() {
    // a sector-sized scenario: one hundred co-located samples of one value
    // in a field of scattered fillers; exactly one core cluster appears and
    // its core centroid sits at the block's center
    let mut input: Vec<DbPoint> = Vec::new();
    let mut values: Vec<Vec<u8>> = Vec::new();
    for i in 0..20usize {
        let mut vrow: Vec<u8> = Vec::new();
        for j in 0..20usize {
            let in_block = (5..15).contains(&i) && (5..15).contains(&j);
            let v: u8 = if in_block {
                4
            } else {
                // deterministic scattered filler in coarse patches, never
                // the block's value
                let f = (((i / 2) * 7 + (j / 2) * 3) % 8) as u8 + 1;
                if f >= 4 { f + 1 } else { f }
            };
            input.push(DbPoint { row: i, col: j, value: v as u64 });
            vrow.push(v);
        }
        values.push(vrow);
    }
    // the content is spatially structured, not random
    let r = morans_i_values(&values);
    assert!(!r.is_random());
    // exactly one core cluster
    let classes = cluster(36, 80, &input);
    let mut core_ids: Vec<usize> = Vec::new();
    let mut members: Vec<Coord> = Vec::new();
    for c in classes.iter() {
        if let Classification::Core(p, m) = c {
            if !core_ids.contains(m) {
                core_ids.push(*m);
            }
            members.push(*p);
        }
    }
    assert_eq!(core_ids.len(), 1);
    assert!(!members.is_empty());
    // the core members' centroid sits at the block's center
    let centroid = get_centroid(&members);
    assert_eq!(centroid, Coord::new(9, 9));
}

#[test]
fn analyzer_reports_structured_coin_sector() {
    // the full analyzer on a small clustered sector: coins tallied, the
    // structure detected, nodes emitted inside the sector
    let mut sector: Vec<Vec<Option<Tile>>> = vec![vec![bare(TileKind::Grass); 20]; 20];
    for i in 5..15 {
        for j in 5..15 {
            sector[i][j] = tile(TileKind::Grass, ContentKind::Coin, 1);
        }
    }
    // make the surroundings deterministic with scattered other contents
    for i in 0..20 {
        for j in 0..20 {
            if sector[i][j] == bare(TileKind::Grass) {
                let pick = ((i / 2) * 7 + (j / 2) * 3) % 8;
                let content = match pick {
                    0 => ContentKind::Rock,
                    1 => ContentKind::Tree,
                    2 => ContentKind::Water,
                    3 => ContentKind::Fire,
                    4 => ContentKind::Garbage,
                    5 => ContentKind::Fish,
                    6 => ContentKind::Bush,
                    _ => ContentKind::JollyBlock,
                };
                sector[i][j] = tile(TileKind::Grass, content, 1);
            }
        }
    }
    let data = analyzer_execute(&sector, Coord::new(0, 0));
    assert_eq!(data.resources.get(ContentKind::Coin), 100);
    assert!(!data.is_random);
    assert!(!data.nodes.is_empty());
    // some emitted node sits near the coin block's centroid
    assert!(data.nodes.iter().any(|n| {
        let dr = if n.row >= 9 { n.row - 9 } else { 9 - n.row };
        let dc = if n.col >= 9 { n.col - 9 } else { 9 - n.col };
        dr <= 1 && dc <= 1
    }));
}

#[test]
fn sector_analyzer_mission_carries_the_rectangle() {
    let m: Mission = new_sector_analyzer(0, 50);
    assert_eq!(m.kind, MissionKind::SectorAnalyzer);
    assert_eq!(m.status, MissionStatus::Active);
    match m.additional_data {
        MissionData::Region(reg) => {
            assert_eq!(reg.top_left, Coord::new(0, 0));
            assert_eq!(reg.bottom_right, Coord::new(49, 49));
            assert_eq!(reg.spatial_index, 0);
        },
        _ => panic!("wrong payload"),
    }
}

#[test]
fn randomness_flag_follows_the_threshold() {
    // a sector whose observed contents form one solid block against an
    // uncontested background is not random; the filler cells are absent here
    let mut sector: Vec<Vec<Option<Tile>>> = vec![vec![tile(TileKind::Grass,
        ContentKind::Rock, 1); 6]; 6];
    for i in 0..3 {
        for j in 0..6 {
            sector[i][j] = tile(TileKind::Grass, ContentKind::Bush, 1);
        }
    }
    assert!(!is_content_random(&sector));
}

#[test]
fn db_input_flattens_row_major() {
    let sector: Vec<Vec<Option<Tile>>> = vec![
        vec![tile(TileKind::Grass, ContentKind::Rock, 1), tile(TileKind::Grass,
            ContentKind::Coin, 1)],
        vec![tile(TileKind::Grass, ContentKind::Tree, 1), tile(TileKind::Grass,
            ContentKind::Fish, 1)],
    ];
    let input = map_into_db_input(&sector);
    assert_eq!(input.len(), 4);
    assert_eq!(input[0], DbPoint { row: 0, col: 0, value: 1 });
    assert_eq!(input[1], DbPoint { row: 0, col: 1, value: 4 });
    assert_eq!(input[2], DbPoint { row: 1, col: 0, value: 2 });
    assert_eq!(input[3], DbPoint { row: 1, col: 1, value: 7 });
}

#[test]
fn dominant_resource_is_selected_and_located() {
    let sector: Vec<Vec<Option<Tile>>> = vec![
        vec![tile(TileKind::Grass, ContentKind::Rock, 3), tile(TileKind::Grass,
            ContentKind::Coin, 5)],
        vec![tile(TileKind::Grass, ContentKind::Rock, 4), None],
    ];
    let tally = sector_collectable(&sector);
    let (value, total) = most_frequent_resource(&tally).unwrap();
    // rocks total seven against five coins; the rock ordinal is one
    assert_eq!(value, 1);
    assert_eq!(total, 7);
    let tiles = dominant_resource_tiles(&sector, Coord::new(10, 20), value);
    assert_eq!(tiles.len(), 2);
    assert!(tiles.contains(&(Coord::new(10, 20), 3)));
    assert!(tiles.contains(&(Coord::new(11, 20), 4)));
    // an empty tally has no dominant resource
    let empty: Vec<Vec<Option<Tile>>> = vec![vec![bare(TileKind::Grass)]];
    assert!(most_frequent_resource(&sector_collectable(&empty)).is_none());
}
