use jerry_core::morans::{get_content_value_morans, get_w, morans_i, morans_i_values, MoransRatio};
use jerry_core::tiles::{ContentKind, Tile, TileKind};

fn tile(content: ContentKind, amount: usize) -> Option<Tile> {
    Some(Tile { tile_type: TileKind::Grass, content, content_amount: amount, elevation: 0 })
}

fn values(grid: &[&[u8]]) -> Vec<Vec<u8>> {
    grid.iter().map(|row| row.to_vec()).collect()
}

#[test]
fn test_get_w() {
    assert_eq!(get_w(1), 0);
    assert_eq!(get_w(2), 8);
    assert_eq!(get_w(3), 24);
    assert_eq!(get_w(4), 48);
}

#[test]
fn test_morans_i() {
    let sector: Vec<Vec<Option<Tile>>> = vec![
        vec![
            tile(ContentKind::Coin, 3),
            tile(ContentKind::Coin, 3),
            tile(ContentKind::Empty, 0),
            tile(ContentKind::Empty, 0),
            tile(ContentKind::Water, 1),
            tile(ContentKind::Water, 1),
        ],
        vec![
            tile(ContentKind::Coin, 3),
            tile(ContentKind::Coin, 3),
            tile(ContentKind::Empty, 0),
            tile(ContentKind::Empty, 0),
            tile(ContentKind::Water, 1),
            tile(ContentKind::Water, 1),
        ],
        vec![
            tile(ContentKind::Empty, 0),
            tile(ContentKind::Empty, 0),
            tile(ContentKind::Empty, 0),
            tile(ContentKind::Empty, 0),
            tile(ContentKind::Empty, 0),
            tile(ContentKind::Empty, 0),
        ],
        vec![
            tile(ContentKind::Empty, 0),
            tile(ContentKind::Empty, 0),
            tile(ContentKind::Empty, 0),
            tile(ContentKind::Empty, 0),
            tile(ContentKind::Empty, 0),
            tile(ContentKind::Empty, 0),
        ],
        vec![
            tile(ContentKind::Tree, 3),
            tile(ContentKind::Tree, 3),
            tile(ContentKind::Empty, 0),
            tile(ContentKind::Empty, 0),
            tile(ContentKind::Garbage, 1),
            tile(ContentKind::Garbage, 1),
        ],
        vec![
            tile(ContentKind::Tree, 3),
            tile(ContentKind::Tree, 3),
            tile(ContentKind::Empty, 0),
            tile(ContentKind::Empty, 0),
            tile(ContentKind::Garbage, 1),
            tile(ContentKind::Garbage, 1),
        ],
    ];
    let r: MoransRatio = morans_i(&sector);
    println!("{} / {}", r.num, r.den);
    assert!(r.den >= 0);
}

#[test]
fn checkerboard_is_strongly_negative() {
    // a perfect two-value checkerboard has statistic exactly -1: num == -den
    let v = values(&[
        &[1, 9, 1, 9],
        &[9, 1, 9, 1],
        &[1, 9, 1, 9],
        &[9, 1, 9, 1],
    ]);
    let r = morans_i_values(&v);
    assert!(r.den > 0);
    assert_eq!(r.num, -r.den);
    assert!(r.is_random());
}

#[test]
fn uniform_grid_hits_denominator_guard() {
    // all deviations vanish: the denominator is zero and nothing divides by it
    let v = values(&[&[5, 5, 5], &[5, 5, 5], &[5, 5, 5]]);
    let r = morans_i_values(&v);
    assert_eq!(r.den, 0);
    assert!(r.is_random());
}

#[test]
fn segregated_blocks_are_positive() {
    // two spatially segregated value blocks push the statistic above the
    // randomness threshold; the exact scaled ratio is checked too
    let v = values(&[
        &[2, 2, 8, 8],
        &[2, 2, 8, 8],
        &[2, 2, 8, 8],
        &[2, 2, 8, 8],
    ]);
    let r = morans_i_values(&v);
    assert_eq!(r.num, 1179648);
    assert_eq!(r.den, 1769472);
    assert!(!r.is_random());
}

#[test]
fn content_values_follow_the_fixed_table() {
    let t = tile(ContentKind::Rock, 1);
    assert_eq!(get_content_value_morans(&t), 1);
    let t = tile(ContentKind::JollyBlock, 1);
    assert_eq!(get_content_value_morans(&t), 9);
    let t = tile(ContentKind::Coin, 7);
    assert_eq!(get_content_value_morans(&t), 4);
    // unknown tiles get a filler in the same closed range
    let v = get_content_value_morans(&None);
    assert!((1..=9).contains(&v));
}
