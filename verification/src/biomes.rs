use vstd::prelude::*;
use crate::tiles::{Tile, TileKind, WeatherKind};
use crate::utils::{grid_view, grid_wf};

verus! {

/// Rough terrain classes a local view can be sorted into by majority vote.
#[derive(Clone, Copy, Debug, PartialEq, Eq, Structural)]
pub enum Biome {
    Beach,
    Field,
    Highlands,
    Unknown,
}

/// Whether an observed tile counts toward a biome's vote.
pub open spec fn tile_in_biome(t: Option<Tile>, b: Biome) -> bool {
    match t {
        Option::None => false,
        Option::Some(tile) => match b {
            Biome::Beach => tile.tile_type == TileKind::Sand || tile.tile_type
                == TileKind::ShallowWater || tile.tile_type == TileKind::DeepWater,
            Biome::Field => tile.tile_type == TileKind::Grass || tile.tile_type
                == TileKind::Street,
            Biome::Highlands => tile.tile_type == TileKind::Hill || tile.tile_type
                == TileKind::Mountain || tile.tile_type == TileKind::Snow,
            Biome::Unknown => false,
        },
    }
}

/// Votes for a biome among the first `j` tiles of one row.
pub open spec fn biome_count_row(s: Seq<Option<Tile>>, j: int, b: Biome) -> int
    decreases j,
{
    if j <= 0 {
        0
    } else {
        biome_count_row(s, j - 1, b) + if tile_in_biome(s[j - 1], b) {
            1int
        } else {
            0int
        }
    }
}

/// Votes for a biome among the first `i` full rows.
pub open spec fn biome_count_grid(g: Seq<Seq<Option<Tile>>>, i: int, b: Biome) -> int
    decreases i,
{
    if i <= 0 {
        0
    } else {
        biome_count_grid(g, i - 1, b) + biome_count_row(g[i - 1], g[i - 1].len() as int, b)
    }
}

/// A partial row vote count never exceeds the number of tiles counted.
proof fn lemma_biome_count_row_le(s: Seq<Option<Tile>>, j: int, b: Biome)
    requires
        0 <= j <= s.len(),
    ensures
        0 <= biome_count_row(s, j, b) <= j,
    decreases j,
{
    if j > 0 {
        lemma_biome_count_row_le(s, j - 1, b);
    }
}

/// A partial grid vote count never exceeds the number of tiles counted.
proof fn lemma_biome_count_grid_le(g: Seq<Seq<Option<Tile>>>, i: int, b: Biome)
    requires
        grid_wf(g),
        0 <= i <= g.len(),
    ensures
        0 <= biome_count_grid(g, i, b) <= i * g[0].len(),
    decreases i,
{
    if i == 0 {
        assert(i * g[0].len() == 0) by (nonlinear_arith)
            requires i == 0;
    } else {
        lemma_biome_count_grid_le(g, i - 1, b);
        let l = g[i - 1].len() as int;
        lemma_biome_count_row_le(g[i - 1], l, b);
        assert(l == g[0].len());
        assert((i - 1) * g[0].len() + g[0].len() == i * g[0].len()) by (nonlinear_arith);
    }
}

/// The vote of the whole view for one biome.
pub open spec fn spec_biome_votes(g: Seq<Seq<Option<Tile>>>, b: Biome) -> int {
    biome_count_grid(g, g.len() as int, b)
}

/// The detected biome: the first of beach, field and highlands whose vote
/// reaches five, and unknown when none does.
pub open spec fn spec_detect_biome(g: Seq<Seq<Option<Tile>>>) -> Biome {
    if spec_biome_votes(g, Biome::Beach) >= 5 {
        Biome::Beach
    } else if spec_biome_votes(g, Biome::Field) >= 5 {
        Biome::Field
    } else if spec_biome_votes(g, Biome::Highlands) >= 5 {
        Biome::Highlands
    } else {
        Biome::Unknown
    }
}

/// Majority vote over the local view around the agent.
pub fn detect_biome(robot_view: &Vec<Vec<Option<Tile>>>) -> (r: Biome)
    requires
        grid_wf(grid_view(robot_view)),
    ensures
        r == spec_detect_biome(grid_view(robot_view)),
{
    let ghost g = grid_view(robot_view);
    let rows = robot_view.len();
    let mut beach: u64 = 0;
    let mut field: u64 = 0;
    let mut highlands: u64 = 0;
    let mut i: usize = 0;
    while i < rows
        invariant
            grid_wf(g),
            g == grid_view(robot_view),
            rows == g.len(),
            i <= rows,
            beach == biome_count_grid(g, i as int, Biome::Beach),
            field == biome_count_grid(g, i as int, Biome::Field),
            highlands == biome_count_grid(g, i as int, Biome::Highlands),
            beach <= 2000000000000,
            field <= 2000000000000,
            highlands <= 2000000000000,
        decreases rows - i,
    {
        let cols = robot_view[i].len();
        proof {
            assert(g[i as int] == robot_view@[i as int]@);
            lemma_biome_count_grid_le(g, i as int, Biome::Beach);
            lemma_biome_count_grid_le(g, i as int, Biome::Field);
            lemma_biome_count_grid_le(g, i as int, Biome::Highlands);
            assert((i as int) * g[0].len() <= 1000000 * 1000000) by (nonlinear_arith)
                requires 0 <= i as int <= 1000000, 0 <= g[0].len() <= 1000000;
        }
        let mut j: usize = 0;
        while j < cols
            invariant
                grid_wf(g),
                g == grid_view(robot_view),
                rows == g.len(),
                i < rows,
                j <= cols,
                g[i as int] == robot_view@[i as int]@,
                cols == g[i as int].len(),
                beach == biome_count_grid(g, i as int, Biome::Beach) + biome_count_row(
                    g[i as int],
                    j as int,
                    Biome::Beach,
                ),
                field == biome_count_grid(g, i as int, Biome::Field) + biome_count_row(
                    g[i as int],
                    j as int,
                    Biome::Field,
                ),
                highlands == biome_count_grid(g, i as int, Biome::Highlands)
                    + biome_count_row(g[i as int], j as int, Biome::Highlands),
                beach <= 2000000000000,
                field <= 2000000000000,
                highlands <= 2000000000000,
            decreases cols - j,
        {
            match robot_view[i][j] {
                Some(t) => {
                    match t.tile_type {
                        TileKind::Sand | TileKind::ShallowWater | TileKind::DeepWater => {
                            beach = beach + 1;
                        },
                        TileKind::Grass | TileKind::Street => {
                            field = field + 1;
                        },
                        TileKind::Hill | TileKind::Mountain | TileKind::Snow => {
                            highlands = highlands + 1;
                        },
                        _ => {},
                    }
                },
                None => {},
            }
            proof {
                lemma_biome_count_grid_le(g, i as int, Biome::Beach);
                lemma_biome_count_grid_le(g, i as int, Biome::Field);
                lemma_biome_count_grid_le(g, i as int, Biome::Highlands);
                lemma_biome_count_row_le(g[i as int], j + 1, Biome::Beach);
                lemma_biome_count_row_le(g[i as int], j + 1, Biome::Field);
                lemma_biome_count_row_le(g[i as int], j + 1, Biome::Highlands);
                assert((i as int) * g[0].len() + (j + 1) <= 2000000000000) by (nonlinear_arith)
                    requires
                        0 <= i as int <= 1000000,
                        0 <= g[0].len() <= 1000000,
                        0 <= j + 1 <= 1000000;
            }
            j = j + 1;
        }
        proof {
            lemma_biome_count_grid_le(g, i + 1, Biome::Beach);
            lemma_biome_count_grid_le(g, i + 1, Biome::Field);
            lemma_biome_count_grid_le(g, i + 1, Biome::Highlands);
            assert((i + 1) * g[0].len() <= 2000000000000) by (nonlinear_arith)
                requires 0 <= i + 1 <= 1000000, 0 <= g[0].len() <= 1000000;
            assert(biome_count_grid(g, i + 1, Biome::Beach) == biome_count_grid(
                g,
                i as int,
                Biome::Beach,
            ) + biome_count_row(g[i as int], g[i as int].len() as int, Biome::Beach));
            assert(biome_count_grid(g, i + 1, Biome::Field) == biome_count_grid(
                g,
                i as int,
                Biome::Field,
            ) + biome_count_row(g[i as int], g[i as int].len() as int, Biome::Field));
            assert(biome_count_grid(g, i + 1, Biome::Highlands) == biome_count_grid(
                g,
                i as int,
                Biome::Highlands,
            ) + biome_count_row(g[i as int], g[i as int].len() as int, Biome::Highlands));
        }
        i = i + 1;
    }
    if beach >= 5 {
        return Biome::Beach;
    }
    if field >= 5 {
        return Biome::Field;
    }
    if highlands >= 5 {
        return Biome::Highlands;
    }
    Biome::Unknown
}

/// Weather that is pleasant enough to work in for a given biome: rain and
/// monsoons are universally unpleasant, and highlands additionally shut down
/// under heavy snow.
pub open spec fn spec_is_weather_nice(biome: Biome, weather: WeatherKind) -> bool {
    match (biome, weather) {
        (Biome::Highlands, WeatherKind::TrentinoSnow) => false,
        (_, WeatherKind::Rainy) => false,
        (_, WeatherKind::TropicalMonsoon) => false,
        _ => true,
    }
}

/// Executable twin of `spec_is_weather_nice`.
pub fn is_weather_nice(biome: Biome, weather: WeatherKind) -> (r: bool)
    ensures
        r == spec_is_weather_nice(biome, weather),
{
    match (biome, weather) {
        (Biome::Highlands, WeatherKind::TrentinoSnow) => false,
        (_, WeatherKind::Rainy) => false,
        (_, WeatherKind::TropicalMonsoon) => false,
        _ => true,
    }
}

/// Whether any of the next `bound` forecast entries promises nice weather for
/// the biome. The forecast list is what the weather tool predicted, first
/// entry first.
pub fn is_weather_gonna_be_nice_n(forecast: &Vec<WeatherKind>, biome: Biome, bound: usize) -> (r:
    bool)
    ensures
        r == exists|k: int|
            0 <= k < bound && k < forecast@.len() && spec_is_weather_nice(
                biome,
                #[trigger] forecast@[k],
            ),
{
    let mut k: usize = 0;
    let end = if bound < forecast.len() {
        bound
    } else {
        forecast.len()
    };
    while k < end
        invariant
            end == if bound < forecast@.len() { bound as int } else { forecast@.len() as int },
            k <= end,
            forall|l: int| 0 <= l < k ==> !spec_is_weather_nice(biome, #[trigger] forecast@[l]),
        decreases end - k,
    {
        if is_weather_nice(biome, forecast[k]) {
            return true;
        }
        k = k + 1;
    }
    false
}

} // verus!
