use vstd::prelude::*;

verus! {

/// The kinds of terrain a tile can have.
#[derive(Clone, Copy, Debug, PartialEq, Eq, Structural)]
pub enum TileKind {
    DeepWater,
    ShallowWater,
    Sand,
    Grass,
    Street,
    Hill,
    Mountain,
    Snow,
    Lava,
    Teleport(bool),
    Wall,
}

/// The kinds of content a tile can carry. `Empty` stands for a bare tile.
#[derive(Clone, Copy, Debug, PartialEq, Eq, Structural)]
pub enum ContentKind {
    Rock,
    Tree,
    Garbage,
    Fire,
    Coin,
    Bin,
    Crate,
    Bank,
    Water,
    Market,
    Fish,
    Building,
    Bush,
    JollyBlock,
    Scarecrow,
    Empty,
}

/// One observed tile: terrain, content with its stored amount, and elevation.
#[derive(Clone, Copy, Debug, PartialEq, Eq, Structural)]
pub struct Tile {
    pub tile_type: TileKind,
    pub content: ContentKind,
    pub content_amount: usize,
    pub elevation: usize,
}

/// Ambient weather, as the host reports it.
#[derive(Clone, Copy, Debug, PartialEq, Eq, Structural)]
pub enum WeatherKind {
    Sunny,
    Rainy,
    Foggy,
    TropicalMonsoon,
    TrentinoSnow,
}

/// A single-step movement direction on the grid.
#[derive(Clone, Copy, Debug, PartialEq, Eq, Structural)]
pub enum Direction {
    Up,
    Down,
    Left,
    Right,
}

/// Elevations are kept small enough that a squared elevation difference,
/// summed over any path in a bounded slice, cannot overflow a usize.
pub const MAX_ELEVATION: usize = 1000000;

/// Stored content amounts are bounded so that sector-wide totals fit in a
/// machine word.
pub const MAX_CONTENT_AMOUNT: usize = 1000000000;

impl Tile {
    /// A tile the pathfinder and analyzer can reason about without overflow.
    pub open spec fn wf(self) -> bool {
        self.elevation <= MAX_ELEVATION && self.content_amount <= MAX_CONTENT_AMOUNT
    }
}

/// Whether an agent may stand on this terrain: everything but a wall is
/// traversable, water and lava merely at a steep price.
pub open spec fn spec_walkable(kind: TileKind) -> bool {
    kind != TileKind::Wall
}

/// Executable twin of `spec_walkable`.
pub fn walkable(kind: TileKind) -> (r: bool)
    ensures
        r == spec_walkable(kind),
{
    kind != TileKind::Wall
}

/// Intrinsic movement cost of stepping onto this terrain in fair weather.
pub open spec fn spec_base_cost(kind: TileKind) -> usize {
    match kind {
        TileKind::DeepWater => 5,
        TileKind::ShallowWater => 5,
        TileKind::Sand => 3,
        TileKind::Grass => 1,
        TileKind::Street => 0,
        TileKind::Hill => 5,
        TileKind::Mountain => 10,
        TileKind::Snow => 3,
        TileKind::Lava => 10,
        TileKind::Teleport(_) => 0,
        TileKind::Wall => 0,
    }
}

/// Executable twin of `spec_base_cost`.
pub fn base_cost(kind: TileKind) -> (r: usize)
    ensures
        r == spec_base_cost(kind),
{
    match kind {
        TileKind::DeepWater => 5,
        TileKind::ShallowWater => 5,
        TileKind::Sand => 3,
        TileKind::Grass => 1,
        TileKind::Street => 0,
        TileKind::Hill => 5,
        TileKind::Mountain => 10,
        TileKind::Snow => 3,
        TileKind::Lava => 10,
        TileKind::Teleport(_) => 0,
        TileKind::Wall => 0,
    }
}

/// The ambient conditions double the intrinsic cost of terrain that suffers
/// under the current weather; every other combination leaves it unchanged.
pub open spec fn spec_weather_factor(weather: WeatherKind, kind: TileKind) -> usize {
    match weather {
        WeatherKind::Sunny => 1,
        WeatherKind::Foggy => 1,
        WeatherKind::Rainy => if kind == TileKind::Grass || kind == TileKind::Hill {
            2
        } else {
            1
        },
        WeatherKind::TropicalMonsoon => 2,
        WeatherKind::TrentinoSnow => if kind == TileKind::Hill || kind == TileKind::Mountain
            || kind == TileKind::Snow {
            2
        } else {
            1
        },
    }
}

/// Executable twin of `spec_weather_factor`.
pub fn weather_factor(weather: WeatherKind, kind: TileKind) -> (r: usize)
    ensures
        r == spec_weather_factor(weather, kind),
{
    match weather {
        WeatherKind::Sunny => 1,
        WeatherKind::Foggy => 1,
        WeatherKind::Rainy => if kind == TileKind::Grass || kind == TileKind::Hill {
            2
        } else {
            1
        },
        WeatherKind::TropicalMonsoon => 2,
        WeatherKind::TrentinoSnow => if kind == TileKind::Hill || kind == TileKind::Mountain
            || kind == TileKind::Snow {
            2
        } else {
            1
        },
    }
}

/// Whether the agent can harvest this content by destroying it.
pub open spec fn spec_destroyable(content: ContentKind) -> bool {
    match content {
        ContentKind::Rock => true,
        ContentKind::Tree => true,
        ContentKind::Garbage => true,
        ContentKind::Fire => true,
        ContentKind::Coin => true,
        ContentKind::Water => true,
        ContentKind::Fish => true,
        ContentKind::Bush => true,
        ContentKind::JollyBlock => true,
        _ => false,
    }
}

/// Executable twin of `spec_destroyable`.
pub fn destroyable(content: ContentKind) -> (r: bool)
    ensures
        r == spec_destroyable(content),
{
    match content {
        ContentKind::Rock => true,
        ContentKind::Tree => true,
        ContentKind::Garbage => true,
        ContentKind::Fire => true,
        ContentKind::Coin => true,
        ContentKind::Water => true,
        ContentKind::Fish => true,
        ContentKind::Bush => true,
        ContentKind::JollyBlock => true,
        _ => false,
    }
}

/// Which terrain can have loose material dropped onto it: water accepts
/// anything, bare walkable ground accepts anything but fish, and lava burns
/// garbage and trees.
pub open spec fn spec_terrain_holds(kind: TileKind, content: ContentKind) -> bool {
    match kind {
        TileKind::DeepWater => content == ContentKind::Garbage || content == ContentKind::Fish
            || content == ContentKind::Water,
        TileKind::ShallowWater => content == ContentKind::Garbage || content == ContentKind::Fish
            || content == ContentKind::Water,
        TileKind::Lava => content == ContentKind::Garbage || content == ContentKind::Tree
            || content == ContentKind::Bush,
        TileKind::Wall => false,
        TileKind::Teleport(_) => false,
        _ => content != ContentKind::Fish && content != ContentKind::Empty,
    }
}

/// Executable twin of `spec_terrain_holds`.
pub fn terrain_holds(kind: TileKind, content: ContentKind) -> (r: bool)
    ensures
        r == spec_terrain_holds(kind, content),
{
    match kind {
        TileKind::DeepWater => content == ContentKind::Garbage || content == ContentKind::Fish
            || content == ContentKind::Water,
        TileKind::ShallowWater => content == ContentKind::Garbage || content == ContentKind::Fish
            || content == ContentKind::Water,
        TileKind::Lava => content == ContentKind::Garbage || content == ContentKind::Tree
            || content == ContentKind::Bush,
        TileKind::Wall => false,
        TileKind::Teleport(_) => false,
        _ => content != ContentKind::Fish && content != ContentKind::Empty,
    }
}

/// Which stationary container content accepts a given dropped content kind.
pub open spec fn spec_container_accepts(container: ContentKind, content: ContentKind) -> bool {
    match container {
        ContentKind::Bin => content == ContentKind::Garbage,
        ContentKind::Crate => content == ContentKind::Tree || content == ContentKind::Rock
            || content == ContentKind::Bush || content == ContentKind::JollyBlock,
        ContentKind::Bank => content == ContentKind::Coin,
        ContentKind::Market => content == ContentKind::Fish || content == ContentKind::Tree
            || content == ContentKind::Rock,
        _ => false,
    }
}

/// Executable twin of `spec_container_accepts`.
pub fn container_accepts(container: ContentKind, content: ContentKind) -> (r: bool)
    ensures
        r == spec_container_accepts(container, content),
{
    match container {
        ContentKind::Bin => content == ContentKind::Garbage,
        ContentKind::Crate => content == ContentKind::Tree || content == ContentKind::Rock
            || content == ContentKind::Bush || content == ContentKind::JollyBlock,
        ContentKind::Bank => content == ContentKind::Coin,
        ContentKind::Market => content == ContentKind::Fish || content == ContentKind::Tree
            || content == ContentKind::Rock,
        _ => false,
    }
}

} // verus!
