use vstd::prelude::*;
use crate::tiles::{Direction, Tile};
use crate::explorer::ExplorerData;
use crate::road_builder::RoadBuilderData;

verus! {

/// Side length of one square sector of the world.
pub const SECTOR_DIMENSION: usize = 70;

/// Upper bound on the side length of any world this agent works on; keeps
/// every coordinate computation comfortably inside machine integers.
pub const MAX_WORLD_DIM: usize = 1000000;

/// A grid coordinate: row first, column second.
#[derive(Clone, Copy, Debug, PartialEq, Eq, Structural)]
pub struct Coord {
    pub row: usize,
    pub col: usize,
}

impl Coord {
    pub open spec fn wf(self) -> bool {
        self.row < MAX_WORLD_DIM && self.col < MAX_WORLD_DIM
    }

    pub fn new(row: usize, col: usize) -> (r: Coord)
        ensures
            r.row == row && r.col == col,
    {
        Coord { row, col }
    }
}

/// Packs a coordinate into one integer key for the membership sets.
pub open spec fn spec_coord_key(c: Coord) -> u64 {
    (c.row * MAX_WORLD_DIM + c.col) as u64
}

/// Executable twin of `spec_coord_key`; packing is injective on well-formed
/// coordinates, so set membership over keys mirrors membership over coordinates.
pub fn coord_key(c: Coord) -> (r: u64)
    requires
        c.wf(),
    ensures
        r == spec_coord_key(c),
{
    proof {
        assert(c.row * (MAX_WORLD_DIM as int) + c.col
            <= (MAX_WORLD_DIM - 1) * (MAX_WORLD_DIM as int) + MAX_WORLD_DIM - 1)
            by (nonlinear_arith)
            requires c.row < MAX_WORLD_DIM && c.col < MAX_WORLD_DIM;
    }
    (c.row as u64) * (MAX_WORLD_DIM as u64) + (c.col as u64)
}

/// Two distinct well-formed coordinates always pack to distinct keys.
pub proof fn lemma_coord_key_injective(a: Coord, b: Coord)
    requires
        a.wf(),
        b.wf(),
        spec_coord_key(a) == spec_coord_key(b),
    ensures
        a == b,
{
    assert(a.row == b.row && a.col == b.col) by (nonlinear_arith)
        requires
            a.row < MAX_WORLD_DIM,
            a.col < MAX_WORLD_DIM,
            b.row < MAX_WORLD_DIM,
            b.col < MAX_WORLD_DIM,
            a.row * MAX_WORLD_DIM + a.col == b.row * MAX_WORLD_DIM + b.col;
}

/// Lifecycle of a mission in the scheduler's queue.
#[derive(Clone, Copy, Debug, PartialEq, Eq, Hash, Structural)]
pub enum MissionStatus {
    New,
    Active,
    Paused,
    Completed,
}

/// What a mission is for; replaces dispatch by mission name strings.
#[derive(Clone, Copy, Debug, PartialEq, Eq, Structural)]
pub enum MissionKind {
    Explore,
    RoadBuilder,
    SectorAnalyzer,
}

/// The rectangle the current mission is allowed to operate in, together with
/// the spatial index of the sector it restricts activity to.
#[derive(Clone, Copy, Debug, PartialEq, Eq, Structural)]
pub struct ActiveRegion {
    pub top_left: Coord,
    pub bottom_right: Coord,
    pub spatial_index: usize,
}

/// Closed union of per-mission payloads, matched exhaustively by the
/// executors; replaces a downcast-based opaque payload.
pub enum MissionData {
    Explorer(ExplorerData),
    RoadBuilder(RoadBuilderData),
    Region(ActiveRegion),
}

/// A named, resumable unit of work owned by the scheduler's queue.
pub struct Mission {
    pub kind: MissionKind,
    pub status: MissionStatus,
    pub additional_data: MissionData,
}

/// A failure reported by the host while it carried out a requested action.
#[derive(Clone, Copy, Debug, PartialEq, Eq, Structural)]
pub enum HostError {
    NotEnoughEnergy,
    NotEnoughSpace(usize),
    OperationNotAllowed,
}

/// The coarse statuses a mission executor reports to the scheduler.
#[derive(Clone, Copy, Debug, PartialEq, Eq, Structural)]
pub enum JerryStatus {
    MissionExecutionError,
    LowEnergyWarning,
    Common(HostError),
    ExpectingNiceWeather,
    CallingNextTick,
}

/// The number of sector columns (equally, rows) the world splits into.
pub open spec fn spec_num_sections(size: usize) -> int {
    (size + SECTOR_DIMENSION - 1) / (SECTOR_DIMENSION as int)
}

/// Maps a coordinate to the spatial index of the sector containing it:
/// sectors are numbered row-major over the sector grid.
pub fn calculate_spatial_index(row: usize, col: usize, size: usize) -> (r: usize)
    requires
        1 <= size <= MAX_WORLD_DIM,
        row < size,
        col < size,
    ensures
        r == (row as int / (SECTOR_DIMENSION as int)) * spec_num_sections(size)
            + col as int / (SECTOR_DIMENSION as int),
{
    let num_sections_cols = (size + (SECTOR_DIMENSION - 1)) / SECTOR_DIMENSION;
    let section_index_col = col / SECTOR_DIMENSION;
    let section_index_row = row / SECTOR_DIMENSION;
    proof {
        assert(section_index_row <= 14285 && section_index_col <= 14285
            && num_sections_cols <= 14286) by (nonlinear_arith)
            requires
                size <= MAX_WORLD_DIM,
                row < size,
                col < size,
                section_index_row == row as int / 70,
                section_index_col == col as int / 70,
                num_sections_cols == (size + 69) as int / 70;
        assert(section_index_row * num_sections_cols + section_index_col < 0xffff_ffff)
            by (nonlinear_arith)
            requires
                section_index_row <= 14285,
                num_sections_cols <= 14286,
                section_index_col <= 14285;
    }
    section_index_row * num_sections_cols + section_index_col
}

/// Row-major top-left corner of the sector with the given spatial index.
pub open spec fn spec_sector_top_left(spatial_index: usize, size: usize) -> Coord {
    Coord {
        row: ((spatial_index as int / spec_num_sections(size)) * SECTOR_DIMENSION) as usize,
        col: ((spatial_index as int % spec_num_sections(size)) * SECTOR_DIMENSION) as usize,
    }
}

/// Bottom-right corner: a full sector away from the top-left corner, clipped
/// to the world's edge.
pub open spec fn spec_sector_bottom_right(spatial_index: usize, size: usize) -> Coord {
    let tl = spec_sector_top_left(spatial_index, size);
    Coord {
        row: if tl.row + SECTOR_DIMENSION - 1 <= size - 1 {
            (tl.row + SECTOR_DIMENSION - 1) as usize
        } else {
            (size - 1) as usize
        },
        col: if tl.col + SECTOR_DIMENSION - 1 <= size - 1 {
            (tl.col + SECTOR_DIMENSION - 1) as usize
        } else {
            (size - 1) as usize
        },
    }
}

/// The corners of the sector a spatial index names.
pub fn get_tl_and_br_from_spatial_index(spatial_index: usize, size: usize) -> (r: (Coord, Coord))
    requires
        1 <= size <= MAX_WORLD_DIM,
        (spatial_index as int) < spec_num_sections(size) * spec_num_sections(size),
    ensures
        r.0 == spec_sector_top_left(spatial_index, size),
        r.1 == spec_sector_bottom_right(spatial_index, size),
{
    let num_sections_cols = (size + (SECTOR_DIMENSION - 1)) / SECTOR_DIMENSION;
    let section_index_col = spatial_index % num_sections_cols;
    let section_index_row = spatial_index / num_sections_cols;
    proof {
        assert(section_index_row < num_sections_cols) by (nonlinear_arith)
            requires
                num_sections_cols >= 1,
                spatial_index < num_sections_cols * num_sections_cols,
                section_index_row == spatial_index as int / num_sections_cols as int;
        assert(section_index_row * SECTOR_DIMENSION + SECTOR_DIMENSION
            <= num_sections_cols * SECTOR_DIMENSION) by (nonlinear_arith)
            requires section_index_row < num_sections_cols;
        assert(section_index_col * SECTOR_DIMENSION + SECTOR_DIMENSION
            <= num_sections_cols * SECTOR_DIMENSION) by (nonlinear_arith)
            requires section_index_col < num_sections_cols;
        assert(num_sections_cols * SECTOR_DIMENSION < size + SECTOR_DIMENSION)
            by (nonlinear_arith)
            requires
                num_sections_cols == (size + SECTOR_DIMENSION - 1) as int
                    / (SECTOR_DIMENSION as int),
                size >= 1;
    }
    let top_left = Coord::new(
        section_index_row * SECTOR_DIMENSION,
        section_index_col * SECTOR_DIMENSION,
    );
    let br_row = if top_left.row + (SECTOR_DIMENSION - 1) <= size - 1 {
        top_left.row + (SECTOR_DIMENSION - 1)
    } else {
        size - 1
    };
    let br_col = if top_left.col + (SECTOR_DIMENSION - 1) <= size - 1 {
        top_left.col + (SECTOR_DIMENSION - 1)
    } else {
        size - 1
    };
    (top_left, Coord::new(br_row, br_col))
}

/// View of a grid of optional tiles as a sequence of rows.
pub open spec fn grid_view(m: &Vec<Vec<Option<Tile>>>) -> Seq<Seq<Option<Tile>>> {
    m@.map_values(|r: Vec<Option<Tile>>| r@)
}

/// A usable grid: non-empty, rectangular, bounded, and every observed tile
/// well formed.
pub open spec fn grid_wf(g: Seq<Seq<Option<Tile>>>) -> bool {
    &&& 1 <= g.len() <= MAX_WORLD_DIM
    &&& forall|i: int| 0 <= i < g.len() ==> (#[trigger] g[i]).len() == g[0].len()
    &&& 1 <= g[0].len() <= MAX_WORLD_DIM
    &&& forall|i: int, j: int|
        0 <= i < g.len() && 0 <= j < g[i].len() && g[i][j] is Some
            ==> (#[trigger] g[i][j]).unwrap().wf()
}

/// Copies the rectangle between the two corners out of a larger grid.
pub fn robot_map_slice(
    robot_map: &Vec<Vec<Option<Tile>>>,
    top_left: Coord,
    bottom_right: Coord,
) -> (r: Option<Vec<Vec<Option<Tile>>>>)
    requires
        grid_wf(grid_view(robot_map)),
        top_left.row <= bottom_right.row < grid_view(robot_map).len(),
        top_left.col <= bottom_right.col < grid_view(robot_map)[0].len(),
    ensures
        r is Some,
        ({
            let s = grid_view(&r.unwrap());
            &&& s.len() == bottom_right.row - top_left.row + 1
            &&& forall|i: int| 0 <= i < s.len()
                ==> (#[trigger] s[i]).len() == bottom_right.col - top_left.col + 1
            &&& forall|i: int, j: int|
                0 <= i < s.len() && 0 <= j < s[i].len()
                    ==> #[trigger] s[i][j] == grid_view(robot_map)[top_left.row + i][
                        top_left.col + j]
        }),
{
    let mut map: Vec<Vec<Option<Tile>>> = Vec::new();
    let mut i: usize = top_left.row;
    while i <= bottom_right.row
        invariant
            grid_wf(grid_view(robot_map)),
            top_left.row <= i <= bottom_right.row + 1,
            top_left.row <= bottom_right.row < grid_view(robot_map).len(),
            top_left.col <= bottom_right.col < grid_view(robot_map)[0].len(),
            map@.len() == i - top_left.row,
            forall|k: int| 0 <= k < map@.len()
                ==> (#[trigger] map@[k]@).len() == bottom_right.col - top_left.col + 1,
            forall|k: int, j: int|
                0 <= k < map@.len() && 0 <= j < map@[k]@.len()
                    ==> #[trigger] map@[k]@[j] == grid_view(robot_map)[top_left.row + k][
                        top_left.col + j],
        decreases bottom_right.row + 1 - i,
    {
        let mut row: Vec<Option<Tile>> = Vec::new();
        let mut j: usize = top_left.col;
        while j <= bottom_right.col
            invariant
                grid_wf(grid_view(robot_map)),
                top_left.col <= j <= bottom_right.col + 1,
                top_left.row <= i <= bottom_right.row,
                top_left.row <= bottom_right.row < grid_view(robot_map).len(),
                top_left.col <= bottom_right.col < grid_view(robot_map)[0].len(),
                row@.len() == j - top_left.col,
                forall|l: int| 0 <= l < row@.len()
                    ==> #[trigger] row@[l] == grid_view(robot_map)[i as int][top_left.col + l],
            decreases bottom_right.col + 1 - j,
        {
            proof {
                assert(grid_view(robot_map)[i as int] == robot_map@[i as int]@);
                assert(grid_view(robot_map)[i as int].len() == grid_view(robot_map)[0].len());
            }
            row.push(robot_map[i][j]);
            j = j + 1;
        }
        map.push(row);
        i = i + 1;
    }
    Some(map)
}

/// The axis direction from one coordinate toward another, or `None` for
/// coordinates that share neither row nor column. Along a shared row a larger
/// column means `Right`, otherwise `Left`; along a shared column a larger row
/// means `Down`, otherwise `Up`.
pub open spec fn spec_get_direction(from: Coord, to: Coord) -> Option<Direction> {
    if from.row == to.row {
        if from.col < to.col {
            Some(Direction::Right)
        } else {
            Some(Direction::Left)
        }
    } else if from.col == to.col {
        if from.row < to.row {
            Some(Direction::Down)
        } else {
            Some(Direction::Up)
        }
    } else {
        None
    }
}

/// Executable twin of `spec_get_direction`.
pub fn get_direction(from: Coord, to: Coord) -> (r: Option<Direction>)
    ensures
        r == spec_get_direction(from, to),
{
    if from.row == to.row {
        if from.col < to.col {
            return Some(Direction::Right);
        } else {
            return Some(Direction::Left);
        }
    }
    if from.col == to.col {
        if from.row < to.row {
            return Some(Direction::Down);
        } else {
            return Some(Direction::Up);
        }
    }
    None
}

} // verus!
