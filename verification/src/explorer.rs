use vstd::prelude::*;
use rand::Rng;
use crate::coord_pool::CoordPool;
use crate::tiles::{Direction, Tile};
use crate::utils::{calculate_spatial_index, grid_view, grid_wf, Coord, spec_num_sections,
    Mission, MissionData, MissionKind, MissionStatus, MAX_WORLD_DIM, SECTOR_DIMENSION};

verus! {

/// Per-mission state of a Frontier Explorer: the frontier collection and the
/// spatial index of the sector the mission is confined to.
pub struct ExplorerData {
    pub frontier: CoordPool,
    pub spatial_index: usize,
}

/// Failures an explorer activation can report.
#[derive(Clone, Copy, Debug, PartialEq, Eq, Structural)]
pub enum ExplorerError {
    FrontierNotAccessible,
    FailedToGo,
    NotEnoughEnergy,
}

/// A frontier tile: observed, walkable, with at least one unknown direct
/// neighbor inside the map.
pub open spec fn spec_is_frontier(g: Seq<Seq<Option<Tile>>>, c: Coord) -> bool {
    &&& c.row < g.len()
    &&& c.col < g[0].len()
    &&& g[c.row as int][c.col as int] is Some
    &&& crate::tiles::spec_walkable(g[c.row as int][c.col as int].unwrap().tile_type)
    &&& {
        ||| (c.row >= 1 && g[c.row - 1][c.col as int] is None)
        ||| (c.row + 1 < g.len() && g[c.row + 1][c.col as int] is None)
        ||| (c.col >= 1 && g[c.row as int][c.col - 1] is None)
        ||| (c.col + 1 < g[0].len() && g[c.row as int][c.col + 1] is None)
    }
}

/// Executable twin of `spec_is_frontier`.
pub fn is_frontier(map: &Vec<Vec<Option<Tile>>>, coordinate: Coord) -> (r: bool)
    requires
        grid_wf(grid_view(map)),
        coordinate.row < grid_view(map).len(),
        coordinate.col < grid_view(map)[0].len(),
    ensures
        r == spec_is_frontier(grid_view(map), coordinate),
{
    let ghost g = grid_view(map);
    let rows = map.len();
    let row = coordinate.row;
    let col = coordinate.col;
    proof {
        assert(g[row as int] == map@[row as int]@);
        assert(g[row as int].len() == g[0].len());
        if row >= 1 {
            assert(g[row - 1] == map@[row - 1]@);
            assert(g[row - 1].len() == g[0].len());
        }
        if row + 1 < rows {
            assert(g[row + 1] == map@[row + 1]@);
            assert(g[row + 1].len() == g[0].len());
        }
    }
    let cols = map[0].len();
    match map[row][col] {
        None => false,
        Some(t) => {
            if !crate::tiles::walkable(t.tile_type) {
                return false;
            }
            (row >= 1 && map[row - 1][col].is_none()) || (row + 1 < rows && map[row + 1][
            col].is_none()) || (col >= 1 && map[row][col - 1].is_none()) || (col + 1 < cols
                && map[row][col + 1].is_none())
        },
    }
}

/// The initial frontier of a fresh explorer mission: those of the spawn
/// cell's up-to-four direct neighbors that are presently visible, provided
/// the spawn cell itself is observed.
pub fn initialize_frontier(map: &Vec<Vec<Option<Tile>>>, spawn: Coord) -> (r: CoordPool)
    requires
        grid_wf(grid_view(map)),
        spawn.row < grid_view(map).len(),
        spawn.col < grid_view(map)[0].len(),
    ensures
        r.wf(),
        forall|c: Coord|
            #[trigger] r@.contains(c) <==> (grid_view(map)[spawn.row as int][spawn.col as int]
                is Some && grid_view(map)[c.row as int][c.col as int] is Some
                && ((spawn.row >= 1 && c == Coord { row: (spawn.row - 1) as usize, col: spawn.col })
                || (spawn.row + 1 < grid_view(map).len() && c == Coord { row: (spawn.row + 1) as usize, col: spawn.col })
                || (spawn.col >= 1 && c == Coord { row: spawn.row, col: (spawn.col - 1) as usize })
                || (spawn.col + 1 < grid_view(map)[0].len() && c == Coord { row: spawn.row, col: (spawn.col + 1) as usize }))),
{
    let ghost g = grid_view(map);
    let rows = map.len();
    let cols = map[0].len();
    proof {
        assert(g[spawn.row as int] == map@[spawn.row as int]@);
        assert(g[spawn.row as int].len() == g[0].len());
        if spawn.row >= 1 {
            assert(g[spawn.row - 1] == map@[spawn.row - 1]@);
            assert(g[spawn.row - 1].len() == g[0].len());
        }
        if spawn.row + 1 < rows {
            assert(g[spawn.row + 1] == map@[spawn.row + 1]@);
            assert(g[spawn.row + 1].len() == g[0].len());
        }
    }
    let mut frontier = CoordPool::new();
    if map[spawn.row][spawn.col].is_some() {
        if spawn.row > 0 && map[spawn.row - 1][spawn.col].is_some() {
            frontier.insert(Coord::new(spawn.row - 1, spawn.col));
        }
        if spawn.row + 1 < rows && map[spawn.row + 1][spawn.col].is_some() {
            frontier.insert(Coord::new(spawn.row + 1, spawn.col));
        }
        if spawn.col > 0 && map[spawn.row][spawn.col - 1].is_some() {
            frontier.insert(Coord::new(spawn.row, spawn.col - 1));
        }
        if spawn.col + 1 < cols && map[spawn.row][spawn.col + 1].is_some() {
            frontier.insert(Coord::new(spawn.row, spawn.col + 1));
        }
    }
    frontier
}

/// Creates a fresh explorer mission for a sector, with the frontier seeded
/// around the agent's spawn position.
pub fn new_explorer(map: &Vec<Vec<Option<Tile>>>, spawn: Coord, spatial_index: usize) -> (r:
    Mission)
    requires
        grid_wf(grid_view(map)),
        spawn.row < grid_view(map).len(),
        spawn.col < grid_view(map)[0].len(),
    ensures
        r.kind == MissionKind::Explore,
        r.status == MissionStatus::Active,
        r.additional_data matches MissionData::Explorer(d) && d.spatial_index == spatial_index
            && d.frontier.wf(),
{
    let frontier = initialize_frontier(map, spawn);
    Mission {
        kind: MissionKind::Explore,
        status: MissionStatus::Active,
        additional_data: MissionData::Explorer(ExplorerData { frontier, spatial_index }),
    }
}

/// True 4-adjacency: the coordinates share an axis and differ by exactly
/// one step on the other.
pub open spec fn spec_is_adjacent(a: Coord, b: Coord) -> bool {
    ||| (a.row == b.row && (a.col == b.col + 1 || a.col + 1 == b.col))
    ||| (a.col == b.col && (a.row == b.row + 1 || a.row + 1 == b.row))
}

/// Executable twin of `spec_is_adjacent`.
pub fn is_adjacent(a: Coord, b: Coord) -> (r: bool)
    requires
        a.wf(),
        b.wf(),
    ensures
        r == spec_is_adjacent(a, b),
{
    (a.row == b.row && (a.col == b.col + 1 || a.col + 1 == b.col)) || (a.col == b.col && (a.row
        == b.row + 1 || a.row + 1 == b.row))
}

/// Whether both coordinate offsets are strictly below `n`.
pub fn is_within_n(a: Coord, b: Coord, n: usize) -> (r: bool)
    requires
        a.wf(),
        b.wf(),
        n <= MAX_WORLD_DIM,
    ensures
        r == (((if a.row >= b.row {
            a.row - b.row
        } else {
            b.row - a.row
        }) < n) && ((if a.col >= b.col {
            a.col - b.col
        } else {
            b.col - a.col
        }) < n)),
{
    let dr = if a.row >= b.row {
        a.row - b.row
    } else {
        b.row - a.row
    };
    let dc = if a.col >= b.col {
        a.col - b.col
    } else {
        b.col - a.col
    };
    dr < n && dc < n
}

/// The direction that moves from `a` toward an adjacent `b`: along a shared
/// row a one-step-right target gives `Right` and anything else `Left`, and
/// along distinct rows one step down gives `Down` and anything else `Up`.
pub open spec fn spec_coordinate_to_direction(a: Coord, b: Coord) -> Direction {
    if a.row == b.row {
        if b.col == a.col + 1 {
            Direction::Right
        } else {
            Direction::Left
        }
    } else {
        if b.row == a.row + 1 {
            Direction::Down
        } else {
            Direction::Up
        }
    }
}

/// Executable twin of `spec_coordinate_to_direction`.
pub fn coordinate_to_direction(a: Coord, b: Coord) -> (r: Direction)
    requires
        a.wf(),
        b.wf(),
    ensures
        r == spec_coordinate_to_direction(a, b),
{
    if a.row == b.row {
        if b.col == a.col + 1 {
            Direction::Right
        } else {
            Direction::Left
        }
    } else {
        if b.row == a.row + 1 {
            Direction::Down
        } else {
            Direction::Up
        }
    }
}

/// The batch a frontier entry belongs to during the batched nearest-first
/// search: entries are searched most recent first, ten at a time.
pub open spec fn spec_batch(len: int, idx: int) -> int {
    (len - idx - 1) / 10
}

/// Picks the next frontier tile: the most recently added batch of ten that
/// holds any reachable entry is searched, and within it the entry of
/// minimum cost wins, the most recently added winning ties. `costs[i]` is
/// the path cost to `frontier[i]`, with `u32::MAX` marking unreachable.
pub fn choose_frontier_tile(frontier: &CoordPool, costs: &Vec<u32>) -> (r: Result<
    (Coord, u32),
    ExplorerError,
>)
    requires
        frontier.wf(),
        costs@.len() == frontier@.len(),
    ensures
        match r {
            Ok((c, w)) => {
                &&& w != 0xffff_ffffu32
                &&& exists|i: int|
                    {
                        &&& 0 <= i < frontier@.len()
                        &&& #[trigger] frontier@[i] == c
                        &&& costs@[i] == w
                        &&& forall|j: int|
                            0 <= j < frontier@.len() && spec_batch(
                                frontier@.len() as int,
                                j,
                            ) == spec_batch(frontier@.len() as int, i)
                                ==> w <= #[trigger] costs@[j]
                        &&& forall|j: int|
                            0 <= j < frontier@.len() && spec_batch(
                                frontier@.len() as int,
                                j,
                            ) < spec_batch(frontier@.len() as int, i) ==> #[trigger] costs@[j]
                                == 0xffff_ffffu32
                    }
            },
            Err(e) => {
                &&& e == ExplorerError::FrontierNotAccessible
                &&& forall|j: int|
                    0 <= j < costs@.len() ==> #[trigger] costs@[j] == 0xffff_ffffu32
            },
        },
{
    let len = frontier.len();
    let ghost flen = frontier@.len() as int;
    let mut start = len;
    while start > 0
        invariant
            frontier.wf(),
            costs@.len() == frontier@.len(),
            flen == frontier@.len(),
            start <= len,
            len == frontier@.len(),
            start % 10 == len % 10 || start == len || start == 0,
            forall|j: int|
                (start as int) <= j < flen ==> #[trigger] costs@[j] == 0xffff_ffffu32,
        decreases start,
    {
        let end = start;
        let batch_lo = if start >= 10 {
            start - 10
        } else {
            0
        };
        let mut best: u32 = 0xffff_ffffu32;
        let mut best_i: usize = batch_lo;
        let mut k = end;
        while k > batch_lo
            invariant
                frontier.wf(),
                costs@.len() == frontier@.len(),
                flen == frontier@.len(),
                batch_lo <= k <= end,
                end <= len,
                len == frontier@.len(),
                best != 0xffff_ffffu32 ==> ((k as int) <= (best_i as int) < end
                    && costs@[best_i as int] == best && (forall|j: int|
                    (k as int) <= j < (end as int) ==> best <= #[trigger] costs@[j])),
                best == 0xffff_ffffu32 ==> (forall|j: int|
                    (k as int) <= j < (end as int) ==> #[trigger] costs@[j]
                        == 0xffff_ffffu32),
            decreases k,
        {
            k = k - 1;
            let w = costs[k];
            if w < best {
                best = w;
                best_i = k;
            }
        }
        if best != 0xffff_ffffu32 {
            proof {
                assert(spec_batch(flen, best_i as int) == spec_batch(flen, (end - 1) as int))
                    by (nonlinear_arith)
                    requires
                        flen >= 1,
                        0 <= batch_lo <= best_i < end <= flen,
                        end == if flen - (flen - end) >= 10 { end } else { end },
                        batch_lo == if end >= 10 { end - 10 } else { 0 },
                        end == flen || (end < flen && (flen - end) % 10 == 0),
                        end >= 1;
                assert forall|j: int|
                    0 <= j < flen && spec_batch(flen, j) == spec_batch(flen, best_i as int)
                        implies best <= #[trigger] costs@[j] by {
                    assert((batch_lo as int) <= j < (end as int)) by (nonlinear_arith)
                        requires
                            spec_batch(flen, j) == spec_batch(flen, best_i as int),
                            0 <= j < flen,
                            0 <= batch_lo <= best_i < end <= flen,
                            batch_lo == if end >= 10 { end - 10 } else { 0 },
                            end == flen || (flen - end) % 10 == 0;
                }
                assert forall|j: int|
                    0 <= j < flen && spec_batch(flen, j) < spec_batch(flen, best_i as int)
                        implies #[trigger] costs@[j] == 0xffff_ffffu32 by {
                    assert((end as int) <= j) by (nonlinear_arith)
                        requires
                            spec_batch(flen, j) < spec_batch(flen, best_i as int),
                            0 <= j < flen,
                            0 <= batch_lo <= best_i < end <= flen,
                            batch_lo == if end >= 10 { end - 10 } else { 0 },
                            end == flen || (flen - end) % 10 == 0;
                }
            }
            return Ok((frontier.get(best_i), best));
        }
        proof {
            assert((batch_lo as int) % 10 == (len as int) % 10 || batch_lo == 0)
                by (nonlinear_arith)
                requires
                    batch_lo == if end >= 10 { end - 10 } else { 0 },
                    end == len || (end as int) % 10 == (len as int) % 10,
                    0 <= end <= len;
        }
        start = batch_lo;
    }
    Err(ExplorerError::FrontierNotAccessible)
}

/// Removes a visited tile from the mission's frontier.
pub fn remove_tile_from_frontier(data: &mut ExplorerData, tile: Coord)
    requires
        old(data).frontier.wf(),
        tile.wf(),
    ensures
        final(data).frontier.wf(),
        !final(data).frontier@.contains(tile),
        forall|d: Coord|
            d != tile ==> (#[trigger] final(data).frontier@.contains(d) <==> old(data).frontier@.contains(d)),
        final(data).spatial_index == old(data).spatial_index,
{
    data.frontier.remove(tile);
}

/// The halfway point between the agent and a too-expensive target, used to
/// plant an intermediate waypoint instead of paying the whole path at once.
pub fn intermediate_toward(current: Coord, target: Coord) -> (r: Coord)
    requires
        current.wf(),
        target.wf(),
    ensures
        target.row >= current.row ==> r.row == current.row + (target.row - current.row) / 2,
        target.row < current.row ==> r.row == current.row - (current.row - target.row) / 2,
        target.col >= current.col ==> r.col == current.col + (target.col - current.col) / 2,
        target.col < current.col ==> r.col == current.col - (current.col - target.col) / 2,
{
    let row = if target.row >= current.row {
        current.row + (target.row - current.row) / 2
    } else {
        current.row - (current.row - target.row) / 2
    };
    let col = if target.col >= current.col {
        current.col + (target.col - current.col) / 2
    } else {
        current.col - (current.col - target.col) / 2
    };
    Coord { row, col }
}

/// Relies on rand's `Rng::gen_range` on `thread_rng`: a sample from a
/// non-empty integer range lies within that range.
#[verifier::external_body]
fn random_percent() -> (r: u8)
    ensures
        r < 100,
{
    rand::thread_rng().gen_range(0..100)
}

/// The recharge decision for a given percentile roll: an agent short of
/// energy recharges exactly when its roll falls under the cutoff.
pub fn should_cheat_recharge_with(energy_level: usize, cutoff: u8, roll: u8) -> (r: bool)
    ensures
        r == (energy_level < 100 && roll < cutoff),
{
    energy_level < 100 && roll < cutoff
}

/// The opportunistic recharge policy: only an agent short of energy rolls
/// the dice, and then recharges with `cutoff` percent probability.
pub fn should_cheat_recharge(energy_level: usize, cutoff: u8) -> (r: bool)
    ensures
        r ==> energy_level < 100 && cutoff > 0,
{
    if energy_level >= 100 {
        return false;
    }
    let roll = random_percent();
    should_cheat_recharge_with(energy_level, cutoff, roll)
}

/// The spatial index of a coordinate in a square world of the given side.
pub open spec fn spec_sector_of(c: Coord, size: usize) -> int {
    (c.row as int / (SECTOR_DIMENSION as int)) * spec_num_sections(size) + (c.col as int / (
    SECTOR_DIMENSION as int))
}

/// Processes the ring of up to eight tiles around the agent's new position:
/// tiles of the mission's sector enter or leave the frontier according to
/// whether they qualify, and the spatial index of any neighboring foreign
/// sector is reported back so that a mission can be opened for it.
pub fn update_frontier(
    data: &mut ExplorerData,
    map: &Vec<Vec<Option<Tile>>>,
    position: Coord,
) -> (foreign: Vec<usize>)
    requires
        old(data).frontier.wf(),
        grid_wf(grid_view(map)),
        grid_view(map).len() == grid_view(map)[0].len(),
        position.row < grid_view(map).len(),
        position.col < grid_view(map)[0].len(),
    ensures
        final(data).frontier.wf(),
        final(data).spatial_index == old(data).spatial_index,
        // inside the ring, qualifying tiles of this sector are present
        forall|c: Coord|
            c.wf() && c != position && c.row + 1 >= position.row && c.row <= position.row + 1
                && c.col + 1 >= position.col && c.col <= position.col + 1 && c.row
                < grid_view(map).len() && c.col < grid_view(map).len() && spec_is_frontier(
                grid_view(map),
                c,
            ) && spec_sector_of(c, grid_view(map).len() as usize) == old(data).spatial_index
                ==> #[trigger] final(data).frontier@.contains(c),
        // ring tiles that qualify but belong to a foreign sector are neither
        // adopted nor dropped
        forall|c: Coord|
            c.wf() && c != position && c.row + 1 >= position.row && c.row <= position.row + 1
                && c.col + 1 >= position.col && c.col <= position.col + 1 && c.row
                < grid_view(map).len() && c.col < grid_view(map).len() && spec_is_frontier(
                grid_view(map),
                c,
            ) && spec_sector_of(c, grid_view(map).len() as usize) != old(data).spatial_index
                ==> (#[trigger] final(data).frontier@.contains(c) <==> old(
                data,
            ).frontier@.contains(c)),
        // the returned list holds exactly the foreign spatial indices seen in
        // the ring
        forall|l: int|
            0 <= l < foreign@.len() ==> #[trigger] foreign@[l] != old(data).spatial_index,
        forall|c: Coord|
            c.wf() && c != position && c.row + 1 >= position.row && c.row <= position.row + 1
                && c.col + 1 >= position.col && c.col <= position.col + 1 && c.row
                < grid_view(map).len() && c.col < grid_view(map).len() && spec_sector_of(
                c,
                grid_view(map).len() as usize,
            ) != old(data).spatial_index ==> foreign@.contains((#[trigger] spec_sector_of(
                c,
                grid_view(map).len() as usize,
            )) as usize),
        // inside the ring, tiles that no longer qualify are gone
        forall|c: Coord|
            c.wf() && c != position && c.row + 1 >= position.row && c.row <= position.row + 1
                && c.col + 1 >= position.col && c.col <= position.col + 1 && c.row
                < grid_view(map).len() && c.col < grid_view(map).len() && !spec_is_frontier(
                grid_view(map),
                c,
            ) ==> !(#[trigger] final(data).frontier@.contains(c)),
        // outside the ring nothing changes
        forall|c: Coord|
            !(c != position && c.row + 1 >= position.row && c.row <= position.row + 1 && c.col
                + 1 >= position.col && c.col <= position.col + 1
                && c.row < grid_view(map).len() && c.col < grid_view(map).len())
                ==> (#[trigger] final(data).frontier@.contains(c)
                    <==> old(data).frontier@.contains(c)),
{
    let ghost g = grid_view(map);
    let x = position.row;
    let y = position.col;
    let len = map.len();
    let i_lo = if x >= 1 {
        x - 1
    } else {
        0
    };
    let i_hi = if x + 1 <= len - 1 {
        x + 1
    } else {
        len - 1
    };
    let j_lo = if y >= 1 {
        y - 1
    } else {
        0
    };
    let j_hi = if y + 1 <= len - 1 {
        y + 1
    } else {
        len - 1
    };
    let mut foreign: Vec<usize> = Vec::new();
    let mut i = i_lo;
    while i <= i_hi
        invariant
            data.frontier.wf(),
            data.spatial_index == old(data).spatial_index,
            grid_wf(g),
            g == grid_view(map),
            len == g.len(),
            g[0].len() == len,
            position.row < len,
            position.col < len,
            x == position.row,
            y == position.col,
            i_lo == (if x >= 1 { (x - 1) as usize } else { 0 }),
            i_hi == (if x + 1 <= len - 1 { (x + 1) as usize } else { (len - 1) as usize }),
            j_lo == (if y >= 1 { (y - 1) as usize } else { 0 }),
            j_hi == (if y + 1 <= len - 1 { (y + 1) as usize } else { (len - 1) as usize }),
            i_lo <= i,
            i <= i_hi + 1,
            // processed rows
            forall|c: Coord|
                c.wf() && c != position && (i_lo as int) <= c.row < i && (j_lo as int) <= c.col
                    <= (j_hi as int) && spec_is_frontier(g, c) && spec_sector_of(c, len)
                    == old(data).spatial_index ==> #[trigger] data.frontier@.contains(c),
            forall|c: Coord|
                c.wf() && c != position && (i_lo as int) <= c.row < i && (j_lo as int) <= c.col
                    <= (j_hi as int) && spec_is_frontier(g, c) && spec_sector_of(c, len)
                    != old(data).spatial_index ==> (#[trigger] data.frontier@.contains(c)
                    <==> old(data).frontier@.contains(c)),
            forall|l: int|
                0 <= l < foreign@.len() ==> #[trigger] foreign@[l] != old(
                    data,
                ).spatial_index,
            forall|c: Coord|
                c.wf() && c != position && (i_lo as int) <= c.row < i && (j_lo as int) <= c.col
                    <= (j_hi as int) && spec_sector_of(c, len) != old(data).spatial_index
                    ==> foreign@.contains((#[trigger] spec_sector_of(c, len)) as usize),
            forall|c: Coord|
                c.wf() && c != position && (i_lo as int) <= c.row < i && (j_lo as int) <= c.col
                    <= (j_hi as int) && !spec_is_frontier(g, c) ==> !(
                #[trigger] data.frontier@.contains(c)),
            forall|c: Coord|
                !(c != position && (i_lo as int) <= c.row <= (i_hi as int) && (j_lo as int)
                    <= c.col <= (j_hi as int)) ==> (#[trigger] data.frontier@.contains(c)
                    <==> old(data).frontier@.contains(c)),
            // untouched cells in later rows
            forall|c: Coord|
                (i as int) <= c.row <= (i_hi as int) && (j_lo as int) <= c.col
                    <= (j_hi as int) && c != position ==> (
                #[trigger] data.frontier@.contains(c) <==> old(data).frontier@.contains(c)),
        decreases i_hi + 1 - i,
    {
        let mut j = j_lo;
        while j <= j_hi
            invariant
                data.frontier.wf(),
                data.spatial_index == old(data).spatial_index,
                grid_wf(g),
                g == grid_view(map),
                len == g.len(),
                g[0].len() == len,
                position.row < len,
                position.col < len,
                x == position.row,
                y == position.col,
                i_lo == (if x >= 1 { (x - 1) as usize } else { 0 }),
                i_hi == (if x + 1 <= len - 1 { (x + 1) as usize } else { (len - 1) as usize }),
                j_lo == (if y >= 1 { (y - 1) as usize } else { 0 }),
                j_hi == (if y + 1 <= len - 1 { (y + 1) as usize } else { (len - 1) as usize }),
                i_lo <= i <= i_hi,
                j_lo <= j,
                j <= j_hi + 1,
                forall|c: Coord|
                    c.wf() && c != position && (i_lo as int) <= c.row < i && (j_lo as int)
                        <= c.col <= (j_hi as int) && spec_is_frontier(g, c)
                        && spec_sector_of(c, len) == old(data).spatial_index
                        ==> #[trigger] data.frontier@.contains(c),
                forall|c: Coord|
                    c.wf() && c != position && (i_lo as int) <= c.row < i && (j_lo as int)
                        <= c.col <= (j_hi as int) && spec_is_frontier(g, c)
                        && spec_sector_of(c, len) != old(data).spatial_index
                        ==> (#[trigger] data.frontier@.contains(c) <==> old(
                        data,
                    ).frontier@.contains(c)),
                forall|l: int|
                    0 <= l < foreign@.len() ==> #[trigger] foreign@[l] != old(
                        data,
                    ).spatial_index,
                forall|c: Coord|
                    c.wf() && c != position && (i_lo as int) <= c.row < i && (j_lo as int)
                        <= c.col <= (j_hi as int) && spec_sector_of(c, len) != old(
                        data,
                    ).spatial_index ==> foreign@.contains((#[trigger] spec_sector_of(c,
                        len)) as usize),
                forall|c: Coord|
                    c.wf() && c != position && (i_lo as int) <= c.row < i && (j_lo as int)
                        <= c.col <= (j_hi as int) && !spec_is_frontier(g, c) ==> !(
                    #[trigger] data.frontier@.contains(c)),
                forall|c: Coord|
                    c.wf() && c != position && c.row == i && (j_lo as int) <= c.col < j
                        && spec_is_frontier(g, c) && spec_sector_of(c, len) == old(
                        data,
                    ).spatial_index ==> #[trigger] data.frontier@.contains(c),
                forall|c: Coord|
                    c.wf() && c != position && c.row == i && (j_lo as int) <= c.col < j
                        && spec_is_frontier(g, c) && spec_sector_of(c, len) != old(
                        data,
                    ).spatial_index ==> (#[trigger] data.frontier@.contains(c) <==> old(
                        data,
                    ).frontier@.contains(c)),
                forall|c: Coord|
                    c.wf() && c != position && c.row == i && (j_lo as int) <= c.col < j
                        && spec_sector_of(c, len) != old(data).spatial_index
                        ==> foreign@.contains((#[trigger] spec_sector_of(c, len)) as usize),
                forall|c: Coord|
                    c.wf() && c != position && c.row == i && (j_lo as int) <= c.col < j
                        && !spec_is_frontier(g, c) ==> !(#[trigger] data.frontier@.contains(
                        c,
                    )),
                forall|c: Coord|
                    !(c != position && (i_lo as int) <= c.row <= (i_hi as int) && (j_lo as int)
                        <= c.col <= (j_hi as int)) ==> (#[trigger] data.frontier@.contains(c)
                        <==> old(data).frontier@.contains(c)),
                forall|c: Coord|
                    ((c.row == i && (j as int) <= c.col <= (j_hi as int)) || ((i as int) < c.row
                        <= (i_hi as int) && (j_lo as int) <= c.col <= (j_hi as int))) && c
                        != position ==> (#[trigger] data.frontier@.contains(c) <==> old(data).frontier@.contains(c)),
            decreases j_hi + 1 - j,
        {
            let c = Coord::new(i, j);
            if !(i == x && j == y) {
                let spatial_index = calculate_spatial_index(i, j, len);
                proof {
                    assert(spatial_index == spec_sector_of(c, len));
                }
                if spatial_index != data.spatial_index {
                    let ghost f0 = foreign@;
                    foreign.push(spatial_index);
                    proof {
                        assert(foreign@[foreign@.len() - 1] == spatial_index);
                        assert forall|c2: Coord|
                            c2.wf() && c2 != position && ((c2.row < i && (i_lo as int)
                                <= c2.row && (j_lo as int) <= c2.col <= (j_hi as int)) || (
                            c2.row == i && (j_lo as int) <= c2.col < j)) && spec_sector_of(
                                c2,
                                len,
                            ) != old(data).spatial_index implies foreign@.contains((
                        #[trigger] spec_sector_of(c2, len)) as usize) by {
                            assert(f0.contains(spec_sector_of(c2, len) as usize));
                            let w = choose|w: int|
                                0 <= w < f0.len() && f0[w] == spec_sector_of(c2,
                                    len) as usize;
                            assert(foreign@[w] == spec_sector_of(c2, len) as usize);
                        }
                    }
                }
                let fr = is_frontier(map, c);
                if fr && spatial_index == data.spatial_index {
                    data.frontier.insert(c);
                } else if !fr {
                    data.frontier.remove(c);
                }
            }
            j = j + 1;
        }
        i = i + 1;
    }
    foreign
}

/// What one activation of an explorer mission decides before touching the
/// world.
#[derive(Clone, Copy, Debug, PartialEq, Eq, Structural)]
pub enum ExplorerStep {
    /// The weather is bad for the local biome and the forecast promises
    /// better: suspend instead of pushing through.
    ExpectingNiceWeather,
    /// The frontier is empty or unreachable: exploration of this sector is
    /// over and analysis takes over.
    SectorComplete,
    /// The chosen tile's path costs more than the agent can spend.
    LowEnergy(Coord, u32),
    /// The chosen tile is disproportionately expensive: head for an
    /// observed walkable waypoint roughly halfway toward it instead.
    InsertWaypoint(Coord),
    /// Move to the chosen frontier tile at the given path cost.
    GoTo(Coord, u32),
}

/// The first observed walkable tile on the straight L-shaped walk from the
/// halfway point toward the target, rows first, then columns.
fn first_walkable_toward(
    map: &Vec<Vec<Option<Tile>>>,
    position: Coord,
    target: Coord,
) -> (r: Option<Coord>)
    requires
        grid_wf(grid_view(map)),
        position.wf(),
        target.wf(),
    ensures
        r matches Some(c) ==> (c.row < grid_view(map).len() && c.col < grid_view(
            map,
        )[0].len() && grid_view(map)[c.row as int][c.col as int] is Some
            && crate::tiles::spec_walkable(
            grid_view(map)[c.row as int][c.col as int].unwrap().tile_type,
        )),
{
    let ghost g = grid_view(map);
    let mut cur = intermediate_toward(position, target);
    let rows = map.len();
    let cols = map[0].len();
    proof {
        assert(g[0] == map@[0]@);
    }
    let mut fuel: usize = 2000002;
    while fuel > 0
        invariant
            grid_wf(g),
            g == grid_view(map),
            rows == g.len(),
            cols == g[0].len(),
        decreases fuel,
    {
        fuel = fuel - 1;
        if cur.row < rows && cur.col < cols {
            proof {
                assert(g[cur.row as int] == map@[cur.row as int]@);
                assert(g[cur.row as int].len() == g[0].len());
            }
            match map[cur.row][cur.col] {
                Some(t) => {
                    if crate::tiles::walkable(t.tile_type) {
                        return Some(cur);
                    }
                },
                None => {},
            }
        }
        if cur.row != target.row {
            cur = Coord {
                row: if cur.row < target.row {
                    cur.row + 1
                } else {
                    cur.row - 1
                },
                col: cur.col,
            };
        } else if cur.col != target.col {
            cur = Coord {
                col: if cur.col < target.col {
                    cur.col + 1
                } else {
                    cur.col - 1
                },
                row: cur.row,
            };
        } else {
            return None;
        }
    }
    None
}

/// One explorer activation's decision, in the executor's order: the weather
/// gate first, then sector completion on an empty or unreachable frontier,
/// then the batched nearest-first tile choice; an oversized path cost turns
/// into a halfway waypoint, an unaffordable one into a pause, and anything
/// else into a move order. `costs[i]` prices travel to `frontier[i]`, with
/// `u32::MAX` marking unreachable.
pub fn explorer_step(
    data: &ExplorerData,
    map: &Vec<Vec<Option<Tile>>>,
    position: Coord,
    costs: &Vec<u32>,
    energy_level: u32,
    weather_nice_now: bool,
    weather_nice_soon: bool,
) -> (r: ExplorerStep)
    requires
        data.frontier.wf(),
        grid_wf(grid_view(map)),
        position.wf(),
        costs@.len() == data.frontier@.len(),
    ensures
        (!weather_nice_now && weather_nice_soon) ==> r == ExplorerStep::ExpectingNiceWeather,
        // the converse: only that forecast defers the work
        r == ExplorerStep::ExpectingNiceWeather ==> (!weather_nice_now && weather_nice_soon),
        ((weather_nice_now || !weather_nice_soon) && data.frontier@.len() == 0) ==> r
            == ExplorerStep::SectorComplete,
        ((weather_nice_now || !weather_nice_soon) && data.frontier@.len() > 0 && (forall|
        j: int|
            0 <= j < costs@.len() ==> #[trigger] costs@[j] == 0xffff_ffffu32)) ==> r
            == ExplorerStep::SectorComplete,
        // the converse: the sector is declared done only for those reasons
        r == ExplorerStep::SectorComplete ==> ((weather_nice_now || !weather_nice_soon)
            && (data.frontier@.len() == 0 || (forall|j: int|
            0 <= j < costs@.len() ==> #[trigger] costs@[j] == 0xffff_ffffu32))),
        r matches ExplorerStep::GoTo(c, w) ==> ((exists|i: int|
            0 <= i < data.frontier@.len() && #[trigger] data.frontier@[i] == c && costs@[i]
                == w) && data.frontier@.contains(c) && w != 0xffff_ffffu32 && w
            <= energy_level),
        r matches ExplorerStep::LowEnergy(c, w) ==> ((exists|i: int|
            0 <= i < data.frontier@.len() && #[trigger] data.frontier@[i] == c && costs@[i]
                == w) && data.frontier@.contains(c) && w != 0xffff_ffffu32 && w
            > energy_level),
        r matches ExplorerStep::InsertWaypoint(c) ==> (c.row < grid_view(map).len() && c.col
            < grid_view(map)[0].len() && grid_view(map)[c.row as int][c.col as int] is Some
            && crate::tiles::spec_walkable(
            grid_view(map)[c.row as int][c.col as int].unwrap().tile_type,
        )),
        // a waypoint is inserted only when the chosen tile's path cost was
        // oversized yet finite
        r matches ExplorerStep::InsertWaypoint(c) ==> (exists|i: int|
            0 <= i < costs@.len() && #[trigger] costs@[i] != 0xffff_ffffu32 && costs@[i]
                > 1000),
{
    if !weather_nice_now && weather_nice_soon {
        return ExplorerStep::ExpectingNiceWeather;
    }
    if data.frontier.is_empty() {
        return ExplorerStep::SectorComplete;
    }
    match choose_frontier_tile(&data.frontier, costs) {
        Err(_) => ExplorerStep::SectorComplete,
        Ok((tile, cost)) => {
            proof {
                let i = choose|i: int|
                    0 <= i < data.frontier@.len() && #[trigger] data.frontier@[i] == tile
                        && costs@[i] == cost;
                assert(data.frontier@.contains(tile));
            }
            if cost > 1000 {
                match first_walkable_toward(map, position, tile) {
                    Some(waypoint) => {
                        return ExplorerStep::InsertWaypoint(waypoint);
                    },
                    None => {},
                }
            }
            if cost > energy_level {
                ExplorerStep::LowEnergy(tile, cost)
            } else {
                ExplorerStep::GoTo(tile, cost)
            }
        },
    }
}

} // verus!
