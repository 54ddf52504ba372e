use vstd::prelude::*;
use crate::tiles::{
    base_cost, spec_base_cost, spec_walkable, spec_weather_factor, walkable, weather_factor,
    ContentKind, Direction, Tile, TileKind, WeatherKind, MAX_ELEVATION,
};
use crate::utils::{grid_view, grid_wf, Coord, MAX_WORLD_DIM};
use crate::coord_pool::CoordPool;

verus! {

/// Flat fare for hopping between two active teleport tiles.
pub const TELEPORT_COST: u64 = 30;

/// Sentinel cost of a cell the search has not reached.
pub const INFINITY_COST: u64 = 0xffff_ffff_ffff_ffff;

/// Largest slice side the pathfinder accepts; keeps the cost matrix and the
/// round counter small enough for the machine.
pub const MAX_SLICE_DIM: usize = 4096;

/// One atomic movement of a planned route.
#[derive(Clone, Copy, Debug, PartialEq, Eq, Structural)]
pub enum Action {
    Go(Direction),
    Teleport(Coord),
}

/// A planned route: where it starts, where it ends, the actions that walk it,
/// and its accumulated cost.
#[derive(Debug)]
pub struct Path {
    pub source: Coord,
    pub destination: Coord,
    pub actions: Vec<Action>,
    pub cost: u64,
}

impl Path {
    pub fn new(source: Coord, destination: Coord, cost: u64) -> (r: Path)
        ensures
            r.source == source,
            r.destination == destination,
            r.cost == cost,
            r.actions@ =~= Seq::<Action>::empty(),
    {
        Path { source, destination, actions: Vec::new(), cost }
    }
}

/// Why a pathfinding request failed, or why carrying one out did: the
/// closed error vocabulary shared between route planning and the host-side
/// movement that replays a planned route.
#[derive(Clone, Copy, Debug, PartialEq, Eq, Structural)]
pub enum PathError {
    PathNotFound,
    MapNotVisible,
    SourceNotVisible,
    DestinationNotVisible,
    GoNotAllowed,
    NotATeleport,
    NotEnoughEnergy,
    FailedToGo,
}

/// Whether a world coordinate falls inside the slice whose top-left cell sits
/// at `origin`.
pub open spec fn in_slice(g: Seq<Seq<Option<Tile>>>, origin: Coord, c: Coord) -> bool {
    &&& origin.row <= c.row < origin.row + g.len()
    &&& origin.col <= c.col < origin.col + g[0].len()
}

/// The observed tile of the slice at a world coordinate.
pub open spec fn tile_at(g: Seq<Seq<Option<Tile>>>, origin: Coord, c: Coord) -> Option<Tile> {
    g[c.row - origin.row][c.col - origin.col]
}

/// The world coordinate of slice cell (r, c).
pub open spec fn world_at(origin: Coord, r: int, c: int) -> Coord {
    Coord { row: (origin.row + r) as usize, col: (origin.col + c) as usize }
}

/// Where one grid step out of `c` lands. Moves off the top or left edge are
/// excluded by `spec_action_ok` before this is of interest.
pub open spec fn spec_go_dest(c: Coord, d: Direction) -> Coord {
    match d {
        Direction::Up => Coord { row: (c.row - 1) as usize, col: c.col },
        Direction::Down => Coord { row: (c.row + 1) as usize, col: c.col },
        Direction::Left => Coord { row: c.row, col: (c.col - 1) as usize },
        Direction::Right => Coord { row: c.row, col: (c.col + 1) as usize },
    }
}

/// Where an action out of `from` lands.
pub open spec fn spec_action_dest(from: Coord, a: Action) -> Coord {
    match a {
        Action::Go(d) => spec_go_dest(from, d),
        Action::Teleport(t) => t,
    }
}

/// Climbing is quadratically penalized; level or downhill steps add nothing.
pub open spec fn spec_elev_penalty(src: Tile, dst: Tile) -> int {
    if dst.elevation > src.elevation {
        (dst.elevation - src.elevation) * (dst.elevation - src.elevation)
    } else {
        0
    }
}

/// Terrain cost table used only while planning roads: paved ground and
/// mountains are cheapest, water and lava progressively more expensive, and
/// terrain that a road cannot cross at all is prohibitively dear.
pub open spec fn spec_road_base_cost(kind: TileKind) -> int {
    match kind {
        TileKind::Street => 0,
        TileKind::Hill => 1,
        TileKind::Mountain => 0,
        TileKind::Sand => 1,
        TileKind::ShallowWater => 2,
        TileKind::Grass => 1,
        TileKind::DeepWater => 3,
        TileKind::Lava => 4,
        _ => 1000,
    }
}

/// Executable twin of `spec_road_base_cost`.
pub fn road_base_cost(kind: TileKind) -> (r: u64)
    ensures
        r == spec_road_base_cost(kind),
{
    match kind {
        TileKind::Street => 0,
        TileKind::Hill => 1,
        TileKind::Mountain => 0,
        TileKind::Sand => 1,
        TileKind::ShallowWater => 2,
        TileKind::Grass => 1,
        TileKind::DeepWater => 3,
        TileKind::Lava => 4,
        _ => 1000,
    }
}

/// Extra road-planning cost of removable content sitting on the tile; a
/// storage crate cannot be cleared by movement, so it is all but forbidden.
pub open spec fn spec_road_content_cost(content: ContentKind) -> int {
    match content {
        ContentKind::Crate => 1000,
        ContentKind::Empty => 0,
        _ => 2,
    }
}

/// Executable twin of `spec_road_content_cost`.
pub fn road_content_cost(content: ContentKind) -> (r: u64)
    ensures
        r == spec_road_content_cost(content),
{
    match content {
        ContentKind::Crate => 1000,
        ContentKind::Empty => 0,
        _ => 2,
    }
}

/// Cost of stepping from `src` onto `dst`: in free movement the terrain cost
/// adjusted by the weather, in road planning the road table plus a content
/// charge; the elevation penalty applies either way.
pub open spec fn spec_step_cost(
    weather: WeatherKind,
    road_mode: bool,
    src: Tile,
    dst: Tile,
) -> int {
    if road_mode {
        spec_road_base_cost(dst.tile_type) + spec_road_content_cost(dst.content)
            + spec_elev_penalty(src, dst)
    } else {
        spec_base_cost(dst.tile_type) * spec_weather_factor(weather, dst.tile_type)
            + spec_elev_penalty(src, dst)
    }
}

/// An action is admissible at `from`: a grid step must stay inside the slice
/// and land on an observed walkable tile, a teleport hop must connect two
/// observed active teleport tiles.
pub open spec fn spec_action_ok(
    g: Seq<Seq<Option<Tile>>>,
    origin: Coord,
    from: Coord,
    a: Action,
) -> bool {
    match a {
        Action::Go(d) => {
            &&& (d == Direction::Up ==> from.row >= 1)
            &&& (d == Direction::Left ==> from.col >= 1)
            &&& in_slice(g, origin, from)
            &&& in_slice(g, origin, spec_go_dest(from, d))
            &&& tile_at(g, origin, from) is Some
            &&& tile_at(g, origin, spec_go_dest(from, d)) is Some
            &&& spec_walkable(tile_at(g, origin, spec_go_dest(from, d)).unwrap().tile_type)
        },
        Action::Teleport(t) => {
            &&& in_slice(g, origin, from)
            &&& in_slice(g, origin, t)
            &&& tile_at(g, origin, from) is Some
            &&& tile_at(g, origin, t) is Some
            &&& tile_at(g, origin, from).unwrap().tile_type == TileKind::Teleport(true)
            &&& tile_at(g, origin, t).unwrap().tile_type == TileKind::Teleport(true)
        },
    }
}

/// Cost of an admissible action taken at `from`.
pub open spec fn spec_action_cost(
    g: Seq<Seq<Option<Tile>>>,
    origin: Coord,
    weather: WeatherKind,
    road_mode: bool,
    from: Coord,
    a: Action,
) -> int {
    match a {
        Action::Go(d) => spec_step_cost(
            weather,
            road_mode,
            tile_at(g, origin, from).unwrap(),
            tile_at(g, origin, spec_go_dest(from, d)).unwrap(),
        ),
        Action::Teleport(_) => TELEPORT_COST as int,
    }
}

/// The coordinate an action sequence reaches when replayed from `source`.
pub open spec fn spec_path_end(source: Coord, actions: Seq<Action>) -> Coord
    decreases actions.len(),
{
    if actions.len() == 0 {
        source
    } else {
        spec_action_dest(spec_path_end(source, actions.drop_last()), actions.last())
    }
}

/// Every action of the sequence is admissible at the point it is taken.
pub open spec fn spec_path_ok(
    g: Seq<Seq<Option<Tile>>>,
    origin: Coord,
    source: Coord,
    actions: Seq<Action>,
) -> bool
    decreases actions.len(),
{
    if actions.len() == 0 {
        true
    } else {
        spec_path_ok(g, origin, source, actions.drop_last()) && spec_action_ok(
            g,
            origin,
            spec_path_end(source, actions.drop_last()),
            actions.last(),
        )
    }
}

/// Sum of per-action costs of a route replayed from `source`.
pub open spec fn spec_path_cost(
    g: Seq<Seq<Option<Tile>>>,
    origin: Coord,
    weather: WeatherKind,
    road_mode: bool,
    source: Coord,
    actions: Seq<Action>,
) -> int
    decreases actions.len(),
{
    if actions.len() == 0 {
        0
    } else {
        spec_path_cost(g, origin, weather, road_mode, source, actions.drop_last())
            + spec_action_cost(
            g,
            origin,
            weather,
            road_mode,
            spec_path_end(source, actions.drop_last()),
            actions.last(),
        )
    }
}

/// The elevation rule in isolation: stepping to a strictly higher tile costs
/// the squared elevation difference on top of the base charge; stepping level
/// or downhill costs exactly the base charge.
pub proof fn lemma_elevation_rule(weather: WeatherKind, road_mode: bool, src: Tile, dst: Tile)
    ensures
        dst.elevation > src.elevation ==> spec_step_cost(weather, road_mode, src, dst)
            == spec_step_cost(weather, road_mode, Tile { elevation: dst.elevation, ..src }, dst)
            + (dst.elevation - src.elevation) * (dst.elevation - src.elevation),
        dst.elevation <= src.elevation ==> spec_step_cost(weather, road_mode, src, dst)
            == spec_step_cost(weather, road_mode, Tile { elevation: dst.elevation, ..src }, dst),
{
}

/// Cost of one admissible grid step, or the error explaining why it is not
/// admissible: an unobserved source or destination, or unwalkable terrain.
pub fn calculate_go_cost(
    map: &Vec<Vec<Option<Tile>>>,
    origin: Coord,
    weather: WeatherKind,
    road_mode: bool,
    source: Coord,
    direction: Direction,
) -> (r: Result<u64, PathError>)
    requires
        grid_wf(grid_view(map)),
        origin.row + grid_view(map).len() <= MAX_WORLD_DIM,
        origin.col + grid_view(map)[0].len() <= MAX_WORLD_DIM,
        in_slice(grid_view(map), origin, source),
        in_slice(grid_view(map), origin, spec_go_dest(source, direction)),
        direction == Direction::Up ==> source.row >= 1,
        direction == Direction::Left ==> source.col >= 1,
    ensures
        ({
            let g = grid_view(map);
            let dest = spec_go_dest(source, direction);
            &&& (r is Ok <==> spec_action_ok(g, origin, source, Action::Go(direction)))
            &&& r is Ok ==> r.unwrap() == spec_action_cost(
                g,
                origin,
                weather,
                road_mode,
                source,
                Action::Go(direction),
            )
            &&& tile_at(g, origin, source) is None ==> r == Err::<u64, PathError>(
                PathError::SourceNotVisible,
            )
            &&& tile_at(g, origin, source) is Some && tile_at(g, origin, dest) is None
                ==> r == Err::<u64, PathError>(PathError::DestinationNotVisible)
            &&& tile_at(g, origin, source) is Some && tile_at(g, origin, dest) is Some
                && !spec_walkable(tile_at(g, origin, dest).unwrap().tile_type)
                ==> r == Err::<u64, PathError>(PathError::GoNotAllowed)
        }),
{
    let ghost g = grid_view(map);
    let sr = source.row - origin.row;
    let sc = source.col - origin.col;
    let (dr, dc) = match direction {
        Direction::Up => (sr - 1, sc),
        Direction::Down => (sr + 1, sc),
        Direction::Left => (sr, sc - 1),
        Direction::Right => (sr, sc + 1),
    };
    proof {
        let dest = spec_go_dest(source, direction);
        assert(dr == dest.row - origin.row && dc == dest.col - origin.col);
        assert(dr < g.len() && dc < g[0].len());
        assert(g[sr as int] == map@[sr as int]@);
        assert(g[dr as int] == map@[dr as int]@);
        assert(g[dr as int].len() == g[0].len());
        assert(g[sr as int].len() == g[0].len());
    }
    let src_tile = match map[sr][sc] {
        Some(t) => t,
        None => {
            return Err(PathError::SourceNotVisible);
        },
    };
    let dst_tile = match map[dr][dc] {
        Some(t) => t,
        None => {
            return Err(PathError::DestinationNotVisible);
        },
    };
    if !walkable(dst_tile.tile_type) {
        return Err(PathError::GoNotAllowed);
    }
    let elevation_cost: u64 = if dst_tile.elevation > src_tile.elevation {
        let delta = (dst_tile.elevation - src_tile.elevation) as u64;
        proof {
            assert(delta * delta <= (MAX_ELEVATION as int) * (MAX_ELEVATION as int))
                by (nonlinear_arith)
                requires 0 <= delta <= MAX_ELEVATION;
        }
        delta * delta
    } else {
        0
    };
    proof {
        assert(spec_base_cost(dst_tile.tile_type) <= 10);
        assert(spec_weather_factor(weather, dst_tile.tile_type) <= 2);
        assert(spec_road_base_cost(dst_tile.tile_type) <= 1000);
        assert(spec_road_content_cost(dst_tile.content) <= 1000);
        assert((spec_base_cost(dst_tile.tile_type) as int) * (spec_weather_factor(
            weather,
            dst_tile.tile_type,
        ) as int) <= 20) by (nonlinear_arith)
            requires
                spec_base_cost(dst_tile.tile_type) <= 10,
                spec_weather_factor(weather, dst_tile.tile_type) <= 2;
    }
    let base: u64 = if road_mode {
        road_base_cost(dst_tile.tile_type) + road_content_cost(dst_tile.content)
    } else {
        (base_cost(dst_tile.tile_type) as u64) * (weather_factor(weather, dst_tile.tile_type)
            as u64)
    };
    Ok(base + elevation_cost)
}

/// Flat teleport fare between two observed active teleport tiles, or the
/// error explaining why the hop is not admissible.
pub fn calculate_teleport_cost(
    map: &Vec<Vec<Option<Tile>>>,
    origin: Coord,
    current: Coord,
    destination: Coord,
) -> (r: Result<u64, PathError>)
    requires
        grid_wf(grid_view(map)),
        in_slice(grid_view(map), origin, current),
        in_slice(grid_view(map), origin, destination),
    ensures
        ({
            let g = grid_view(map);
            &&& (r is Ok <==> spec_action_ok(g, origin, current, Action::Teleport(destination)))
            &&& r is Ok ==> r.unwrap() == TELEPORT_COST
        }),
{
    let ghost g = grid_view(map);
    let cr = current.row - origin.row;
    let cc = current.col - origin.col;
    let dr = destination.row - origin.row;
    let dc = destination.col - origin.col;
    proof {
        assert(g[cr as int] == map@[cr as int]@);
        assert(g[dr as int] == map@[dr as int]@);
        assert(g[cr as int].len() == g[0].len());
        assert(g[dr as int].len() == g[0].len());
    }
    match map[cr][cc] {
        None => Err(PathError::SourceNotVisible),
        Some(t) => {
            if t.tile_type != TileKind::Teleport(true) {
                return Err(PathError::NotATeleport);
            }
            match map[dr][dc] {
                None => Err(PathError::DestinationNotVisible),
                Some(t2) => {
                    if t2.tile_type != TileKind::Teleport(true) {
                        return Err(PathError::NotATeleport);
                    }
                    Ok(TELEPORT_COST)
                },
            }
        },
    }
}


/// View of the cost matrix as a sequence of rows.
pub open spec fn paths_view(p: &Vec<Vec<Path>>) -> Seq<Seq<Path>> {
    p@.map_values(|r: Vec<Path>| r@)
}

/// What one cell of the cost matrix always satisfies: it describes a route
/// from the common source to exactly this cell, and whenever its cost is
/// finite, the recorded actions are admissible and add up to that cost.
pub open spec fn entry_inv(
    g: Seq<Seq<Option<Tile>>>,
    origin: Coord,
    weather: WeatherKind,
    road_mode: bool,
    source: Coord,
    p: Path,
    r: int,
    c: int,
) -> bool {
    &&& p.source == source
    &&& p.destination == world_at(origin, r, c)
    &&& p.cost < INFINITY_COST ==> {
        &&& spec_path_ok(g, origin, source, p.actions@)
        &&& spec_path_end(source, p.actions@) == world_at(origin, r, c)
        &&& spec_path_cost(g, origin, weather, road_mode, source, p.actions@) == p.cost
    }
}

/// The cost matrix matches the slice's shape and every cell meets `entry_inv`.
pub open spec fn paths_inv(
    g: Seq<Seq<Option<Tile>>>,
    origin: Coord,
    weather: WeatherKind,
    road_mode: bool,
    source: Coord,
    pm: Seq<Seq<Path>>,
) -> bool {
    &&& pm.len() == g.len()
    &&& forall|r: int| 0 <= r < pm.len() ==> (#[trigger] pm[r]).len() == g[0].len()
    &&& forall|r: int, c: int|
        0 <= r < pm.len() && 0 <= c < pm[r].len() ==> entry_inv(
            g,
            origin,
            weather,
            road_mode,
            source,
            #[trigger] pm[r][c],
            r,
            c,
        )
}

/// Element-for-element copy of an action list.
fn copy_actions(v: &Vec<Action>) -> (r: Vec<Action>)
    ensures
        r@ == v@,
{
    let mut r: Vec<Action> = Vec::new();
    let mut i: usize = 0;
    while i < v.len()
        invariant
            i <= v@.len(),
            r@ == v@.take(i as int),
        decreases v@.len() - i,
    {
        r.push(v[i]);
        proof {
            assert(r@ =~= v@.take(i + 1));
        }
        i = i + 1;
    }
    proof {
        assert(v@.take(v@.len() as int) =~= v@);
    }
    r
}

/// One edge relaxation: if reaching the target cell through the given action
/// is cheaper than its best-known route, the target's route is replaced by
/// the source cell's route extended with the action.
fn relax(
    paths: &mut Vec<Vec<Path>>,
    map: &Vec<Vec<Option<Tile>>>,
    origin: Coord,
    weather: WeatherKind,
    road_mode: bool,
    source: Coord,
    from_r: usize,
    from_c: usize,
    a: Action,
    to_r: usize,
    to_c: usize,
    w: u64,
) -> (changed: bool)
    requires
        grid_wf(grid_view(map)),
        paths_inv(grid_view(map), origin, weather, road_mode, source, paths_view(old(paths))),
        from_r < grid_view(map).len(),
        from_c < grid_view(map)[0].len(),
        to_r < grid_view(map).len(),
        to_c < grid_view(map)[0].len(),
        paths_view(old(paths))[from_r as int][from_c as int].cost < INFINITY_COST,
        spec_action_ok(grid_view(map), origin, world_at(origin, from_r as int, from_c as int), a),
        spec_action_dest(world_at(origin, from_r as int, from_c as int), a) == world_at(
            origin,
            to_r as int,
            to_c as int,
        ),
        w == spec_action_cost(
            grid_view(map),
            origin,
            weather,
            road_mode,
            world_at(origin, from_r as int, from_c as int),
            a,
        ),
    ensures
        paths_inv(grid_view(map), origin, weather, road_mode, source, paths_view(final(paths))),
        paths_view(final(paths)).len() == paths_view(old(paths)).len(),
        forall|r: int, c: int|
            0 <= r < paths_view(old(paths)).len() && 0 <= c < paths_view(old(paths))[r].len()
                && !(r == to_r && c == to_c)
                ==> #[trigger] paths_view(final(paths))[r][c] == paths_view(old(paths))[r][c],
        paths_view(final(paths))[to_r as int][to_c as int].cost
            <= paths_view(old(paths))[to_r as int][to_c as int].cost,
        !changed ==> paths_view(final(paths)) == paths_view(old(paths)),
        changed ==> paths_view(final(paths))[to_r as int][to_c as int].cost
            < paths_view(old(paths))[to_r as int][to_c as int].cost,
        paths_view(final(paths))[to_r as int][to_c as int].cost
            <= paths_view(old(paths))[from_r as int][from_c as int].cost + w,
{
    let ghost g = grid_view(map);
    let ghost pv0 = paths_view(old(paths));
    proof {
        assert(paths_view(paths)[from_r as int] == paths@[from_r as int]@);
        assert(paths_view(paths)[to_r as int] == paths@[to_r as int]@);
    }
    let d = paths[from_r][from_c].cost;
    let nd = match d.checked_add(w) {
        Some(v) => v,
        None => {
            proof {
                assert(paths_view(paths) =~~= pv0);
            }
            return false;
        },
    };
    if nd < paths[to_r][to_c].cost && nd < INFINITY_COST {
        let mut acts = copy_actions(&paths[from_r][from_c].actions);
        acts.push(a);
        let dest = paths[to_r][to_c].destination;
        let entry = Path { source, destination: dest, actions: acts, cost: nd };
        let ghost from_entry = pv0[from_r as int][from_c as int];
        proof {
            assert(entry.actions@.drop_last() =~= from_entry.actions@);
            assert(entry.actions@.last() == a);
            assert(spec_path_end(source, entry.actions@.drop_last()) == world_at(
                origin,
                from_r as int,
                from_c as int,
            ));
            assert(spec_path_ok(g, origin, source, entry.actions@));
            assert(spec_path_end(source, entry.actions@) == world_at(
                origin,
                to_r as int,
                to_c as int,
            ));
            assert(spec_path_cost(g, origin, weather, road_mode, source, entry.actions@)
                == from_entry.cost + w);
        }
        paths[to_r][to_c] = entry;
        proof {
            let pv1 = paths_view(paths);
            assert(paths@[to_r as int]@ == pv0[to_r as int].update(to_c as int, entry));
            assert forall|r: int, c: int|
                0 <= r < pv1.len() && 0 <= c < pv1[r].len() && !(r == to_r && c == to_c)
                    implies #[trigger] pv1[r][c] == pv0[r][c] by {
                assert(pv1[r] == paths@[r]@);
                assert(pv0[r] == old(paths)@[r]@);
            }
            assert(pv1[to_r as int][to_c as int] == entry);
            assert forall|r: int, c: int|
                0 <= r < pv1.len() && 0 <= c < pv1[r].len() implies entry_inv(
                    g,
                    origin,
                    weather,
                    road_mode,
                    source,
                    #[trigger] pv1[r][c],
                    r,
                    c,
                ) by {
                assert(pv1[r] == paths@[r]@);
                assert(pv0[r] == old(paths)@[r]@);
                if r == to_r && c == to_c {
                    assert(entry_inv(g, origin, weather, road_mode, source, entry, r, c));
                } else {
                    assert(pv1[r][c] == pv0[r][c]);
                }
            }
            assert(pv1.len() == g.len());
            assert forall|r: int| 0 <= r < pv1.len() implies (#[trigger] pv1[r]).len()
                == g[0].len() by {
                assert(pv1[r] == paths@[r]@);
                assert(pv0[r] == old(paths)@[r]@);
                if r == to_r {
                    assert(paths@[r]@ == pv0[r].update(to_c as int, entry));
                }
            }
        }
        return true;
    }
    proof {
        assert(paths_view(paths) =~~= pv0);
    }
    false
}

/// The recorded cost of the cell holding a world coordinate.
pub open spec fn pm_cost_at(pm: Seq<Seq<Path>>, origin: Coord, c: Coord) -> int {
    pm[c.row - origin.row][c.col - origin.col].cost as int
}

/// One cell is settled: no admissible action out of it would improve the
/// best-known cost of its destination.
pub open spec fn closure_at(
    g: Seq<Seq<Option<Tile>>>,
    origin: Coord,
    weather: WeatherKind,
    road_mode: bool,
    pm: Seq<Seq<Path>>,
    r: int,
    c: int,
) -> bool {
    pm[r][c].cost < INFINITY_COST ==> forall|a: Action|
        spec_action_ok(g, origin, world_at(origin, r, c), a) ==> pm_cost_at(
            pm,
            origin,
            spec_action_dest(world_at(origin, r, c), a),
        ) <= pm[r][c].cost + spec_action_cost(
            g,
            origin,
            weather,
            road_mode,
            world_at(origin, r, c),
            a,
        )
}

/// All cells strictly before row-major position (r, c) are settled.
pub open spec fn closure_upto(
    g: Seq<Seq<Option<Tile>>>,
    origin: Coord,
    weather: WeatherKind,
    road_mode: bool,
    pm: Seq<Seq<Path>>,
    r: int,
    c: int,
) -> bool {
    forall|r2: int, c2: int|
        0 <= r2 < pm.len() && 0 <= c2 < pm[r2].len() && (r2 < r || (r2 == r && c2 < c))
            ==> closure_at(g, origin, weather, road_mode, pm, r2, c2)
}

/// Every cell is settled: the relaxation has reached its fixed point.
pub open spec fn closure_all(
    g: Seq<Seq<Option<Tile>>>,
    origin: Coord,
    weather: WeatherKind,
    road_mode: bool,
    pm: Seq<Seq<Path>>,
) -> bool {
    forall|r2: int, c2: int|
        0 <= r2 < pm.len() && 0 <= c2 < pm[r2].len() ==> closure_at(
            g,
            origin,
            weather,
            road_mode,
            pm,
            r2,
            c2,
        )
}

/// The collected teleport list is complete for the cells strictly before
/// row-major position (r, c): every active teleport among them is listed.
pub open spec fn teleports_complete_upto(
    g: Seq<Seq<Option<Tile>>>,
    origin: Coord,
    tp: Seq<Coord>,
    r: int,
    c: int,
) -> bool {
    forall|r2: int, c2: int|
        0 <= r2 < g.len() && 0 <= c2 < g[0].len() && (r2 < r || (r2 == r && c2 < c)) && g[r2][
        c2] is Some && (#[trigger] g[r2][c2]).unwrap().tile_type == TileKind::Teleport(true)
            ==> tp.contains(world_at(origin, r2, c2))
}

/// Total of the first `j` recorded costs of one row.
pub open spec fn cost_row_total(s: Seq<Path>, j: int) -> int
    decreases j,
{
    if j <= 0 {
        0
    } else {
        cost_row_total(s, j - 1) + s[j - 1].cost
    }
}

/// Total of the recorded costs of the first `i` rows.
pub open spec fn cost_total(pm: Seq<Seq<Path>>, i: int) -> int
    decreases i,
{
    if i <= 0 {
        0
    } else {
        cost_total(pm, i - 1) + cost_row_total(pm[i - 1], pm[i - 1].len() as int)
    }
}

proof fn lemma_cost_row_total_nonneg(s: Seq<Path>, j: int)
    requires
        0 <= j <= s.len(),
    ensures
        cost_row_total(s, j) >= 0,
    decreases j,
{
    if j > 0 {
        lemma_cost_row_total_nonneg(s, j - 1);
    }
}

proof fn lemma_cost_total_nonneg(pm: Seq<Seq<Path>>, i: int)
    requires
        0 <= i <= pm.len(),
    ensures
        cost_total(pm, i) >= 0,
    decreases i,
{
    if i > 0 {
        lemma_cost_total_nonneg(pm, i - 1);
        lemma_cost_row_total_nonneg(pm[i - 1], pm[i - 1].len() as int);
    }
}

proof fn lemma_cost_row_total_update(s0: Seq<Path>, s1: Seq<Path>, c: int, j: int)
    requires
        s0.len() == s1.len(),
        0 <= c < s0.len(),
        0 <= j <= s0.len(),
        forall|l: int| 0 <= l < s0.len() && l != c ==> #[trigger] s1[l] == s0[l],
    ensures
        cost_row_total(s1, j) == cost_row_total(s0, j) + (if c < j {
            s1[c].cost - s0[c].cost
        } else {
            0int
        }),
    decreases j,
{
    if j > 0 {
        lemma_cost_row_total_update(s0, s1, c, j - 1);
    }
}

/// Changing the cost matrix at one cell changes the total by exactly that
/// cell's difference.
proof fn lemma_cost_total_update(pm0: Seq<Seq<Path>>, pm1: Seq<Seq<Path>>, r: int, c: int, i: int)
    requires
        pm0.len() == pm1.len(),
        0 <= r < pm0.len(),
        forall|k: int| 0 <= k < pm0.len() ==> (#[trigger] pm1[k]).len() == pm0[k].len(),
        0 <= c < pm0[r].len(),
        0 <= i <= pm0.len(),
        forall|k: int, l: int|
            0 <= k < pm0.len() && 0 <= l < pm0[k].len() && !(k == r && l == c)
                ==> #[trigger] pm1[k][l] == pm0[k][l],
    ensures
        cost_total(pm1, i) == cost_total(pm0, i) + (if r < i {
            pm1[r][c].cost - pm0[r][c].cost
        } else {
            0int
        }),
    decreases i,
{
    if i > 0 {
        lemma_cost_total_update(pm0, pm1, r, c, i - 1);
        if i - 1 == r {
            lemma_cost_row_total_update(pm0[r], pm1[r], c, pm0[r].len() as int);
        } else {
            assert(forall|l: int|
                0 <= l < pm0[i - 1].len() ==> #[trigger] pm1[i - 1][l] == pm0[i - 1][l]);
            assert(pm1[i - 1] =~= pm0[i - 1]);
        }
    }
}

/// Every admissible action has a nonnegative cost.
pub proof fn lemma_action_cost_nonneg(
    g: Seq<Seq<Option<Tile>>>,
    origin: Coord,
    weather: WeatherKind,
    road_mode: bool,
    from: Coord,
    a: Action,
)
    ensures
        spec_action_cost(g, origin, weather, road_mode, from, a) >= 0,
{
    match a {
        Action::Go(d) => {
            let src = tile_at(g, origin, from).unwrap();
            let dst = tile_at(g, origin, spec_go_dest(from, d)).unwrap();
            assert(spec_elev_penalty(src, dst) >= 0) by (nonlinear_arith);
            assert(spec_road_base_cost(dst.tile_type) >= 0);
            assert(spec_road_content_cost(dst.content) >= 0);
            assert(spec_base_cost(dst.tile_type) * spec_weather_factor(weather, dst.tile_type)
                >= 0) by (nonlinear_arith)
                requires
                    spec_base_cost(dst.tile_type) >= 0,
                    spec_weather_factor(weather, dst.tile_type) >= 0;
        },
        Action::Teleport(_) => {},
    }
}

/// The end of an admissible route stays inside the slice.
pub proof fn lemma_path_end_in_slice(
    g: Seq<Seq<Option<Tile>>>,
    origin: Coord,
    source: Coord,
    acts: Seq<Action>,
)
    requires
        spec_path_ok(g, origin, source, acts),
        in_slice(g, origin, source),
    ensures
        in_slice(g, origin, spec_path_end(source, acts)),
    decreases acts.len(),
{
    if acts.len() > 0 {
        lemma_path_end_in_slice(g, origin, source, acts.drop_last());
        let mid = spec_path_end(source, acts.drop_last());
        assert(spec_action_ok(g, origin, mid, acts.last()));
    }
}

/// At a relaxation fixed point with the source at cost zero, every cell's
/// recorded cost is a lower bound on the cost of any admissible route to it:
/// by induction over the route, each step can improve the bound by at most
/// its own cost.
pub proof fn lemma_closure_bound(
    g: Seq<Seq<Option<Tile>>>,
    origin: Coord,
    weather: WeatherKind,
    road_mode: bool,
    source: Coord,
    pm: Seq<Seq<Path>>,
    acts: Seq<Action>,
)
    requires
        pm.len() == g.len(),
        forall|k: int| 0 <= k < pm.len() ==> (#[trigger] pm[k]).len() == g[0].len(),
        closure_all(g, origin, weather, road_mode, pm),
        in_slice(g, origin, source),
        pm_cost_at(pm, origin, source) == 0,
        spec_path_ok(g, origin, source, acts),
    ensures
        pm_cost_at(pm, origin, spec_path_end(source, acts)) <= spec_path_cost(
            g,
            origin,
            weather,
            road_mode,
            source,
            acts,
        ),
    decreases acts.len(),
{
    if acts.len() == 0 {
    } else {
        let prefix = acts.drop_last();
        let a = acts.last();
        lemma_closure_bound(g, origin, weather, road_mode, source, pm, prefix);
        let mid = spec_path_end(source, prefix);
        lemma_path_end_in_slice(g, origin, source, prefix);
        let w = spec_action_cost(g, origin, weather, road_mode, mid, a);
        lemma_action_cost_nonneg(g, origin, weather, road_mode, mid, a);
        let pcost = spec_path_cost(g, origin, weather, road_mode, source, prefix);
        let end = spec_action_dest(mid, a);
        assert(spec_action_ok(g, origin, mid, a));
        lemma_path_end_in_slice(g, origin, source, acts);
        let mr = mid.row - origin.row;
        let mc = mid.col - origin.col;
        assert(world_at(origin, mr, mc) == mid);
        assert(pm_cost_at(pm, origin, mid) == pm[mr][mc].cost);
        assert(spec_path_cost(g, origin, weather, road_mode, source, acts) == pcost + w);
        assert(spec_path_end(source, acts) == end);
        if pcost < INFINITY_COST {
            assert(pm[mr][mc].cost < INFINITY_COST);
            assert(closure_at(g, origin, weather, road_mode, pm, mr, mc));
            assert(pm_cost_at(pm, origin, end) <= pm[mr][mc].cost + w);
        } else {
            assert(pm_cost_at(pm, origin, end) <= pm.len() * 0 + INFINITY_COST) by {
                assert(pm[end.row - origin.row][end.col - origin.col].cost
                    <= INFINITY_COST);
            }
        }
    }
}

/// Shared shape facts the settling helpers preserve about the cost matrix.
pub open spec fn settle_frame(
    g: Seq<Seq<Option<Tile>>>,
    origin: Coord,
    weather: WeatherKind,
    road_mode: bool,
    source: Coord,
    pm0: Seq<Seq<Path>>,
    pm1: Seq<Seq<Path>>,
) -> bool {
    &&& paths_inv(g, origin, weather, road_mode, source, pm1)
    &&& pm1.len() == pm0.len()
    &&& (forall|k: int| 0 <= k < pm0.len() ==> (#[trigger] pm1[k]).len() == pm0[k].len())
    &&& (forall|r: int, c: int|
        0 <= r < pm0.len() && 0 <= c < pm0[r].len() ==> (#[trigger] pm1[r][c]).cost
            <= pm0[r][c].cost)
}

/// Relaxes one grid direction out of a cell. When nothing improved, the
/// matrix is unchanged and the direction's edge is settled: an admissible
/// step that way cannot lower its destination's recorded cost.
fn relax_dir(
    paths: &mut Vec<Vec<Path>>,
    map: &Vec<Vec<Option<Tile>>>,
    origin: Coord,
    weather: WeatherKind,
    road_mode: bool,
    source: Coord,
    r2: usize,
    c2: usize,
    d: Direction,
) -> (changed: bool)
    requires
        grid_wf(grid_view(map)),
        origin.row + grid_view(map).len() <= MAX_WORLD_DIM,
        origin.col + grid_view(map)[0].len() <= MAX_WORLD_DIM,
        r2 < grid_view(map).len(),
        c2 < grid_view(map)[0].len(),
        paths_inv(grid_view(map), origin, weather, road_mode, source, paths_view(old(paths))),
        paths_view(old(paths))[r2 as int][c2 as int].cost < INFINITY_COST,
    ensures
        settle_frame(grid_view(map), origin, weather, road_mode, source,
            paths_view(old(paths)), paths_view(final(paths))),
        !changed ==> paths_view(final(paths)) == paths_view(old(paths)),
        changed ==> cost_total(paths_view(final(paths)),
            paths_view(final(paths)).len() as int) < cost_total(paths_view(old(paths)),
            paths_view(old(paths)).len() as int),
        !changed ==> (spec_action_ok(grid_view(map), origin,
            world_at(origin, r2 as int, c2 as int), Action::Go(d)) ==> pm_cost_at(
            paths_view(final(paths)),
            origin,
            spec_go_dest(world_at(origin, r2 as int, c2 as int), d),
        ) <= paths_view(final(paths))[r2 as int][c2 as int].cost + spec_action_cost(
            grid_view(map),
            origin,
            weather,
            road_mode,
            world_at(origin, r2 as int, c2 as int),
            Action::Go(d),
        )),
{
    let ghost g = grid_view(map);
    let ghost pv0 = paths_view(old(paths));
    let rows = map.len();
    let cols = map[0].len();
    proof {
        assert(g[0] == map@[0]@);
    }
    let from_world = Coord::new(origin.row + r2, origin.col + c2);
    proof {
        assert(from_world == world_at(origin, r2 as int, c2 as int));
    }
    let in_bounds = match d {
        Direction::Right => c2 + 1 < cols,
        Direction::Down => r2 + 1 < rows,
        Direction::Left => c2 > 0,
        Direction::Up => r2 > 0,
    };
    if !in_bounds {
        proof {
            assert(!spec_action_ok(g, origin, from_world, Action::Go(d)));
        }
        return false;
    }
    let (to_r, to_c) = match d {
        Direction::Right => (r2, c2 + 1),
        Direction::Down => (r2 + 1, c2),
        Direction::Left => (r2, c2 - 1),
        Direction::Up => (r2 - 1, c2),
    };
    proof {
        assert(spec_go_dest(from_world, d) == world_at(origin, to_r as int, to_c as int));
    }
    match calculate_go_cost(map, origin, weather, road_mode, from_world, d) {
        Ok(w) => {
            let ch = relax(paths, map, origin, weather, road_mode, source, r2, c2,
                Action::Go(d), to_r, to_c, w);
            proof {
                if ch {
                    lemma_cost_total_update(pv0, paths_view(paths), to_r as int,
                        to_c as int, rows as int);
                }
            }
            ch
        },
        Err(_) => {
            proof {
                assert(!spec_action_ok(g, origin, from_world, Action::Go(d)));
            }
            false
        },
    }
}

/// Relaxes the teleport hops out of one cell. When nothing improved, every
/// listed teleport is settled from here.
fn relax_teleports(
    paths: &mut Vec<Vec<Path>>,
    map: &Vec<Vec<Option<Tile>>>,
    origin: Coord,
    weather: WeatherKind,
    road_mode: bool,
    source: Coord,
    teleports: &Vec<Coord>,
    r2: usize,
    c2: usize,
) -> (changed: bool)
    requires
        grid_wf(grid_view(map)),
        origin.row + grid_view(map).len() <= MAX_WORLD_DIM,
        origin.col + grid_view(map)[0].len() <= MAX_WORLD_DIM,
        r2 < grid_view(map).len(),
        c2 < grid_view(map)[0].len(),
        paths_inv(grid_view(map), origin, weather, road_mode, source, paths_view(old(paths))),
        paths_view(old(paths))[r2 as int][c2 as int].cost < INFINITY_COST,
        tile_at(grid_view(map), origin, world_at(origin, r2 as int, c2 as int)) is Some,
        tile_at(grid_view(map), origin, world_at(origin, r2 as int, c2 as int)
            ).unwrap().tile_type == TileKind::Teleport(true),
        forall|k: int| 0 <= k < teleports@.len() ==> {
            &&& in_slice(grid_view(map), origin, #[trigger] teleports@[k])
            &&& tile_at(grid_view(map), origin, teleports@[k]) is Some
            &&& tile_at(grid_view(map), origin, teleports@[k]).unwrap().tile_type
                == TileKind::Teleport(true)
        },
    ensures
        settle_frame(grid_view(map), origin, weather, road_mode, source,
            paths_view(old(paths)), paths_view(final(paths))),
        !changed ==> paths_view(final(paths)) == paths_view(old(paths)),
        changed ==> cost_total(paths_view(final(paths)),
            paths_view(final(paths)).len() as int) < cost_total(paths_view(old(paths)),
            paths_view(old(paths)).len() as int),
        !changed ==> (forall|k: int|
            0 <= k < teleports@.len() ==> pm_cost_at(paths_view(final(paths)), origin,
                #[trigger] teleports@[k]) <= paths_view(final(paths))[r2 as int][
            c2 as int].cost + TELEPORT_COST),
{
    let ghost g = grid_view(map);
    let ghost pv0 = paths_view(old(paths));
    let rows = map.len();
    let from_world = Coord::new(origin.row + r2, origin.col + c2);
    proof {
        assert(from_world == world_at(origin, r2 as int, c2 as int));
    }
    let mut changed = false;
    let mut ti: usize = 0;
    while ti < teleports.len()
        invariant
            grid_wf(g),
            g == grid_view(map),
            rows == g.len(),
            origin.row + rows <= MAX_WORLD_DIM,
            origin.col + g[0].len() <= MAX_WORLD_DIM,
            r2 < rows,
            c2 < g[0].len(),
            ti <= teleports@.len(),
            from_world == world_at(origin, r2 as int, c2 as int),
            tile_at(g, origin, from_world) is Some,
            tile_at(g, origin, from_world).unwrap().tile_type == TileKind::Teleport(true),
            forall|k: int| 0 <= k < teleports@.len() ==> {
                &&& in_slice(g, origin, #[trigger] teleports@[k])
                &&& tile_at(g, origin, teleports@[k]) is Some
                &&& tile_at(g, origin, teleports@[k]).unwrap().tile_type
                    == TileKind::Teleport(true)
            },
            paths_inv(g, origin, weather, road_mode, source, pv0),
            settle_frame(g, origin, weather, road_mode, source, pv0, paths_view(&paths)),
            !changed ==> paths_view(&paths) == pv0,
            changed ==> cost_total(paths_view(&paths), paths_view(&paths).len() as int)
                < cost_total(pv0, pv0.len() as int),
            !changed ==> (forall|k: int|
                0 <= k < ti ==> pm_cost_at(pv0, origin, #[trigger] teleports@[k])
                    <= pv0[r2 as int][c2 as int].cost + TELEPORT_COST),
        decreases teleports@.len() - ti,
    {
        let t = teleports[ti];
        match calculate_teleport_cost(map, origin, from_world, t) {
            Ok(w) => {
                proof {
                    assert(world_at(origin, t.row - origin.row, t.col - origin.col) == t);
                    assert(paths_view(&paths)[r2 as int] == paths@[r2 as int]@);
                }
                if paths[r2][c2].cost < INFINITY_COST {
                    let ghost before = paths_view(&paths);
                    let ch = relax(paths, map, origin, weather, road_mode, source, r2, c2,
                        Action::Teleport(t), t.row - origin.row, t.col - origin.col, w);
                    proof {
                        if ch {
                            lemma_cost_total_update(before, paths_view(&paths),
                                t.row - origin.row, t.col - origin.col, rows as int);
                        }
                    }
                    if ch {
                        changed = true;
                    }
                }
            },
            Err(_) => {},
        }
        ti = ti + 1;
    }
    changed
}

/// Relaxes every admissible action out of one cell. Reports whether any
/// destination improved; when nothing improved, the cell is settled with
/// respect to the unchanged matrix.
fn settle_cell(
    paths: &mut Vec<Vec<Path>>,
    map: &Vec<Vec<Option<Tile>>>,
    origin: Coord,
    weather: WeatherKind,
    road_mode: bool,
    source: Coord,
    teleports: &Vec<Coord>,
    r2: usize,
    c2: usize,
) -> (changed: bool)
    requires
        grid_wf(grid_view(map)),
        origin.row + grid_view(map).len() <= MAX_WORLD_DIM,
        origin.col + grid_view(map)[0].len() <= MAX_WORLD_DIM,
        r2 < grid_view(map).len(),
        c2 < grid_view(map)[0].len(),
        paths_inv(grid_view(map), origin, weather, road_mode, source, paths_view(old(paths))),
        forall|k: int| 0 <= k < teleports@.len() ==> {
            &&& in_slice(grid_view(map), origin, #[trigger] teleports@[k])
            &&& tile_at(grid_view(map), origin, teleports@[k]) is Some
            &&& tile_at(grid_view(map), origin, teleports@[k]).unwrap().tile_type
                == TileKind::Teleport(true)
        },
        teleports_complete_upto(grid_view(map), origin, teleports@,
            grid_view(map).len() as int, 0),
    ensures
        settle_frame(grid_view(map), origin, weather, road_mode, source,
            paths_view(old(paths)), paths_view(final(paths))),
        !changed ==> paths_view(final(paths)) == paths_view(old(paths)),
        !changed ==> closure_at(grid_view(map), origin, weather, road_mode,
            paths_view(final(paths)), r2 as int, c2 as int),
        changed ==> cost_total(paths_view(final(paths)),
            paths_view(final(paths)).len() as int) < cost_total(paths_view(old(paths)),
            paths_view(old(paths)).len() as int),
{
    let ghost g = grid_view(map);
    let ghost pv0 = paths_view(old(paths));
    proof {
        assert(g[0] == map@[0]@);
        assert(paths_view(paths)[r2 as int] == paths@[r2 as int]@);
    }
    let d_here = paths[r2][c2].cost;
    if d_here >= INFINITY_COST {
        proof {
            assert(closure_at(g, origin, weather, road_mode, paths_view(paths), r2 as int,
                c2 as int));
        }
        return false;
    }
    let ghost u = world_at(origin, r2 as int, c2 as int);
    let mut changed = false;
    let ch_r = relax_dir(paths, map, origin, weather, road_mode, source, r2, c2,
        Direction::Right);
    if ch_r {
        changed = true;
    }
    let ch_d = relax_dir(paths, map, origin, weather, road_mode, source, r2, c2,
        Direction::Down);
    if ch_d {
        changed = true;
    }
    let ch_l = relax_dir(paths, map, origin, weather, road_mode, source, r2, c2,
        Direction::Left);
    if ch_l {
        changed = true;
    }
    let ch_u = relax_dir(paths, map, origin, weather, road_mode, source, r2, c2,
        Direction::Up);
    if ch_u {
        changed = true;
    }
    proof {
        assert(g[r2 as int] == map@[r2 as int]@);
        assert(g[r2 as int].len() == g[0].len());
    }
    let cur_is_teleport = match map[r2][c2] {
        Some(t) => t.tile_type == TileKind::Teleport(true),
        None => false,
    };
    if cur_is_teleport {
        let ch_t = relax_teleports(paths, map, origin, weather, road_mode, source,
            teleports, r2, c2);
        if ch_t {
            changed = true;
        }
    }
    proof {
        if !changed {
            let pv = paths_view(paths);
            assert(pv == pv0);
            assert forall|a: Action| spec_action_ok(g, origin, u, a) implies pm_cost_at(
                pv,
                origin,
                spec_action_dest(u, a),
            ) <= pv[r2 as int][c2 as int].cost + spec_action_cost(g, origin, weather,
                road_mode, u, a) by {
                match a {
                    Action::Go(d) => {
                        match d {
                            Direction::Right => {
                                assert(!ch_r);
                            },
                            Direction::Down => {
                                assert(!ch_d);
                            },
                            Direction::Left => {
                                assert(!ch_l);
                            },
                            Direction::Up => {
                                assert(!ch_u);
                            },
                        }
                    },
                    Action::Teleport(t) => {
                        assert(tile_at(g, origin, t) is Some && tile_at(g, origin,
                            t).unwrap().tile_type == TileKind::Teleport(true));
                        assert(cur_is_teleport);
                        assert(teleports@.contains(t)) by {
                            assert(world_at(origin, t.row - origin.row, t.col - origin.col)
                                == t);
                        }
                        let k = choose|k: int|
                            0 <= k < teleports@.len() && teleports@[k] == t;
                    },
                }
            }
            assert(closure_at(g, origin, weather, road_mode, pv, r2 as int, c2 as int));
        }
    }
    changed
}

/// Runs relaxation sweeps over the whole slice until none improves any
/// cell: the matrix then satisfies `closure_all`, with every cell's cost
/// only ever lowered. Each improving sweep strictly lowers the matrix
/// total, which bounds the number of sweeps.
fn settle(
    paths: &mut Vec<Vec<Path>>,
    map: &Vec<Vec<Option<Tile>>>,
    origin: Coord,
    weather: WeatherKind,
    road_mode: bool,
    source: Coord,
    teleports: &Vec<Coord>,
)
    requires
        grid_wf(grid_view(map)),
        origin.row + grid_view(map).len() <= MAX_WORLD_DIM,
        origin.col + grid_view(map)[0].len() <= MAX_WORLD_DIM,
        in_slice(grid_view(map), origin, source),
        paths_inv(grid_view(map), origin, weather, road_mode, source, paths_view(old(paths))),
        pm_cost_at(paths_view(old(paths)), origin, source) == 0,
        forall|k: int| 0 <= k < teleports@.len() ==> {
            &&& in_slice(grid_view(map), origin, #[trigger] teleports@[k])
            &&& tile_at(grid_view(map), origin, teleports@[k]) is Some
            &&& tile_at(grid_view(map), origin, teleports@[k]).unwrap().tile_type
                == TileKind::Teleport(true)
        },
        teleports_complete_upto(grid_view(map), origin, teleports@,
            grid_view(map).len() as int, 0),
    ensures
        paths_inv(grid_view(map), origin, weather, road_mode, source, paths_view(final(paths))),
        closure_all(grid_view(map), origin, weather, road_mode, paths_view(final(paths))),
        pm_cost_at(paths_view(final(paths)), origin, source) == 0,
        paths_view(final(paths)).len() == paths_view(old(paths)).len(),
        forall|r: int, c: int|
            0 <= r < paths_view(old(paths)).len() && 0 <= c < paths_view(old(paths))[r].len()
                ==> (#[trigger] paths_view(final(paths))[r][c]).cost <= paths_view(
                old(paths),
            )[r][c].cost,
{
    let ghost g = grid_view(map);
    let rows = map.len();
    let cols = map[0].len();
    let sr = source.row - origin.row;
    let sc = source.col - origin.col;
    proof {
        assert(g[0] == map@[0]@);
        lemma_cost_total_nonneg(paths_view(paths), rows as int);
    }
    loop
        invariant
            grid_wf(g),
            g == grid_view(map),
            rows == g.len(),
            cols == g[0].len(),
            origin.row + rows <= MAX_WORLD_DIM,
            origin.col + cols <= MAX_WORLD_DIM,
            in_slice(g, origin, source),
            sr == source.row - origin.row,
            sc == source.col - origin.col,
            paths_inv(g, origin, weather, road_mode, source, paths_view(&paths)),
            paths_view(&paths)[sr as int][sc as int].cost == 0,
            cost_total(paths_view(&paths), rows as int) >= 0,
            forall|k: int| 0 <= k < teleports@.len() ==> {
                &&& in_slice(g, origin, #[trigger] teleports@[k])
                &&& tile_at(g, origin, teleports@[k]) is Some
                &&& tile_at(g, origin, teleports@[k]).unwrap().tile_type
                    == TileKind::Teleport(true)
            },
            teleports_complete_upto(g, origin, teleports@, rows as int, 0),
            forall|r: int, c: int|
                0 <= r < paths_view(old(paths)).len() && 0 <= c < paths_view(
                    old(paths),
                )[r].len() ==> (#[trigger] paths_view(&paths)[r][c]).cost <= paths_view(
                    old(paths),
                )[r][c].cost,
            paths_view(&paths).len() == paths_view(old(paths)).len(),
            forall|k: int|
                0 <= k < paths_view(old(paths)).len() ==> (#[trigger] paths_view(
                    &paths,
                )[k]).len() == paths_view(old(paths))[k].len(),
        ensures
            paths_inv(g, origin, weather, road_mode, source, paths_view(&paths)),
            closure_all(g, origin, weather, road_mode, paths_view(&paths)),
            paths_view(&paths)[sr as int][sc as int].cost == 0,
            paths_view(&paths).len() == paths_view(old(paths)).len(),
            forall|r: int, c: int|
                0 <= r < paths_view(old(paths)).len() && 0 <= c < paths_view(
                    old(paths),
                )[r].len() ==> (#[trigger] paths_view(&paths)[r][c]).cost <= paths_view(
                    old(paths),
                )[r][c].cost,
        decreases cost_total(paths_view(&paths), rows as int),
    {
        let ghost pv_start = paths_view(&paths);
        let mut changed = false;
        let mut r2: usize = 0;
        while r2 < rows
            invariant
                grid_wf(g),
                g == grid_view(map),
                rows == g.len(),
                cols == g[0].len(),
                origin.row + rows <= MAX_WORLD_DIM,
                origin.col + cols <= MAX_WORLD_DIM,
                in_slice(g, origin, source),
                sr == source.row - origin.row,
                sc == source.col - origin.col,
                r2 <= rows,
                paths_inv(g, origin, weather, road_mode, source, paths_view(&paths)),
                paths_view(&paths)[sr as int][sc as int].cost == 0,
                forall|k: int| 0 <= k < teleports@.len() ==> {
                    &&& in_slice(g, origin, #[trigger] teleports@[k])
                    &&& tile_at(g, origin, teleports@[k]) is Some
                    &&& tile_at(g, origin, teleports@[k]).unwrap().tile_type
                        == TileKind::Teleport(true)
                },
                teleports_complete_upto(g, origin, teleports@, rows as int, 0),
                paths_view(&paths).len() == pv_start.len(),
                forall|k: int|
                    0 <= k < pv_start.len() ==> (#[trigger] paths_view(&paths)[k]).len()
                        == pv_start[k].len(),
                forall|r: int, c: int|
                    0 <= r < pv_start.len() && 0 <= c < pv_start[r].len()
                        ==> (#[trigger] paths_view(&paths)[r][c]).cost
                            <= pv_start[r][c].cost,
                changed ==> cost_total(paths_view(&paths), rows as int) < cost_total(
                    pv_start,
                    rows as int,
                ),
                !changed ==> (paths_view(&paths) == pv_start && closure_upto(g, origin,
                    weather, road_mode, pv_start, r2 as int, 0)),
                forall|r: int, c: int|
                    0 <= r < paths_view(old(paths)).len() && 0 <= c < paths_view(
                        old(paths),
                    )[r].len() ==> (#[trigger] paths_view(&paths)[r][c]).cost <= paths_view(
                        old(paths),
                    )[r][c].cost,
                paths_view(&paths).len() == paths_view(old(paths)).len(),
                forall|k: int|
                    0 <= k < paths_view(old(paths)).len() ==> (#[trigger] paths_view(
                        &paths,
                    )[k]).len() == paths_view(old(paths))[k].len(),
            decreases rows - r2,
        {
            let mut c2: usize = 0;
            while c2 < cols
                invariant
                    grid_wf(g),
                    g == grid_view(map),
                    rows == g.len(),
                    cols == g[0].len(),
                    origin.row + rows <= MAX_WORLD_DIM,
                    origin.col + cols <= MAX_WORLD_DIM,
                    in_slice(g, origin, source),
                    sr == source.row - origin.row,
                    sc == source.col - origin.col,
                    r2 < rows,
                    c2 <= cols,
                    paths_inv(g, origin, weather, road_mode, source, paths_view(&paths)),
                    paths_view(&paths)[sr as int][sc as int].cost == 0,
                    forall|k: int| 0 <= k < teleports@.len() ==> {
                        &&& in_slice(g, origin, #[trigger] teleports@[k])
                        &&& tile_at(g, origin, teleports@[k]) is Some
                        &&& tile_at(g, origin, teleports@[k]).unwrap().tile_type
                            == TileKind::Teleport(true)
                    },
                    teleports_complete_upto(g, origin, teleports@, rows as int, 0),
                    paths_view(&paths).len() == pv_start.len(),
                    forall|k: int|
                        0 <= k < pv_start.len() ==> (#[trigger] paths_view(&paths)[k]).len()
                            == pv_start[k].len(),
                    forall|r: int, c: int|
                        0 <= r < pv_start.len() && 0 <= c < pv_start[r].len()
                            ==> (#[trigger] paths_view(&paths)[r][c]).cost
                                <= pv_start[r][c].cost,
                    changed ==> cost_total(paths_view(&paths), rows as int) < cost_total(
                        pv_start,
                        rows as int,
                    ),
                    !changed ==> (paths_view(&paths) == pv_start && closure_upto(g, origin,
                        weather, road_mode, pv_start, r2 as int, c2 as int)),
                    forall|r: int, c: int|
                        0 <= r < paths_view(old(paths)).len() && 0 <= c < paths_view(
                            old(paths),
                        )[r].len() ==> (#[trigger] paths_view(&paths)[r][c]).cost
                            <= paths_view(old(paths))[r][c].cost,
                    paths_view(&paths).len() == paths_view(old(paths)).len(),
                    forall|k: int|
                        0 <= k < paths_view(old(paths)).len() ==> (#[trigger] paths_view(
                            &paths,
                        )[k]).len() == paths_view(old(paths))[k].len(),
                decreases cols - c2,
            {
                let ghost pv_cell = paths_view(&paths);
                let ch = settle_cell(paths, map, origin, weather, road_mode, source,
                    teleports, r2, c2);
                proof {
                    if ch {
                        if !changed {
                            assert(pv_cell == pv_start);
                        }
                        assert(cost_total(paths_view(&paths), rows as int) < cost_total(
                            pv_cell,
                            rows as int,
                        ));
                    }
                }
                if ch {
                    changed = true;
                }
                proof {
                    if !changed {
                        assert(paths_view(&paths) == pv_start);
                        assert(closure_at(g, origin, weather, road_mode, pv_start,
                            r2 as int, c2 as int));
                        assert forall|ra: int, ca: int|
                            0 <= ra < pv_start.len() && 0 <= ca < pv_start[ra].len() && (ra
                                < r2 as int || (ra == r2 as int && ca < c2 + 1))
                                implies closure_at(g, origin, weather, road_mode, pv_start,
                                ra, ca) by {
                            if !(ra == r2 as int && ca == c2 as int) {
                                assert(closure_upto(g, origin, weather, road_mode,
                                    pv_start, r2 as int, c2 as int));
                            }
                        }
                    }
                }
                c2 = c2 + 1;
            }
            proof {
                if !changed {
                    assert forall|ra: int, ca: int|
                        0 <= ra < pv_start.len() && 0 <= ca < pv_start[ra].len() && (ra < r2
                            + 1 || (ra == r2 + 1 && ca < 0))
                            implies closure_at(g, origin, weather, road_mode, pv_start, ra,
                            ca) by {
                        assert(ra < r2 + 1);
                        if ra == r2 as int {
                            assert(ca < pv_start[ra].len());
                        }
                    }
                }
            }
            r2 = r2 + 1;
        }
        if !changed {
            proof {
                assert(closure_all(g, origin, weather, road_mode, paths_view(&paths)));
            }
            break;
        }
        proof {
            lemma_cost_total_nonneg(paths_view(&paths), rows as int);
        }
    }
}

/// Single-source minimum-cost search over the slice: 4-connected grid steps
/// priced by `spec_step_cost`, plus flat-fare hops between active teleports.
/// `road` switches on the road-planning cost table and adds every tile of the
/// given road to the accepted targets. A returned path starts at `source`,
/// its actions are admissible on the slice, its recorded cost is exactly the
/// sum of the per-action costs, and it ends on a requested target. An empty
/// effective target set or a requested target outside the slice yields
/// `PathNotFound`.
pub fn dijkstra(
    map: &Vec<Vec<Option<Tile>>>,
    origin: Coord,
    weather: WeatherKind,
    source: Coord,
    targets: &Vec<Coord>,
    road: Option<&CoordPool>,
) -> (res: Result<Path, PathError>)
    requires
        grid_wf(grid_view(map)),
        grid_view(map).len() <= MAX_SLICE_DIM,
        grid_view(map)[0].len() <= MAX_SLICE_DIM,
        origin.row + grid_view(map).len() <= MAX_WORLD_DIM,
        origin.col + grid_view(map)[0].len() <= MAX_WORLD_DIM,
        in_slice(grid_view(map), origin, source),
        road is Some ==> road.unwrap().wf(),
    ensures
        ({
            let g = grid_view(map);
            let road_mode = road is Some;
            &&& res is Ok ==> ({
                let p = res->Ok_0;
                &&& p.source == source
                &&& p.cost < INFINITY_COST
                &&& spec_path_ok(g, origin, source, p.actions@)
                &&& spec_path_end(source, p.actions@) == p.destination
                &&& spec_path_cost(g, origin, weather, road_mode, source, p.actions@) == p.cost
                &&& (targets@.contains(p.destination) || (road is Some
                    && road.unwrap()@.contains(p.destination)))
            })
            &&& (targets@.len() == 0 && road is None) ==> res == Err::<Path, PathError>(
                PathError::PathNotFound,
            )
            &&& (exists|i: int|
                0 <= i < targets@.len() && !in_slice(g, origin, #[trigger] targets@[i]))
                ==> res is Err
            &&& res is Ok ==> (forall|acts: Seq<Action>|
                #[trigger] spec_path_ok(g, origin, source, acts) && (targets@.contains(
                    spec_path_end(source, acts),
                ) || (road is Some && road.unwrap()@.contains(
                    spec_path_end(source, acts),
                ))) ==> spec_path_cost(g, origin, weather, road_mode, source, acts) >= (
                res->Ok_0).cost)
            &&& (res is Err && (forall|i: int|
                0 <= i < targets@.len() ==> in_slice(g, origin, #[trigger] targets@[i]))
                && (road is Some ==> (forall|i: int|
                    0 <= i < road.unwrap()@.len() ==> in_slice(g, origin,
                        #[trigger] road.unwrap()@[i])))) ==> (forall|acts: Seq<Action>|
                #[trigger] spec_path_ok(g, origin, source, acts) && (targets@.contains(
                    spec_path_end(source, acts),
                ) || (road is Some && road.unwrap()@.contains(
                    spec_path_end(source, acts),
                ))) ==> spec_path_cost(g, origin, weather, road_mode, source, acts)
                    >= INFINITY_COST)
        }),
{
    let ghost g = grid_view(map);
    let road_mode: bool = match road {
        Some(_) => true,
        None => false,
    };
    let rows = map.len();
    let cols = map[0].len();
    proof {
        assert(g[0] == map@[0]@);
        assert(rows == g.len() && cols == g[0].len());
    }
    let ghost road_seq = if road is Some {
        road.unwrap()@
    } else {
        Seq::<Coord>::empty()
    };
    // The effective target list: the requested targets plus, in road mode,
    // every tile of the given road network.
    let mut all_targets: Vec<Coord> = Vec::new();
    let mut i: usize = 0;
    while i < targets.len()
        invariant
            i <= targets@.len(),
            all_targets@ == targets@.take(i as int),
        decreases targets@.len() - i,
    {
        all_targets.push(targets[i]);
        proof {
            assert(all_targets@ =~= targets@.take(i + 1));
        }
        i = i + 1;
    }
    proof {
        assert(targets@.take(targets@.len() as int) =~= targets@);
    }
    match road {
        Some(rd) => {
            let mut j: usize = 0;
            while j < rd.len()
                invariant
                    j <= rd@.len(),
                    road is Some && road.unwrap()@ == rd@,
                    all_targets@ == targets@ + rd@.take(j as int),
                decreases rd@.len() - j,
            {
                all_targets.push(rd.get(j));
                proof {
                    assert(all_targets@ =~= targets@ + rd@.take(j + 1));
                }
                j = j + 1;
            }
            proof {
                assert(rd@.take(rd@.len() as int) =~= rd@);
            }
        },
        None => {
            proof {
                assert(all_targets@ =~= targets@ + road_seq);
            }
        },
    }
    proof {
        assert(all_targets@ == targets@ + road_seq);
    }
    if all_targets.len() == 0 {
        proof {
            assert(targets@.len() == 0 && road_seq.len() == 0);
            assert forall|acts: Seq<Action>|
                #[trigger] spec_path_ok(g, origin, source, acts) && (targets@.contains(
                    spec_path_end(source, acts),
                ) || (road is Some && road.unwrap()@.contains(spec_path_end(source, acts))))
                implies spec_path_cost(g, origin, weather, road_mode, source, acts)
                    >= INFINITY_COST by {
                let e = spec_path_end(source, acts);
                if targets@.contains(e) {
                    let i = choose|i: int| 0 <= i < targets@.len() && targets@[i] == e;
                    assert(false);
                } else {
                    assert(road is Some && road.unwrap()@.contains(e));
                    let i = choose|i: int|
                        0 <= i < road.unwrap()@.len() && road.unwrap()@[i] == e;
                    assert(road.unwrap()@.len() == road_seq.len());
                    assert(false);
                }
            }
        }
        return Err(PathError::PathNotFound);
    }
    // Cost matrix, all cells unreached, and the list of active teleports.
    let mut paths: Vec<Vec<Path>> = Vec::new();
    let mut teleports: Vec<Coord> = Vec::new();
    let mut r: usize = 0;
    while r < rows
        invariant
            grid_wf(g),
            g == grid_view(map),
            rows == g.len(),
            cols == g[0].len(),
            origin.row + rows <= MAX_WORLD_DIM,
            origin.col + cols <= MAX_WORLD_DIM,
            r <= rows,
            paths@.len() == r,
            forall|k: int| 0 <= k < r ==> (#[trigger] paths@[k]@).len() == cols,
            forall|k: int, l: int|
                0 <= k < r && 0 <= l < cols ==> {
                    &&& (#[trigger] paths@[k]@[l]).cost == INFINITY_COST
                    &&& paths@[k]@[l].source == source
                    &&& paths@[k]@[l].destination == world_at(origin, k, l)
                },
            forall|k: int| 0 <= k < teleports@.len() ==> {
                &&& in_slice(g, origin, #[trigger] teleports@[k])
                &&& tile_at(g, origin, teleports@[k]) is Some
                &&& tile_at(g, origin, teleports@[k]).unwrap().tile_type == TileKind::Teleport(
                    true,
                )
            },
            teleports_complete_upto(g, origin, teleports@, r as int, 0),
        decreases rows - r,
    {
        let mut rowv: Vec<Path> = Vec::new();
        let mut c: usize = 0;
        while c < cols
            invariant
                grid_wf(g),
                g == grid_view(map),
                rows == g.len(),
                cols == g[0].len(),
                origin.row + rows <= MAX_WORLD_DIM,
                origin.col + cols <= MAX_WORLD_DIM,
                r < rows,
                c <= cols,
                rowv@.len() == c,
                forall|l: int| 0 <= l < c ==> {
                    &&& (#[trigger] rowv@[l]).cost == INFINITY_COST
                    &&& rowv@[l].source == source
                    &&& rowv@[l].destination == world_at(origin, r as int, l)
                },
                forall|k: int| 0 <= k < teleports@.len() ==> {
                    &&& in_slice(g, origin, #[trigger] teleports@[k])
                    &&& tile_at(g, origin, teleports@[k]) is Some
                    &&& tile_at(g, origin, teleports@[k]).unwrap().tile_type
                        == TileKind::Teleport(true)
                },
                teleports_complete_upto(g, origin, teleports@, r as int, c as int),
            decreases cols - c,
        {
            rowv.push(Path::new(source, Coord::new(origin.row + r, origin.col + c),
                INFINITY_COST));
            proof {
                assert(g[r as int] == map@[r as int]@);
                assert(g[r as int].len() == g[0].len());
            }
            let ghost tp0 = teleports@;
            match map[r][c] {
                Some(t) => {
                    if t.tile_type == TileKind::Teleport(true) {
                        let w = Coord::new(origin.row + r, origin.col + c);
                        teleports.push(w);
                        proof {
                            assert(w.row - origin.row == r && w.col - origin.col == c);
                            assert(tile_at(g, origin, w) == g[r as int][c as int]);
                            assert(teleports@[teleports@.len() - 1] == w);
                            assert forall|r2: int, c2: int|
                                0 <= r2 < g.len() && 0 <= c2 < g[0].len() && (r2 < r as int
                                    || (r2 == r as int && c2 < c + 1)) && g[r2][c2] is Some
                                    && (#[trigger] g[r2][c2]).unwrap().tile_type
                                    == TileKind::Teleport(true)
                                    implies teleports@.contains(world_at(origin, r2,
                                    c2)) by {
                                if r2 == r as int && c2 == c as int {
                                    assert(teleports@[teleports@.len() - 1] == world_at(
                                        origin, r2, c2));
                                } else {
                                    assert(tp0.contains(world_at(origin, r2, c2)));
                                    let k = choose|k: int|
                                        0 <= k < tp0.len() && tp0[k] == world_at(origin,
                                            r2, c2);
                                    assert(teleports@[k] == world_at(origin, r2, c2));
                                }
                            }
                        }
                    } else {
                        proof {
                            assert(teleports_complete_upto(g, origin, teleports@, r as int,
                                c + 1));
                        }
                    }
                },
                None => {
                    proof {
                        assert(teleports_complete_upto(g, origin, teleports@, r as int,
                            c + 1));
                    }
                },
            }
            c = c + 1;
        }
        proof {
            assert forall|r2: int, c2: int|
                0 <= r2 < g.len() && 0 <= c2 < g[0].len() && (r2 < r + 1 || (r2 == r + 1
                    && c2 < 0)) && g[r2][c2] is Some && (#[trigger] g[r2][
                c2]).unwrap().tile_type == TileKind::Teleport(true)
                    implies teleports@.contains(world_at(origin, r2, c2)) by {
                assert(r2 < r + 1);
                if r2 == r as int {
                    assert(c2 < cols);
                }
            }
        }
        paths.push(rowv);
        r = r + 1;
    }
    // The source starts the search with an empty route of cost zero.
    let sr = source.row - origin.row;
    let sc = source.col - origin.col;
    proof {
        assert(paths_view(&paths)[sr as int] == paths@[sr as int]@);
    }
    paths[sr][sc] = Path::new(source, source, 0);
    proof {
        let pv = paths_view(&paths);
        assert(world_at(origin, sr as int, sc as int) == source);
        assert forall|k: int, l: int|
            0 <= k < pv.len() && 0 <= l < pv[k].len() implies entry_inv(
                g,
                origin,
                weather,
                road_mode,
                source,
                #[trigger] pv[k][l],
                k,
                l,
            ) by {
            assert(pv[k] == paths@[k]@);
            if k == sr && l == sc {
                assert(pv[k][l].cost == 0);
                assert(pv[k][l].actions@.len() == 0);
            } else {
                assert(pv[k][l].cost == INFINITY_COST);
            }
        }
        assert forall|k: int| 0 <= k < pv.len() implies (#[trigger] pv[k]).len() == cols by {
            assert(pv[k] == paths@[k]@);
        }
        assert(paths_inv(g, origin, weather, road_mode, source, pv));
    }
    // Settle the matrix: sweep until no relaxation improves any cell, so the
    // recorded costs are lower bounds for every admissible route.
    settle(&mut paths, map, origin, weather, road_mode, source, &teleports);
    // Among the requested targets, pick the cheapest reached one; a target
    // outside the slice fails the whole request.
    let mut ret_cost: u64 = INFINITY_COST;
    let mut ret_r: usize = 0;
    let mut ret_c: usize = 0;
    let mut k: usize = 0;
    while k < all_targets.len()
        invariant
            k <= all_targets@.len(),
            g == grid_view(map),
            road_mode == (road is Some),
            rows == g.len(),
            cols == g[0].len(),
            origin.row + rows <= MAX_WORLD_DIM,
            origin.col + cols <= MAX_WORLD_DIM,
            in_slice(g, origin, source),
            paths_inv(g, origin, weather, road_mode, source, paths_view(&paths)),
            all_targets@ == targets@ + road_seq,
            road_seq == (if road is Some { road.unwrap()@ } else { Seq::<Coord>::empty() }),
            forall|l: int| 0 <= l < k ==> in_slice(g, origin, #[trigger] all_targets@[l]),
            forall|l: int|
                0 <= l < k ==> ret_cost <= pm_cost_at(paths_view(&paths), origin,
                    #[trigger] all_targets@[l]),
            ret_cost < INFINITY_COST ==> (ret_r < rows && ret_c < cols && paths_view(
                &paths,
            )[ret_r as int][ret_c as int].cost == ret_cost && all_targets@.contains(
                world_at(origin, ret_r as int, ret_c as int),
            )),
        decreases all_targets@.len() - k,
    {
        let t = all_targets[k];
        if t.row < origin.row || t.row >= origin.row + rows || t.col < origin.col || t.col
            >= origin.col + cols {
            proof {
                assert(!in_slice(g, origin, t));
                if (k as int) < targets@.len() {
                    assert(targets@[k as int] == t);
                    assert(!in_slice(g, origin, targets@[k as int]));
                } else {
                    assert(road_seq[k as int - targets@.len()] == t);
                    assert(road_seq.len() > 0);
                    assert(road is Some);
                    assert(road.unwrap()@[k as int - targets@.len()] == t);
                    assert(!in_slice(g, origin, road.unwrap()@[k as int - targets@.len()]));
                }
            }
            return Err(PathError::PathNotFound);
        }
        let tr = t.row - origin.row;
        let tc = t.col - origin.col;
        proof {
            assert(paths_view(&paths)[tr as int] == paths@[tr as int]@);
        }
        if paths[tr][tc].cost < ret_cost {
            ret_cost = paths[tr][tc].cost;
            ret_r = tr;
            ret_c = tc;
            proof {
                assert(world_at(origin, tr as int, tc as int) == t);
                assert(all_targets@[k as int] == t);
            }
        }
        k = k + 1;
    }
    if ret_cost == INFINITY_COST {
        proof {
            let pv = paths_view(&paths);
            assert forall|acts: Seq<Action>|
                #[trigger] spec_path_ok(g, origin, source, acts) && (targets@.contains(
                    spec_path_end(source, acts),
                ) || (road is Some && road.unwrap()@.contains(spec_path_end(source, acts))))
                implies spec_path_cost(g, origin, weather, road_mode, source, acts)
                    >= INFINITY_COST by {
                let t = spec_path_end(source, acts);
                lemma_path_end_in_slice(g, origin, source, acts);
                lemma_closure_bound(g, origin, weather, road_mode, source, pv, acts);
                assert(all_targets@.contains(t)) by {
                    if targets@.contains(t) {
                        let i = choose|i: int|
                            0 <= i < targets@.len() && targets@[i] == t;
                        assert(all_targets@[i] == t);
                    } else {
                        let i = choose|i: int|
                            0 <= i < road_seq.len() && road_seq[i] == t;
                        assert(all_targets@[targets@.len() + i] == t);
                    }
                }
                let l = choose|l: int|
                    0 <= l < all_targets@.len() && all_targets@[l] == t;
                assert(ret_cost <= pm_cost_at(pv, origin, all_targets@[l]));
            }
        }
        return Err(PathError::PathNotFound);
    }
    proof {
        assert(paths_view(&paths)[ret_r as int] == paths@[ret_r as int]@);
        assert(entry_inv(
            g,
            origin,
            weather,
            road_mode,
            source,
            paths_view(&paths)[ret_r as int][ret_c as int],
            ret_r as int,
            ret_c as int,
        ));
    }
    let acts = copy_actions(&paths[ret_r][ret_c].actions);
    let out = Path {
        source: paths[ret_r][ret_c].source,
        destination: paths[ret_r][ret_c].destination,
        actions: acts,
        cost: paths[ret_r][ret_c].cost,
    };
    proof {
        let d = out.destination;
        assert(all_targets@.contains(d));
        let di = choose|l: int| 0 <= l < all_targets@.len() && all_targets@[l] == d;
        if di < targets@.len() {
            assert(targets@[di] == d);
        } else {
            assert(road_seq[di - targets@.len()] == d);
            assert(road.unwrap()@.contains(d));
        }
        assert forall|l: int| 0 <= l < targets@.len() implies in_slice(
            g,
            origin,
            #[trigger] targets@[l],
        ) by {
            assert(all_targets@[l] == targets@[l]);
            assert(in_slice(g, origin, all_targets@[l]));
        }
        let pv = paths_view(&paths);
        assert forall|acts: Seq<Action>|
            #[trigger] spec_path_ok(g, origin, source, acts) && (targets@.contains(
                spec_path_end(source, acts),
            ) || (road is Some && road.unwrap()@.contains(spec_path_end(source, acts))))
            implies spec_path_cost(g, origin, weather, road_mode, source, acts)
                >= out.cost by {
            let t = spec_path_end(source, acts);
            lemma_path_end_in_slice(g, origin, source, acts);
            lemma_closure_bound(g, origin, weather, road_mode, source, pv, acts);
            assert(all_targets@.contains(t)) by {
                if targets@.contains(t) {
                    let i = choose|i: int| 0 <= i < targets@.len() && targets@[i] == t;
                    assert(all_targets@[i] == t);
                } else {
                    let i = choose|i: int| 0 <= i < road_seq.len() && road_seq[i] == t;
                    assert(all_targets@[targets@.len() + i] == t);
                }
            }
            let l = choose|l: int| 0 <= l < all_targets@.len() && all_targets@[l] == t;
            assert(ret_cost <= pm_cost_at(pv, origin, all_targets@[l]));
        }
    }
    Ok(out)
}

/// The observed in-bounds grid neighbors of a slice-local cell, in the
/// order right, down, left, up; exactly those whose tile is known.
pub fn get_adjacent_tiles(map: &Vec<Vec<Option<Tile>>>, tile: Coord) -> (r: Vec<Coord>)
    requires
        grid_wf(grid_view(map)),
        tile.row < grid_view(map).len(),
        tile.col < grid_view(map)[0].len(),
    ensures
        r@.len() <= 4,
        forall|k: int|
            0 <= k < r@.len() ==> {
                let c = #[trigger] r@[k];
                &&& c.row < grid_view(map).len()
                &&& c.col < grid_view(map)[0].len()
                &&& grid_view(map)[c.row as int][c.col as int] is Some
                &&& ((c.row == tile.row && (c.col == tile.col + 1 || c.col + 1 == tile.col))
                    || (c.col == tile.col && (c.row == tile.row + 1 || c.row + 1 == tile.row)))
            },
{
    let ghost g = grid_view(map);
    let rows = map.len();
    let cols = map[0].len();
    let row = tile.row;
    let col = tile.col;
    proof {
        assert(g[row as int] == map@[row as int]@);
        assert(g[row as int].len() == g[0].len());
        if row >= 1 {
            assert(g[row - 1] == map@[row - 1]@);
            assert(g[row - 1].len() == g[0].len());
        }
        if row + 1 < rows {
            assert(g[row + 1] == map@[row + 1]@);
            assert(g[row + 1].len() == g[0].len());
        }
    }
    let mut r: Vec<Coord> = Vec::new();
    if col + 1 < cols && map[row][col + 1].is_some() {
        r.push(Coord::new(row, col + 1));
    }
    if row + 1 < rows && map[row + 1][col].is_some() {
        r.push(Coord::new(row + 1, col));
    }
    if col > 0 && map[row][col - 1].is_some() {
        r.push(Coord::new(row, col - 1));
    }
    if row > 0 && map[row - 1][col].is_some() {
        r.push(Coord::new(row - 1, col));
    }
    r
}

/// The world coordinates a route passes through, one per action, ending at
/// the route's destination.
pub fn path_to_coordinates(path: &Path, map: &Vec<Vec<Option<Tile>>>, origin: Coord) -> (r: Vec<
    Coord,
>)
    requires
        grid_wf(grid_view(map)),
        origin.row + grid_view(map).len() <= MAX_WORLD_DIM,
        origin.col + grid_view(map)[0].len() <= MAX_WORLD_DIM,
        spec_path_ok(grid_view(map), origin, path.source, path.actions@),
        in_slice(grid_view(map), origin, path.source),
    ensures
        r@.len() == path.actions@.len(),
        forall|k: int|
            0 <= k < r@.len() ==> #[trigger] r@[k] == spec_path_end(
                path.source,
                path.actions@.take(k + 1),
            ),
        forall|k: int|
            0 <= k < r@.len() ==> in_slice(grid_view(map), origin, #[trigger] r@[k]),
{
    let ghost g = grid_view(map);
    let mut r: Vec<Coord> = Vec::new();
    let mut cur = path.source;
    let mut k: usize = 0;
    proof {
        assert(path.actions@.take(0) =~= Seq::<Action>::empty());
    }
    while k < path.actions.len()
        invariant
            grid_wf(g),
            g == grid_view(map),
            origin.row + g.len() <= MAX_WORLD_DIM,
            origin.col + g[0].len() <= MAX_WORLD_DIM,
            spec_path_ok(g, origin, path.source, path.actions@),
            in_slice(g, origin, path.source),
            k <= path.actions@.len(),
            r@.len() == k,
            cur == spec_path_end(path.source, path.actions@.take(k as int)),
            in_slice(g, origin, cur),
            forall|l: int|
                0 <= l < r@.len() ==> #[trigger] r@[l] == spec_path_end(
                    path.source,
                    path.actions@.take(l + 1),
                ),
            forall|l: int| 0 <= l < r@.len() ==> in_slice(g, origin, #[trigger] r@[l]),
        decreases path.actions@.len() - k,
    {
        proof {
            lemma_path_prefix_ok(g, origin, path.source, path.actions@, k + 1);
            assert(path.actions@.take(k + 1).drop_last() =~= path.actions@.take(k as int));
            assert(path.actions@.take(k + 1).last() == path.actions@[k as int]);
            assert(spec_action_ok(g, origin, cur, path.actions@[k as int]));
        }
        let a = path.actions[k];
        let next = match a {
            Action::Go(Direction::Up) => Coord::new(cur.row - 1, cur.col),
            Action::Go(Direction::Down) => Coord::new(cur.row + 1, cur.col),
            Action::Go(Direction::Left) => Coord::new(cur.row, cur.col - 1),
            Action::Go(Direction::Right) => Coord::new(cur.row, cur.col + 1),
            Action::Teleport(t) => t,
        };
        proof {
            assert(next == spec_action_dest(cur, a));
            assert(next == spec_path_end(path.source, path.actions@.take(k + 1)));
        }
        r.push(next);
        cur = next;
        k = k + 1;
    }
    r
}

/// Every prefix of an admissible action sequence is admissible.
pub proof fn lemma_path_prefix_ok(
    g: Seq<Seq<Option<Tile>>>,
    origin: Coord,
    source: Coord,
    actions: Seq<Action>,
    k: int,
)
    requires
        spec_path_ok(g, origin, source, actions),
        0 <= k <= actions.len(),
    ensures
        spec_path_ok(g, origin, source, actions.take(k)),
    decreases actions.len() - k,
{
    if k == actions.len() {
        assert(actions.take(k) =~= actions);
    } else {
        lemma_path_prefix_ok(g, origin, source, actions, k + 1);
        assert(actions.take(k + 1).drop_last() =~= actions.take(k));
        assert(spec_path_ok(g, origin, source, actions.take(k + 1)));
    }
}

/// A square window of the map around a center cell, together with the world
/// coordinate of its top-left cell.
pub fn robot_map_slice_n(
    robot_map: &Vec<Vec<Option<Tile>>>,
    center: Coord,
    n: usize,
) -> (r: Option<(Vec<Vec<Option<Tile>>>, Coord)>)
    requires
        grid_wf(grid_view(robot_map)),
        center.row < grid_view(robot_map).len(),
        center.col < grid_view(robot_map)[0].len(),
        n <= MAX_WORLD_DIM,
    ensures
        r is Some,
        ({
            let (s, o) = r.unwrap();
            let g = grid_view(robot_map);
            &&& o.row == if center.row >= n / 2 { (center.row - n / 2) as int } else { 0 }
            &&& o.col == if center.col >= n / 2 { (center.col - n / 2) as int } else { 0 }
            &&& grid_view(&s).len() >= 1
            &&& grid_view(&s)[0].len() >= 1
            &&& grid_view(&s).len() <= n + 1
            &&& grid_view(&s)[0].len() <= n + 1
            &&& o.row + grid_view(&s).len() <= g.len()
            &&& o.col + grid_view(&s)[0].len() <= g[0].len()
            &&& o.row <= center.row < o.row + grid_view(&s).len()
            &&& o.col <= center.col < o.col + grid_view(&s)[0].len()
            &&& forall|i: int|
                0 <= i < grid_view(&s).len() ==> (#[trigger] grid_view(&s)[i]).len()
                    == grid_view(&s)[0].len()
            &&& forall|i: int, j: int|
                0 <= i < grid_view(&s).len() && 0 <= j < grid_view(&s)[i].len()
                    ==> #[trigger] grid_view(&s)[i][j] == g[o.row + i][o.col + j]
        }),
{
    let ghost g = grid_view(robot_map);
    let rows = robot_map.len();
    let cols = robot_map[0].len();
    proof {
        assert(g[0] == robot_map@[0]@);
    }
    let tl = Coord::new(
        if center.row >= n / 2 {
            center.row - n / 2
        } else {
            0
        },
        if center.col >= n / 2 {
            center.col - n / 2
        } else {
            0
        },
    );
    let br_row = if center.row + n / 2 >= rows - 1 {
        rows - 1
    } else {
        center.row + n / 2
    };
    let br_col = if center.col + n / 2 >= cols - 1 {
        cols - 1
    } else {
        center.col + n / 2
    };
    let br = Coord::new(br_row, br_col);
    match crate::utils::robot_map_slice(robot_map, tl, br) {
        Some(s) => Some((s, tl)),
        None => None,
    }
}

/// Plans a route from the agent's position to a destination (or to any
/// observed tile adjacent to it), searching only an n-by-n window of the
/// known map around the agent. A planned route starts at the agent; with
/// `adjacent` off it ends exactly on the destination, with `adjacent` on it
/// ends on one of the destination's observed grid neighbors.
pub fn get_path_to_coordinates(
    map: &Vec<Vec<Option<Tile>>>,
    robot_pos: Coord,
    weather: WeatherKind,
    adjacent: bool,
    destination: Coord,
    n: usize,
) -> (res: Result<Path, PathError>)
    requires
        grid_wf(grid_view(map)),
        robot_pos.row < grid_view(map).len(),
        robot_pos.col < grid_view(map)[0].len(),
        destination.wf(),
        n < MAX_SLICE_DIM,
    ensures
        res is Ok ==> ({
            let p = res->Ok_0;
            &&& p.source == robot_pos
            &&& p.cost < INFINITY_COST
            &&& (!adjacent ==> p.destination == destination)
            &&& (adjacent ==> ((p.destination.row == destination.row && (p.destination.col
                == destination.col + 1 || p.destination.col + 1 == destination.col))
                || (p.destination.col == destination.col && (p.destination.row
                == destination.row + 1 || p.destination.row + 1 == destination.row))))
        }),
{
    let ghost g = grid_view(map);
    let sliced = robot_map_slice_n(map, robot_pos, n);
    let (slice, origin) = match sliced {
        Some(pair) => pair,
        None => {
            return Err(PathError::MapNotVisible);
        },
    };
    let ghost sg = grid_view(&slice);
    proof {
        // the window inherits well-formedness from the map
        assert forall|i: int, j: int|
            0 <= i < sg.len() && 0 <= j < sg[i].len() && sg[i][j] is Some implies (
        #[trigger] sg[i][j]).unwrap().wf() by {
            assert(sg[i][j] == g[origin.row + i][origin.col + j]);
        }
        assert(grid_wf(sg));
    }
    proof {
        assert(in_slice(sg, origin, robot_pos));
    }
    let mut targets: Vec<Coord> = Vec::new();
    if adjacent {
        if destination.row < origin.row || destination.row >= origin.row + slice.len()
            || destination.col < origin.col || destination.col >= origin.col
            + slice[0].len() {
            return Err(PathError::PathNotFound);
        }
        let ghost dl = Coord {
            row: (destination.row - origin.row) as usize,
            col: (destination.col - origin.col) as usize,
        };
        let local = Coord::new(destination.row - origin.row, destination.col - origin.col);
        let adj = get_adjacent_tiles(&slice, local);
        let mut k: usize = 0;
        while k < adj.len()
            invariant
                grid_wf(sg),
                sg == grid_view(&slice),
                origin.row + sg.len() <= MAX_WORLD_DIM,
                origin.col + sg[0].len() <= MAX_WORLD_DIM,
                k <= adj@.len(),
                forall|l: int|
                    0 <= l < adj@.len() ==> {
                        let c = #[trigger] adj@[l];
                        &&& c.row < sg.len()
                        &&& c.col < sg[0].len()
                        &&& ((c.row == dl.row && (c.col == dl.col + 1 || c.col + 1 == dl.col))
                            || (c.col == dl.col && (c.row == dl.row + 1 || c.row + 1
                            == dl.row)))
                    },
                dl.row == destination.row - origin.row,
                dl.col == destination.col - origin.col,
                forall|l: int|
                    0 <= l < targets@.len() ==> {
                        let t = #[trigger] targets@[l];
                        &&& ((t.row == destination.row && (t.col == destination.col + 1
                            || t.col + 1 == destination.col)) || (t.col == destination.col
                            && (t.row == destination.row + 1 || t.row + 1
                            == destination.row)))
                    },
            decreases adj@.len() - k,
        {
            let c = adj[k];
            targets.push(Coord::new(origin.row + c.row, origin.col + c.col));
            k = k + 1;
        }
    } else {
        targets.push(destination);
    }
    let res = dijkstra(&slice, origin, weather, robot_pos, &targets, None);
    match res {
        Ok(p) => {
            proof {
                assert(targets@.contains(p.destination));
                if !adjacent {
                    assert(targets@[0] == destination);
                    assert(targets@.len() == 1);
                    let w = choose|w: int|
                        0 <= w < targets@.len() && targets@[w] == p.destination;
                    assert(w == 0);
                } else {
                    let w = choose|w: int|
                        0 <= w < targets@.len() && targets@[w] == p.destination;
                    assert(targets@[w] == p.destination);
                }
            }
            Ok(p)
        },
        Err(e) => Err(e),
    }
}

} // verus!
