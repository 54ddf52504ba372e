use vstd::prelude::*;
use crate::coord_pool::CoordPool;
use crate::pathfinder::{dijkstra, in_slice, lemma_path_end_in_slice, lemma_path_prefix_ok,
    path_to_coordinates, spec_action_dest, spec_action_ok, spec_go_dest, spec_path_cost,
    spec_path_end, spec_path_ok, Action, INFINITY_COST, MAX_SLICE_DIM};
use crate::tiles::{ContentKind, Direction, Tile, TileKind, WeatherKind};
use crate::utils::{grid_view, grid_wf, Coord, Mission, MissionData, MissionKind,
    MissionStatus};

verus! {

/// The paving work-list of one Road-Builder mission.
pub struct RoadBuilderData {
    pub to_pave: CoordPool,
    pub paved: CoordPool,
}

/// Failures a road-builder activation can report.
#[derive(Clone, Copy, Debug, PartialEq, Eq, Structural)]
pub enum RoadBuilderError {
    NotEnoughEnergy,
    NotEnoughMaterial,
    CannotGetMaterial,
    RoadNonAccessible,
    CannotPaveTile,
}

/// What the paving actuator reported for one placement attempt.
#[derive(Clone, Copy, Debug, PartialEq, Eq, Structural)]
pub enum PaveOutcome {
    Paved,
    CannotPlaceHere,
    MustDestroyContentFirst,
    NoMaterial,
    NotEnoughMaterial,
    NotEnoughEnergy,
    Other,
}

/// The recovery the controller decides on after one placement attempt.
#[derive(Clone, Copy, Debug, PartialEq, Eq, Structural)]
pub enum PaveDecision {
    Done,
    SkipTile,
    DestroyContent,
    CollectMaterial,
    PauseLowEnergy,
    MountainPlacement,
    Fault,
}

/// Wraps a freshly planned connection as a paused Road-Builder mission whose
/// work-list holds exactly the path's tiles.
pub fn new_road_builder(path: &Vec<Coord>) -> (r: Mission)
    requires
        forall|k: int| 0 <= k < path@.len() ==> (#[trigger] path@[k]).wf(),
    ensures
        r.kind == MissionKind::RoadBuilder,
        r.status == MissionStatus::Paused,
        r.additional_data matches MissionData::RoadBuilder(d) && d.to_pave.wf()
            && d.paved.wf() && d.paved@.len() == 0 && (forall|c: Coord|
            #[trigger] d.to_pave@.contains(c) <==> path@.contains(c)),
{
    let mut to_pave = CoordPool::new();
    let mut k: usize = 0;
    while k < path.len()
        invariant
            forall|l: int| 0 <= l < path@.len() ==> (#[trigger] path@[l]).wf(),
            k <= path@.len(),
            to_pave.wf(),
            forall|c: Coord|
                #[trigger] to_pave@.contains(c) <==> path@.take(k as int).contains(c),
        decreases path@.len() - k,
    {
        let ghost before = to_pave@;
        to_pave.insert(path[k]);
        proof {
            assert forall|c: Coord| #[trigger] to_pave@.contains(c) implies path@.take(
                k + 1,
            ).contains(c) by {
                if c == path@[k as int] {
                    assert(path@.take(k + 1)[k as int] == c);
                } else {
                    assert(before.contains(c));
                    let w = choose|w: int|
                        0 <= w < path@.take(k as int).len() && (#[trigger] path@.take(
                            k as int,
                        )[w]) == c;
                    assert(path@.take(k + 1)[w] == c);
                }
            }
            assert forall|c: Coord| path@.take(k + 1).contains(c)
                implies #[trigger] to_pave@.contains(c) by {
                let w = choose|w: int|
                    0 <= w < path@.take(k + 1).len() && (#[trigger] path@.take(k + 1)[w]) == c;
                if w < k {
                    assert(path@.take(k as int)[w] == c);
                }
            }
        }
        k = k + 1;
    }
    proof {
        assert(path@.take(path@.len() as int) =~= path@);
    }
    Mission {
        kind: MissionKind::RoadBuilder,
        status: MissionStatus::Paused,
        additional_data: MissionData::RoadBuilder(
            RoadBuilderData { to_pave, paved: CoordPool::new() },
        ),
    }
}

/// The cell one step away in a direction.
pub fn direction_to_coordinate(coord: Coord, direction: Direction) -> (r: Coord)
    requires
        coord.wf(),
        direction == Direction::Up ==> coord.row >= 1,
        direction == Direction::Left ==> coord.col >= 1,
    ensures
        r == spec_go_dest(coord, direction),
{
    match direction {
        Direction::Up => Coord::new(coord.row - 1, coord.col),
        Direction::Down => Coord::new(coord.row + 1, coord.col),
        Direction::Left => Coord::new(coord.row, coord.col - 1),
        Direction::Right => Coord::new(coord.row, coord.col + 1),
    }
}

/// Two plan tiles are linked when one admissible action of the whole-map
/// slice leads from the first to the second: a grid step onto walkable
/// ground, or a hop between two active teleports.
pub open spec fn spec_plan_linked(g: Seq<Seq<Option<Tile>>>, a: Coord, b: Coord) -> bool {
    exists|act: Action|
        spec_action_ok(g, Coord { row: 0, col: 0 }, a, act) && #[trigger] spec_action_dest(
            a,
            act,
        ) == b
}

/// Each step of an admissible route is an admissible action taken at the
/// route's position before it.
proof fn lemma_route_step(
    g: Seq<Seq<Option<Tile>>>,
    origin: Coord,
    source: Coord,
    acts: Seq<Action>,
    k: int,
)
    requires
        spec_path_ok(g, origin, source, acts),
        0 <= k < acts.len(),
    ensures
        spec_action_ok(g, origin, spec_path_end(source, acts.take(k)), acts[k]),
        spec_path_end(source, acts.take(k + 1)) == spec_action_dest(
            spec_path_end(source, acts.take(k)),
            acts[k],
        ),
{
    lemma_path_prefix_ok(g, origin, source, acts, k + 1);
    assert(acts.take(k + 1).drop_last() =~= acts.take(k));
    assert(acts.take(k + 1).last() == acts[k]);
}

/// Manhattan distance between two coordinates.
pub open spec fn spec_manhattan(a: Coord, b: Coord) -> int {
    (if a.row >= b.row {
        a.row - b.row
    } else {
        b.row - a.row
    }) + (if a.col >= b.col {
        a.col - b.col
    } else {
        b.col - a.col
    })
}

/// The two most mutually distant nodes by Manhattan distance; when every
/// pair coincides the zero coordinate pair is reported, exactly as a search
/// that never improves on a zero best distance would.
pub fn get_2_furthest_nodes(nodes: &Vec<Coord>) -> (r: (Coord, Coord))
    requires
        forall|k: int| 0 <= k < nodes@.len() ==> (#[trigger] nodes@[k]).wf(),
    ensures
        forall|i: int, j: int|
            0 <= i < nodes@.len() && 0 <= j < nodes@.len() ==> spec_manhattan(
                #[trigger] nodes@[i],
                #[trigger] nodes@[j],
            ) <= spec_manhattan(r.0, r.1),
        spec_manhattan(r.0, r.1) > 0 ==> nodes@.contains(r.0) && nodes@.contains(r.1),
        spec_manhattan(r.0, r.1) == 0 ==> r.0 == (Coord { row: 0, col: 0 }) && r.1 == (Coord {
            row: 0,
            col: 0,
        }),
{
    let mut max_distance: u64 = 0;
    let mut node1 = Coord::new(0, 0);
    let mut node2 = Coord::new(0, 0);
    let mut i: usize = 0;
    while i < nodes.len()
        invariant
            forall|k: int| 0 <= k < nodes@.len() ==> (#[trigger] nodes@[k]).wf(),
            i <= nodes@.len(),
            max_distance <= 4000000,
            forall|a: int, b: int|
                0 <= a < i && 0 <= b < nodes@.len() ==> spec_manhattan(
                    #[trigger] nodes@[a],
                    #[trigger] nodes@[b],
                ) <= max_distance,
            max_distance > 0 ==> nodes@.contains(node1) && nodes@.contains(node2)
                && spec_manhattan(node1, node2) == max_distance,
            max_distance == 0 ==> node1 == (Coord { row: 0, col: 0 }) && node2 == (Coord {
                row: 0,
                col: 0,
            }),
        decreases nodes@.len() - i,
    {
        let n1 = nodes[i];
        let mut j: usize = 0;
        while j < nodes.len()
            invariant
                forall|k: int| 0 <= k < nodes@.len() ==> (#[trigger] nodes@[k]).wf(),
                i < nodes@.len(),
                j <= nodes@.len(),
                n1 == nodes@[i as int],
                max_distance <= 4000000,
                forall|a: int, b: int|
                    0 <= a < i && 0 <= b < nodes@.len() ==> spec_manhattan(
                        #[trigger] nodes@[a],
                        #[trigger] nodes@[b],
                    ) <= max_distance,
                forall|b: int|
                    0 <= b < j ==> spec_manhattan(nodes@[i as int], #[trigger] nodes@[b])
                        <= max_distance,
                max_distance > 0 ==> nodes@.contains(node1) && nodes@.contains(node2)
                    && spec_manhattan(node1, node2) == max_distance,
                max_distance == 0 ==> node1 == (Coord { row: 0, col: 0 }) && node2 == (Coord {
                    row: 0,
                    col: 0,
                }),
            decreases nodes@.len() - j,
        {
            let n2 = nodes[j];
            let dr: u64 = if n1.row >= n2.row {
                (n1.row - n2.row) as u64
            } else {
                (n2.row - n1.row) as u64
            };
            let dc: u64 = if n1.col >= n2.col {
                (n1.col - n2.col) as u64
            } else {
                (n2.col - n1.col) as u64
            };
            let distance = dr + dc;
            if distance > max_distance {
                max_distance = distance;
                node1 = n1;
                node2 = n2;
            }
            j = j + 1;
        }
        i = i + 1;
    }
    (node1, node2)
}

/// Plans the cheapest road-mode connection from one node to another over the
/// whole known map; an unreachable pair yields an empty plan. A non-empty
/// plan ends on the target node.
pub fn plan_node_2_node(
    map: &Vec<Vec<Option<Tile>>>,
    weather: WeatherKind,
    node1: Coord,
    node2: Coord,
) -> (r: Vec<Coord>)
    requires
        grid_wf(grid_view(map)),
        grid_view(map).len() <= MAX_SLICE_DIM,
        grid_view(map)[0].len() <= MAX_SLICE_DIM,
        in_slice(grid_view(map), Coord { row: 0, col: 0 }, node1),
        node2.wf(),
    ensures
        forall|k: int|
            0 <= k < r@.len() ==> (#[trigger] r@[k]).wf() && r@[k].row < grid_view(map).len()
                && r@[k].col < grid_view(map)[0].len(),
        r@.len() > 0 ==> r@[r@.len() - 1] == node2,
        // consecutive plan tiles are one admissible action apart, the first
        // one admissible from the starting node
        r@.len() > 0 ==> spec_plan_linked(grid_view(map), node1, r@[0]),
        forall|k: int|
            0 <= k < r@.len() - 1 ==> spec_plan_linked(grid_view(map), #[trigger] r@[k],
                r@[k + 1]),
        // a reachable distinct target yields a non-empty plan
        (crate::pathfinder::tile_at(grid_view(map), Coord { row: 0, col: 0 }, node1) is Some
            && node2 != node1 && (exists|acts: Seq<Action>|
            #[trigger] spec_path_ok(grid_view(map), Coord { row: 0, col: 0 }, node1, acts)
                && spec_path_end(node1, acts) == node2 && spec_path_cost(
                grid_view(map),
                Coord { row: 0, col: 0 },
                weather,
                true,
                node1,
                acts,
            ) < INFINITY_COST)) ==> r@.len() > 0,
{
    let ghost g = grid_view(map);
    let ghost origin = Coord { row: 0, col: 0 };
    let mut targets: Vec<Coord> = Vec::new();
    targets.push(node2);
    let mut road = CoordPool::new();
    road.insert(node2);
    let origin_exec = Coord::new(0, 0);
    if map[node1.row][node1.col].is_none() {
        return Vec::new();
    }
    proof {
        assert(grid_view(map)[node1.row as int] == map@[node1.row as int]@);
        assert(crate::pathfinder::tile_at(grid_view(map), origin, node1) is Some);
    }
    let res = dijkstra(map, origin_exec, weather, node1, &targets, Some(&road));
    match res {
        Ok(path) => {
            let coords = path_to_coordinates(&path, map, origin_exec);
            proof {
                let acts = path.actions@;
                if coords@.len() > 0 {
                    assert(acts.take(acts.len() as int) =~= acts);
                    assert(coords@[coords@.len() - 1] == path.destination);
                    assert(targets@.contains(path.destination) ==> path.destination == node2);
                    if road@.contains(path.destination) {
                        assert(path.destination == node2);
                    }
                    assert(acts.take(0) =~= Seq::<Action>::empty());
                    lemma_route_step(g, origin, node1, acts, 0);
                    assert(coords@[0] == spec_path_end(node1, acts.take(1)));
                    assert(spec_plan_linked(g, node1, coords@[0])) by {
                        assert(spec_action_ok(g, origin, node1, acts[0])
                            && spec_action_dest(node1, acts[0]) == coords@[0]);
                    }
                }
                assert forall|k: int| 0 <= k < coords@.len() implies (
                #[trigger] coords@[k]).wf() by {
                    assert(in_slice(grid_view(map), origin, coords@[k]));
                }
                assert forall|k: int| 0 <= k < coords@.len() - 1 implies spec_plan_linked(
                    g,
                    #[trigger] coords@[k],
                    coords@[k + 1],
                ) by {
                    lemma_route_step(g, origin, node1, acts, k + 1);
                    assert(coords@[k] == spec_path_end(node1, acts.take(k + 1)));
                    assert(coords@[k + 1] == spec_path_end(node1, acts.take(k + 2)));
                    assert(spec_action_ok(g, origin, coords@[k], acts[k + 1])
                        && spec_action_dest(coords@[k], acts[k + 1]) == coords@[k + 1]);
                }
                // completeness: an empty plan here would mean the route had no
                // actions, making the destination the distinct starting node
                if coords@.len() == 0 {
                    assert(acts.len() == 0);
                    assert(path.destination == spec_path_end(node1, acts));
                    assert(path.destination == node1);
                    if targets@.contains(path.destination) {
                        assert(path.destination == node2);
                    } else {
                        assert(road@.contains(path.destination));
                        assert(path.destination == node2);
                    }
                    assert(node1 == node2);
                }
            }
            coords
        },
        Err(_) => {
            proof {
                if crate::pathfinder::tile_at(g, origin, node1) is Some && node2 != node1
                    && (exists|acts: Seq<Action>|
                    #[trigger] spec_path_ok(g, origin, node1, acts) && spec_path_end(
                        node1,
                        acts,
                    ) == node2 && spec_path_cost(g, origin, weather, true, node1, acts)
                        < INFINITY_COST) {
                    let acts = choose|acts: Seq<Action>|
                        #[trigger] spec_path_ok(g, origin, node1, acts) && spec_path_end(
                            node1,
                            acts,
                        ) == node2 && spec_path_cost(g, origin, weather, true, node1, acts)
                            < INFINITY_COST;
                    lemma_path_end_in_slice(g, origin, node1, acts);
                    assert(in_slice(g, origin, node2));
                    assert forall|i: int| 0 <= i < targets@.len() implies in_slice(g,
                        origin, #[trigger] targets@[i]) by {
                        assert(targets@[i] == node2);
                    }
                    assert forall|i: int| 0 <= i < road@.len() implies in_slice(g, origin,
                        #[trigger] road@[i]) by {
                        assert(road@.contains(road@[i]));
                        assert(road@[i] == node2);
                    }
                    assert(targets@.contains(node2)) by {
                        assert(targets@[0] == node2);
                    }
                    assert(spec_path_cost(g, origin, weather, true, node1, acts)
                        >= INFINITY_COST);
                    assert(false);
                }
            }
            Vec::new()
        },
    }
}

/// Plans the cheapest road-mode connection from a node to any tile of an
/// existing road network; a non-empty plan ends on a road tile.
pub fn plan_node_2_road(
    map: &Vec<Vec<Option<Tile>>>,
    weather: WeatherKind,
    node1: Coord,
    road: &CoordPool,
) -> (r: Vec<Coord>)
    requires
        grid_wf(grid_view(map)),
        grid_view(map).len() <= MAX_SLICE_DIM,
        grid_view(map)[0].len() <= MAX_SLICE_DIM,
        in_slice(grid_view(map), Coord { row: 0, col: 0 }, node1),
        road.wf(),
    ensures
        forall|k: int|
            0 <= k < r@.len() ==> (#[trigger] r@[k]).wf() && r@[k].row < grid_view(map).len()
                && r@[k].col < grid_view(map)[0].len(),
        r@.len() > 0 ==> road@.contains(r@[r@.len() - 1]),
        r@.len() > 0 ==> spec_plan_linked(grid_view(map), node1, r@[0]),
        forall|k: int|
            0 <= k < r@.len() - 1 ==> spec_plan_linked(grid_view(map), #[trigger] r@[k],
                r@[k + 1]),
        // a node off an in-slice network with any finite-cost route onto it
        // yields a non-empty plan
        (crate::pathfinder::tile_at(grid_view(map), Coord { row: 0, col: 0 }, node1) is Some
            && !road@.contains(node1) && (forall|i: int|
            0 <= i < road@.len() ==> in_slice(grid_view(map), Coord { row: 0, col: 0 },
                #[trigger] road@[i])) && (exists|acts: Seq<Action>|
            #[trigger] spec_path_ok(grid_view(map), Coord { row: 0, col: 0 }, node1, acts)
                && road@.contains(spec_path_end(node1, acts)) && spec_path_cost(
                grid_view(map),
                Coord { row: 0, col: 0 },
                weather,
                true,
                node1,
                acts,
            ) < INFINITY_COST)) ==> r@.len() > 0,
{
    let ghost g = grid_view(map);
    let ghost origin = Coord { row: 0, col: 0 };
    let targets: Vec<Coord> = Vec::new();
    let origin_exec = Coord::new(0, 0);
    if map[node1.row][node1.col].is_none() {
        return Vec::new();
    }
    proof {
        assert(grid_view(map)[node1.row as int] == map@[node1.row as int]@);
        assert(crate::pathfinder::tile_at(grid_view(map), origin, node1) is Some);
    }
    let res = dijkstra(map, origin_exec, weather, node1, &targets, Some(road));
    proof {
        if !road@.contains(node1) && (forall|i: int|
            0 <= i < road@.len() ==> in_slice(g, origin, #[trigger] road@[i])) && (
        exists|acts: Seq<Action>|
            #[trigger] spec_path_ok(g, origin, node1, acts) && road@.contains(
                spec_path_end(node1, acts),
            ) && spec_path_cost(g, origin, weather, true, node1, acts) < INFINITY_COST) {
            let acts = choose|acts: Seq<Action>|
                #[trigger] spec_path_ok(g, origin, node1, acts) && road@.contains(
                    spec_path_end(node1, acts),
                ) && spec_path_cost(g, origin, weather, true, node1, acts) < INFINITY_COST;
            if res is Err {
                assert(spec_path_cost(g, origin, weather, true, node1, acts)
                    >= INFINITY_COST);
                assert(false);
            }
        }
    }
    match res {
        Ok(path) => {
            let coords = path_to_coordinates(&path, map, origin_exec);
            proof {
                let acts = path.actions@;
                if coords@.len() > 0 {
                    assert(acts.take(acts.len() as int) =~= acts);
                    assert(coords@[coords@.len() - 1] == path.destination);
                    assert(acts.take(0) =~= Seq::<Action>::empty());
                    lemma_route_step(g, origin, node1, acts, 0);
                    assert(coords@[0] == spec_path_end(node1, acts.take(1)));
                    assert(spec_plan_linked(g, node1, coords@[0])) by {
                        assert(spec_action_ok(g, origin, node1, acts[0])
                            && spec_action_dest(node1, acts[0]) == coords@[0]);
                    }
                }
                assert forall|k: int| 0 <= k < coords@.len() implies (
                #[trigger] coords@[k]).wf() by {
                    assert(in_slice(grid_view(map), origin, coords@[k]));
                }
                assert forall|k: int| 0 <= k < coords@.len() - 1 implies spec_plan_linked(
                    g,
                    #[trigger] coords@[k],
                    coords@[k + 1],
                ) by {
                    lemma_route_step(g, origin, node1, acts, k + 1);
                    assert(coords@[k] == spec_path_end(node1, acts.take(k + 1)));
                    assert(coords@[k + 1] == spec_path_end(node1, acts.take(k + 2)));
                    assert(spec_action_ok(g, origin, coords@[k], acts[k + 1])
                        && spec_action_dest(coords@[k], acts[k + 1]) == coords@[k + 1]);
                }
            }
            proof {
                // completeness: an empty plan would put the distinct node on
                // the network itself
                if coords@.len() == 0 && !road@.contains(node1) {
                    let acts = path.actions@;
                    assert(acts.len() == 0);
                    assert(path.destination == spec_path_end(node1, acts));
                    assert(path.destination == node1);
                    assert(targets@.len() == 0);
                    assert(!targets@.contains(path.destination));
                    assert(road@.contains(path.destination));
                    assert(false);
                }
            }
            coords
        },
        Err(_) => Vec::new(),
    }
}

/// Whether the local road tile at position `l` is off the global network,
/// observed, in the slice, and joined to the global network by some
/// finite-cost road-mode route: such a tile guarantees a connection.
pub open spec fn spec_global_hook(
    g: Seq<Seq<Option<Tile>>>,
    weather: WeatherKind,
    road: Seq<Coord>,
    global: Seq<Coord>,
    l: int,
) -> bool {
    &&& 0 <= l < road.len()
    &&& in_slice(g, Coord { row: 0, col: 0 }, road[l])
    &&& crate::pathfinder::tile_at(g, Coord { row: 0, col: 0 }, road[l]) is Some
    &&& !global.contains(road[l])
    &&& (exists|acts: Seq<Action>|
        #[trigger] spec_path_ok(g, Coord { row: 0, col: 0 }, road[l], acts)
            && global.contains(spec_path_end(road[l], acts)) && spec_path_cost(
            g,
            Coord { row: 0, col: 0 },
            weather,
            true,
            road[l],
            acts,
        ) < INFINITY_COST)
}

/// Plans the shortest connection from any tile of a local road network to
/// the global road; the shortest non-empty candidate wins.
pub fn plan_road_2_global(
    map: &Vec<Vec<Option<Tile>>>,
    weather: WeatherKind,
    road: &CoordPool,
    global_road: &CoordPool,
) -> (r: Vec<Coord>)
    requires
        grid_wf(grid_view(map)),
        grid_view(map).len() <= MAX_SLICE_DIM,
        grid_view(map)[0].len() <= MAX_SLICE_DIM,
        road.wf(),
        global_road.wf(),
    ensures
        forall|k: int|
            0 <= k < r@.len() ==> (#[trigger] r@[k]).wf() && r@[k].row < grid_view(map).len()
                && r@[k].col < grid_view(map)[0].len(),
        r@.len() > 0 ==> global_road@.contains(r@[r@.len() - 1]),
        r@.len() > 0 ==> (exists|n: Coord|
            road@.contains(n) && #[trigger] spec_plan_linked(grid_view(map), n, r@[0])),
        forall|k: int|
            0 <= k < r@.len() - 1 ==> spec_plan_linked(grid_view(map), #[trigger] r@[k],
                r@[k + 1]),
        // some local tile off the in-slice global network with a finite-cost
        // route onto it yields a non-empty connection
        ((forall|i: int|
            0 <= i < global_road@.len() ==> in_slice(grid_view(map), Coord { row: 0, col: 0 },
                #[trigger] global_road@[i])) && (exists|l: int|
            #[trigger] spec_global_hook(grid_view(map), weather, road@, global_road@, l)))
            ==> r@.len() > 0,
{
    let ghost g = grid_view(map);
    let ghost origin = Coord { row: 0, col: 0 };
    let mut ret: Vec<Coord> = Vec::new();
    let mut k: usize = 0;
    while k < road.len()
        invariant
            grid_wf(grid_view(map)),
            grid_view(map).len() <= MAX_SLICE_DIM,
            grid_view(map)[0].len() <= MAX_SLICE_DIM,
            road.wf(),
            global_road.wf(),
            k <= road@.len(),
            forall|l: int|
                0 <= l < ret@.len() ==> (#[trigger] ret@[l]).wf() && ret@[l].row < grid_view(
                    map,
                ).len() && ret@[l].col < grid_view(map)[0].len(),
            ret@.len() > 0 ==> global_road@.contains(ret@[ret@.len() - 1]),
            ret@.len() > 0 ==> (exists|n: Coord|
                road@.contains(n) && #[trigger] spec_plan_linked(grid_view(map), n,
                    ret@[0])),
            forall|l: int|
                0 <= l < ret@.len() - 1 ==> spec_plan_linked(grid_view(map),
                    #[trigger] ret@[l], ret@[l + 1]),
            ((forall|i: int|
                0 <= i < global_road@.len() ==> in_slice(grid_view(map),
                    Coord { row: 0, col: 0 }, #[trigger] global_road@[i])) && (exists|l: int|
                l < k && #[trigger] spec_global_hook(grid_view(map), weather, road@,
                    global_road@, l))) ==> ret@.len() > 0,
            g == grid_view(map),
            origin == (Coord { row: 0, col: 0 }),
        decreases road@.len() - k,
    {
        let node = road.get(k);
        proof {
            assert(road@[k as int].wf());
        }
        if node.row < map.len() {
            proof {
                assert(grid_view(map)[node.row as int] == map@[node.row as int]@);
                assert(grid_view(map)[node.row as int].len() == grid_view(map)[0].len());
            }
            if node.col < map[node.row].len() {
                let path1 = plan_node_2_road(map, weather, node, global_road);
                proof {
                    if spec_global_hook(g, weather, road@, global_road@, k as int) && (
                    forall|i: int|
                        0 <= i < global_road@.len() ==> in_slice(g, origin,
                            #[trigger] global_road@[i])) {
                        assert(path1@.len() > 0);
                    }
                }
                if (path1.len() < ret.len() && path1.len() > 0) || ret.len() == 0 {
                    if path1.len() > 0 {
                        ret = path1;
                        proof {
                            assert(road@.contains(node));
                            assert(spec_plan_linked(grid_view(map), node, ret@[0]));
                        }
                    }
                }
            }
        }
        proof {
            if (forall|i: int|
                0 <= i < global_road@.len() ==> in_slice(g, origin,
                    #[trigger] global_road@[i])) && (exists|l: int|
                l < k + 1 && #[trigger] spec_global_hook(g, weather, road@, global_road@,
                    l)) {
                let l = choose|l: int|
                    l < k + 1 && #[trigger] spec_global_hook(g, weather, road@, global_road@,
                        l);
                if l == k {
                    assert(in_slice(g, origin, road@[k as int]));
                    assert(ret@.len() > 0);
                }
            }
        }
        k = k + 1;
    }
    ret
}

/// Whether a plan tile sits on water, which is traversable without paving.
pub open spec fn spec_is_water(g: Seq<Seq<Option<Tile>>>, c: Coord) -> bool {
    g[c.row as int][c.col as int] is Some && (g[c.row as int][c.col as int].unwrap().tile_type
        == TileKind::ShallowWater || g[c.row as int][c.col as int].unwrap().tile_type
        == TileKind::DeepWater)
}

/// Strips leading and trailing water tiles off a planned connection: water
/// is traversable without paving, so the queued work starts and ends on dry
/// ground. The result is the contiguous middle stretch of the plan left
/// after removing exactly the water entries at its two ends.
pub fn shrink_path(path: &mut Vec<Coord>, map: &Vec<Vec<Option<Tile>>>)
    requires
        grid_wf(grid_view(map)),
        forall|k: int|
            0 <= k < old(path)@.len() ==> (#[trigger] old(path)@[k]).row < grid_view(map).len()
                && old(path)@[k].col < grid_view(map)[0].len(),
    ensures
        exists|a: int, b: int|
            {
                &&& 0 <= a <= b <= old(path)@.len()
                &&& final(path)@ == old(path)@.subrange(a, b)
                &&& (forall|i: int| 0 <= i < a ==> spec_is_water(grid_view(map),
                    #[trigger] old(path)@[i]))
                &&& (forall|i: int| b <= i < old(path)@.len() ==> spec_is_water(
                    grid_view(map), #[trigger] old(path)@[i]))
                &&& (a < b ==> !spec_is_water(grid_view(map), old(path)@[a])
                    && !spec_is_water(grid_view(map), old(path)@[b - 1]))
            },
{
    let ghost g = grid_view(map);
    let ghost orig = path@;
    proof {
        assert(orig == orig.subrange(0, orig.len() as int));
    }
    loop
        invariant
            grid_wf(g),
            g == grid_view(map),
            forall|k: int|
                0 <= k < orig.len() ==> (#[trigger] orig[k]).row < g.len() && orig[k].col
                    < g[0].len(),
            exists|a: int, b: int|
                {
                    &&& 0 <= a <= b <= orig.len()
                    &&& path@ == orig.subrange(a, b)
                    &&& (forall|i: int| 0 <= i < a ==> spec_is_water(g, #[trigger] orig[i]))
                    &&& (forall|i: int| b <= i < orig.len() ==> spec_is_water(g,
                        #[trigger] orig[i]))
                },
        ensures
            exists|a: int, b: int|
                {
                    &&& 0 <= a <= b <= orig.len()
                    &&& path@ == orig.subrange(a, b)
                    &&& (forall|i: int| 0 <= i < a ==> spec_is_water(g, #[trigger] orig[i]))
                    &&& (forall|i: int| b <= i < orig.len() ==> spec_is_water(g,
                        #[trigger] orig[i]))
                    &&& (a < b ==> !spec_is_water(g, orig[a]) && !spec_is_water(g,
                        orig[b - 1]))
                },
        decreases path@.len(),
    {
        if path.len() == 0 {
            proof {
                let (a3, b3) = choose|a: int, b: int|
                    {
                        &&& 0 <= a <= b <= orig.len()
                        &&& path@ == orig.subrange(a, b)
                        &&& (forall|i: int| 0 <= i < a ==> spec_is_water(g,
                            #[trigger] orig[i]))
                        &&& (forall|i: int| b <= i < orig.len() ==> spec_is_water(g,
                            #[trigger] orig[i]))
                    };
                assert(a3 == b3);
            }
            break;
        }
        let ghost cur = path@;
        let ghost (a0, b0) = choose|a: int, b: int|
            {
                &&& 0 <= a <= b <= orig.len()
                &&& cur == orig.subrange(a, b)
                &&& (forall|i: int| 0 <= i < a ==> spec_is_water(g, #[trigger] orig[i]))
                &&& (forall|i: int| b <= i < orig.len() ==> spec_is_water(g,
                    #[trigger] orig[i]))
            };
        let head = path[0];
        let tail = path[path.len() - 1];
        proof {
            assert(cur[0] == orig[a0]);
            assert(cur[cur.len() - 1] == orig[b0 - 1]);
            assert(head.row < g.len() && head.col < g[0].len());
            assert(tail.row < g.len() && tail.col < g[0].len());
            assert(g[head.row as int] == map@[head.row as int]@);
            assert(g[tail.row as int] == map@[tail.row as int]@);
            assert(g[head.row as int].len() == g[0].len());
            assert(g[tail.row as int].len() == g[0].len());
        }
        let head_water = match map[head.row][head.col] {
            Some(t) => t.tile_type == TileKind::ShallowWater || t.tile_type
                == TileKind::DeepWater,
            None => false,
        };
        let tail_water = match map[tail.row][tail.col] {
            Some(t) => t.tile_type == TileKind::ShallowWater || t.tile_type
                == TileKind::DeepWater,
            None => false,
        };
        if !head_water && !tail_water {
            proof {
                assert(!spec_is_water(g, orig[a0]) && !spec_is_water(g, orig[b0 - 1]));
            }
            break;
        }
        if head_water {
            path.remove(0);
            proof {
                assert(path@ =~= orig.subrange(a0 + 1, b0));
                assert(spec_is_water(g, orig[a0]));
            }
        }
        if tail_water && path.len() > 0 {
            let ghost pre = path@;
            let ghost (a1, b1) = choose|a: int, b: int|
                {
                    &&& 0 <= a <= b <= orig.len()
                    &&& pre == orig.subrange(a, b)
                    &&& (forall|i: int| 0 <= i < a ==> spec_is_water(g, #[trigger] orig[i]))
                    &&& (forall|i: int| b <= i < orig.len() ==> spec_is_water(g,
                        #[trigger] orig[i]))
                };
            proof {
                assert(pre[pre.len() - 1] == orig[b1 - 1]);
            }
            if path.len() == 1 {
                // the remaining single tile might be the watery tail itself
                let only = path[0];
                proof {
                    assert(only == orig[b1 - 1]);
                }
                let only_water = match map[only.row][only.col] {
                    Some(t) => t.tile_type == TileKind::ShallowWater || t.tile_type
                        == TileKind::DeepWater,
                    None => false,
                };
                if only_water {
                    path.remove(0);
                    proof {
                        assert(path@ =~= orig.subrange(a1, a1));
                    }
                }
            } else {
                path.remove(path.len() - 1);
                proof {
                    assert(path@ =~= orig.subrange(a1, b1 - 1));
                    assert(spec_is_water(g, orig[b1 - 1]));
                }
            }
        }
    }
}

/// Picks the cheapest reachable tile of the paving work-list; `costs[i]` is
/// the travel cost to `to_pave[i]`, with `u32::MAX` marking unreachable.
/// The earliest-queued minimum wins ties.
pub fn choose_tile_to_pave(to_pave: &CoordPool, costs: &Vec<u32>) -> (r: Result<
    (Coord, u32),
    RoadBuilderError,
>)
    requires
        to_pave.wf(),
        costs@.len() == to_pave@.len(),
    ensures
        match r {
            Ok((c, w)) => {
                &&& w != 0xffff_ffffu32
                &&& exists|i: int|
                    0 <= i < to_pave@.len() && #[trigger] to_pave@[i] == c && costs@[i] == w
                &&& forall|j: int| 0 <= j < costs@.len() ==> w <= #[trigger] costs@[j]
            },
            Err(e) => {
                &&& e == RoadBuilderError::RoadNonAccessible
                &&& forall|j: int|
                    0 <= j < costs@.len() ==> #[trigger] costs@[j] == 0xffff_ffffu32
            },
        },
{
    let mut best: u32 = 0xffff_ffffu32;
    let mut best_i: usize = 0;
    let mut k: usize = 0;
    while k < costs.len()
        invariant
            to_pave.wf(),
            costs@.len() == to_pave@.len(),
            k <= costs@.len(),
            best != 0xffff_ffffu32 ==> (best_i < costs@.len() && costs@[best_i as int] == best
                && (forall|j: int| 0 <= j < (k as int) ==> best <= #[trigger] costs@[j])),
            best == 0xffff_ffffu32 ==> (forall|j: int|
                0 <= j < (k as int) ==> #[trigger] costs@[j] == 0xffff_ffffu32),
        decreases costs@.len() - k,
    {
        if costs[k] < best {
            best = costs[k];
            best_i = k;
        }
        k = k + 1;
    }
    if best == 0xffff_ffffu32 {
        return Err(RoadBuilderError::RoadNonAccessible);
    }
    Ok((to_pave.get(best_i), best))
}

/// The paving controller's reaction to one actuator outcome, mirroring the
/// layered recovery policy: success records the tile as paved; an
/// unplaceable tile or an immovable storage crate is skipped and dropped
/// from the work-list; missing material triggers collection; blocking
/// content triggers destruction; missing energy pauses; anything else is a
/// fault unless the tile is a mountain, which has its own placement call.
pub fn pave_outcome_step(
    data: &mut RoadBuilderData,
    tile: Coord,
    outcome: PaveOutcome,
    tile_is_mountain: bool,
    content_is_crate: bool,
) -> (r: PaveDecision)
    requires
        old(data).to_pave.wf(),
        old(data).paved.wf(),
        tile.wf(),
    ensures
        final(data).to_pave.wf(),
        final(data).paved.wf(),
        outcome == PaveOutcome::Paved ==> (r == PaveDecision::Done && !final(data).to_pave@.contains(tile) && final(data).paved@.contains(tile)),
        outcome == PaveOutcome::CannotPlaceHere ==> (r == PaveDecision::SkipTile && !final(data).to_pave@.contains(tile) && final(data).paved@ == old(data).paved@),
        (outcome == PaveOutcome::MustDestroyContentFirst && content_is_crate) ==> (r
            == PaveDecision::SkipTile && !final(data).to_pave@.contains(tile) && final(data).paved@ == old(data).paved@),
        (outcome == PaveOutcome::MustDestroyContentFirst && !content_is_crate) ==> (r
            == PaveDecision::DestroyContent && final(data).to_pave@ == old(data).to_pave@
            && final(data).paved@ == old(data).paved@),
        (outcome == PaveOutcome::NoMaterial || outcome == PaveOutcome::NotEnoughMaterial) ==> (r
            == PaveDecision::CollectMaterial && final(data).to_pave@ == old(data).to_pave@
            && final(data).paved@ == old(data).paved@),
        outcome == PaveOutcome::NotEnoughEnergy ==> (r == PaveDecision::PauseLowEnergy
            && final(data).to_pave@ == old(data).to_pave@ && final(data).paved@ == old(data).paved@),
        (outcome == PaveOutcome::Other && tile_is_mountain) ==> (r
            == PaveDecision::MountainPlacement && final(data).to_pave@ == old(data).to_pave@
            && final(data).paved@ == old(data).paved@),
        (outcome == PaveOutcome::Other && !tile_is_mountain) ==> (r == PaveDecision::Fault
            && final(data).to_pave@ == old(data).to_pave@ && final(data).paved@ == old(data).paved@),
        // whatever happened, only the named tile can move between the lists
        forall|c: Coord|
            c != tile ==> ((#[trigger] final(data).to_pave@.contains(c) <==> old(data).to_pave@.contains(c)) && (final(data).paved@.contains(c) <==> old(data).paved@.contains(c))),
{
    match outcome {
        PaveOutcome::Paved => {
            data.to_pave.remove(tile);
            data.paved.insert(tile);
            PaveDecision::Done
        },
        PaveOutcome::CannotPlaceHere => {
            data.to_pave.remove(tile);
            PaveDecision::SkipTile
        },
        PaveOutcome::MustDestroyContentFirst => {
            if content_is_crate {
                data.to_pave.remove(tile);
                PaveDecision::SkipTile
            } else {
                PaveDecision::DestroyContent
            }
        },
        PaveOutcome::NoMaterial | PaveOutcome::NotEnoughMaterial => {
            PaveDecision::CollectMaterial
        },
        PaveOutcome::NotEnoughEnergy => PaveDecision::PauseLowEnergy,
        PaveOutcome::Other => {
            if tile_is_mountain {
                PaveDecision::MountainPlacement
            } else {
                PaveDecision::Fault
            }
        },
    }
}

/// How many recovery attempts one paving session may spend on a tile
/// before giving up; keeps retry-after-recovery finite.
pub const MAX_PAVE_ATTEMPTS: u8 = 8;

/// The paving controller's reaction with a bounded retry budget: recovery
/// decisions (destroying content, collecting material, the mountain
/// placement) each spend one attempt, and once the budget is exhausted they
/// degrade to the terminal fault instead, so a session can never retry
/// without bound. Every non-recovery outcome behaves exactly as the
/// unbounded table does.
pub fn pave_outcome_step_bounded(
    data: &mut RoadBuilderData,
    tile: Coord,
    outcome: PaveOutcome,
    tile_is_mountain: bool,
    content_is_crate: bool,
    attempts_left: &mut u8,
) -> (r: PaveDecision)
    requires
        old(data).to_pave.wf(),
        old(data).paved.wf(),
        tile.wf(),
    ensures
        final(data).to_pave.wf(),
        final(data).paved.wf(),
        *final(attempts_left) <= *old(attempts_left),
        // a recovery decision spends exactly one attempt
        (r == PaveDecision::DestroyContent || r == PaveDecision::CollectMaterial || r
            == PaveDecision::MountainPlacement) ==> (*old(attempts_left) > 0
            && *final(attempts_left) == *old(attempts_left) - 1),
        // an exhausted budget never retries
        *old(attempts_left) == 0 ==> (r != PaveDecision::DestroyContent && r
            != PaveDecision::CollectMaterial && r != PaveDecision::MountainPlacement),
        outcome == PaveOutcome::Paved ==> (r == PaveDecision::Done && !final(data).to_pave@.contains(tile) && final(data).paved@.contains(tile)),
        outcome == PaveOutcome::CannotPlaceHere ==> (r == PaveDecision::SkipTile && !final(data).to_pave@.contains(tile) && final(data).paved@ == old(data).paved@),
        outcome == PaveOutcome::NotEnoughEnergy ==> r == PaveDecision::PauseLowEnergy,
        (outcome == PaveOutcome::MustDestroyContentFirst && content_is_crate) ==> r
            == PaveDecision::SkipTile,
        forall|c: Coord|
            c != tile ==> ((#[trigger] final(data).to_pave@.contains(c) <==> old(data).to_pave@.contains(c)) && (final(data).paved@.contains(c) <==> old(data).paved@.contains(c))),
{
    let d = pave_outcome_step(data, tile, outcome, tile_is_mountain, content_is_crate);
    let retry = d == PaveDecision::DestroyContent || d == PaveDecision::CollectMaterial || d
        == PaveDecision::MountainPlacement;
    if retry {
        if *attempts_left == 0 {
            return PaveDecision::Fault;
        }
        *attempts_left = *attempts_left - 1;
    }
    d
}

/// The fixed material request a short-of-material recovery issues: the
/// base paving material, a fixed target quantity of it, gathered while
/// avoiding every planned-but-unpaved tile of this mission.
pub fn material_request(data: &RoadBuilderData) -> (r: (ContentKind, usize, Vec<Coord>))
    requires
        data.to_pave.wf(),
    ensures
        r.0 == ContentKind::Rock,
        r.1 == 20,
        forall|c: Coord| #[trigger] r.2@.contains(c) <==> data.to_pave@.contains(c),
{
    let mut avoid: Vec<Coord> = Vec::new();
    let mut k: usize = 0;
    while k < data.to_pave.len()
        invariant
            data.to_pave.wf(),
            k <= data.to_pave@.len(),
            avoid@ == data.to_pave@.take(k as int),
        decreases data.to_pave@.len() - k,
    {
        avoid.push(data.to_pave.get(k));
        proof {
            assert(avoid@ =~= data.to_pave@.take(k + 1));
        }
        k = k + 1;
    }
    proof {
        assert(data.to_pave@.take(data.to_pave@.len() as int) =~= data.to_pave@);
    }
    (ContentKind::Rock, 20, avoid)
}

/// The mission-level consequence of one material hunt: a source that could
/// not be reached completes the mission — material scarcity is terminal,
/// not an error — while any harvested amount lets the paving resume.
pub fn material_hunt_step(outcome: Option<usize>) -> (r: MissionStatus)
    ensures
        r == MissionStatus::Completed <==> outcome is None,
        outcome is Some ==> r == MissionStatus::Active,
{
    match outcome {
        None => MissionStatus::Completed,
        Some(_) => MissionStatus::Active,
    }
}

/// A planned connection: each consecutive pair of its tiles is one
/// admissible action apart.
pub open spec fn spec_connection(g: Seq<Seq<Option<Tile>>>, p: Seq<Coord>) -> bool {
    forall|k: int| 0 <= k < p.len() - 1 ==> spec_plan_linked(g, #[trigger] p[k], p[k + 1])
}

/// The work-list `tiles` is the stretch `p[a..b]` of the planned connection
/// `p`: the stripped ends are water, every queued tile already belongs to
/// the road set, and a non-empty plan hangs off the node set or the road
/// set at its head and lands on one of them at its tail.
pub open spec fn spec_shrunk_connection(
    g: Seq<Seq<Option<Tile>>>,
    nodes: Seq<Coord>,
    road: Seq<Coord>,
    tiles: Seq<Coord>,
    p: Seq<Coord>,
    a: int,
    b: int,
) -> bool {
    &&& spec_connection(g, p)
    &&& 0 <= a <= b <= p.len()
    &&& (forall|c: Coord| #[trigger] tiles.contains(c) <==> p.subrange(a, b).contains(c))
    &&& (forall|i: int| 0 <= i < a ==> spec_is_water(g, #[trigger] p[i]))
    &&& (forall|i: int| b <= i < p.len() ==> spec_is_water(g, #[trigger] p[i]))
    &&& (forall|c: Coord| #[trigger] tiles.contains(c) ==> road.contains(c))
    &&& (p.len() > 0 ==> ((exists|anch: Coord|
        (nodes.contains(anch) || road.contains(anch)) && #[trigger] spec_plan_linked(
            g,
            anch,
            p[0],
        )) && (nodes.contains(p[p.len() - 1]) || road.contains(p[p.len() - 1]))))
}

/// A queued Road-Builder mission carries exactly one planned connection
/// with its watery ends stripped, wholly recorded in the road set and
/// anchored on the node set or the road set at both ends.
pub open spec fn spec_mission_connection(
    g: Seq<Seq<Option<Tile>>>,
    nodes: Seq<Coord>,
    road: Seq<Coord>,
    m: Mission,
) -> bool {
    m.additional_data matches MissionData::RoadBuilder(d) && (exists|p: Seq<Coord>, a: int, b:
        int| spec_shrunk_connection(g, nodes, road, d.to_pave@, p, a, b))
}

/// Whether the candidate nodes name a genuine furthest pair: at most two
/// nodes, or some pair at positive Manhattan distance.
pub open spec fn spec_nodes_spread(nodes: Seq<Coord>) -> bool {
    nodes.len() <= 2 || (exists|i: int, j: int|
        0 <= i < nodes.len() && 0 <= j < nodes.len() && spec_manhattan(
            #[trigger] nodes[i],
            #[trigger] nodes[j],
        ) > 0)
}

/// Membership in a concatenation is membership in either part.
proof fn lemma_concat_contains(s1: Seq<Coord>, s2: Seq<Coord>, c: Coord)
    ensures
        (s1 + s2).contains(c) <==> (s1.contains(c) || s2.contains(c)),
{
    if (s1 + s2).contains(c) {
        let i = choose|i: int| 0 <= i < (s1 + s2).len() && (s1 + s2)[i] == c;
        if i < s1.len() {
            assert(s1[i] == c);
        } else {
            assert(s2[i - s1.len()] == c);
        }
    }
    if s1.contains(c) {
        let i = choose|i: int| 0 <= i < s1.len() && s1[i] == c;
        assert((s1 + s2)[i] == c);
    }
    if s2.contains(c) {
        let i = choose|i: int| 0 <= i < s2.len() && s2[i] == c;
        assert((s1 + s2)[s1.len() + i] == c);
    }
}

/// Growing the road set preserves a mission's recorded connection.
proof fn lemma_mission_connection_mono(
    g: Seq<Seq<Option<Tile>>>,
    nodes: Seq<Coord>,
    road1: Seq<Coord>,
    road2: Seq<Coord>,
    m: Mission,
)
    requires
        spec_mission_connection(g, nodes, road1, m),
        forall|c: Coord| #[trigger] road1.contains(c) ==> road2.contains(c),
    ensures
        spec_mission_connection(g, nodes, road2, m),
{
    let d = m.additional_data->RoadBuilder_0;
    let (p, a, b) = choose|p: Seq<Coord>, a: int, b: int|
        spec_shrunk_connection(g, nodes, road1, d.to_pave@, p, a, b);
    assert(spec_shrunk_connection(g, nodes, road2, d.to_pave@, p, a, b)) by {
        if p.len() > 0 {
            let anch = choose|anch: Coord|
                (nodes.contains(anch) || road1.contains(anch))
                    && #[trigger] spec_plan_linked(g, anch, p[0]);
            assert((nodes.contains(anch) || road2.contains(anch)) && spec_plan_linked(
                g,
                anch,
                p[0],
            ));
        }
    }
}

/// Turns a sector's candidate nodes into Road-Builder missions, growing the
/// persistent global road. A single node connects to the global road (or
/// seeds it); two nodes connect to each other and then to the global road;
/// more nodes connect the two most distant first and attach the rest to the
/// growing local network before bridging to the global road. Every returned
/// mission is a paused Road-Builder over well-formed tiles, and every tile
/// of every plan joins the global road set.
#[verifier::rlimit(100)]
pub fn generate_road_builders(
    map: &Vec<Vec<Option<Tile>>>,
    weather: WeatherKind,
    nodes: &Vec<Coord>,
    road_tiles: &mut CoordPool,
) -> (missions: Vec<Mission>)
    requires
        grid_wf(grid_view(map)),
        grid_view(map).len() <= MAX_SLICE_DIM,
        grid_view(map)[0].len() <= MAX_SLICE_DIM,
        old(road_tiles).wf(),
        forall|k: int| 0 <= k < nodes@.len() ==> (#[trigger] nodes@[k]).wf(),
    ensures
        final(road_tiles).wf(),
        forall|c: Coord|
            old(road_tiles)@.contains(c) ==> #[trigger] final(road_tiles)@.contains(c),
        // every candidate node joins the persistent global road
        forall|k: int|
            0 <= k < nodes@.len() ==> final(road_tiles)@.contains(#[trigger] nodes@[k]),
        // a lone node over an empty network seeds the road and queues nothing
        (nodes@.len() == 1 && old(road_tiles)@.len() == 0) ==> (missions@.len() == 0 && (
        forall|c: Coord|
            #[trigger] final(road_tiles)@.contains(c) <==> c == nodes@[0])),
        forall|k: int|
            0 <= k < missions@.len() ==> {
                let m = #[trigger] missions@[k];
                &&& m.kind == MissionKind::RoadBuilder
                &&& m.status == MissionStatus::Paused
                &&& (m.additional_data matches MissionData::RoadBuilder(d) && d.to_pave.wf()
                    && d.paved.wf() && d.paved@.len() == 0)
            },
        // each queued mission holds one planned connection with its watery
        // ends stripped, anchored on the node set or the grown road and
        // recorded in it; an all-coincident spread of three or more nodes
        // reports the zero furthest pair and falls outside this account
        spec_nodes_spread(nodes@) ==> (forall|k: int|
            0 <= k < missions@.len() ==> spec_mission_connection(grid_view(map), nodes@,
                final(road_tiles)@, #[trigger] missions@[k])),
        // two or more in-bounds nodes always queue at least one mission
        (nodes@.len() == 2 && nodes@[0].row < grid_view(map).len() && nodes@[0].col
            < grid_view(map)[0].len()) ==> missions@.len() >= 1,
        (nodes@.len() > 2 && (forall|k: int|
            0 <= k < nodes@.len() ==> (#[trigger] nodes@[k]).row < grid_view(map).len()
                && nodes@[k].col < grid_view(map)[0].len())) ==> missions@.len() >= 1,
        // a lone node off a non-empty in-slice network joined to it by some
        // finite-cost road-mode route queues its connection
        (nodes@.len() == 1 && old(road_tiles)@.len() > 0 && in_slice(grid_view(map), Coord {
            row: 0,
            col: 0,
        }, nodes@[0]) && crate::pathfinder::tile_at(grid_view(map), Coord { row: 0, col: 0 },
            nodes@[0]) is Some && !old(road_tiles)@.contains(nodes@[0]) && (forall|i: int|
            0 <= i < old(road_tiles)@.len() ==> in_slice(grid_view(map), Coord {
                row: 0,
                col: 0,
            }, #[trigger] old(road_tiles)@[i])) && (exists|acts: Seq<Action>|
            #[trigger] spec_path_ok(grid_view(map), Coord { row: 0, col: 0 }, nodes@[0], acts)
                && old(road_tiles)@.contains(spec_path_end(nodes@[0], acts)) && spec_path_cost(
                grid_view(map),
                Coord { row: 0, col: 0 },
                weather,
                true,
                nodes@[0],
                acts,
            ) < INFINITY_COST)) ==> missions@.len() >= 1,
{
    let ghost g = grid_view(map);
    let mut missions: Vec<Mission> = Vec::new();
    let first_road_to_pave = road_tiles.is_empty();
    if nodes.len() == 1 {
        if !first_road_to_pave {
            let node = nodes[0];
            if node.row < map.len() {
                proof {
                    assert(g[node.row as int] == map@[node.row as int]@);
                    assert(g[node.row as int].len() == g[0].len());
                }
                if node.col < map[node.row].len() {
                    let mut path = plan_node_2_road(map, weather, node, road_tiles);
                    let ghost full = path@;
                    let ghost road_before = road_tiles@;
                    if path.len() > 0 {
                        shrink_path(&mut path, map);
                        insert_all(road_tiles, &path);
                        missions.push(new_road_builder(&path));
                        proof {
                            let (a, b) = choose|a: int, b: int|
                                {
                                    &&& 0 <= a <= b <= full.len()
                                    &&& path@ == full.subrange(a, b)
                                    &&& (forall|i: int|
                                        0 <= i < a ==> spec_is_water(g, #[trigger] full[i]))
                                    &&& (forall|i: int|
                                        b <= i < full.len() ==> spec_is_water(g,
                                            #[trigger] full[i]))
                                };
                            let m = missions@[0];
                            let d = m.additional_data->RoadBuilder_0;
                            assert(spec_shrunk_connection(g, nodes@, road_tiles@, d.to_pave@,
                                full, a, b)) by {
                                assert(nodes@.contains(nodes@[0]));
                                assert(spec_plan_linked(g, node, full[0]));
                                assert(road_before.contains(full[full.len() - 1]));
                                assert(road_tiles@.contains(full[full.len() - 1]));
                                assert forall|c: Coord| #[trigger] d.to_pave@.contains(c)
                                    implies road_tiles@.contains(c) by {
                                    assert(path@.contains(c));
                                }
                            }
                            assert(spec_mission_connection(g, nodes@, road_tiles@, m));
                        }
                    }
                }
            }
        }
    } else if nodes.len() == 2 {
        let n0 = nodes[0];
        let n1 = nodes[1];
        if n0.row < map.len() {
            proof {
                assert(g[n0.row as int] == map@[n0.row as int]@);
                assert(g[n0.row as int].len() == g[0].len());
            }
            if n0.col < map[n0.row].len() {
                let mut path = plan_node_2_node(map, weather, n0, n1);
                let ghost full1 = path@;
                shrink_path(&mut path, map);
                let mut to_pave = CoordPool::new();
                insert_all(&mut to_pave, &path);
                missions.push(new_road_builder(&path));
                let ghost shrunk1 = path@;
                let ghost had_global = !first_road_to_pave;
                let ghost full2: Seq<Coord> = Seq::empty();
                let ghost shrunk2: Seq<Coord> = Seq::empty();
                let ghost road_before2 = road_tiles@;
                if !first_road_to_pave {
                    let mut path2 = plan_road_2_global(map, weather, &to_pave, road_tiles);
                    proof {
                        full2 = path2@;
                    }
                    shrink_path(&mut path2, map);
                    insert_all(road_tiles, &path2);
                    missions.push(new_road_builder(&path2));
                    proof {
                        shrunk2 = path2@;
                    }
                }
                insert_all(road_tiles, &path);
                proof {
                    // the first mission's connection: node to node
                    let (a1, b1) = choose|a: int, b: int|
                        {
                            &&& 0 <= a <= b <= full1.len()
                            &&& shrunk1 == full1.subrange(a, b)
                            &&& (forall|i: int|
                                0 <= i < a ==> spec_is_water(g, #[trigger] full1[i]))
                            &&& (forall|i: int|
                                b <= i < full1.len() ==> spec_is_water(g, #[trigger] full1[i]))
                        };
                    let m0 = missions@[0];
                    let d0 = m0.additional_data->RoadBuilder_0;
                    assert(spec_shrunk_connection(g, nodes@, road_tiles@, d0.to_pave@, full1,
                        a1, b1)) by {
                        assert(nodes@.contains(nodes@[0]));
                        assert(nodes@.contains(nodes@[1]));
                        if full1.len() > 0 {
                            assert(spec_plan_linked(g, n0, full1[0]));
                            assert(full1[full1.len() - 1] == n1);
                        }
                        assert forall|c: Coord| #[trigger] d0.to_pave@.contains(c)
                            implies road_tiles@.contains(c) by {
                            assert(shrunk1.contains(c));
                        }
                    }
                    assert(spec_mission_connection(g, nodes@, road_tiles@, m0));
                    if had_global {
                        // the second mission's connection: local network to
                        // the global road
                        let (a2, b2) = choose|a: int, b: int|
                            {
                                &&& 0 <= a <= b <= full2.len()
                                &&& shrunk2 == full2.subrange(a, b)
                                &&& (forall|i: int|
                                    0 <= i < a ==> spec_is_water(g, #[trigger] full2[i]))
                                &&& (forall|i: int|
                                    b <= i < full2.len() ==> spec_is_water(g,
                                        #[trigger] full2[i]))
                            };
                        let m1 = missions@[1];
                        let d1 = m1.additional_data->RoadBuilder_0;
                        assert(spec_shrunk_connection(g, nodes@, road_tiles@, d1.to_pave@,
                            full2, a2, b2)) by {
                            if full2.len() > 0 {
                                let anch = choose|anch: Coord|
                                    to_pave@.contains(anch) && #[trigger] spec_plan_linked(
                                        g,
                                        anch,
                                        full2[0],
                                    );
                                assert(shrunk1.contains(anch));
                                assert(road_tiles@.contains(anch));
                                assert(road_before2.contains(full2[full2.len() - 1]));
                                assert(road_tiles@.contains(full2[full2.len() - 1]));
                            }
                            assert forall|c: Coord| #[trigger] d1.to_pave@.contains(c)
                                implies road_tiles@.contains(c) by {
                                assert(shrunk2.contains(c));
                            }
                        }
                        assert(spec_mission_connection(g, nodes@, road_tiles@, m1));
                    }
                }
            }
        }
    } else if nodes.len() > 2 {
        let (n1, n2) = get_2_furthest_nodes(nodes);
        proof {
            if spec_nodes_spread(nodes@) {
                let (i, j) = choose|i: int, j: int|
                    0 <= i < nodes@.len() && 0 <= j < nodes@.len() && spec_manhattan(
                        #[trigger] nodes@[i],
                        #[trigger] nodes@[j],
                    ) > 0;
                assert(spec_manhattan(nodes@[i], nodes@[j]) <= spec_manhattan(n1, n2));
                assert(nodes@.contains(n1) && nodes@.contains(n2));
            }
        }
        let mut to_pave = CoordPool::new();
        if n1.row < map.len() {
            proof {
                assert(g[n1.row as int] == map@[n1.row as int]@);
                assert(g[n1.row as int].len() == g[0].len());
            }
            if n1.col < map[n1.row].len() {
                let mut path = plan_node_2_node(map, weather, n1, n2);
                let ghost full = path@;
                shrink_path(&mut path, map);
                insert_all(&mut to_pave, &path);
                missions.push(new_road_builder(&path));
                proof {
                    if spec_nodes_spread(nodes@) {
                        let (a, b) = choose|a: int, b: int|
                            {
                                &&& 0 <= a <= b <= full.len()
                                &&& path@ == full.subrange(a, b)
                                &&& (forall|i: int|
                                    0 <= i < a ==> spec_is_water(g, #[trigger] full[i]))
                                &&& (forall|i: int|
                                    b <= i < full.len() ==> spec_is_water(g,
                                        #[trigger] full[i]))
                            };
                        let m = missions@[0];
                        let d = m.additional_data->RoadBuilder_0;
                        assert(spec_shrunk_connection(g, nodes@, road_tiles@ + to_pave@,
                            d.to_pave@, full, a, b)) by {
                            if full.len() > 0 {
                                assert(spec_plan_linked(g, n1, full[0]));
                                assert(full[full.len() - 1] == n2);
                            }
                            assert forall|c: Coord| #[trigger] d.to_pave@.contains(c)
                                implies (road_tiles@ + to_pave@).contains(c) by {
                                assert(path@.contains(c));
                                assert(to_pave@.contains(c));
                                lemma_concat_contains(road_tiles@, to_pave@, c);
                            }
                        }
                        assert(spec_mission_connection(g, nodes@, road_tiles@ + to_pave@, m));
                    }
                }
            }
        }
        let ghost m_after_spine = missions@.len();
        let mut k: usize = 0;
        while k < nodes.len()
            invariant
                grid_wf(g),
                g == grid_view(map),
                g.len() <= MAX_SLICE_DIM,
                g[0].len() <= MAX_SLICE_DIM,
                forall|l: int| 0 <= l < nodes@.len() ==> (#[trigger] nodes@[l]).wf(),
                k <= nodes@.len(),
                to_pave.wf(),
                road_tiles.wf(),
                missions@.len() >= m_after_spine,
                forall|l: int|
                    0 <= l < missions@.len() ==> {
                        let m = #[trigger] missions@[l];
                        &&& m.kind == MissionKind::RoadBuilder
                        &&& m.status == MissionStatus::Paused
                        &&& (m.additional_data matches MissionData::RoadBuilder(d)
                            && d.to_pave.wf() && d.paved.wf() && d.paved@.len() == 0)
                    },
                spec_nodes_spread(nodes@) ==> (forall|l: int|
                    0 <= l < missions@.len() ==> spec_mission_connection(g, nodes@,
                        road_tiles@ + to_pave@, #[trigger] missions@[l])),
            decreases nodes@.len() - k,
        {
            let node = nodes[k];
            if !(node == n1) && !(node == n2) {
                if node.row < map.len() {
                    proof {
                        assert(g[node.row as int] == map@[node.row as int]@);
                        assert(g[node.row as int].len() == g[0].len());
                    }
                    if node.col < map[node.row].len() {
                        let ghost tp_before = to_pave@;
                        let mut path = plan_node_2_road(map, weather, node, &to_pave);
                        let ghost full = path@;
                        shrink_path(&mut path, map);
                        insert_all(&mut to_pave, &path);
                        missions.push(new_road_builder(&path));
                        proof {
                            assert forall|c: Coord| (road_tiles@ + tp_before).contains(c)
                                implies (road_tiles@ + to_pave@).contains(c) by {
                                lemma_concat_contains(road_tiles@, tp_before, c);
                                lemma_concat_contains(road_tiles@, to_pave@, c);
                            }
                            if spec_nodes_spread(nodes@) {
                                assert forall|l: int| 0 <= l < missions@.len() - 1
                                    implies spec_mission_connection(g, nodes@, road_tiles@
                                    + to_pave@, #[trigger] missions@[l]) by {
                                    lemma_mission_connection_mono(g, nodes@, road_tiles@
                                        + tp_before, road_tiles@ + to_pave@, missions@[l]);
                                }
                                let (a, b) = choose|a: int, b: int|
                                    {
                                        &&& 0 <= a <= b <= full.len()
                                        &&& path@ == full.subrange(a, b)
                                        &&& (forall|i: int|
                                            0 <= i < a ==> spec_is_water(g,
                                                #[trigger] full[i]))
                                        &&& (forall|i: int|
                                            b <= i < full.len() ==> spec_is_water(g,
                                                #[trigger] full[i]))
                                    };
                                let m = missions@[missions@.len() - 1];
                                let d = m.additional_data->RoadBuilder_0;
                                assert(spec_shrunk_connection(g, nodes@, road_tiles@
                                    + to_pave@, d.to_pave@, full, a, b)) by {
                                    assert(nodes@.contains(nodes@[k as int]));
                                    if full.len() > 0 {
                                        assert(spec_plan_linked(g, node, full[0]));
                                        assert(tp_before.contains(full[full.len() - 1]));
                                        assert(to_pave@.contains(full[full.len() - 1]));
                                        lemma_concat_contains(road_tiles@, to_pave@,
                                            full[full.len() - 1]);
                                    }
                                    assert forall|c: Coord| #[trigger] d.to_pave@.contains(c)
                                        implies (road_tiles@ + to_pave@).contains(c) by {
                                        assert(path@.contains(c));
                                        assert(to_pave@.contains(c));
                                        lemma_concat_contains(road_tiles@, to_pave@, c);
                                    }
                                }
                                assert(spec_mission_connection(g, nodes@, road_tiles@
                                    + to_pave@, m));
                            }
                        }
                    }
                }
            }
            k = k + 1;
        }
        if !first_road_to_pave {
            let path = plan_road_2_global(map, weather, &to_pave, road_tiles);
            let ghost road_before = road_tiles@;
            insert_all(road_tiles, &path);
            missions.push(new_road_builder(&path));
            proof {
                assert forall|c: Coord| (road_before + to_pave@).contains(c) implies (
                road_tiles@ + to_pave@).contains(c) by {
                    lemma_concat_contains(road_before, to_pave@, c);
                    lemma_concat_contains(road_tiles@, to_pave@, c);
                }
                if spec_nodes_spread(nodes@) {
                    assert forall|l: int| 0 <= l < missions@.len() - 1
                        implies spec_mission_connection(g, nodes@, road_tiles@ + to_pave@,
                        #[trigger] missions@[l]) by {
                        lemma_mission_connection_mono(g, nodes@, road_before + to_pave@,
                            road_tiles@ + to_pave@, missions@[l]);
                    }
                    let m = missions@[missions@.len() - 1];
                    let d = m.additional_data->RoadBuilder_0;
                    assert(path@.subrange(0, path@.len() as int) =~= path@);
                    assert(spec_shrunk_connection(g, nodes@, road_tiles@ + to_pave@,
                        d.to_pave@, path@, 0, path@.len() as int)) by {
                        if path@.len() > 0 {
                            let anch = choose|anch: Coord|
                                to_pave@.contains(anch) && #[trigger] spec_plan_linked(
                                    g,
                                    anch,
                                    path@[0],
                                );
                            lemma_concat_contains(road_tiles@, to_pave@, anch);
                            assert(road_before.contains(path@[path@.len() - 1]));
                            assert(road_tiles@.contains(path@[path@.len() - 1]));
                            lemma_concat_contains(road_tiles@, to_pave@,
                                path@[path@.len() - 1]);
                        }
                        assert forall|c: Coord| #[trigger] d.to_pave@.contains(c) implies (
                        road_tiles@ + to_pave@).contains(c) by {
                            assert(path@.contains(c));
                            lemma_concat_contains(road_tiles@, to_pave@, c);
                        }
                    }
                    assert(spec_mission_connection(g, nodes@, road_tiles@ + to_pave@, m));
                }
            }
        }
        let ghost combo_pre_z = road_tiles@ + to_pave@;
        let ghost road_pre_z = road_tiles@;
        let mut z: usize = 0;
        while z < to_pave.len()
            invariant
                road_tiles.wf(),
                to_pave.wf(),
                z <= to_pave@.len(),
                forall|c: Coord| road_pre_z.contains(c) ==> #[trigger] road_tiles@.contains(c),
                forall|l: int|
                    0 <= l < z ==> road_tiles@.contains(#[trigger] to_pave@[l]),
            decreases to_pave@.len() - z,
        {
            let c = to_pave.get(z);
            proof {
                assert(to_pave@[z as int].wf());
            }
            road_tiles.insert(c);
            z = z + 1;
        }
        proof {
            assert forall|c: Coord| combo_pre_z.contains(c)
                implies #[trigger] road_tiles@.contains(c) by {
                lemma_concat_contains(road_pre_z, to_pave@, c);
                if to_pave@.contains(c) {
                    let l = choose|l: int| 0 <= l < to_pave@.len() && to_pave@[l] == c;
                    assert(road_tiles@.contains(to_pave@[l]));
                }
            }
            if spec_nodes_spread(nodes@) {
                assert forall|l: int| 0 <= l < missions@.len()
                    implies spec_mission_connection(g, nodes@, road_tiles@,
                    #[trigger] missions@[l]) by {
                    lemma_mission_connection_mono(g, nodes@, combo_pre_z, road_tiles@,
                        missions@[l]);
                }
            }
        }
    }
    // every node itself becomes part of the global road
    let ghost before_nodes = road_tiles@;
    insert_all(road_tiles, nodes);
    proof {
        assert forall|k: int| 0 <= k < nodes@.len() implies road_tiles@.contains(
            #[trigger] nodes@[k]) by {
            assert(nodes@.contains(nodes@[k]));
        }
        if nodes@.len() == 1 && old(road_tiles)@.len() == 0 {
            assert(before_nodes == old(road_tiles)@);
            assert forall|c: Coord| #[trigger] road_tiles@.contains(c) implies c
                == nodes@[0] by {
                if before_nodes.contains(c) {
                    let i = choose|i: int|
                        0 <= i < before_nodes.len() && before_nodes[i] == c;
                } else {
                    assert(nodes@.contains(c));
                    let i = choose|i: int| 0 <= i < nodes@.len() && nodes@[i] == c;
                    assert(i == 0);
                }
            }
            assert forall|c: Coord| c == nodes@[0]
                implies #[trigger] road_tiles@.contains(c) by {
                assert(nodes@.contains(nodes@[0]));
            }
        }
        if spec_nodes_spread(nodes@) {
            assert forall|mi: int| 0 <= mi < missions@.len()
                implies spec_mission_connection(g, nodes@, road_tiles@,
                #[trigger] missions@[mi]) by {
                lemma_mission_connection_mono(g, nodes@, before_nodes, road_tiles@,
                    missions@[mi]);
            }
        }
    }
    missions
}

/// Adds every coordinate of a plan to a coordinate pool.
fn insert_all(pool: &mut CoordPool, path: &Vec<Coord>)
    requires
        old(pool).wf(),
        forall|k: int| 0 <= k < path@.len() ==> (#[trigger] path@[k]).wf(),
    ensures
        final(pool).wf(),
        forall|c: Coord|
            #[trigger] final(pool)@.contains(c) <==> (old(pool)@.contains(c)
                || path@.contains(c)),
{
    let mut k: usize = 0;
    while k < path.len()
        invariant
            pool.wf(),
            forall|l: int| 0 <= l < path@.len() ==> (#[trigger] path@[l]).wf(),
            k <= path@.len(),
            forall|c: Coord|
                #[trigger] pool@.contains(c) <==> (old(pool)@.contains(c) || path@.take(
                    k as int,
                ).contains(c)),
        decreases path@.len() - k,
    {
        let ghost before = pool@;
        pool.insert(path[k]);
        proof {
            assert forall|c: Coord| #[trigger] pool@.contains(c) implies (old(pool)@.contains(c) || path@.take(k + 1).contains(c)) by {
                if c == path@[k as int] {
                    assert(path@.take(k + 1)[k as int] == c);
                } else {
                    assert(before.contains(c));
                    if !old(pool)@.contains(c) {
                        let w = choose|w: int|
                            0 <= w < path@.take(k as int).len() && (#[trigger] path@.take(
                                k as int,
                            )[w]) == c;
                        assert(path@.take(k + 1)[w] == c);
                    }
                }
            }
            assert forall|c: Coord| old(pool)@.contains(c) || path@.take(k + 1).contains(c)
                implies #[trigger] pool@.contains(c) by {
                if path@.take(k + 1).contains(c) {
                    let w = choose|w: int|
                        0 <= w < path@.take(k + 1).len() && (#[trigger] path@.take(k + 1)[w])
                            == c;
                    if w < k {
                        assert(path@.take(k as int)[w] == c);
                    } else {
                        assert(c == path@[k as int]);
                    }
                }
            }
        }
        k = k + 1;
    }
    proof {
        assert(path@.take(path@.len() as int) =~= path@);
    }
}

/// What one activation of a Road-Builder mission decides before touching
/// the world.
#[derive(Clone, Copy, Debug, PartialEq, Eq, Structural)]
pub enum RoadStep {
    /// The work-list is empty: the mission is complete.
    Completed,
    /// A queued tile is unreachable although the mission itself queued it:
    /// an invariant violation, fatal to the mission but surfaced.
    InvariantViolated,
    /// The cheapest reachable tile costs more than the agent can spend.
    LowEnergy(Coord, u32),
    /// Travel to the tile and run the paving actuator on it.
    Pave(Coord, u32),
}

/// One activation's decision: complete on an empty work-list, otherwise
/// pick the cheapest reachable queued tile and either pave it, pause for
/// energy, or surface an invariant violation when no queued tile is
/// reachable or the pick is absurdly expensive. `costs[i]` prices travel to
/// `to_pave[i]`, with `u32::MAX` marking unreachable.
pub fn road_builder_step(data: &RoadBuilderData, costs: &Vec<u32>, energy_level: u32) -> (r:
    RoadStep)
    requires
        data.to_pave.wf(),
        costs@.len() == data.to_pave@.len(),
    ensures
        data.to_pave@.len() == 0 ==> r == RoadStep::Completed,
        r == RoadStep::Completed ==> data.to_pave@.len() == 0,
        (data.to_pave@.len() > 0 && (forall|j: int|
            0 <= j < costs@.len() ==> #[trigger] costs@[j] == 0xffff_ffffu32)) ==> r
            == RoadStep::InvariantViolated,
        // the converse: only an unreachable or absurdly priced work-list faults
        r == RoadStep::InvariantViolated ==> ((forall|j: int|
            0 <= j < costs@.len() ==> #[trigger] costs@[j] == 0xffff_ffffu32) || (forall|
        j: int|
            0 <= j < costs@.len() ==> #[trigger] costs@[j] > 1000)),
        r matches RoadStep::LowEnergy(c, w) ==> ((exists|i: int|
            0 <= i < data.to_pave@.len() && #[trigger] data.to_pave@[i] == c && costs@[i]
                == w) && data.to_pave@.contains(c) && w <= 1000 && w > energy_level && (
        forall|j: int|
            0 <= j < costs@.len() ==> w <= #[trigger] costs@[j])),
        r matches RoadStep::Pave(c, w) ==> ((exists|i: int|
            0 <= i < data.to_pave@.len() && #[trigger] data.to_pave@[i] == c && costs@[i]
                == w) && data.to_pave@.contains(c) && w <= 1000 && w <= energy_level && (
        forall|j: int|
            0 <= j < costs@.len() ==> w <= #[trigger] costs@[j])),
{
    if data.to_pave.is_empty() {
        return RoadStep::Completed;
    }
    match choose_tile_to_pave(&data.to_pave, costs) {
        Err(_) => RoadStep::InvariantViolated,
        Ok((tile, cost)) => {
            if cost > 1000 {
                return RoadStep::InvariantViolated;
            }
            proof {
                let i = choose|i: int|
                    0 <= i < data.to_pave@.len() && data.to_pave@[i] == tile && costs@[i]
                        == cost;
                assert(data.to_pave@.contains(tile));
            }
            if cost > energy_level {
                RoadStep::LowEnergy(tile, cost)
            } else {
                RoadStep::Pave(tile, cost)
            }
        },
    }
}

} // verus!
