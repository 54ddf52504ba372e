use vstd::prelude::*;
use crate::coord_pool::CoordPool;
use crate::tiles::{
    container_accepts, spec_container_accepts, spec_terrain_holds, terrain_holds, ContentKind,
    Tile, TileKind,
};
use crate::utils::{grid_view, grid_wf, Coord};

verus! {

/// Failures of the resource collection and disposal helpers.
#[derive(Clone, Copy, Debug, PartialEq, Eq, Structural)]
pub enum ResourceCollectorError {
    BackPackIsFull,
    NotEnoughEnergy,
    PathNotFound,
    NoContentFound,
    NoWayToDispose,
    NoContentToDispose,
}

/// Which of the four directions around the agent an action applies to.
#[derive(Clone, Copy, Debug, PartialEq, Eq, Structural)]
pub struct DirectionPlan {
    pub up: bool,
    pub left: bool,
    pub right: bool,
    pub down: bool,
}

/// Whether loose content of one kind can be dropped onto a tile: either the
/// terrain accepts it and the tile is bare, or the tile carries a container
/// that accepts it.
pub open spec fn spec_can_dispose_on(tile: Tile, content: ContentKind) -> bool {
    (spec_terrain_holds(tile.tile_type, content) && tile.content == ContentKind::Empty)
        || spec_container_accepts(tile.content, content)
}

/// Executable twin of `spec_can_dispose_on`.
pub fn can_dispose_on(tile: Tile, content: ContentKind) -> (r: bool)
    ensures
        r == spec_can_dispose_on(tile, content),
{
    (terrain_holds(tile.tile_type, content) && tile.content == ContentKind::Empty)
        || container_accepts(tile.content, content)
}

/// The tile types and container contents that can take a disposal of the
/// given content kind: exactly those the world rules accept.
pub fn ways_to_dispose(content: ContentKind) -> (r: (Vec<TileKind>, Vec<ContentKind>))
    ensures
        forall|tk: TileKind| r.0@.contains(tk) <==> spec_terrain_holds(tk, content),
        forall|ck: ContentKind| r.1@.contains(ck) <==> spec_container_accepts(ck, content),
{
    let mut tile_candidates: Vec<TileKind> = Vec::new();
    tile_candidates.push(TileKind::Grass);
    tile_candidates.push(TileKind::Sand);
    tile_candidates.push(TileKind::Snow);
    tile_candidates.push(TileKind::ShallowWater);
    tile_candidates.push(TileKind::DeepWater);
    tile_candidates.push(TileKind::Street);
    tile_candidates.push(TileKind::Hill);
    tile_candidates.push(TileKind::Mountain);
    tile_candidates.push(TileKind::Lava);
    tile_candidates.push(TileKind::Teleport(false));
    tile_candidates.push(TileKind::Teleport(true));
    tile_candidates.push(TileKind::Wall);
    let mut content_candidates: Vec<ContentKind> = Vec::new();
    content_candidates.push(ContentKind::Rock);
    content_candidates.push(ContentKind::Tree);
    content_candidates.push(ContentKind::Bush);
    content_candidates.push(ContentKind::Garbage);
    content_candidates.push(ContentKind::JollyBlock);
    content_candidates.push(ContentKind::Coin);
    content_candidates.push(ContentKind::Fire);
    content_candidates.push(ContentKind::Water);
    content_candidates.push(ContentKind::Fish);
    content_candidates.push(ContentKind::Empty);
    content_candidates.push(ContentKind::Market);
    content_candidates.push(ContentKind::Bank);
    content_candidates.push(ContentKind::Crate);
    content_candidates.push(ContentKind::Bin);
    content_candidates.push(ContentKind::Building);
    content_candidates.push(ContentKind::Scarecrow);
    proof {
        assert forall|tk: TileKind| tile_candidates@.contains(tk) by {
            match tk {
                TileKind::Grass => assert(tile_candidates@[0] == tk),
                TileKind::Sand => assert(tile_candidates@[1] == tk),
                TileKind::Snow => assert(tile_candidates@[2] == tk),
                TileKind::ShallowWater => assert(tile_candidates@[3] == tk),
                TileKind::DeepWater => assert(tile_candidates@[4] == tk),
                TileKind::Street => assert(tile_candidates@[5] == tk),
                TileKind::Hill => assert(tile_candidates@[6] == tk),
                TileKind::Mountain => assert(tile_candidates@[7] == tk),
                TileKind::Lava => assert(tile_candidates@[8] == tk),
                TileKind::Teleport(b) => {
                    if b {
                        assert(tile_candidates@[10] == tk);
                    } else {
                        assert(tile_candidates@[9] == tk);
                    }
                },
                TileKind::Wall => assert(tile_candidates@[11] == tk),
            }
        }
        assert forall|ck: ContentKind| content_candidates@.contains(ck) by {
            match ck {
                ContentKind::Rock => assert(content_candidates@[0] == ck),
                ContentKind::Tree => assert(content_candidates@[1] == ck),
                ContentKind::Bush => assert(content_candidates@[2] == ck),
                ContentKind::Garbage => assert(content_candidates@[3] == ck),
                ContentKind::JollyBlock => assert(content_candidates@[4] == ck),
                ContentKind::Coin => assert(content_candidates@[5] == ck),
                ContentKind::Fire => assert(content_candidates@[6] == ck),
                ContentKind::Water => assert(content_candidates@[7] == ck),
                ContentKind::Fish => assert(content_candidates@[8] == ck),
                ContentKind::Empty => assert(content_candidates@[9] == ck),
                ContentKind::Market => assert(content_candidates@[10] == ck),
                ContentKind::Bank => assert(content_candidates@[11] == ck),
                ContentKind::Crate => assert(content_candidates@[12] == ck),
                ContentKind::Bin => assert(content_candidates@[13] == ck),
                ContentKind::Building => assert(content_candidates@[14] == ck),
                ContentKind::Scarecrow => assert(content_candidates@[15] == ck),
            }
        }
    }
    let mut tile_types: Vec<TileKind> = Vec::new();
    let mut k: usize = 0;
    while k < tile_candidates.len()
        invariant
            k <= tile_candidates@.len(),
            forall|tk: TileKind|
                tile_types@.contains(tk) <==> (exists|l: int|
                    0 <= l < k && #[trigger] tile_candidates@[l] == tk && spec_terrain_holds(
                        tk,
                        content,
                    )),
        decreases tile_candidates@.len() - k,
    {
        let tk = tile_candidates[k];
        let ghost before = tile_types@;
        if terrain_holds(tk, content) {
            tile_types.push(tk);
            proof {
                assert(tile_types@[tile_types@.len() - 1] == tk);
                assert forall|t2: TileKind| tile_types@.contains(t2) implies (exists|l: int|
                    0 <= l < k + 1 && #[trigger] tile_candidates@[l] == t2
                        && spec_terrain_holds(t2, content)) by {
                    if t2 == tk {
                        assert(tile_candidates@[k as int] == t2);
                    } else {
                        assert(before.contains(t2));
                    }
                }
                assert forall|t2: TileKind|
                    (exists|l: int|
                        0 <= l < k + 1 && #[trigger] tile_candidates@[l] == t2
                            && spec_terrain_holds(t2, content)) implies tile_types@.contains(
                    t2) by {
                    let l = choose|l: int|
                        0 <= l < k + 1 && #[trigger] tile_candidates@[l] == t2
                            && spec_terrain_holds(t2, content);
                    if l < k {
                        assert(before.contains(t2));
                        let w = choose|w: int| 0 <= w < before.len() && before[w] == t2;
                        assert(tile_types@[w] == t2);
                    } else {
                        assert(tile_types@[tile_types@.len() - 1] == t2);
                    }
                }
            }
        } else {
            proof {
                assert forall|t2: TileKind|
                    (exists|l: int|
                        0 <= l < k + 1 && #[trigger] tile_candidates@[l] == t2
                            && spec_terrain_holds(t2, content)) implies tile_types@.contains(
                    t2) by {
                    let l = choose|l: int|
                        0 <= l < k + 1 && #[trigger] tile_candidates@[l] == t2
                            && spec_terrain_holds(t2, content);
                    assert(l < k);
                }
            }
        }
        k = k + 1;
    }
    proof {
        assert forall|tk: TileKind| tile_types@.contains(tk) <==> spec_terrain_holds(
            tk,
            content,
        ) by {
            if spec_terrain_holds(tk, content) {
                assert(tile_candidates@.contains(tk));
                let w = choose|w: int|
                    0 <= w < tile_candidates@.len() && tile_candidates@[w] == tk;
                assert(0 <= w < tile_candidates@.len() && #[trigger] tile_candidates@[w] == tk
                    && spec_terrain_holds(tk, content));
            }
        }
    }
    let mut contents: Vec<ContentKind> = Vec::new();
    let mut m: usize = 0;
    while m < content_candidates.len()
        invariant
            m <= content_candidates@.len(),
            forall|ck: ContentKind|
                contents@.contains(ck) <==> (exists|l: int|
                    0 <= l < m && #[trigger] content_candidates@[l] == ck
                        && spec_container_accepts(ck, content)),
        decreases content_candidates@.len() - m,
    {
        let ck = content_candidates[m];
        let ghost before = contents@;
        if container_accepts(ck, content) {
            contents.push(ck);
            proof {
                assert(contents@[contents@.len() - 1] == ck);
                assert forall|c2: ContentKind| contents@.contains(c2) implies (exists|l: int|
                    0 <= l < m + 1 && #[trigger] content_candidates@[l] == c2
                        && spec_container_accepts(c2, content)) by {
                    if c2 == ck {
                        assert(content_candidates@[m as int] == c2);
                    } else {
                        assert(before.contains(c2));
                    }
                }
                assert forall|c2: ContentKind|
                    (exists|l: int|
                        0 <= l < m + 1 && #[trigger] content_candidates@[l] == c2
                            && spec_container_accepts(c2, content)) implies contents@.contains(
                    c2) by {
                    let l = choose|l: int|
                        0 <= l < m + 1 && #[trigger] content_candidates@[l] == c2
                            && spec_container_accepts(c2, content);
                    if l < m {
                        assert(before.contains(c2));
                        let w = choose|w: int| 0 <= w < before.len() && before[w] == c2;
                        assert(contents@[w] == c2);
                    } else {
                        assert(contents@[contents@.len() - 1] == c2);
                    }
                }
            }
        } else {
            proof {
                assert forall|c2: ContentKind|
                    (exists|l: int|
                        0 <= l < m + 1 && #[trigger] content_candidates@[l] == c2
                            && spec_container_accepts(c2, content)) implies contents@.contains(
                    c2) by {
                    let l = choose|l: int|
                        0 <= l < m + 1 && #[trigger] content_candidates@[l] == c2
                            && spec_container_accepts(c2, content);
                    assert(l < m);
                }
            }
        }
        m = m + 1;
    }
    proof {
        assert forall|ck: ContentKind| contents@.contains(ck) <==> spec_container_accepts(
            ck,
            content,
        ) by {
            if spec_container_accepts(ck, content) {
                assert(content_candidates@.contains(ck));
                let w = choose|w: int|
                    0 <= w < content_candidates@.len() && content_candidates@[w] == ck;
                assert(0 <= w < content_candidates@.len() && #[trigger] content_candidates@[w]
                    == ck && spec_container_accepts(ck, content));
            }
        }
    }
    (tile_types, contents)
}

/// The directions around the agent whose neighboring tile visibly bears the
/// wanted content, read off the agent's three-by-three local view.
pub fn harvest_directions(view: &Vec<Vec<Option<Tile>>>, content: ContentKind) -> (r:
    DirectionPlan)
    requires
        grid_wf(grid_view(view)),
        grid_view(view).len() == 3,
        grid_view(view)[0].len() == 3,
    ensures
        ({
            let g = grid_view(view);
            &&& r.up == (g[0][1] is Some && g[0][1].unwrap().content == content)
            &&& r.left == (g[1][0] is Some && g[1][0].unwrap().content == content)
            &&& r.right == (g[1][2] is Some && g[1][2].unwrap().content == content)
            &&& r.down == (g[2][1] is Some && g[2][1].unwrap().content == content)
        }),
{
    let ghost g = grid_view(view);
    proof {
        assert(g[0] == view@[0]@);
        assert(g[1] == view@[1]@);
        assert(g[2] == view@[2]@);
        assert(g[1].len() == 3 && g[2].len() == 3);
    }
    let up = match view[0][1] {
        Some(t) => t.content == content,
        None => false,
    };
    let left = match view[1][0] {
        Some(t) => t.content == content,
        None => false,
    };
    let right = match view[1][2] {
        Some(t) => t.content == content,
        None => false,
    };
    let down = match view[2][1] {
        Some(t) => t.content == content,
        None => false,
    };
    DirectionPlan { up, left, right, down }
}

/// The directions around the agent whose neighboring tile can take a
/// disposal of the given content and does not lie on the planned road.
pub fn disposal_directions(
    view: &Vec<Vec<Option<Tile>>>,
    robot_pos: Coord,
    planned_road: Option<&CoordPool>,
    content: ContentKind,
) -> (r: DirectionPlan)
    requires
        grid_wf(grid_view(view)),
        grid_view(view).len() == 3,
        grid_view(view)[0].len() == 3,
        robot_pos.wf(),
        robot_pos.row + 1 < crate::utils::MAX_WORLD_DIM,
        robot_pos.col + 1 < crate::utils::MAX_WORLD_DIM,
        planned_road is Some ==> planned_road.unwrap().wf(),
    ensures
        ({
            let g = grid_view(view);
            let on_road = |c: Coord|
                planned_road is Some && planned_road.unwrap()@.contains(c);
            &&& r.up == (robot_pos.row >= 1 && g[0][1] is Some && spec_can_dispose_on(
                g[0][1].unwrap(),
                content,
            ) && !(planned_road is Some && planned_road.unwrap()@.contains(
                Coord { row: (robot_pos.row - 1) as usize, col: robot_pos.col },
            )))
            &&& r.left == (robot_pos.col >= 1 && g[1][0] is Some && spec_can_dispose_on(
                g[1][0].unwrap(),
                content,
            ) && !(planned_road is Some && planned_road.unwrap()@.contains(
                Coord { row: robot_pos.row, col: (robot_pos.col - 1) as usize },
            )))
            &&& r.right == (g[1][2] is Some && spec_can_dispose_on(g[1][2].unwrap(), content)
                && !(planned_road is Some && planned_road.unwrap()@.contains(
                Coord { row: robot_pos.row, col: (robot_pos.col + 1) as usize },
            )))
            &&& r.down == (g[2][1] is Some && spec_can_dispose_on(g[2][1].unwrap(), content)
                && !(planned_road is Some && planned_road.unwrap()@.contains(
                Coord { row: (robot_pos.row + 1) as usize, col: robot_pos.col },
            )))
        }),
{
    let ghost g = grid_view(view);
    proof {
        assert(g[0] == view@[0]@);
        assert(g[1] == view@[1]@);
        assert(g[2] == view@[2]@);
        assert(g[1].len() == 3 && g[2].len() == 3);
    }
    let up = if robot_pos.row >= 1 {
        match view[0][1] {
            Some(t) => can_dispose_on(t, content) && !road_contains(
                planned_road,
                Coord::new(robot_pos.row - 1, robot_pos.col),
            ),
            None => false,
        }
    } else {
        false
    };
    let left = if robot_pos.col >= 1 {
        match view[1][0] {
            Some(t) => can_dispose_on(t, content) && !road_contains(
                planned_road,
                Coord::new(robot_pos.row, robot_pos.col - 1),
            ),
            None => false,
        }
    } else {
        false
    };
    let right = match view[1][2] {
        Some(t) => can_dispose_on(t, content) && !road_contains(
            planned_road,
            Coord::new(robot_pos.row, robot_pos.col + 1),
        ),
        None => false,
    };
    let down = match view[2][1] {
        Some(t) => can_dispose_on(t, content) && !road_contains(
            planned_road,
            Coord::new(robot_pos.row + 1, robot_pos.col),
        ),
        None => false,
    };
    DirectionPlan { up, left, right, down }
}

/// Membership of a coordinate in an optional road set.
fn road_contains(road: Option<&CoordPool>, c: Coord) -> (r: bool)
    requires
        road is Some ==> road.unwrap().wf(),
        c.wf(),
    ensures
        r == (road is Some && road.unwrap()@.contains(c)),
{
    match road {
        Some(rd) => rd.contains(c),
        None => false,
    }
}

/// The contents worth trying to dispose of when freeing backpack space: the
/// carried kinds with a positive amount, in backpack order, except the base
/// paving material, which the agent never throws away.
pub fn disposal_candidates(backpack: &Vec<(ContentKind, u64)>) -> (r: Vec<ContentKind>)
    ensures
        forall|k: int|
            0 <= k < r@.len() ==> (#[trigger] r@[k]) != ContentKind::Rock && (exists|l: int|
                0 <= l < backpack@.len() && (#[trigger] backpack@[l]).0 == r@[k]
                    && backpack@[l].1 > 0),
        forall|l: int|
            0 <= l < backpack@.len() && (#[trigger] backpack@[l]).1 > 0 && backpack@[l].0
                != ContentKind::Rock ==> r@.contains(backpack@[l].0),
{
    let mut r: Vec<ContentKind> = Vec::new();
    let mut k: usize = 0;
    while k < backpack.len()
        invariant
            k <= backpack@.len(),
            forall|i: int|
                0 <= i < r@.len() ==> (#[trigger] r@[i]) != ContentKind::Rock && (exists|
                l: int|
                    0 <= l < backpack@.len() && (#[trigger] backpack@[l]).0 == r@[i]
                        && backpack@[l].1 > 0),
            forall|l: int|
                0 <= l < k && (#[trigger] backpack@[l]).1 > 0 && backpack@[l].0
                    != ContentKind::Rock ==> r@.contains(backpack@[l].0),
        decreases backpack@.len() - k,
    {
        let (content, amount) = backpack[k];
        let ghost r0 = r@;
        if amount > 0 && content != ContentKind::Rock {
            r.push(content);
            proof {
                assert(r@[r@.len() - 1] == content);
                assert((backpack@[k as int]).0 == content && backpack@[k as int].1 > 0);
                assert forall|l: int|
                    0 <= l < k + 1 && (#[trigger] backpack@[l]).1 > 0 && backpack@[l].0
                        != ContentKind::Rock implies r@.contains(backpack@[l].0) by {
                    if l < k {
                        let w = choose|w: int| 0 <= w < r0.len() && r0[w] == backpack@[l].0;
                        assert(r@[w] == backpack@[l].0);
                    }
                }
            }
        } else {
            proof {
                assert forall|l: int|
                    0 <= l < k + 1 && (#[trigger] backpack@[l]).1 > 0 && backpack@[l].0
                        != ContentKind::Rock implies r@.contains(backpack@[l].0) by {
                    assert(l < k);
                }
            }
        }
        k = k + 1;
    }
    r
}

} // verus!
