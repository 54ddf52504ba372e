use vstd::prelude::*;
use crate::dbscan::{class_coord, cluster, map_into_db_input, Classification};
use crate::morans::spec_content_value;
use crate::tiles::{destroyable, spec_destroyable, ContentKind, Tile, TileKind};
use crate::utils::{
    get_tl_and_br_from_spatial_index, grid_view, grid_wf, spec_num_sections,
    spec_sector_bottom_right, spec_sector_top_left, ActiveRegion, Coord, Mission, MissionData,
    MissionKind, MissionStatus, MAX_WORLD_DIM,
};

verus! {

/// Neighborhood radius of the clustering pass, squared.
pub const CLUSTER_EPS_SQ: u64 = 36;

/// Minimum neighbor count that makes a sample dense.
pub const CLUSTER_MIN_POINTS: usize = 80;

/// Total amount of one destroyable content kind over the first `j` cells of
/// a row.
pub open spec fn amount_row(s: Seq<Option<Tile>>, j: int, kind: ContentKind) -> int
    decreases j,
{
    if j <= 0 {
        0
    } else {
        amount_row(s, j - 1, kind) + match s[j - 1] {
            Option::Some(t) => if t.content == kind {
                t.content_amount as int
            } else {
                0
            },
            Option::None => 0,
        }
    }
}

/// Total amount of one destroyable content kind over the first `i` rows.
pub open spec fn amount_grid(g: Seq<Seq<Option<Tile>>>, i: int, kind: ContentKind) -> int
    decreases i,
{
    if i <= 0 {
        0
    } else {
        amount_grid(g, i - 1, kind) + amount_row(g[i - 1], g[i - 1].len() as int, kind)
    }
}

proof fn lemma_amount_row_le(s: Seq<Option<Tile>>, j: int, kind: ContentKind)
    requires
        0 <= j <= s.len(),
        forall|l: int| 0 <= l < s.len() && s[l] is Some ==> (#[trigger] s[l]).unwrap().wf(),
    ensures
        0 <= amount_row(s, j, kind) <= j * 1000000000,
    decreases j,
{
    if j == 0 {
        assert(j * 1000000000 == 0) by (nonlinear_arith)
            requires j == 0;
    } else {
        lemma_amount_row_le(s, j - 1, kind);
        assert((j - 1) * 1000000000 + 1000000000 == j * 1000000000) by (nonlinear_arith);
    }
}

proof fn lemma_amount_grid_le(g: Seq<Seq<Option<Tile>>>, i: int, kind: ContentKind)
    requires
        grid_wf(g),
        0 <= i <= g.len(),
    ensures
        0 <= amount_grid(g, i, kind) <= i * (g[0].len() * 1000000000),
    decreases i,
{
    if i == 0 {
        assert(i * (g[0].len() * 1000000000) == 0) by (nonlinear_arith)
            requires i == 0;
    } else {
        lemma_amount_grid_le(g, i - 1, kind);
        let l = g[i - 1].len() as int;
        lemma_amount_row_le(g[i - 1], l, kind);
        assert(l == g[0].len());
        assert((i - 1) * (g[0].len() * 1000000000) + g[0].len() * 1000000000 == i * (g[0].len()
            * 1000000000)) by (nonlinear_arith);
        assert(l * 1000000000 == g[0].len() * 1000000000);
    }
}

/// Per-kind totals of the destroyable contents of a sector, indexed by the
/// kind's ordinal value.
pub struct ResourceTally {
    pub counts: Vec<u64>,
}

impl ResourceTally {
    /// Ten slots, one per possible ordinal (index zero stays unused).
    pub open spec fn wf(self) -> bool {
        self.counts@.len() == 10
    }

    /// The tally recorded for one destroyable kind.
    pub open spec fn spec_get(self, kind: ContentKind) -> int {
        self.counts@[spec_content_value(kind)] as int
    }

    pub fn get(&self, kind: ContentKind) -> (r: u64)
        requires
            self.wf(),
            spec_destroyable(kind),
        ensures
            r == self.spec_get(kind),
    {
        let idx: usize = match kind {
            ContentKind::Rock => 1,
            ContentKind::Tree => 2,
            ContentKind::Water => 3,
            ContentKind::Coin => 4,
            ContentKind::Fire => 5,
            ContentKind::Garbage => 6,
            ContentKind::Fish => 7,
            ContentKind::Bush => 8,
            ContentKind::JollyBlock => 9,
            _ => 0,
        };
        self.counts[idx]
    }
}

/// The dominant resource of a tally: the ordinal value with the greatest
/// total, the smallest ordinal winning ties, together with that total; none
/// when the sector yielded nothing.
pub fn most_frequent_resource(tally: &ResourceTally) -> (r: Option<(usize, u64)>)
    requires
        tally.wf(),
    ensures
        r matches Some(p) ==> (1 <= p.0 <= 9 && tally.counts@[p.0 as int] == p.1 && p.1 > 0
            && (forall|l: int| 1 <= l <= 9 ==> tally.counts@[l] <= p.1) && (forall|l: int|
            1 <= l < p.0 ==> tally.counts@[l] < p.1)),
        r is None ==> (forall|l: int| 1 <= l <= 9 ==> tally.counts@[l] == 0),
{
    let mut best_v: usize = 0;
    let mut best_n: u64 = 0;
    let mut v: usize = 1;
    while v < 10
        invariant
            tally.wf(),
            1 <= v <= 10,
            best_v < v,
            best_n > 0 ==> (1 <= best_v && tally.counts@[best_v as int] == best_n),
            forall|l: int| 1 <= l < v ==> tally.counts@[l] <= best_n,
            forall|l: int| 1 <= l < best_v ==> tally.counts@[l] < best_n,
            best_n == 0 ==> best_v == 0,
        decreases 10 - v,
    {
        if tally.counts[v] > best_n {
            best_n = tally.counts[v];
            best_v = v;
        }
        v = v + 1;
    }
    if best_n == 0 {
        None
    } else {
        Some((best_v, best_n))
    }
}

/// Analysis result of one sector: the resource tally, the mountain-tile
/// count, whether the content is spatially random, and the candidate
/// connectivity nodes in absolute coordinates.
pub struct SectorData {
    pub resources: ResourceTally,
    pub mountain_tiles: u64,
    pub is_random: bool,
    pub nodes: Vec<Coord>,
}

/// The sector cells bearing a collectible content of the given ordinal
/// value, as absolute coordinates paired with their stored amounts: exactly
/// those cells, each exactly once.
pub fn dominant_resource_tiles(
    sector: &Vec<Vec<Option<Tile>>>,
    tl: Coord,
    value: usize,
) -> (r: Vec<(Coord, u64)>)
    requires
        grid_wf(grid_view(sector)),
        tl.row + grid_view(sector).len() <= MAX_WORLD_DIM,
        tl.col + grid_view(sector)[0].len() <= MAX_WORLD_DIM,
    ensures
        forall|k: int|
            0 <= k < r@.len() ==> {
                let p = #[trigger] r@[k];
                &&& tl.row <= p.0.row < tl.row + grid_view(sector).len()
                &&& tl.col <= p.0.col < tl.col + grid_view(sector)[0].len()
                &&& grid_view(sector)[p.0.row - tl.row][p.0.col - tl.col] is Some
                &&& ({
                    let t = grid_view(sector)[p.0.row - tl.row][p.0.col - tl.col].unwrap();
                    &&& spec_destroyable(t.content)
                    &&& spec_content_value(t.content) == value
                    &&& t.content_amount == p.1
                })
            },
        forall|i: int, j: int|
            0 <= i < grid_view(sector).len() && 0 <= j < grid_view(sector)[0].len()
                && grid_view(sector)[i][j] is Some && spec_destroyable(
                (#[trigger] grid_view(sector)[i][j]).unwrap().content,
            ) && spec_content_value(grid_view(sector)[i][j].unwrap().content) == value
                ==> r@.contains(
                (
                    Coord { row: (tl.row + i) as usize, col: (tl.col + j) as usize },
                    grid_view(sector)[i][j].unwrap().content_amount as u64,
                ),
            ),
{
    let ghost g = grid_view(sector);
    let rows = sector.len();
    let cols = sector[0].len();
    proof {
        assert(g[0] == sector@[0]@);
    }
    let mut r: Vec<(Coord, u64)> = Vec::new();
    let mut i: usize = 0;
    while i < rows
        invariant
            grid_wf(g),
            g == grid_view(sector),
            rows == g.len(),
            cols == g[0].len(),
            tl.row + rows <= MAX_WORLD_DIM,
            tl.col + cols <= MAX_WORLD_DIM,
            i <= rows,
            forall|k: int|
                0 <= k < r@.len() ==> {
                    let p = #[trigger] r@[k];
                    &&& tl.row <= p.0.row < tl.row + rows
                    &&& tl.col <= p.0.col < tl.col + cols
                    &&& g[p.0.row - tl.row][p.0.col - tl.col] is Some
                    &&& ({
                        let t = g[p.0.row - tl.row][p.0.col - tl.col].unwrap();
                        &&& spec_destroyable(t.content)
                        &&& spec_content_value(t.content) == value
                        &&& t.content_amount == p.1
                    })
                },
            forall|i2: int, j2: int|
                0 <= i2 < i && 0 <= j2 < cols && g[i2][j2] is Some && spec_destroyable(
                    (#[trigger] g[i2][j2]).unwrap().content,
                ) && spec_content_value(g[i2][j2].unwrap().content) == value
                    ==> r@.contains(
                    (
                        Coord { row: (tl.row + i2) as usize, col: (tl.col + j2) as usize },
                        g[i2][j2].unwrap().content_amount as u64,
                    ),
                ),
        decreases rows - i,
    {
        proof {
            assert(g[i as int] == sector@[i as int]@);
            assert(g[i as int].len() == g[0].len());
        }
        let mut j: usize = 0;
        while j < cols
            invariant
                grid_wf(g),
                g == grid_view(sector),
                rows == g.len(),
                cols == g[0].len(),
                tl.row + rows <= MAX_WORLD_DIM,
                tl.col + cols <= MAX_WORLD_DIM,
                i < rows,
                j <= cols,
                g[i as int] == sector@[i as int]@,
                forall|k: int|
                    0 <= k < r@.len() ==> {
                        let p = #[trigger] r@[k];
                        &&& tl.row <= p.0.row < tl.row + rows
                        &&& tl.col <= p.0.col < tl.col + cols
                        &&& g[p.0.row - tl.row][p.0.col - tl.col] is Some
                        &&& ({
                            let t = g[p.0.row - tl.row][p.0.col - tl.col].unwrap();
                            &&& spec_destroyable(t.content)
                            &&& spec_content_value(t.content) == value
                            &&& t.content_amount == p.1
                        })
                    },
                forall|i2: int, j2: int|
                    0 <= i2 < i && 0 <= j2 < cols && g[i2][j2] is Some && spec_destroyable(
                        (#[trigger] g[i2][j2]).unwrap().content,
                    ) && spec_content_value(g[i2][j2].unwrap().content) == value
                        ==> r@.contains(
                        (
                            Coord {
                                row: (tl.row + i2) as usize,
                                col: (tl.col + j2) as usize,
                            },
                            g[i2][j2].unwrap().content_amount as u64,
                        ),
                    ),
                forall|j2: int|
                    0 <= j2 < j && g[i as int][j2] is Some && spec_destroyable(
                        (#[trigger] g[i as int][j2]).unwrap().content,
                    ) && spec_content_value(g[i as int][j2].unwrap().content) == value
                        ==> r@.contains(
                        (
                            Coord {
                                row: (tl.row + i) as usize,
                                col: (tl.col + j2) as usize,
                            },
                            g[i as int][j2].unwrap().content_amount as u64,
                        ),
                    ),
            decreases cols - j,
        {
            let ghost r0 = r@;
            match sector[i][j] {
                Some(t) => {
                    if destroyable(t.content) {
                        let tv: usize = match t.content {
                            ContentKind::Rock => 1,
                            ContentKind::Tree => 2,
                            ContentKind::Water => 3,
                            ContentKind::Coin => 4,
                            ContentKind::Fire => 5,
                            ContentKind::Garbage => 6,
                            ContentKind::Fish => 7,
                            ContentKind::Bush => 8,
                            ContentKind::JollyBlock => 9,
                            _ => 0,
                        };
                        if tv == value {
                            r.push((Coord::new(tl.row + i, tl.col + j),
                                t.content_amount as u64));
                            proof {
                                assert(r@[r@.len() - 1] == (
                                    Coord {
                                        row: (tl.row + i) as usize,
                                        col: (tl.col + j) as usize,
                                    },
                                    t.content_amount as u64,
                                ));
                            }
                        }
                    }
                },
                None => {},
            }
            proof {
                assert forall|j2: int|
                    0 <= j2 < j + 1 && g[i as int][j2] is Some && spec_destroyable(
                        (#[trigger] g[i as int][j2]).unwrap().content,
                    ) && spec_content_value(g[i as int][j2].unwrap().content) == value
                        implies r@.contains(
                    (
                        Coord { row: (tl.row + i) as usize, col: (tl.col + j2) as usize },
                        g[i as int][j2].unwrap().content_amount as u64,
                    ),
                ) by {
                    let entry = (
                        Coord { row: (tl.row + i) as usize, col: (tl.col + j2) as usize },
                        g[i as int][j2].unwrap().content_amount as u64,
                    );
                    if j2 < j {
                        assert(r0.contains(entry));
                        let w = choose|w: int| 0 <= w < r0.len() && r0[w] == entry;
                        assert(r@[w] == entry);
                    } else {
                        assert(r@[r@.len() - 1] == entry);
                    }
                }
                assert forall|i2: int, j2: int|
                    0 <= i2 < i && 0 <= j2 < cols && g[i2][j2] is Some && spec_destroyable(
                        (#[trigger] g[i2][j2]).unwrap().content,
                    ) && spec_content_value(g[i2][j2].unwrap().content) == value
                        implies r@.contains(
                    (
                        Coord { row: (tl.row + i2) as usize, col: (tl.col + j2) as usize },
                        g[i2][j2].unwrap().content_amount as u64,
                    ),
                ) by {
                    let entry = (
                        Coord { row: (tl.row + i2) as usize, col: (tl.col + j2) as usize },
                        g[i2][j2].unwrap().content_amount as u64,
                    );
                    assert(r0.contains(entry));
                    let w = choose|w: int| 0 <= w < r0.len() && r0[w] == entry;
                    assert(r@[w] == entry);
                }
            }
            j = j + 1;
        }
        i = i + 1;
    }
    r
}

/// Mountain tiles among the first `j` cells of a row.
pub open spec fn mountain_row(s: Seq<Option<Tile>>, j: int) -> int
    decreases j,
{
    if j <= 0 {
        0
    } else {
        mountain_row(s, j - 1) + match s[j - 1] {
            Option::Some(t) => if t.tile_type == TileKind::Mountain {
                1int
            } else {
                0int
            },
            Option::None => 0,
        }
    }
}

/// Mountain tiles among the first `i` rows.
pub open spec fn mountain_grid(g: Seq<Seq<Option<Tile>>>, i: int) -> int
    decreases i,
{
    if i <= 0 {
        0
    } else {
        mountain_grid(g, i - 1) + mountain_row(g[i - 1], g[i - 1].len() as int)
    }
}

proof fn lemma_mountain_row_le(s: Seq<Option<Tile>>, j: int)
    requires
        0 <= j <= s.len(),
    ensures
        0 <= mountain_row(s, j) <= j,
    decreases j,
{
    if j > 0 {
        lemma_mountain_row_le(s, j - 1);
    }
}

proof fn lemma_mountain_grid_le(g: Seq<Seq<Option<Tile>>>, i: int)
    requires
        grid_wf(g),
        0 <= i <= g.len(),
    ensures
        0 <= mountain_grid(g, i) <= i * g[0].len(),
    decreases i,
{
    if i == 0 {
        assert(i * g[0].len() == 0) by (nonlinear_arith)
            requires i == 0;
    } else {
        lemma_mountain_grid_le(g, i - 1);
        let l = g[i - 1].len() as int;
        lemma_mountain_row_le(g[i - 1], l);
        assert(l == g[0].len());
        assert((i - 1) * g[0].len() + g[0].len() == i * g[0].len()) by (nonlinear_arith);
    }
}

/// Counts the sector's mountain tiles.
pub fn count_mountain_tiles(sector: &Vec<Vec<Option<Tile>>>) -> (r: u64)
    requires
        grid_wf(grid_view(sector)),
    ensures
        r == mountain_grid(grid_view(sector), grid_view(sector).len() as int),
{
    let ghost g = grid_view(sector);
    let rows = sector.len();
    let mut count: u64 = 0;
    let mut i: usize = 0;
    while i < rows
        invariant
            grid_wf(g),
            g == grid_view(sector),
            rows == g.len(),
            i <= rows,
            count == mountain_grid(g, i as int),
            count <= 2000000000000,
        decreases rows - i,
    {
        let cols = sector[i].len();
        proof {
            assert(g[i as int] == sector@[i as int]@);
        }
        let mut j: usize = 0;
        while j < cols
            invariant
                grid_wf(g),
                g == grid_view(sector),
                rows == g.len(),
                i < rows,
                j <= cols,
                g[i as int] == sector@[i as int]@,
                cols == g[i as int].len(),
                count == mountain_grid(g, i as int) + mountain_row(g[i as int], j as int),
                count <= 2000000000000,
            decreases cols - j,
        {
            match sector[i][j] {
                Some(t) => {
                    if t.tile_type == TileKind::Mountain {
                        count = count + 1;
                    }
                },
                None => {},
            }
            proof {
                lemma_mountain_grid_le(g, i as int);
                lemma_mountain_row_le(g[i as int], j + 1);
                assert((i as int) * g[0].len() + (j + 1) <= 2000000000000) by (nonlinear_arith)
                    requires
                        0 <= i as int <= 1000000,
                        0 <= g[0].len() <= 1000000,
                        0 <= j + 1 <= 1000000;
            }
            j = j + 1;
        }
        proof {
            assert(mountain_grid(g, i + 1) == mountain_grid(g, i as int) + mountain_row(
                g[i as int],
                g[i as int].len() as int,
            ));
        }
        i = i + 1;
    }
    count
}

/// Tallies the destroyable contents of the sector: one total per content
/// kind, summed over every observed tile bearing that kind.
pub fn sector_collectable(sector: &Vec<Vec<Option<Tile>>>) -> (r: ResourceTally)
    requires
        grid_wf(grid_view(sector)),
        grid_view(sector).len() <= 100,
        grid_view(sector)[0].len() <= 100,
    ensures
        r.wf(),
        forall|kind: ContentKind|
            spec_destroyable(kind) ==> r.counts@[#[trigger] spec_content_value(kind)]
                == amount_grid(grid_view(sector), grid_view(sector).len() as int, kind),
{
    let ghost g = grid_view(sector);
    let rows = sector.len();
    let mut counts: Vec<u64> = Vec::new();
    let mut z: usize = 0;
    while z < 10
        invariant
            z <= 10,
            counts@.len() == z,
            forall|l: int| 0 <= l < z ==> #[trigger] counts@[l] == 0,
        decreases 10 - z,
    {
        counts.push(0);
        z = z + 1;
    }
    let mut i: usize = 0;
    while i < rows
        invariant
            grid_wf(g),
            g == grid_view(sector),
            rows == g.len(),
            rows <= 100,
            g[0].len() <= 100,
            i <= rows,
            counts@.len() == 10,
            counts@[0] == 0,
            forall|kind: ContentKind|
                spec_destroyable(kind) ==> counts@[#[trigger] spec_content_value(kind)]
                    == amount_grid(g, i as int, kind),
            forall|l: int| 0 <= l < 10 ==> #[trigger] counts@[l] <= 100000000000000,
        decreases rows - i,
    {
        let cols = sector[i].len();
        proof {
            assert(g[i as int] == sector@[i as int]@);
        }
        let mut j: usize = 0;
        while j < cols
            invariant
                grid_wf(g),
                g == grid_view(sector),
                rows == g.len(),
                rows <= 100,
                g[0].len() <= 100,
                i < rows,
                j <= cols,
                g[i as int] == sector@[i as int]@,
                cols == g[i as int].len(),
                counts@.len() == 10,
                counts@[0] == 0,
                forall|kind: ContentKind|
                    spec_destroyable(kind) ==> counts@[#[trigger] spec_content_value(kind)]
                        == amount_grid(g, i as int, kind) + amount_row(
                        g[i as int],
                        j as int,
                        kind,
                    ),
                forall|l: int| 0 <= l < 10 ==> #[trigger] counts@[l] <= 200000000000000,
            decreases cols - j,
        {
            match sector[i][j] {
                Some(t) => {
                    if destroyable(t.content) {
                        let idx: usize = match t.content {
                            ContentKind::Rock => 1,
                            ContentKind::Tree => 2,
                            ContentKind::Water => 3,
                            ContentKind::Coin => 4,
                            ContentKind::Fire => 5,
                            ContentKind::Garbage => 6,
                            ContentKind::Fish => 7,
                            ContentKind::Bush => 8,
                            ContentKind::JollyBlock => 9,
                            _ => 0,
                        };
                        proof {
                            assert(idx == spec_content_value(t.content));
                            assert(t.wf());
                        }
                        proof {
                            lemma_amount_grid_le(g, i as int, t.content);
                            lemma_amount_row_le(g[i as int], j + 1, t.content);
                            assert((i as int) * (g[0].len() * 1000000000) + (j + 1) * 1000000000
                                <= 20000000000000) by (nonlinear_arith)
                                requires
                                    0 <= i as int <= 100,
                                    0 <= g[0].len() <= 100,
                                    0 <= j + 1 <= 100;
                            assert(amount_row(g[i as int], j + 1, t.content) == amount_row(
                                g[i as int],
                                j as int,
                                t.content,
                            ) + t.content_amount);
                        }
                        let cur = counts[idx];
                        counts[idx] = cur + (t.content_amount as u64);
                        proof {
                            assert forall|kind: ContentKind| spec_destroyable(kind)
                                implies counts@[#[trigger] spec_content_value(kind)]
                                    == amount_grid(g, i as int, kind) + amount_row(
                                    g[i as int],
                                    j + 1,
                                    kind,
                                ) by {
                                assert(amount_row(g[i as int], j + 1, kind) == amount_row(
                                    g[i as int],
                                    j as int,
                                    kind,
                                ) + (if kind == t.content {
                                    t.content_amount as int
                                } else {
                                    0
                                }));
                                if kind != t.content {
                                    assert(spec_content_value(kind) != spec_content_value(
                                        t.content,
                                    ));
                                }
                            }
                        }
                    } else {
                        proof {
                            assert forall|kind: ContentKind| spec_destroyable(kind)
                                implies counts@[#[trigger] spec_content_value(kind)]
                                    == amount_grid(g, i as int, kind) + amount_row(
                                    g[i as int],
                                    j + 1,
                                    kind,
                                ) by {
                                assert(kind != t.content);
                            }
                        }
                    }
                },
                None => {},
            }
            j = j + 1;
        }
        proof {
            assert forall|kind: ContentKind| spec_destroyable(kind) implies counts@[
            #[trigger] spec_content_value(kind)] == amount_grid(g, i + 1, kind) by {
                assert(amount_grid(g, i + 1, kind) == amount_grid(g, i as int, kind)
                    + amount_row(g[i as int], g[i as int].len() as int, kind));
            }
            assert forall|l: int| 0 <= l < 10 implies #[trigger] counts@[l]
                <= 100000000000000 by {
                let kind = content_of_value(l);
                if 1 <= l <= 9 {
                    assert(spec_content_value(kind) == l);
                    lemma_amount_grid_le(g, i + 1, kind);
                    assert((i + 1) * (g[0].len() * 1000000000) <= 100000000000000)
                        by (nonlinear_arith)
                        requires 0 <= i + 1 <= 100, 0 <= g[0].len() <= 100;
                } else {
                    assert(counts@[l] == 0);
                }
            }
        }
        i = i + 1;
    }
    ResourceTally { counts }
}

/// The destroyable kind with a given ordinal value.
pub open spec fn content_of_value(v: int) -> ContentKind {
    if v == 1 {
        ContentKind::Rock
    } else if v == 2 {
        ContentKind::Tree
    } else if v == 3 {
        ContentKind::Water
    } else if v == 4 {
        ContentKind::Coin
    } else if v == 5 {
        ContentKind::Fire
    } else if v == 6 {
        ContentKind::Garbage
    } else if v == 7 {
        ContentKind::Fish
    } else if v == 8 {
        ContentKind::Bush
    } else if v == 9 {
        ContentKind::JollyBlock
    } else {
        ContentKind::Empty
    }
}

/// A tile on which a road network node may rest: observed ground of a
/// buildable kind whose content is absent or removable.
pub open spec fn zone_eligible(g: Seq<Seq<Option<Tile>>>, c: Coord) -> bool {
    &&& c.row < g.len()
    &&& c.col < g[c.row as int].len()
    &&& g[c.row as int][c.col as int] is Some
    &&& {
        let t = g[c.row as int][c.col as int].unwrap();
        &&& (t.tile_type == TileKind::Grass || t.tile_type == TileKind::Hill || t.tile_type
            == TileKind::Street || t.tile_type == TileKind::Mountain)
        &&& (t.content == ContentKind::Empty || spec_destroyable(t.content))
    }
}

/// The up-to-four grid neighbors of a cell that exist in an r-by-c grid.
pub fn get_neighbours(i: usize, j: usize, rows: usize, cols: usize) -> (r: Vec<Coord>)
    requires
        i < rows,
        j < cols,
        rows <= MAX_WORLD_DIM,
        cols <= MAX_WORLD_DIM,
    ensures
        forall|k: int|
            0 <= k < r@.len() ==> {
                let c = #[trigger] r@[k];
                &&& c.row < rows
                &&& c.col < cols
                &&& ((c.row == i - 1 && c.col == j) || (c.row == i + 1 && c.col == j) || (c.row
                    == i && c.col == j - 1) || (c.row == i && c.col == j + 1))
            },
        r@.len() <= 4,
{
    let mut r: Vec<Coord> = Vec::new();
    if i > 0 {
        r.push(Coord::new(i - 1, j));
    }
    if i + 1 < rows {
        r.push(Coord::new(i + 1, j));
    }
    if j > 0 {
        r.push(Coord::new(i, j - 1));
    }
    if j + 1 < cols {
        r.push(Coord::new(i, j + 1));
    }
    r
}

/// Sum of the row coordinates of the first `k` entries.
pub open spec fn sum_rows(s: Seq<Coord>, k: int) -> int
    decreases k,
{
    if k <= 0 {
        0
    } else {
        sum_rows(s, k - 1) + s[k - 1].row
    }
}

/// Sum of the column coordinates of the first `k` entries.
pub open spec fn sum_cols(s: Seq<Coord>, k: int) -> int
    decreases k,
{
    if k <= 0 {
        0
    } else {
        sum_cols(s, k - 1) + s[k - 1].col
    }
}

proof fn lemma_sum_coords_le(s: Seq<Coord>, k: int)
    requires
        0 <= k <= s.len(),
        forall|l: int| 0 <= l < s.len() ==> (#[trigger] s[l]).wf(),
    ensures
        0 <= sum_rows(s, k) <= k * (MAX_WORLD_DIM - 1),
        0 <= sum_cols(s, k) <= k * (MAX_WORLD_DIM - 1),
    decreases k,
{
    if k == 0 {
        assert(k * (MAX_WORLD_DIM - 1) == 0) by (nonlinear_arith)
            requires k == 0;
    } else {
        lemma_sum_coords_le(s, k - 1);
        assert((k - 1) * (MAX_WORLD_DIM - 1) + (MAX_WORLD_DIM - 1) == k * (MAX_WORLD_DIM - 1))
            by (nonlinear_arith);
    }
}

/// Translating every coordinate by a fixed offset shifts the prefix sums
/// by the prefix length times the offset.
proof fn lemma_sum_shift(s1: Seq<Coord>, s2: Seq<Coord>, dr: int, dc: int, k: int)
    requires
        0 <= k <= s1.len(),
        s2.len() == s1.len(),
        forall|l: int|
            0 <= l < s1.len() ==> (#[trigger] s2[l]).row == s1[l].row + dr && s2[l].col
                == s1[l].col + dc,
    ensures
        sum_rows(s2, k) == sum_rows(s1, k) + k * dr,
        sum_cols(s2, k) == sum_cols(s1, k) + k * dc,
    decreases k,
{
    if k <= 0 {
        assert(k * dr == 0 && k * dc == 0) by (nonlinear_arith)
            requires k == 0;
    } else {
        lemma_sum_shift(s1, s2, dr, dc, k - 1);
        assert((k - 1) * dr + dr == k * dr) by (nonlinear_arith);
        assert((k - 1) * dc + dc == k * dc) by (nonlinear_arith);
    }
}

/// The absolute coordinates of the core members of cluster `cid` among the
/// first `k` classification entries, in sample order.
pub open spec fn core_members(
    cl: Seq<Classification>,
    tl: Coord,
    cid: int,
    k: int,
) -> Seq<Coord>
    decreases k,
{
    if k <= 0 {
        Seq::empty()
    } else {
        let rest = core_members(cl, tl, cid, k - 1);
        if cl[k - 1] is Core && cl[k - 1]->Core_1 == cid {
            rest.push(
                Coord {
                    row: (tl.row + cl[k - 1]->Core_0.row) as usize,
                    col: (tl.col + cl[k - 1]->Core_0.col) as usize,
                },
            )
        } else {
            rest
        }
    }
}

/// The nodes a classification yields: for each cluster id below `cid` in
/// order, the rounded-down centroid of its absolute core members, skipping
/// ids with no core member.
pub open spec fn cluster_nodes(cl: Seq<Classification>, tl: Coord, cid: int) -> Seq<Coord>
    decreases cid,
{
    if cid <= 0 {
        Seq::empty()
    } else {
        let rest = cluster_nodes(cl, tl, cid - 1);
        let mem = core_members(cl, tl, cid - 1, cl.len() as int);
        if mem.len() >= 1 {
            rest.push(
                Coord {
                    row: (sum_rows(mem, mem.len() as int) / (mem.len() as int)) as usize,
                    col: (sum_cols(mem, mem.len() as int) / (mem.len() as int)) as usize,
                },
            )
        } else {
            rest
        }
    }
}

/// The coordinate-wise mean of a non-empty list of coordinates, rounded
/// down.
pub fn get_centroid(cores: &Vec<Coord>) -> (r: Coord)
    requires
        cores@.len() >= 1,
        cores@.len() <= 100000000,
        forall|l: int| 0 <= l < cores@.len() ==> (#[trigger] cores@[l]).wf(),
    ensures
        r.row == sum_rows(cores@, cores@.len() as int) / (cores@.len() as int),
        r.col == sum_cols(cores@, cores@.len() as int) / (cores@.len() as int),
        r.wf(),
{
    let mut x: u64 = 0;
    let mut y: u64 = 0;
    let mut k: usize = 0;
    let n = cores.len();
    while k < n
        invariant
            n == cores@.len(),
            1 <= n <= 100000000,
            forall|l: int| 0 <= l < cores@.len() ==> (#[trigger] cores@[l]).wf(),
            k <= n,
            x == sum_rows(cores@, k as int),
            y == sum_cols(cores@, k as int),
            x <= 1000000000000000,
            y <= 1000000000000000,
        decreases n - k,
    {
        proof {
            lemma_sum_coords_le(cores@, k + 1);
            assert((k + 1) * (MAX_WORLD_DIM - 1) <= 1000000000000000) by (nonlinear_arith)
                requires 0 <= k + 1 <= 100000001;
        }
        x = x + (cores[k].row as u64);
        y = y + (cores[k].col as u64);
        k = k + 1;
    }
    let row = (x / (n as u64)) as usize;
    let col = (y / (n as u64)) as usize;
    proof {
        lemma_sum_coords_le(cores@, n as int);
        assert(sum_rows(cores@, n as int) / (n as int) <= MAX_WORLD_DIM - 1)
            by (nonlinear_arith)
            requires
                n >= 1,
                0 <= sum_rows(cores@, n as int) <= (n as int) * (MAX_WORLD_DIM - 1);
        assert(sum_cols(cores@, n as int) / (n as int) <= MAX_WORLD_DIM - 1)
            by (nonlinear_arith)
            requires
                n >= 1,
                0 <= sum_cols(cores@, n as int) <= (n as int) * (MAX_WORLD_DIM - 1);
    }
    Coord { row, col }
}

/// Weighted row sum of the first `k` entries.
pub open spec fn wsum_rows(s: Seq<(Coord, u64)>, k: int) -> int
    decreases k,
{
    if k <= 0 {
        0
    } else {
        wsum_rows(s, k - 1) + s[k - 1].0.row * s[k - 1].1
    }
}

/// Weighted column sum of the first `k` entries.
pub open spec fn wsum_cols(s: Seq<(Coord, u64)>, k: int) -> int
    decreases k,
{
    if k <= 0 {
        0
    } else {
        wsum_cols(s, k - 1) + s[k - 1].0.col * s[k - 1].1
    }
}

proof fn lemma_wsum_le(s: Seq<(Coord, u64)>, k: int)
    requires
        0 <= k <= s.len(),
        forall|l: int|
            0 <= l < s.len() ==> (#[trigger] s[l]).0.wf() && s[l].1 <= 1000000000,
    ensures
        0 <= wsum_rows(s, k) <= k * 1000000000000000,
        0 <= wsum_cols(s, k) <= k * 1000000000000000,
    decreases k,
{
    if k == 0 {
        assert(k * 1000000000000000 == 0) by (nonlinear_arith)
            requires k == 0;
    } else {
        lemma_wsum_le(s, k - 1);
        assert(0 <= s[k - 1].0.row * s[k - 1].1 <= 1000000000000000) by (nonlinear_arith)
            requires 0 <= s[k - 1].0.row < 1000000, 0 <= s[k - 1].1 <= 1000000000;
        assert(0 <= s[k - 1].0.col * s[k - 1].1 <= 1000000000000000) by (nonlinear_arith)
            requires 0 <= s[k - 1].0.col < 1000000, 0 <= s[k - 1].1 <= 1000000000;
        assert((k - 1) * 1000000000000000 + 1000000000000000 == k * 1000000000000000)
            by (nonlinear_arith);
    }
}

/// The weight-averaged coordinate of a list of weighted coordinates, with
/// the divisor supplied by the caller.
pub fn get_weighted_centroid(cores: &Vec<(Coord, u64)>, total: u64) -> (r: Coord)
    requires
        total >= 1,
        cores@.len() <= 10000,
        forall|l: int|
            0 <= l < cores@.len() ==> (#[trigger] cores@[l]).0.wf() && cores@[l].1
                <= 1000000000,
        wsum_rows(cores@, cores@.len() as int) / (total as int) < MAX_WORLD_DIM,
        wsum_cols(cores@, cores@.len() as int) / (total as int) < MAX_WORLD_DIM,
    ensures
        r.row == wsum_rows(cores@, cores@.len() as int) / (total as int),
        r.col == wsum_cols(cores@, cores@.len() as int) / (total as int),
        r.wf(),
{
    let mut x: u128 = 0;
    let mut y: u128 = 0;
    let mut k: usize = 0;
    let n = cores.len();
    while k < n
        invariant
            n == cores@.len(),
            n <= 10000,
            forall|l: int|
                0 <= l < cores@.len() ==> (#[trigger] cores@[l]).0.wf() && cores@[l].1
                    <= 1000000000,
            k <= n,
            x == wsum_rows(cores@, k as int),
            y == wsum_cols(cores@, k as int),
            x <= 10000000000000000000,
            y <= 10000000000000000000,
        decreases n - k,
    {
        proof {
            lemma_wsum_le(cores@, k + 1);
            assert((k + 1) * 1000000000000000 <= 10000000000000000000) by (nonlinear_arith)
                requires 0 <= k + 1 <= 10000;
            assert(0 <= (cores@[k as int].0.row as int) * (cores@[k as int].1 as int)
                <= 1000000000000000) by (nonlinear_arith)
                requires
                    0 <= cores@[k as int].0.row < 1000000,
                    0 <= cores@[k as int].1 <= 1000000000;
            assert(0 <= (cores@[k as int].0.col as int) * (cores@[k as int].1 as int)
                <= 1000000000000000) by (nonlinear_arith)
                requires
                    0 <= cores@[k as int].0.col < 1000000,
                    0 <= cores@[k as int].1 <= 1000000000;
        }
        let entry = cores[k];
        x = x + (entry.0.row as u128) * (entry.1 as u128);
        y = y + (entry.0.col as u128) * (entry.1 as u128);
        k = k + 1;
    }
    let row = (x / (total as u128)) as usize;
    let col = (y / (total as u128)) as usize;
    Coord { row, col }
}

/// Whether the sector's content is statistically indistinguishable from
/// random, by the autocorrelation ratio against the one-tenth threshold.
pub fn is_content_random(sector: &Vec<Vec<Option<Tile>>>) -> (r: bool)
    requires
        grid_wf(grid_view(sector)),
        grid_view(sector).len() == grid_view(sector)[0].len(),
        grid_view(sector).len() <= 100,
    ensures
        exists|v: Seq<Seq<u8>>|
            #[trigger] crate::morans::values_match(grid_view(sector), v)
                && crate::morans::value_grid_wf(v) && r == (crate::morans::spec_morans_den(v)
                == 0 || 10 * crate::morans::spec_morans_num(v)
                < crate::morans::spec_morans_den(v)),
{
    let m = crate::morans::morans_i(sector);
    let r = m.is_random();
    proof {
        let v = choose|v: Seq<Seq<u8>>|
            #[trigger] crate::morans::values_match(grid_view(sector), v)
                && crate::morans::value_grid_wf(v) && m.num == crate::morans::spec_morans_num(v)
                && m.den == crate::morans::spec_morans_den(v);
        assert(crate::morans::values_match(grid_view(sector), v)
            && crate::morans::value_grid_wf(v) && r == (crate::morans::spec_morans_den(v) == 0
            || 10 * crate::morans::spec_morans_num(v) < crate::morans::spec_morans_den(v)));
    }
    r
}

/// The largest 4-connected patch of node-eligible tiles found by a flood
/// fill over the sector; every returned coordinate is eligible and listed
/// once.
pub fn find_largest_connected_subset(map: &Vec<Vec<Option<Tile>>>) -> (r: Vec<Coord>)
    requires
        grid_wf(grid_view(map)),
        grid_view(map).len() <= 1000,
        grid_view(map)[0].len() <= 1000,
    ensures
        forall|k: int| 0 <= k < r@.len() ==> zone_eligible(grid_view(map), #[trigger] r@[k]),
        forall|k1: int, k2: int| 0 <= k1 < k2 < r@.len() ==> r@[k1] != r@[k2],
        forall|k: int| 0 <= k < r@.len() ==> (#[trigger] r@[k]).wf(),
        (exists|c: Coord| c.wf() && #[trigger] zone_eligible(grid_view(map), c)) ==> r@.len()
            >= 1,
        r@.len() <= grid_view(map).len() * grid_view(map)[0].len(),
{
    let ghost g = grid_view(map);
    let rows = map.len();
    let cols = map[0].len();
    proof {
        assert(g[0] == map@[0]@);
    }
    let mut visited: Vec<bool> = Vec::new();
    let mut z: usize = 0;
    proof {
        assert(0 <= rows * cols <= 1000000) by (nonlinear_arith)
            requires 0 <= rows <= 1000, 0 <= cols <= 1000;
    }
    let total = rows * cols;
    while z < total
        invariant
            z <= total,
            visited@.len() == z,
            forall|k: int| 0 <= k < z ==> #[trigger] visited@[k] == false,
        decreases total - z,
    {
        visited.push(false);
        z = z + 1;
    }
    proof {
        assert forall|c: Coord|
            c.wf() && #[trigger] zone_eligible(g, c) implies !visited@[c.row * cols
            + c.col] by {
            assert(c.row < rows && c.col < g[c.row as int].len());
            assert(g[c.row as int].len() == cols);
            assert(0 <= c.row * cols + c.col < total) by (nonlinear_arith)
                requires
                    0 <= c.row < rows,
                    0 <= c.col < cols,
                    total == rows * cols;
        }
    }
    let mut largest_subset: Vec<Coord> = Vec::new();
    let mut si: usize = 0;
    while si < rows
        invariant
            grid_wf(g),
            g == grid_view(map),
            rows == g.len(),
            cols == g[0].len(),
            rows <= 1000,
            cols <= 1000,
            total == rows * cols,
            total <= 1000000,
            si <= rows,
            visited@.len() == total,
            forall|k: int|
                0 <= k < largest_subset@.len() ==> zone_eligible(
                    g,
                    #[trigger] largest_subset@[k],
                ) && largest_subset@[k].wf(),
            forall|k1: int, k2: int|
                0 <= k1 < k2 < largest_subset@.len() ==> largest_subset@[k1]
                    != largest_subset@[k2],
            forall|c: Coord|
                c.wf() && #[trigger] zone_eligible(g, c) && visited@[c.row * cols + c.col]
                    ==> largest_subset@.len() >= 1,
            forall|i2: int, j2: int|
                0 <= i2 < si && 0 <= j2 < cols ==> visited@[#[trigger] (i2 * cols + j2)],
            largest_subset@.len() <= total,
        decreases rows - si,
    {
        let mut sj: usize = 0;
        while sj < cols
            invariant
                grid_wf(g),
                g == grid_view(map),
                rows == g.len(),
                cols == g[0].len(),
                rows <= 1000,
                cols <= 1000,
                total == rows * cols,
                total <= 1000000,
                si < rows,
                sj <= cols,
                visited@.len() == total,
                forall|k: int|
                    0 <= k < largest_subset@.len() ==> zone_eligible(
                        g,
                        #[trigger] largest_subset@[k],
                    ) && largest_subset@[k].wf(),
                forall|k1: int, k2: int|
                    0 <= k1 < k2 < largest_subset@.len() ==> largest_subset@[k1]
                        != largest_subset@[k2],
                forall|c: Coord|
                    c.wf() && #[trigger] zone_eligible(g, c) && visited@[c.row * cols
                        + c.col] ==> largest_subset@.len() >= 1,
                forall|i2: int, j2: int|
                    0 <= i2 < si && 0 <= j2 < cols ==> visited@[#[trigger] (i2 * cols
                        + j2)],
                forall|j2: int|
                    0 <= j2 < sj ==> visited@[#[trigger] ((si as int) * cols + j2)],
                largest_subset@.len() <= total,
            decreases cols - sj,
        {
            let ghost vstart = visited@;
            let ghost lstart = largest_subset@;
            let subset = flood_from(map, &mut visited, si, sj, rows, cols);
            if subset.len() > largest_subset.len() {
                largest_subset = subset;
            }
            proof {
                assert forall|c: Coord|
                    c.wf() && #[trigger] zone_eligible(g, c) && visited@[c.row * cols
                        + c.col] implies largest_subset@.len() >= 1 by {
                    if !vstart[c.row * cols + c.col] {
                        assert(subset@.contains(c));
                    } else {
                        assert(lstart.len() >= 1);
                    }
                }
                assert forall|i2: int, j2: int|
                    0 <= i2 < si && 0 <= j2 < cols implies visited@[#[trigger] (i2 * cols
                    + j2)] by {
                    assert(0 <= i2 * cols + j2 < total) by (nonlinear_arith)
                        requires
                            0 <= i2 < si,
                            si < rows,
                            0 <= j2 < cols,
                            total == rows * cols;
                    assert(vstart[i2 * cols + j2]);
                }
                assert forall|j2: int|
                    0 <= j2 < sj + 1 implies visited@[#[trigger] ((si as int) * cols
                    + j2)] by {
                    assert(0 <= (si as int) * cols + j2 < total) by (nonlinear_arith)
                        requires
                            0 <= si < rows,
                            0 <= j2 < cols,
                            total == rows * cols;
                    if j2 < sj {
                        assert(vstart[(si as int) * cols + j2]);
                    }
                }
            }
            sj = sj + 1;
        }
        si = si + 1;
    }
    proof {
        if exists|c: Coord| c.wf() && #[trigger] zone_eligible(g, c) {
            let c = choose|c: Coord| c.wf() && #[trigger] zone_eligible(g, c);
            assert(c.row < rows && c.col < cols);
            assert(visited@[c.row * cols + c.col]);
        }
    }
    largest_subset
}

/// One flood fill from a seed cell: walks 4-connected buildable ground,
/// marking cells visited, and collects the eligible ones not seen before.
fn flood_from(
    map: &Vec<Vec<Option<Tile>>>,
    visited: &mut Vec<bool>,
    si: usize,
    sj: usize,
    rows: usize,
    cols: usize,
) -> (r: Vec<Coord>)
    requires
        grid_wf(grid_view(map)),
        rows == grid_view(map).len(),
        cols == grid_view(map)[0].len(),
        rows <= 1000,
        cols <= 1000,
        si < rows,
        sj < cols,
        old(visited)@.len() == rows * cols,
    ensures
        final(visited)@.len() == rows * cols,
        forall|k: int| 0 <= k < r@.len() ==> zone_eligible(grid_view(map), #[trigger] r@[k])
            && r@[k].wf(),
        forall|k1: int, k2: int| 0 <= k1 < k2 < r@.len() ==> r@[k1] != r@[k2],
        forall|k: int| 0 <= k < rows * cols && old(visited)@[k] ==> final(visited)@[k],
        final(visited)@[si * cols + sj],
        forall|c: Coord|
            c.wf() && #[trigger] zone_eligible(grid_view(map), c) && final(visited)@[c.row
                * cols + c.col] && !old(visited)@[c.row * cols + c.col] ==> r@.contains(c),
        r@.len() <= rows * cols,
    {
    let ghost g = grid_view(map);
    let mut subset: Vec<Coord> = Vec::new();
    let mut stack: Vec<Coord> = Vec::new();
    stack.push(Coord::new(si, sj));
    proof {
        assert(stack@[0] == (Coord { row: si, col: sj }));
        assert(stack@.contains(Coord { row: si, col: sj }));
    }
    proof {
        assert(0 <= rows * cols <= 1000000) by (nonlinear_arith)
            requires 0 <= rows <= 1000, 0 <= cols <= 1000;
        crate::dbscan::lemma_count_unvisited_le(visited@, visited@.len() as int);
    }
    let total = rows * cols;
    proof {
        crate::dbscan::lemma_count_unvisited_le(visited@, visited@.len() as int);
    }
    let mut budget: usize = 5 * total + 1;
    while budget > 0 && stack.len() > 0
        invariant
            grid_wf(g),
            g == grid_view(map),
            rows == g.len(),
            cols == g[0].len(),
            rows <= 1000,
            cols <= 1000,
            total == rows * cols,
            total <= 1000000,
            visited@.len() == total,
            forall|k: int|
                0 <= k < stack@.len() ==> (#[trigger] stack@[k]).row < rows
                    && stack@[k].col < cols,
            forall|k: int|
                0 <= k < subset@.len() ==> zone_eligible(g, #[trigger] subset@[k])
                    && subset@[k].wf() && visited@[subset@[k].row * cols + subset@[k].col]
                    && subset@[k].row * cols + subset@[k].col < total,
            forall|k1: int, k2: int| 0 <= k1 < k2 < subset@.len() ==> subset@[k1] != subset@[k2],
            budget >= stack@.len() + 4 * crate::dbscan::count_unvisited(
                visited@,
                visited@.len() as int,
            ),
            si < rows,
            sj < cols,
            subset@.len() + crate::dbscan::count_unvisited(visited@, visited@.len() as int)
                <= total,
            forall|k: int| 0 <= k < total && old(visited)@[k] ==> visited@[k],
            visited@[(si as int) * cols + (sj as int)] || stack@.contains(
                Coord { row: si, col: sj },
            ),
            forall|c2: Coord|
                c2.wf() && #[trigger] zone_eligible(g, c2) && visited@[c2.row * cols
                    + c2.col] && !old(visited)@[c2.row * cols + c2.col]
                    ==> subset@.contains(c2),
        decreases budget,
    {
        budget = budget - 1;
        let ghost stack_entry = stack@;
        let c = match stack.pop() {
            Some(c) => c,
            None => {
                proof {
                    assert(false);
                }
                Coord::new(0, 0)
            },
        };
        let i = c.row;
        let j = c.col;
        proof {
            assert(i * cols + j < total) by (nonlinear_arith)
                requires i < rows, j < cols, total == rows * cols, cols >= 1;
        }
        let flat = i * cols + j;
        if visited[flat] {
            proof {
                let seed = Coord { row: si, col: sj };
                if !visited@[(si as int) * cols + (sj as int)] {
                    if c == seed {
                        assert(visited@[(si as int) * cols + (sj as int)]);
                    } else {
                        assert(stack_entry.contains(seed));
                        let w = choose|w: int|
                            0 <= w < stack_entry.len() && stack_entry[w] == seed;
                        assert(stack_entry[stack_entry.len() - 1] == c);
                        assert(w < stack_entry.len() - 1);
                        assert(stack@[w] == seed);
                    }
                }
            }
            continue;
        }
        let ghost vprev = visited@;
        visited[flat] = true;
        proof {
            assert(visited@ == vprev.update(flat as int, true));
            crate::dbscan::lemma_count_unvisited_update(vprev, flat as int,
                vprev.len() as int);
            assert forall|k: int|
                0 <= k < subset@.len() implies visited@[(#[trigger] subset@[k]).row * cols
                + subset@[k].col] by {
                let idx = subset@[k].row * cols + subset@[k].col;
                assert(vprev[idx]);
                if idx == flat {
                    assert(visited@[idx]);
                } else {
                    assert(visited@[idx] == vprev[idx]);
                }
            }
            // the seed stays accounted for: marked now, marked before, or
            // still somewhere on the stack
            let seed = Coord { row: si, col: sj };
            if !visited@[(si as int) * cols + (sj as int)] {
                assert(c != seed) by {
                    if c == seed {
                        assert(visited@[(si as int) * cols + (sj as int)]);
                    }
                }
                assert((si as int) * cols + (sj as int) < total) by (nonlinear_arith)
                    requires
                        si < rows,
                        sj < cols,
                        total == rows * cols,
                        cols >= 1;
                assert(!vprev[(si as int) * cols + (sj as int)]) by {
                    if (si as int) * cols + (sj as int) == flat as int {
                        assert(visited@[(si as int) * cols + (sj as int)]);
                    } else {
                        assert(visited@[(si as int) * cols + (sj as int)] == vprev[(
                        si as int) * cols + (sj as int)]);
                    }
                }
                assert(stack_entry.contains(seed));
                let w = choose|w: int| 0 <= w < stack_entry.len() && stack_entry[w] == seed;
                assert(stack_entry[stack_entry.len() - 1] == c);
                assert(w < stack_entry.len() - 1);
                assert(stack@[w] == seed);
                assert(stack@.contains(seed));
            }
        }
        proof {
            assert(g[i as int] == map@[i as int]@);
            assert(g[i as int].len() == g[0].len());
        }
        let tile = map[i][j];
        match tile {
            Some(t) => {
                match t.tile_type {
                    TileKind::Grass | TileKind::Hill | TileKind::Street | TileKind::Mountain => {
                        let content_ok = match t.content {
                            ContentKind::Empty => true,
                            _ => destroyable(t.content),
                        };
                        let ghost subset_before = subset@;
                        if content_ok {
                            proof {
                                assert(zone_eligible(g, c));
                                assert(!vprev[flat as int]);
                                assert forall|k: int| 0 <= k < subset@.len()
                                    implies #[trigger] subset@[k] != c by {
                                    if subset@[k] == c {
                                        assert(vprev[subset@[k].row * cols + subset@[k].col]);
                                        assert(subset@[k].row * cols + subset@[k].col
                                            == flat as int);
                                    }
                                }
                                assert(visited@[flat as int]);
                            }
                            subset.push(c);
                        }
                        proof {
                            assert forall|c2: Coord|
                                c2.wf() && #[trigger] zone_eligible(g, c2) && visited@[
                            c2.row * cols + c2.col] && !old(visited)@[c2.row * cols
                                + c2.col] implies subset@.contains(c2) by {
                                assert(c2.row < g.len() && c2.col < g[c2.row as int].len());
                                assert(g[c2.row as int].len() == cols);
                                if c2.row * cols + c2.col == flat as int {
                                    assert(c2.row == i && c2.col == j) by (nonlinear_arith)
                                        requires
                                            c2.row * cols + c2.col == (i as int) * cols
                                                + j,
                                            0 <= c2.col < cols,
                                            0 <= j < cols,
                                            0 <= c2.row,
                                            0 <= i,
                                            cols >= 1;
                                    assert(c2 == c);
                                    assert(content_ok);
                                    assert(subset@[subset@.len() - 1] == c);
                                } else {
                                    assert(0 <= c2.row * cols + c2.col < total)
                                        by (nonlinear_arith)
                                        requires
                                            c2.row < rows,
                                            0 <= c2.col < cols,
                                            0 <= c2.row,
                                            total == rows * cols,
                                            cols >= 1;
                                    assert(visited@[c2.row * cols + c2.col] == vprev[
                                    c2.row * cols + c2.col]);
                                    assert(subset_before.contains(c2));
                                    let w2 = choose|w2: int|
                                        0 <= w2 < subset_before.len() && subset_before[w2]
                                            == c2;
                                    assert(subset@[w2] == c2);
                                }
                            }
                        }
                        let neighbours = get_neighbours(i, j, rows, cols);
                        let mut w: usize = 0;
                        while w < neighbours.len()
                            invariant
                                forall|k: int|
                                    0 <= k < neighbours@.len() ==> (#[trigger] neighbours@[
                                    k]).row < rows && neighbours@[k].col < cols,
                                w <= neighbours@.len(),
                                neighbours@.len() <= 4,
                                visited@.len() == total,
                                forall|k: int|
                                    0 <= k < stack@.len() ==> (#[trigger] stack@[k]).row < rows
                                        && stack@[k].col < cols,
                                budget >= stack@.len() + (neighbours@.len() - w) + 4
                                    * crate::dbscan::count_unvisited(
                                    visited@,
                                    visited@.len() as int,
                                ),
                                visited@[(si as int) * cols + (sj as int)]
                                    || stack@.contains(Coord { row: si, col: sj }),
                            decreases neighbours@.len() - w,
                        {
                            let ghost s0 = stack@;
                            stack.push(neighbours[w]);
                            proof {
                                let seed = Coord { row: si, col: sj };
                                if !visited@[(si as int) * cols + (sj as int)] {
                                    let ws = choose|ws: int|
                                        0 <= ws < s0.len() && s0[ws] == seed;
                                    assert(stack@[ws] == seed);
                                }
                            }
                            w = w + 1;
                        }
                    },
                    _ => {
                        proof {
                            lemma_marked_not_eligible(g, vprev, visited@, subset@, c, flat
                                as int, cols as int, old(visited)@);
                        }
                    },
                }
            },
            None => {
                proof {
                    lemma_marked_not_eligible(g, vprev, visited@, subset@, c, flat as int,
                        cols as int, old(visited)@);
                }
            },
        }
    }
    proof {
        crate::dbscan::lemma_count_unvisited_le(visited@, visited@.len() as int);
        assert(stack@.len() == 0);
        assert(visited@[(si as int) * cols + (sj as int)]);
        assert(subset@.len() <= total);
    }
    subset
}

/// Marking an ineligible cell cannot break the promise that newly visited
/// eligible cells are collected.
proof fn lemma_marked_not_eligible(
    g: Seq<Seq<Option<Tile>>>,
    vprev: Seq<bool>,
    vnow: Seq<bool>,
    subset: Seq<Coord>,
    c: Coord,
    flat: int,
    cols: int,
    vstart: Seq<bool>,
)
    requires
        !zone_eligible(g, c),
        cols >= 1,
        c.col < cols,
        flat == c.row * cols + c.col,
        vnow == vprev.update(flat, true),
        0 <= flat < vprev.len(),
        vprev.len() == g.len() * cols,
        forall|c2: Coord|
            c2.wf() && #[trigger] zone_eligible(g, c2) && vprev[c2.row * cols + c2.col]
                && !vstart[c2.row * cols + c2.col] ==> subset.contains(c2),
        forall|c2: Coord|
            c2.wf() && #[trigger] zone_eligible(g, c2) ==> c2.row < g.len() && c2.col < g[
            c2.row as int].len() && g[c2.row as int].len() == cols,
    ensures
        forall|c2: Coord|
            c2.wf() && #[trigger] zone_eligible(g, c2) && vnow[c2.row * cols + c2.col]
                && !vstart[c2.row * cols + c2.col] ==> subset.contains(c2),
{
    assert forall|c2: Coord|
        c2.wf() && #[trigger] zone_eligible(g, c2) && vnow[c2.row * cols + c2.col]
            && !vstart[c2.row * cols + c2.col] implies subset.contains(c2) by {
        if c2.row * cols + c2.col == flat {
            assert(c2.row == c.row && c2.col == c.col) by (nonlinear_arith)
                requires
                    c2.row * cols + c2.col == c.row * cols + c.col,
                    0 <= c2.col < cols,
                    0 <= c.col < cols,
                    0 <= c2.row,
                    0 <= c.row,
                    cols >= 1;
            assert(c2 == c);
            assert(false);
        } else {
            assert(0 <= c2.row * cols + c2.col < vprev.len()) by (nonlinear_arith)
                requires
                    c2.row < g.len(),
                    0 <= c2.col < cols,
                    0 <= c2.row,
                    vprev.len() == g.len() * cols,
                    cols >= 1;
            assert(vnow[c2.row * cols + c2.col] == vprev[c2.row * cols + c2.col]);
        }
    }
}

/// Creates the mission that will analyze one completed sector; its payload
/// is the sector's rectangle.
pub fn new_sector_analyzer(spatial_index: usize, world_dim: usize) -> (r: Mission)
    requires
        1 <= world_dim <= MAX_WORLD_DIM,
        (spatial_index as int) < spec_num_sections(world_dim) * spec_num_sections(world_dim),
    ensures
        r.kind == MissionKind::SectorAnalyzer,
        r.status == MissionStatus::Active,
        r.additional_data matches MissionData::Region(reg) && reg.top_left
            == spec_sector_top_left(spatial_index, world_dim) && reg.bottom_right
            == spec_sector_bottom_right(spatial_index, world_dim) && reg.spatial_index
            == spatial_index,
{
    let (tl, br) = get_tl_and_br_from_spatial_index(spatial_index, world_dim);
    Mission {
        kind: MissionKind::SectorAnalyzer,
        status: MissionStatus::Active,
        additional_data: MissionData::Region(
            ActiveRegion { top_left: tl, bottom_right: br, spatial_index },
        ),
    }
}

/// Full analysis of one explored sector slice whose top-left corner sits at
/// `tl` in the world. Resources and mountain count are tallied exactly; the
/// randomness flag comes from the autocorrelation ratio of a value grid
/// consistent with the slice; the node list holds, in order, the centroid of
/// the largest buildable patch (absent when there is none), then for a
/// random sector the weighted centroid of the dominant resource, and for a
/// clustered sector one centroid per dense cluster, all in absolute world
/// coordinates.
pub fn analyzer_execute(sector_map: &Vec<Vec<Option<Tile>>>, tl: Coord) -> (r: SectorData)
    requires
        grid_wf(grid_view(sector_map)),
        grid_view(sector_map).len() == grid_view(sector_map)[0].len(),
        grid_view(sector_map).len() <= 100,
        tl.row + grid_view(sector_map).len() <= MAX_WORLD_DIM,
        tl.col + grid_view(sector_map)[0].len() <= MAX_WORLD_DIM,
    ensures
        r.resources.wf(),
        forall|kind: ContentKind|
            spec_destroyable(kind) ==> r.resources.counts@[#[trigger] spec_content_value(kind)]
                == amount_grid(grid_view(sector_map), grid_view(sector_map).len() as int, kind),
        r.mountain_tiles == mountain_grid(
            grid_view(sector_map),
            grid_view(sector_map).len() as int,
        ),
        exists|v: Seq<Seq<u8>>|
            #[trigger] crate::morans::values_match(grid_view(sector_map), v)
                && crate::morans::value_grid_wf(v) && r.is_random
                == (crate::morans::spec_morans_den(v) == 0 || 10
                * crate::morans::spec_morans_num(v) < crate::morans::spec_morans_den(v)),
        forall|k: int| 0 <= k < r.nodes@.len() ==> (#[trigger] r.nodes@[k]).wf(),
        (exists|c: Coord| c.wf() && #[trigger] zone_eligible(grid_view(sector_map), c))
            ==> r.nodes@.len() >= 1,
        // the first node is the rounded-down centroid of a non-empty set of
        // distinct buildable cells, translated to world coordinates
        (exists|c: Coord| c.wf() && #[trigger] zone_eligible(grid_view(sector_map), c)) ==> (
        exists|zrel: Seq<Coord>|
            {
                &&& zrel.len() >= 1
                &&& (forall|k: int|
                    0 <= k < zrel.len() ==> zone_eligible(grid_view(sector_map),
                        #[trigger] zrel[k]))
                &&& (forall|k1: int, k2: int|
                    0 <= k1 < k2 < zrel.len() ==> zrel[k1] != zrel[k2])
                &&& r.nodes@[0].row == (sum_rows(zrel, zrel.len() as int) + zrel.len() * (
                tl.row as int)) / (zrel.len() as int)
                &&& r.nodes@[0].col == (sum_cols(zrel, zrel.len() as int) + zrel.len() * (
                tl.col as int)) / (zrel.len() as int)
            }),
        // a structured sector's remaining nodes come from a clustering of
        // the sector's samples: one node per cluster id with core members,
        // in id order, at the absolute centroid of those core members
        r.is_random == false ==> (exists|cl: Seq<Classification>, inp: Seq<
            crate::dbscan::DbPoint,
        >|
            {
                let g = grid_view(sector_map);
                let n = g[0].len() as int;
                &&& inp.len() == g.len() * n
                &&& cl.len() == inp.len()
                &&& (forall|k: int|
                    0 <= k < inp.len() ==> {
                        let p = #[trigger] inp[k];
                        &&& p.wf()
                        &&& p.row < g.len()
                        &&& p.col < n
                        &&& k == p.row * n + p.col
                        &&& 1 <= p.value <= 9
                        &&& (g[p.row as int][p.col as int] is Some && spec_destroyable(
                            g[p.row as int][p.col as int].unwrap().content,
                        ) ==> p.value == spec_content_value(
                            g[p.row as int][p.col as int].unwrap().content,
                        ))
                    })
                &&& #[trigger] crate::dbscan::values_consistent(cl, inp)
                &&& (forall|k: int|
                    0 <= k < cl.len() && crate::dbscan::class_coord(#[trigger] cl[k]) is Some
                        ==> crate::dbscan::class_coord(cl[k]).unwrap() == (Coord {
                        row: inp[k].row,
                        col: inp[k].col,
                    }))
                &&& (forall|k: int|
                    0 <= k < cl.len() && crate::dbscan::spec_dense(inp, k, CLUSTER_EPS_SQ,
                        CLUSTER_MIN_POINTS as int) ==> (#[trigger] cl[k]) is Core)
                &&& r.nodes@ == (if (exists|c: Coord|
                    c.wf() && #[trigger] zone_eligible(g, c)) {
                    Seq::empty().push(r.nodes@[0])
                } else {
                    Seq::<Coord>::empty()
                }) + cluster_nodes(cl, tl, cl.len() as int)
            }),
{
    let ghost g = grid_view(sector_map);
    let rows = sector_map.len();
    proof {
        assert(g[0] == sector_map@[0]@);
    }
    let resources = sector_collectable(sector_map);
    let mountain_tiles = count_mountain_tiles(sector_map);
    let is_random = is_content_random(sector_map);
    let zone = find_largest_connected_subset(sector_map);
    let mut nodes: Vec<Coord> = Vec::new();
    // Node one: the centroid of the largest buildable patch, made absolute.
    let mut zone_abs: Vec<Coord> = Vec::new();
    let mut zi: usize = 0;
    while zi < zone.len()
        invariant
            grid_wf(g),
            g == grid_view(sector_map),
            rows == g.len(),
            g[0].len() == rows,
            tl.row + rows <= MAX_WORLD_DIM,
            tl.col + rows <= MAX_WORLD_DIM,
            zi <= zone@.len(),
            forall|k: int| 0 <= k < zone@.len() ==> zone_eligible(g, #[trigger] zone@[k]),
            zone_abs@.len() == zi,
            forall|k: int| 0 <= k < zone_abs@.len() ==> (#[trigger] zone_abs@[k]).wf(),
            forall|k: int|
                0 <= k < zone_abs@.len() ==> (#[trigger] zone_abs@[k]).row == tl.row
                    + zone@[k].row && zone_abs@[k].col == tl.col + zone@[k].col,
        decreases zone@.len() - zi,
    {
        let z = zone[zi];
        proof {
            assert(zone_eligible(g, z));
            assert(g[z.row as int].len() == g[0].len());
        }
        zone_abs.push(Coord::new(tl.row + z.row, tl.col + z.col));
        zi = zi + 1;
    }
    if zone_abs.len() > 0 && zone_abs.len() <= 100000000 {
        nodes.push(get_centroid(&zone_abs));
        proof {
            lemma_sum_shift(zone@, zone_abs@, tl.row as int, tl.col as int,
                zone@.len() as int);
        }
    }
    proof {
        if exists|c: Coord| c.wf() && #[trigger] zone_eligible(g, c) {
            let c0 = choose|c: Coord| c.wf() && #[trigger] zone_eligible(g, c);
            assert(c0.wf() && zone_eligible(grid_view(sector_map), c0));
            assert(zone@.len() >= 1);
            assert(zone@.len() <= g.len() * g[0].len());
            assert(g.len() * g[0].len() <= 10000) by (nonlinear_arith)
                requires 0 <= g.len() <= 100, 0 <= g[0].len() <= 100;
            assert(nodes@.len() >= 1);
            assert(nodes@[0].row == (sum_rows(zone@, zone@.len() as int) + zone@.len() * (
            tl.row as int)) / (zone@.len() as int));
            assert(nodes@[0].col == (sum_cols(zone@, zone@.len() as int) + zone@.len() * (
            tl.col as int)) / (zone@.len() as int));
        }
    }
    let ghost seeded = nodes@.len();
    let ghost first_nodes = nodes@;
    if is_random {
        // the weighted centroid of the dominant resource's tiles
        let dominant = most_frequent_resource(&resources);
        let (best_v, best_count) = match dominant {
            Some(p) => p,
            None => (0, 0),
        };
        if best_count > 0 {
            // Sum the positions of the tiles bearing the dominant kind.
            let mut x: u64 = 0;
            let mut y: u64 = 0;
            let mut i: usize = 0;
            while i < rows
                invariant
                    grid_wf(g),
                    g == grid_view(sector_map),
                    rows == g.len(),
                    g[0].len() == rows,
                    rows <= 100,
                    tl.row + rows <= MAX_WORLD_DIM,
                    tl.col + rows <= MAX_WORLD_DIM,
                    i <= rows,
                    x <= 2000000 * ((i as int) * 100),
                    y <= 2000000 * ((i as int) * 100),
                decreases rows - i,
            {
                proof {
                    assert(g[i as int] == sector_map@[i as int]@);
                    assert(2000000 * ((i as int) * 100) <= 20000000000) by (nonlinear_arith)
                        requires 0 <= i <= 100;
                }
                let mut j: usize = 0;
                while j < rows
                    invariant
                        grid_wf(g),
                        g == grid_view(sector_map),
                        rows == g.len(),
                        g[0].len() == rows,
                        rows <= 100,
                        tl.row + rows <= MAX_WORLD_DIM,
                        tl.col + rows <= MAX_WORLD_DIM,
                        i < rows,
                        j <= rows,
                        g[i as int] == sector_map@[i as int]@,
                        x <= 2000000 * ((i as int) * 100 + j),
                        y <= 2000000 * ((i as int) * 100 + j),
                    decreases rows - j,
                {
                    proof {
                        assert(g[i as int].len() == g[0].len());
                        assert(2000000 * ((i as int) * 100 + j) <= 20000000000
                            && 2000000 * ((i as int) * 100 + j) + 2000000 == 2000000 * ((
                        i as int) * 100 + (j + 1))) by (nonlinear_arith)
                            requires
                                0 <= i <= 99,
                                0 <= j <= 99;
                    }
                    match sector_map[i][j] {
                        Some(t) => {
                            if destroyable(t.content) {
                                let tv: usize = match t.content {
                                    ContentKind::Rock => 1,
                                    ContentKind::Tree => 2,
                                    ContentKind::Water => 3,
                                    ContentKind::Coin => 4,
                                    ContentKind::Fire => 5,
                                    ContentKind::Garbage => 6,
                                    ContentKind::Fish => 7,
                                    ContentKind::Bush => 8,
                                    ContentKind::JollyBlock => 9,
                                    _ => 0,
                                };
                                if tv == best_v {
                                    x = x + ((tl.row + i) as u64);
                                    y = y + ((tl.col + j) as u64);
                                }
                            }
                        },
                        None => {},
                    }
                    j = j + 1;
                }
                proof {
                    assert(2000000 * ((i as int) * 100 + rows) <= 2000000 * ((i + 1) * 100))
                        by (nonlinear_arith)
                        requires rows <= 100, 0 <= i;
                }
                i = i + 1;
            }
            let wx = x / best_count;
            let wy = y / best_count;
            if wx < (MAX_WORLD_DIM as u64) && wy < (MAX_WORLD_DIM as u64) {
                nodes.push(Coord::new(wx as usize, wy as usize));
            }
        }
    } else {
        // One node per dense cluster: the centroid of its core members.
        let input = map_into_db_input(sector_map);
        if input.len() <= 0x7fffffff {
            let classification = cluster(CLUSTER_EPS_SQ, CLUSTER_MIN_POINTS, &input);
            let mut cid: usize = 0;
            let ghost cl = classification@;
            proof {
                assert(nodes@ =~= first_nodes + cluster_nodes(cl, tl, 0));
                assert(g.len() * g[0].len() <= 10000) by (nonlinear_arith)
                    requires 0 <= g.len() <= 100, 0 <= g[0].len() <= 100;
            }
            while cid < classification.len()
                invariant
                    grid_wf(g),
                    g == grid_view(sector_map),
                    rows == g.len(),
                    g[0].len() == rows,
                    tl.row + rows <= MAX_WORLD_DIM,
                    tl.col + rows <= MAX_WORLD_DIM,
                    cl == classification@,
                    cid <= cl.len(),
                    cl.len() == input@.len(),
                    forall|k: int|
                        0 <= k < input@.len() ==> (#[trigger] input@[k]).row < g.len()
                            && input@[k].col < g[0].len(),
                    forall|k: int|
                        0 <= k < cl.len() && crate::dbscan::class_coord(
                            #[trigger] cl[k],
                        ) is Some ==> crate::dbscan::class_coord(cl[k]).unwrap() == (Coord {
                            row: input@[k].row,
                            col: input@[k].col,
                        }),
                    forall|k: int| 0 <= k < nodes@.len() ==> (#[trigger] nodes@[k]).wf(),
                    nodes@.len() >= seeded,
                    cl.len() <= 10000,
                    first_nodes.len() == seeded,
                    nodes@ == first_nodes + cluster_nodes(cl, tl, cid as int),
                decreases cl.len() - cid,
            {
                let mut members: Vec<Coord> = Vec::new();
                let mut k: usize = 0;
                while k < classification.len()
                    invariant
                        grid_wf(g),
                        rows == g.len(),
                        g[0].len() == rows,
                        tl.row + rows <= MAX_WORLD_DIM,
                        tl.col + rows <= MAX_WORLD_DIM,
                        cl == classification@,
                        k <= cl.len(),
                        cl.len() == input@.len(),
                        forall|l: int|
                            0 <= l < input@.len() ==> (#[trigger] input@[l]).row < g.len()
                                && input@[l].col < g[0].len(),
                        forall|l: int|
                            0 <= l < cl.len() && crate::dbscan::class_coord(
                                #[trigger] cl[l],
                            ) is Some ==> crate::dbscan::class_coord(cl[l]).unwrap() == (Coord {
                                row: input@[l].row,
                                col: input@[l].col,
                            }),
                        members@.len() <= k,
                        forall|l: int| 0 <= l < members@.len()
                            ==> (#[trigger] members@[l]).wf(),
                        members@ == core_members(cl, tl, cid as int, k as int),
                    decreases cl.len() - k,
                {
                    match classification[k] {
                        Classification::Core(p, m) => {
                            if m == cid {
                                proof {
                                    assert(crate::dbscan::class_coord(cl[k as int])
                                        == Some(p));
                                    assert(p.row < g.len() && p.col < g[0].len());
                                }
                                members.push(Coord::new(tl.row + p.row, tl.col + p.col));
                            }
                        },
                        _ => {},
                    }
                    k = k + 1;
                }
                proof {
                    assert(members@ == core_members(cl, tl, cid as int, cl.len() as int));
                }
                if members.len() > 0 {
                    let centroid = get_centroid(&members);
                    nodes.push(centroid);
                    proof {
                        let mem = core_members(cl, tl, cid as int, cl.len() as int);
                        assert(centroid.row == sum_rows(mem, mem.len() as int) / (
                        mem.len() as int));
                        assert(nodes@ =~= first_nodes + cluster_nodes(cl, tl, cid + 1));
                    }
                } else {
                    proof {
                        assert(nodes@ =~= first_nodes + cluster_nodes(cl, tl, cid + 1));
                    }
                }
                cid = cid + 1;
            }
            proof {
                assert(nodes@ == first_nodes + cluster_nodes(cl, tl, cl.len() as int));
                assert(crate::dbscan::values_consistent(cl, input@));
                if exists|c: Coord| c.wf() && #[trigger] zone_eligible(g, c) {
                    assert(seeded == 1);
                    assert(first_nodes =~= Seq::<Coord>::empty().push(first_nodes[0]));
                    assert(nodes@[0] == first_nodes[0]);
                } else {
                    assert(zone@.len() == 0) by {
                        if zone@.len() > 0 {
                            assert(zone_eligible(g, zone@[0]) && zone@[0].wf());
                        }
                    }
                    assert(seeded == 0);
                    assert(first_nodes =~= Seq::<Coord>::empty());
                }
            }
        } else {
            proof {
                assert(g.len() * g[0].len() <= 10000) by (nonlinear_arith)
                    requires 0 <= g.len() <= 100, 0 <= g[0].len() <= 100;
                assert(false);
            }
        }
    }
    proof {
        if exists|c: Coord| c.wf() && #[trigger] zone_eligible(g, c) {
            assert(nodes@.len() >= seeded >= 1);
            assert(nodes@[0] == first_nodes[0]);
            assert(zone@.len() >= 1);
            assert(nodes@[0].row == (sum_rows(zone@, zone@.len() as int) + zone@.len() * (
            tl.row as int)) / (zone@.len() as int));
            assert(nodes@[0].col == (sum_cols(zone@, zone@.len() as int) + zone@.len() * (
            tl.col as int)) / (zone@.len() as int));
        } else {
            assert(zone@.len() == 0) by {
                if zone@.len() > 0 {
                    assert(zone_eligible(g, zone@[0]) && zone@[0].wf());
                }
            }
            assert(seeded == 0);
            assert(first_nodes =~= Seq::<Coord>::empty());
        }
    }
    SectorData { resources, mountain_tiles, is_random, nodes }
}

} // verus!
