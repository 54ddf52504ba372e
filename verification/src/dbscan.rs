use vstd::prelude::*;
use crate::morans::get_content_value_morans;
use crate::tiles::Tile;
use crate::utils::{grid_view, grid_wf, Coord, MAX_WORLD_DIM};

verus! {

/// One sample handed to the clustering pass: a grid position and the derived
/// content value observed there.
#[derive(Clone, Copy, Debug, PartialEq, Eq, Structural)]
pub struct DbPoint {
    pub row: usize,
    pub col: usize,
    pub value: u64,
}

impl DbPoint {
    pub open spec fn wf(self) -> bool {
        self.row < MAX_WORLD_DIM && self.col < MAX_WORLD_DIM
    }
}

/// Classification of one sample after the density pass.
#[derive(Clone, Copy, Debug, PartialEq, Eq, Structural)]
pub enum Classification {
    /// A point with at least the minimum number of neighbors within the
    /// radius, and the cluster it anchors.
    Core(Coord, usize),
    /// A point within the radius of a core point that is itself not dense.
    Edge(Coord, usize),
    /// A point attached to no cluster.
    Noise,
}

/// The cluster a classification names, if any.
pub open spec fn class_id(cl: Classification) -> Option<usize> {
    match cl {
        Classification::Core(_, m) => Some(m),
        Classification::Edge(_, m) => Some(m),
        Classification::Noise => None,
    }
}

/// The coordinate a classification carries, if any.
pub open spec fn class_coord(cl: Classification) -> Option<Coord> {
    match cl {
        Classification::Core(p, _) => Some(p),
        Classification::Edge(p, _) => Some(p),
        Classification::Noise => None,
    }
}

/// Squared distance between two samples; samples with differing derived
/// content values are infinitely far apart, so no radius joins them.
pub open spec fn spec_distance_sq(a: DbPoint, b: DbPoint) -> int {
    if a.value != b.value {
        0xffff_ffff_ffff_ffff
    } else {
        (a.row - b.row) * (a.row - b.row) + (a.col - b.col) * (a.col - b.col)
    }
}

/// Executable twin of `spec_distance_sq`.
pub fn get_distance(a: &DbPoint, b: &DbPoint) -> (r: u64)
    requires
        a.wf(),
        b.wf(),
    ensures
        r == spec_distance_sq(*a, *b),
{
    if a.value != b.value {
        return 0xffff_ffff_ffff_ffff;
    }
    let dr: u64 = if a.row >= b.row {
        (a.row - b.row) as u64
    } else {
        (b.row - a.row) as u64
    };
    let dc: u64 = if a.col >= b.col {
        (a.col - b.col) as u64
    } else {
        (b.col - a.col) as u64
    };
    proof {
        assert(dr * dr <= 1000000000000 && dc * dc <= 1000000000000) by (nonlinear_arith)
            requires 0 <= dr <= 1000000, 0 <= dc <= 1000000;
        assert(dr * dr == (a.row - b.row) * (a.row - b.row)) by (nonlinear_arith)
            requires dr == a.row - b.row || dr == b.row - a.row;
        assert(dc * dc == (a.col - b.col) * (a.col - b.col)) by (nonlinear_arith)
            requires dc == a.col - b.col || dc == b.col - a.col;
    }
    dr * dr + dc * dc
}

/// Any two samples attached to the same cluster carry the same derived
/// content value: the metric makes differing values unreachable from one
/// another, and the expansion only follows the metric.
pub open spec fn values_consistent(c: Seq<Classification>, pop: Seq<DbPoint>) -> bool {
    forall|k1: int, k2: int|
        0 <= k1 < c.len() && 0 <= k2 < c.len() && class_id(#[trigger] c[k1]) is Some && class_id(
            c[k1],
        ) == class_id(#[trigger] c[k2]) ==> pop[k1].value == pop[k2].value
}

/// What holds of the classification array at all times: one entry per
/// sample, every named coordinate is its sample's coordinate, every named
/// cluster is below the next free id, and clusters are value-homogeneous.
pub open spec fn dbscan_inv(c: Seq<Classification>, pop: Seq<DbPoint>, next: int) -> bool {
    &&& c.len() == pop.len()
    &&& values_consistent(c, pop)
    &&& forall|k: int|
        0 <= k < c.len() && class_id(#[trigger] c[k]) is Some ==> class_id(c[k]).unwrap() < next
    &&& forall|k: int|
        0 <= k < c.len() && class_coord(#[trigger] c[k]) is Some ==> class_coord(c[k]).unwrap()
            == (Coord { row: pop[k].row, col: pop[k].col })
}

/// How many of the first `i` samples lie strictly within the radius of a
/// center sample.
pub open spec fn count_in_range(pop: Seq<DbPoint>, center: DbPoint, eps_sq: u64, i: int) -> int
    decreases i,
{
    if i <= 0 {
        0
    } else {
        count_in_range(pop, center, eps_sq, i - 1) + if spec_distance_sq(center, pop[i - 1])
            < eps_sq {
            1int
        } else {
            0int
        }
    }
}

/// A sample is dense when at least `mpt` samples (itself included) lie
/// within the radius.
pub open spec fn spec_dense(pop: Seq<DbPoint>, k: int, eps_sq: u64, mpt: int) -> bool {
    count_in_range(pop, pop[k], eps_sq, pop.len() as int) >= mpt
}

/// Popping the last queue entry keeps every other queued index present.
proof fn lemma_pop_keeps_others(q: Seq<usize>, k: usize)
    requires
        q.len() > 0,
        q.contains(k),
        k != q.last(),
    ensures
        q.drop_last().contains(k),
{
    let w = choose|w: int| 0 <= w < q.len() && q[w] == k;
    assert(w != q.len() - 1);
    assert(q.drop_last()[w] == k);
}

/// Indices of all samples within the radius of `sample`, in increasing
/// order; exactly those whose squared distance is below `eps_sq`.
fn range_query(eps_sq: u64, sample: &DbPoint, population: &Vec<DbPoint>) -> (r: Vec<usize>)
    requires
        sample.wf(),
        forall|k: int| 0 <= k < population@.len() ==> (#[trigger] population@[k]).wf(),
    ensures
        forall|k: int|
            0 <= k < r@.len() ==> 0 <= #[trigger] r@[k] < population@.len()
                && spec_distance_sq(*sample, population@[r@[k] as int]) < eps_sq,
        forall|k1: int, k2: int| 0 <= k1 < k2 < r@.len() ==> r@[k1] < r@[k2],
        forall|idx: int|
            0 <= idx < population@.len() && spec_distance_sq(*sample, #[trigger] population@[idx])
                < eps_sq ==> r@.contains(idx as usize),
        r@.len() == count_in_range(population@, *sample, eps_sq, population@.len() as int),
{
    let mut r: Vec<usize> = Vec::new();
    let mut idx: usize = 0;
    while idx < population.len()
        invariant
            sample.wf(),
            forall|k: int| 0 <= k < population@.len() ==> (#[trigger] population@[k]).wf(),
            idx <= population@.len(),
            r@.len() == count_in_range(population@, *sample, eps_sq, idx as int),
            forall|k: int|
                0 <= k < r@.len() ==> 0 <= #[trigger] r@[k] < idx
                    && spec_distance_sq(*sample, population@[r@[k] as int]) < eps_sq,
            forall|k1: int, k2: int| 0 <= k1 < k2 < r@.len() ==> r@[k1] < r@[k2],
            forall|l: int|
                0 <= l < idx && spec_distance_sq(*sample, #[trigger] population@[l]) < eps_sq
                    ==> r@.contains(l as usize),
        decreases population@.len() - idx,
    {
        let p = population[idx];
        let ghost r0 = r@;
        if get_distance(sample, &p) < eps_sq {
            r.push(idx);
            proof {
                assert(r@[r@.len() - 1] == idx);
                assert forall|l: int|
                    0 <= l < idx + 1 && spec_distance_sq(*sample, #[trigger] population@[l])
                        < eps_sq implies r@.contains(l as usize) by {
                    if l < idx {
                        let w = choose|w: int| 0 <= w < r0.len() && r0[w] == l as usize;
                        assert(r@[w] == l as usize);
                    } else {
                        assert(r@[r@.len() - 1] == l as usize);
                    }
                }
            }
        } else {
            proof {
                assert forall|l: int|
                    0 <= l < idx + 1 && spec_distance_sq(*sample, #[trigger] population@[l])
                        < eps_sq implies r@.contains(l as usize) by {
                    assert(l < idx);
                }
            }
        }
        idx = idx + 1;
    }
    r
}

/// How many samples are still unvisited; drives termination of the
/// expansion.
pub open spec fn count_unvisited(s: Seq<bool>, i: int) -> int
    decreases i,
{
    if i <= 0 {
        0
    } else {
        count_unvisited(s, i - 1) + if s[i - 1] {
            0int
        } else {
            1int
        }
    }
}

pub proof fn lemma_count_unvisited_le(s: Seq<bool>, i: int)
    requires
        0 <= i <= s.len(),
    ensures
        0 <= count_unvisited(s, i) <= i,
    decreases i,
{
    if i > 0 {
        lemma_count_unvisited_le(s, i - 1);
    }
}

/// Marking one unvisited sample visited lowers the count by exactly one.
pub proof fn lemma_count_unvisited_update(s: Seq<bool>, idx: int, i: int)
    requires
        0 <= idx < s.len(),
        0 <= i <= s.len(),
        !s[idx],
    ensures
        idx < i ==> count_unvisited(s.update(idx, true), i) == count_unvisited(s, i) - 1,
        idx >= i ==> count_unvisited(s.update(idx, true), i) == count_unvisited(s, i),
    decreases i,
{
    if i > 0 {
        lemma_count_unvisited_update(s, idx, i - 1);
        assert(s.update(idx, true).len() == s.len());
        if idx == i - 1 {
            assert(s.update(idx, true)[i - 1] == true);
        } else {
            assert(s.update(idx, true)[i - 1] == s[i - 1]);
        }
    }
}

/// Grows one cluster from the queued seeds: any queued sample that is dense
/// becomes a core of this cluster, its unvisited neighbors are queued, and
/// its noise neighbors become edges. Returns whether any core was found; if
/// none was, the classification is unchanged.
fn expand_cluster(
    eps_sq: u64,
    mpt: usize,
    population: &Vec<DbPoint>,
    c: &mut Vec<Classification>,
    v: &mut Vec<bool>,
    queue: &mut Vec<usize>,
    cluster: usize,
    Ghost(val): Ghost<u64>,
) -> (newc: bool)
    requires
        forall|k: int| 0 <= k < population@.len() ==> (#[trigger] population@[k]).wf(),
        old(c)@.len() == population@.len(),
        old(v)@.len() == population@.len(),
        population@.len() <= 0x7fffffff,
        old(queue)@.len() <= population@.len() + 1,
        dbscan_inv(old(c)@, population@, cluster as int),
        forall|k: int|
            0 <= k < old(queue)@.len() ==> 0 <= #[trigger] old(queue)@[k] < population@.len()
                && population@[old(queue)@[k] as int].value == val,
        forall|k: int|
            0 <= k < old(c)@.len() && class_id(#[trigger] old(c)@[k]) == Some(cluster)
                ==> population@[k].value == val,
        forall|k: int|
            0 <= k < population@.len() && old(v)@[k] && spec_dense(population@, k, eps_sq,
                mpt as int) ==> ((#[trigger] old(c)@[k]) is Core || old(queue)@.contains(
                k as usize,
            )),
        forall|k: int|
            0 <= k < old(c)@.len() && (#[trigger] old(c)@[k]) is Core ==> spec_dense(
                population@,
                k,
                eps_sq,
                mpt as int,
            ),
    ensures
        final(c)@.len() == population@.len(),
        final(v)@.len() == population@.len(),
        dbscan_inv(final(c)@, population@, cluster + 1),
        forall|k: int|
            0 <= k < final(c)@.len() && class_id(#[trigger] final(c)@[k]) == Some(cluster)
                ==> population@[k].value == val,
        !newc ==> final(c)@ == old(c)@,
        final(queue)@.len() == 0,
        forall|k: int| 0 <= k < population@.len() && old(v)@[k] ==> final(v)@[k],
        forall|k: int|
            0 <= k < population@.len() && final(v)@[k] && spec_dense(population@, k, eps_sq,
                mpt as int) ==> (#[trigger] final(c)@[k]) is Core,
        forall|k: int|
            0 <= k < final(c)@.len() && (#[trigger] final(c)@[k]) is Core ==> spec_dense(
                population@,
                k,
                eps_sq,
                mpt as int,
            ),
{
    let ghost pop = population@;
    let mut new_cluster: bool = false;
    proof {
        lemma_count_unvisited_le(v@, v@.len() as int);
    }
    let mut budget: usize = population.len() + queue.len();
    while budget > 0 && queue.len() > 0
        invariant
            forall|k: int| 0 <= k < pop.len() ==> (#[trigger] pop[k]).wf(),
            pop == population@,
            c@.len() == pop.len(),
            v@.len() == pop.len(),
            dbscan_inv(c@, pop, cluster + 1),
            forall|k: int|
                0 <= k < queue@.len() ==> 0 <= #[trigger] queue@[k] < pop.len()
                    && pop[queue@[k] as int].value == val,
            forall|k: int|
                0 <= k < c@.len() && class_id(#[trigger] c@[k]) == Some(cluster)
                    ==> pop[k].value == val,
            !new_cluster ==> c@ == old(c)@,
            budget >= queue@.len() + count_unvisited(v@, v@.len() as int),
            forall|k: int| 0 <= k < pop.len() && old(v)@[k] ==> v@[k],
            forall|k: int|
                0 <= k < pop.len() && v@[k] && spec_dense(pop, k, eps_sq, mpt as int)
                    ==> ((#[trigger] c@[k]) is Core || queue@.contains(k as usize)),
            forall|k: int|
                0 <= k < c@.len() && (#[trigger] c@[k]) is Core ==> spec_dense(pop, k,
                    eps_sq, mpt as int),
        decreases budget,
    {
        budget = budget - 1;
        let ghost q_entry = queue@;
        let ghost c_entry = c@;
        proof {
            assert(forall|k: int|
                0 <= k < pop.len() && v@[k] && spec_dense(pop, k, eps_sq, mpt as int)
                    ==> ((#[trigger] c_entry[k]) is Core || q_entry.contains(k as usize)));
        }
        let ind = match queue.pop() {
            Some(i) => i,
            None => {
                proof {
                    assert(false);
                }
                0
            },
        };
        proof {
            assert(q_entry.len() > 0);
            assert(ind == q_entry[q_entry.len() - 1]);
            assert(queue@ == q_entry.drop_last());
        }
        let neighbors = range_query(eps_sq, &population[ind], population);
        if neighbors.len() < mpt {
            proof {
                assert(neighbors@.len() == count_in_range(pop, pop[ind as int], eps_sq,
                    pop.len() as int));
                assert(!spec_dense(pop, ind as int, eps_sq, mpt as int));
                assert forall|k: int|
                    0 <= k < pop.len() && v@[k] && spec_dense(pop, k, eps_sq, mpt as int)
                        implies ((#[trigger] c@[k]) is Core || queue@.contains(
                        k as usize,
                    )) by {
                    if !(c@[k] is Core) {
                        assert(c@[k] == c_entry[k]);
                        assert(q_entry.contains(k as usize));
                        assert(k != ind as int);
                        assert(k < c@.len());
                        assert(c@.len() == c.len());
                        assert((k as usize) as int == k);
                        assert(k as usize != q_entry.last());
                        lemma_pop_keeps_others(q_entry, k as usize);
                    }
                }
            }
            continue;
        }
        proof {
            assert(neighbors@.len() == count_in_range(pop, pop[ind as int], eps_sq,
                pop.len() as int));
        }
        new_cluster = true;
        let here = Coord::new(population[ind].row, population[ind].col);
        c[ind] = Classification::Core(here, cluster);
        proof {
            assert(spec_dense(pop, ind as int, eps_sq, mpt as int));
            assert forall|k: int| 0 <= k < c@.len() && (#[trigger] c@[k]) is Core
                implies spec_dense(pop, k, eps_sq, mpt as int) by {
                if k != ind as int {
                    assert(c@[k] == c_entry[k]);
                }
            }
            assert(class_id(c@[ind as int]) == Some(cluster));
            assert(dbscan_inv(c@, pop, cluster + 1)) by {
                assert forall|k1: int, k2: int|
                    0 <= k1 < c@.len() && 0 <= k2 < c@.len() && class_id(
                        #[trigger] c@[k1],
                    ) is Some && class_id(c@[k1]) == class_id(#[trigger] c@[k2]) implies pop[
                    k1].value == pop[k2].value by {
                }
            }
            assert forall|k: int|
                0 <= k < pop.len() && v@[k] && spec_dense(pop, k, eps_sq, mpt as int)
                    implies ((#[trigger] c@[k]) is Core || queue@.contains(k as usize)) by {
                if k == ind as int {
                    assert(c@[k] is Core);
                } else if !(c@[k] is Core) {
                    assert(c@[k] == c_entry[k]);
                    assert(!(c_entry[k] is Core));
                    assert(q_entry.contains(k as usize));
                    assert(k < c@.len());
                    assert(c@.len() == c.len());
                    assert((k as usize) as int == k);
                    assert(k as usize != q_entry.last());
                    lemma_pop_keeps_others(q_entry, k as usize);
                }
            }
        }
        let mut ni: usize = 0;
        while ni < neighbors.len()
            invariant
                forall|k: int| 0 <= k < pop.len() ==> (#[trigger] pop[k]).wf(),
                pop == population@,
                c@.len() == pop.len(),
                v@.len() == pop.len(),
                ni <= neighbors@.len(),
                ind < pop.len(),
                pop[ind as int].value == val,
                dbscan_inv(c@, pop, cluster + 1),
                forall|k: int|
                    0 <= k < neighbors@.len() ==> 0 <= #[trigger] neighbors@[k] < pop.len()
                        && spec_distance_sq(pop[ind as int], pop[neighbors@[k] as int])
                        < eps_sq,
                forall|k: int|
                    0 <= k < queue@.len() ==> 0 <= #[trigger] queue@[k] < pop.len()
                        && pop[queue@[k] as int].value == val,
                forall|k: int|
                    0 <= k < c@.len() && class_id(#[trigger] c@[k]) == Some(cluster)
                        ==> pop[k].value == val,
                budget >= queue@.len() + count_unvisited(v@, v@.len() as int),
                forall|k: int| 0 <= k < pop.len() && old(v)@[k] ==> v@[k],
                forall|k: int|
                    0 <= k < pop.len() && v@[k] && spec_dense(pop, k, eps_sq, mpt as int)
                        ==> ((#[trigger] c@[k]) is Core || queue@.contains(k as usize)),
                forall|k: int|
                    0 <= k < c@.len() && (#[trigger] c@[k]) is Core ==> spec_dense(pop, k,
                        eps_sq, mpt as int),
            decreases neighbors@.len() - ni,
        {
            let n_idx = neighbors[ni];
            proof {
                assert(spec_distance_sq(pop[ind as int], pop[n_idx as int]) < eps_sq);
                assert(pop[n_idx as int].value == val) by {
                    if pop[ind as int].value != pop[n_idx as int].value {
                        assert(spec_distance_sq(pop[ind as int], pop[n_idx as int])
                            == 0xffff_ffff_ffff_ffff);
                    }
                }
            }
            let is_noise = match c[n_idx] {
                Classification::Noise => true,
                _ => false,
            };
            let ghost q_before = queue@;
            let ghost c_before = c@;
            if is_noise {
                let np = Coord::new(population[n_idx].row, population[n_idx].col);
                c[n_idx] = Classification::Edge(np, cluster);
                proof {
                    assert forall|k: int| 0 <= k < c@.len() && (#[trigger] c@[k]) is Core
                        implies spec_dense(pop, k, eps_sq, mpt as int) by {
                        assert(k != n_idx as int);
                        assert(c@[k] == c_before[k]);
                    }
                }
            }
            if !v[n_idx] {
                let ghost vprev = v@;
                v[n_idx] = true;
                queue.push(n_idx);
                proof {
                    assert(v@ == vprev.update(n_idx as int, true));
                    lemma_count_unvisited_update(vprev, n_idx as int, vprev.len() as int);
                    assert(count_unvisited(v@, v@.len() as int) == count_unvisited(
                        vprev,
                        vprev.len() as int,
                    ) - 1);
                }
            }
            proof {
                assert forall|k: int|
                    0 <= k < pop.len() && v@[k] && spec_dense(pop, k, eps_sq, mpt as int)
                        implies ((#[trigger] c@[k]) is Core || queue@.contains(
                        k as usize,
                    )) by {
                    if !(c@[k] is Core) {
                        if k == n_idx as int {
                            if q_before.contains(k as usize) {
                                let w = choose|w: int|
                                    0 <= w < q_before.len() && q_before[w] == k as usize;
                                assert(queue@[w] == k as usize);
                            } else {
                                assert(queue@[queue@.len() - 1] == k as usize);
                            }
                        } else {
                            assert(q_before.contains(k as usize));
                            let w = choose|w: int|
                                0 <= w < q_before.len() && q_before[w] == k as usize;
                            assert(queue@[w] == k as usize);
                        }
                    }
                }
            }
            ni = ni + 1;
        }
    }
    proof {
        lemma_count_unvisited_le(v@, v@.len() as int);
    }
    new_cluster
}

/// Parameters of one clustering pass: the squared neighborhood radius and
/// the minimum number of neighbors that makes a point dense.
pub struct Model {
    pub eps_sq: u64,
    pub mpt: usize,
}

impl Model {
    pub fn new(eps_sq: u64, min_points: usize) -> (r: Model)
        ensures
            r.eps_sq == eps_sq,
            r.mpt == min_points,
    {
        Model { eps_sq, mpt: min_points }
    }

    /// Density-based clustering over the samples. The result classifies each
    /// sample in place: one entry per sample, every named coordinate is the
    /// sample's own, and any two samples put into the same cluster carry the
    /// same derived content value.
    pub fn run(self, population: &Vec<DbPoint>) -> (r: Vec<Classification>)
        requires
            forall|k: int| 0 <= k < population@.len() ==> (#[trigger] population@[k]).wf(),
            population@.len() <= 0x7fffffff,
        ensures
            r@.len() == population@.len(),
            values_consistent(r@, population@),
            forall|k: int|
                0 <= k < r@.len() && class_coord(#[trigger] r@[k]) is Some ==> class_coord(
                    r@[k],
                ).unwrap() == (Coord { row: population@[k].row, col: population@[k].col }),
            forall|k: int|
                0 <= k < r@.len() && class_id(#[trigger] r@[k]) is Some ==> class_id(
                    r@[k],
                ).unwrap() < r@.len(),
            forall|k: int|
                0 <= k < r@.len() ==> ((#[trigger] r@[k]) is Core <==> spec_dense(
                    population@,
                    k,
                    self.eps_sq,
                    self.mpt as int,
                )),
    {
        let ghost pop = population@;
        let len = population.len();
        let mut c: Vec<Classification> = Vec::new();
        let mut v: Vec<bool> = Vec::new();
        let mut k: usize = 0;
        while k < len
            invariant
                k <= len,
                c@.len() == k,
                v@.len() == k,
                forall|l: int| 0 <= l < k ==> #[trigger] c@[l] == Classification::Noise,
                forall|l: int| 0 <= l < k ==> #[trigger] v@[l] == false,
            decreases len - k,
        {
            c.push(Classification::Noise);
            v.push(false);
            k = k + 1;
        }
        let mut cluster_count: usize = 0;
        let mut idx: usize = 0;
        while idx < len
            invariant
                forall|l: int| 0 <= l < pop.len() ==> (#[trigger] pop[l]).wf(),
                pop == population@,
                len == pop.len(),
                len <= 0x7fffffff,
                idx <= len,
                c@.len() == len,
                v@.len() == len,
                cluster_count <= idx,
                dbscan_inv(c@, pop, cluster_count as int),
                forall|l: int| 0 <= l < idx ==> v@[l],
                forall|k: int|
                    0 <= k < pop.len() && v@[k] && spec_dense(pop, k, self.eps_sq,
                        self.mpt as int) ==> (#[trigger] c@[k]) is Core,
                forall|k: int|
                    0 <= k < c@.len() && (#[trigger] c@[k]) is Core ==> spec_dense(pop, k,
                        self.eps_sq, self.mpt as int),
            decreases len - idx,
        {
            if !v[idx] {
                v[idx] = true;
                let mut queue: Vec<usize> = Vec::new();
                queue.push(idx);
                proof {
                    assert(queue@[0] == idx);
                    assert(queue@.contains(idx));
                    assert forall|k: int|
                        0 <= k < pop.len() && v@[k] && spec_dense(pop, k, self.eps_sq,
                            self.mpt as int) implies ((#[trigger] c@[k]) is Core
                            || queue@.contains(k as usize)) by {
                    }
                }
                let seed_value = population[idx].value;
                let nc = expand_cluster(
                    self.eps_sq,
                    self.mpt,
                    population,
                    &mut c,
                    &mut v,
                    &mut queue,
                    cluster_count,
                    Ghost(seed_value),
                );
                if nc {
                    cluster_count = cluster_count + 1;
                }
            }
            idx = idx + 1;
        }
        c
    }
}

/// One clustering pass with the given parameters; the contract of
/// `Model::run` carries over unchanged.
pub fn cluster(eps_sq: u64, min_points: usize, input: &Vec<DbPoint>) -> (r: Vec<Classification>)
    requires
        forall|k: int| 0 <= k < input@.len() ==> (#[trigger] input@[k]).wf(),
        input@.len() <= 0x7fffffff,
    ensures
        r@.len() == input@.len(),
        values_consistent(r@, input@),
        forall|k: int|
            0 <= k < r@.len() && class_coord(#[trigger] r@[k]) is Some ==> class_coord(
                r@[k],
            ).unwrap() == (Coord { row: input@[k].row, col: input@[k].col }),
        forall|k: int|
            0 <= k < r@.len() && class_id(#[trigger] r@[k]) is Some ==> class_id(
                r@[k],
            ).unwrap() < r@.len(),
        forall|k: int|
            0 <= k < r@.len() ==> ((#[trigger] r@[k]) is Core <==> spec_dense(
                input@,
                k,
                eps_sq,
                min_points as int,
            )),
{
    Model::new(eps_sq, min_points).run(input)
}

/// Flattens a sector slice into clustering samples, row-major: the sample
/// for cell (i, j) sits at index i * width + j and carries that cell's
/// derived content value.
pub fn map_into_db_input(input: &Vec<Vec<Option<Tile>>>) -> (r: Vec<DbPoint>)
    requires
        grid_wf(grid_view(input)),
    ensures
        ({
            let g = grid_view(input);
            let cols = g[0].len() as int;
            &&& r@.len() == g.len() * cols
            &&& forall|k: int|
                0 <= k < r@.len() ==> {
                    let p = #[trigger] r@[k];
                    &&& p.wf()
                    &&& p.row < g.len()
                    &&& p.col < cols
                    &&& k == p.row * cols + p.col
                    &&& 1 <= p.value <= 9
                    &&& (g[p.row as int][p.col as int] is Some && crate::tiles::spec_destroyable(
                        g[p.row as int][p.col as int].unwrap().content,
                    ) ==> p.value == crate::morans::spec_content_value(
                        g[p.row as int][p.col as int].unwrap().content,
                    ))
                }
        }),
{
    let ghost g = grid_view(input);
    let rows = input.len();
    let cols = input[0].len();
    proof {
        assert(g[0] == input@[0]@);
    }
    let mut r: Vec<DbPoint> = Vec::new();
    let mut i: usize = 0;
    while i < rows
        invariant
            grid_wf(g),
            g == grid_view(input),
            rows == g.len(),
            cols == g[0].len(),
            i <= rows,
            r@.len() == i * cols,
            r@.len() <= 1000000000000,
            forall|k: int|
                0 <= k < r@.len() ==> {
                    let p = #[trigger] r@[k];
                    &&& p.wf()
                    &&& p.row < g.len()
                    &&& p.col < cols
                    &&& k == p.row * (cols as int) + p.col
                    &&& 1 <= p.value <= 9
                    &&& (g[p.row as int][p.col as int] is Some && crate::tiles::spec_destroyable(
                        g[p.row as int][p.col as int].unwrap().content,
                    ) ==> p.value == crate::morans::spec_content_value(
                        g[p.row as int][p.col as int].unwrap().content,
                    ))
                },
        decreases rows - i,
    {
        proof {
            assert(g[i as int] == input@[i as int]@);
            assert((i as int) * cols + cols == (i + 1) * cols) by (nonlinear_arith);
            assert((i + 1) * cols <= 1000000 * 1000000) by (nonlinear_arith)
                requires 0 <= i + 1 <= 1000000, 0 <= cols <= 1000000;
        }
        let mut j: usize = 0;
        while j < cols
            invariant
                grid_wf(g),
                g == grid_view(input),
                rows == g.len(),
                cols == g[0].len(),
                i < rows,
                j <= cols,
                g[i as int] == input@[i as int]@,
                r@.len() == i * cols + j,
                (i as int) * cols + cols <= 1000000000000,
                forall|k: int|
                    0 <= k < r@.len() ==> {
                        let p = #[trigger] r@[k];
                        &&& p.wf()
                        &&& p.row < g.len()
                        &&& p.col < cols
                        &&& k == p.row * (cols as int) + p.col
                        &&& 1 <= p.value <= 9
                        &&& (g[p.row as int][p.col as int] is Some
                            && crate::tiles::spec_destroyable(
                            g[p.row as int][p.col as int].unwrap().content,
                        ) ==> p.value == crate::morans::spec_content_value(
                            g[p.row as int][p.col as int].unwrap().content,
                        ))
                    },
            decreases cols - j,
        {
            let value = get_content_value_morans(&input[i][j]);
            r.push(DbPoint { row: i, col: j, value: value as u64 });
            j = j + 1;
        }
        i = i + 1;
    }
    r
}

} // verus!
