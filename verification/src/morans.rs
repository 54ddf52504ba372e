use vstd::prelude::*;
use rand::Rng;
use crate::tiles::{destroyable, spec_destroyable, ContentKind, Tile};

verus! {

/// Total neighbor weight of an n-by-n grid under 4-neighborhood weights:
/// the number of ordered neighbor pairs, 4n(n-1).
pub fn get_w(n: usize) -> (r: usize)
    requires
        n <= 10000,
    ensures
        r == 4 * n * (n - 1),
    decreases n,
{
    if n <= 1 {
        proof {
            assert(4 * n * (n - 1) == 0) by (nonlinear_arith)
                requires n <= 1;
        }
        return 0;
    }
    let prev = get_w(n - 1);
    proof {
        assert(4 * (n - 1) * (n - 1 - 1) + 8 * (n - 1) == 4 * n * (n - 1)) by (nonlinear_arith);
        assert(4 * n * (n - 1) <= 4 * 10000 * 9999) by (nonlinear_arith)
            requires n <= 10000;
    }
    prev + 8 * (n - 1)
}

/// Ordinal value of a collectible content kind, as the statistic sees it.
pub open spec fn spec_content_value(content: ContentKind) -> int {
    match content {
        ContentKind::Rock => 1,
        ContentKind::Tree => 2,
        ContentKind::Water => 3,
        ContentKind::Coin => 4,
        ContentKind::Fire => 5,
        ContentKind::Garbage => 6,
        ContentKind::Fish => 7,
        ContentKind::Bush => 8,
        ContentKind::JollyBlock => 9,
        _ => 0,
    }
}

/// Relies on rand's `Rng::gen_range` on `thread_rng`: a sample from a
/// non-empty integer range lies within that range.
#[verifier::external_body]
fn random_filler() -> (r: u8)
    ensures
        1 <= r <= 9,
{
    rand::thread_rng().gen_range(1..10)
}

/// The per-tile scalar the statistic runs on: the fixed ordinal of a
/// collectible content, and a pseudo-random filler in the same range for
/// unknown tiles and uncollectible content, so gaps do not read as uniformity.
pub fn get_content_value_morans(tile: &Option<Tile>) -> (r: u8)
    ensures
        1 <= r <= 9,
        (tile is Some && spec_destroyable(tile.unwrap().content)) ==> r == spec_content_value(
            tile.unwrap().content,
        ),
{
    match tile {
        None => random_filler(),
        Some(t) => {
            if !destroyable(t.content) {
                return random_filler();
            }
            match t.content {
                ContentKind::Rock => 1,
                ContentKind::Tree => 2,
                ContentKind::Water => 3,
                ContentKind::Coin => 4,
                ContentKind::Fire => 5,
                ContentKind::Garbage => 6,
                ContentKind::Fish => 7,
                ContentKind::Bush => 8,
                ContentKind::JollyBlock => 9,
                _ => 1,
            }
        },
    }
}

/// A square grid of per-tile scalars, every value between 1 and 9.
pub open spec fn value_grid_wf(v: Seq<Seq<u8>>) -> bool {
    &&& 1 <= v.len() <= 100
    &&& forall|i: int| 0 <= i < v.len() ==> (#[trigger] v[i]).len() == v.len()
    &&& forall|i: int, j: int| 0 <= i < v.len() && 0 <= j < v.len()
        ==> 1 <= #[trigger] v[i][j] <= 9
}

/// Sum of the first `j` entries of one row.
pub open spec fn sum_row(s: Seq<u8>, j: int) -> int
    decreases j,
{
    if j <= 0 {
        0
    } else {
        sum_row(s, j - 1) + s[j - 1]
    }
}

/// Sum of the first `i` full rows.
pub open spec fn sum_grid(v: Seq<Seq<u8>>, i: int) -> int
    decreases i,
{
    if i <= 0 {
        0
    } else {
        sum_grid(v, i - 1) + sum_row(v[i - 1], v[i - 1].len() as int)
    }
}

/// Deviation of one cell from the grid mean, scaled by N to stay integral:
/// N * value - (sum of all values).
pub open spec fn spec_dev(v: Seq<Seq<u8>>, i: int, j: int) -> int {
    (v.len() * v.len()) * v[i][j] - sum_grid(v, v.len() as int)
}

/// One cell's contribution to the autocorrelation numerator: its deviation
/// times the sum of the deviations of its existing 4-neighbors.
pub open spec fn spec_num_cell(v: Seq<Seq<u8>>, i: int, j: int) -> int {
    let n = v.len() as int;
    spec_dev(v, i, j) * ((if i > 0 {
        spec_dev(v, i - 1, j)
    } else {
        0
    }) + (if j > 0 {
        spec_dev(v, i, j - 1)
    } else {
        0
    }) + (if i < n - 1 {
        spec_dev(v, i + 1, j)
    } else {
        0
    }) + (if j < n - 1 {
        spec_dev(v, i, j + 1)
    } else {
        0
    }))
}

/// One cell's contribution to the denominator: its squared deviation.
pub open spec fn spec_den_cell(v: Seq<Seq<u8>>, i: int, j: int) -> int {
    spec_dev(v, i, j) * spec_dev(v, i, j)
}

/// Numerator contributions of the first `j` cells of row `i`.
pub open spec fn spec_num_row(v: Seq<Seq<u8>>, i: int, j: int) -> int
    decreases j,
{
    if j <= 0 {
        0
    } else {
        spec_num_row(v, i, j - 1) + spec_num_cell(v, i, j - 1)
    }
}

/// Numerator contributions of the first `i` full rows.
pub open spec fn spec_num_grid(v: Seq<Seq<u8>>, i: int) -> int
    decreases i,
{
    if i <= 0 {
        0
    } else {
        spec_num_grid(v, i - 1) + spec_num_row(v, i - 1, v.len() as int)
    }
}

/// Denominator contributions of the first `j` cells of row `i`.
pub open spec fn spec_den_row(v: Seq<Seq<u8>>, i: int, j: int) -> int
    decreases j,
{
    if j <= 0 {
        0
    } else {
        spec_den_row(v, i, j - 1) + spec_den_cell(v, i, j - 1)
    }
}

/// Denominator contributions of the first `i` full rows.
pub open spec fn spec_den_grid(v: Seq<Seq<u8>>, i: int) -> int
    decreases i,
{
    if i <= 0 {
        0
    } else {
        spec_den_grid(v, i - 1) + spec_den_row(v, i - 1, v.len() as int)
    }
}

/// Numerator of the statistic, scaled: N times the sum of deviation products
/// over all ordered neighbor pairs (deviations themselves scaled by N).
pub open spec fn spec_morans_num(v: Seq<Seq<u8>>) -> int {
    (v.len() * v.len()) * spec_num_grid(v, v.len() as int)
}

/// Denominator of the statistic, scaled the same way: the total neighbor
/// weight W = 4n(n-1) times the sum of squared deviations.
pub open spec fn spec_morans_den(v: Seq<Seq<u8>>) -> int {
    (4 * v.len() * (v.len() - 1)) * spec_den_grid(v, v.len() as int)
}

/// Moran's I as the exact ratio num/den; den is zero exactly when every cell
/// equals the mean, where the statistic is undefined.
pub struct MoransRatio {
    pub num: i128,
    pub den: i128,
}

impl MoransRatio {
    /// Ranges the computation guarantees; they keep every later comparison
    /// free of overflow.
    pub open spec fn wf(self) -> bool {
        &&& -4000000000000000000 <= self.num <= 4000000000000000000
        &&& 0 <= self.den <= 4000000000000000000
    }

    /// The statistic counts as "statistically random" when it is undefined
    /// (no deviation at all) or falls below the small positive threshold of
    /// one tenth.
    pub open spec fn spec_is_random(self) -> bool {
        self.den == 0 || 10 * self.num < self.den
    }

    /// Executable twin of `spec_is_random`.
    pub fn is_random(&self) -> (r: bool)
        requires
            self.wf(),
        ensures
            r == self.spec_is_random(),
    {
        self.den == 0 || 10 * self.num < self.den
    }
}

/// Bounds of a partial row sum of values between 1 and 9.
proof fn lemma_sum_row_bounds(s: Seq<u8>, j: int)
    requires
        0 <= j <= s.len(),
        forall|l: int| 0 <= l < s.len() ==> 1 <= #[trigger] s[l] <= 9,
    ensures
        j <= sum_row(s, j) <= 9 * j,
    decreases j,
{
    if j > 0 {
        lemma_sum_row_bounds(s, j - 1);
    }
}

/// Bounds of a partial grid sum of values between 1 and 9.
proof fn lemma_sum_grid_bounds(v: Seq<Seq<u8>>, i: int)
    requires
        value_grid_wf(v),
        0 <= i <= v.len(),
    ensures
        i * v.len() <= sum_grid(v, i) <= 9 * i * v.len(),
    decreases i,
{
    if i == 0 {
        assert(i * v.len() == 0 && 9 * i * v.len() == 0) by (nonlinear_arith)
            requires i == 0;
    } else {
        lemma_sum_grid_bounds(v, i - 1);
        let l = v[i - 1].len() as int;
        lemma_sum_row_bounds(v[i - 1], l);
        assert(l == v.len());
        let prev = sum_grid(v, i - 1);
        let row = sum_row(v[i - 1], l);
        assert(sum_grid(v, i) == prev + row);
        assert(i * v.len() <= prev + row && prev + row <= 9 * i * v.len()) by (nonlinear_arith)
            requires
                (i - 1) * v.len() <= prev,
                prev <= 9 * (i - 1) * v.len(),
                l <= row,
                row <= 9 * l,
                l == v.len(),
                i >= 1;
    }
}

/// Every scaled deviation is bounded by 9N in magnitude.
proof fn lemma_dev_bound(v: Seq<Seq<u8>>, i: int, j: int)
    requires
        value_grid_wf(v),
        0 <= i < v.len(),
        0 <= j < v.len(),
    ensures
        -9 * (v.len() * v.len()) <= spec_dev(v, i, j) <= 9 * (v.len() * v.len()),
{
    let n = v.len() as int;
    lemma_sum_grid_bounds(v, n);
    let s = sum_grid(v, n);
    assert(-9 * (n * n) <= (n * n) * v[i][j] - s <= 9 * (n * n)) by (nonlinear_arith)
        requires
            1 <= v[i][j] <= 9,
            n >= 1,
            n * n <= s,
            s <= 9 * n * n;
}

/// The scaled deviation of one cell, computed from the precomputed grand
/// total, with its magnitude bound.
fn dev_at(values: &Vec<Vec<u8>>, nn_exec: i128, total_i: i128, i: usize, j: usize) -> (d: i128)
    requires
        value_grid_wf(values@.map_values(|row: Vec<u8>| row@)),
        i < values@.len(),
        j < values@.len(),
        nn_exec == values@.len() * values@.len(),
        total_i == sum_grid(
            values@.map_values(|row: Vec<u8>| row@),
            values@.len() as int,
        ),
    ensures
        d == spec_dev(values@.map_values(|row: Vec<u8>| row@), i as int, j as int),
        -90000 <= d <= 90000,
{
    let ghost v = values@.map_values(|row: Vec<u8>| row@);
    let ghost n = v.len() as int;
    proof {
        assert(v[i as int] == values@[i as int]@);
        lemma_dev_bound(v, i as int, j as int);
        lemma_sum_grid_bounds(v, n);
        assert(0 <= n * n <= 10000) by (nonlinear_arith)
            requires 1 <= n <= 100;
        assert(n * v.len() == n * n && 9 * n * v.len() == 9 * (n * n)) by (nonlinear_arith)
            requires (v.len() as int) == n;
        assert(0 <= nn_exec * (v[i as int][j as int] as int) <= 90000) by (nonlinear_arith)
            requires
                0 <= nn_exec <= 10000,
                1 <= v[i as int][j as int] <= 9;
        assert(-9 * (n * n) <= spec_dev(v, i as int, j as int) <= 9 * (n * n));
        assert(9 * (n * n) <= 90000) by (nonlinear_arith)
            requires 0 <= n * n <= 10000;
    }
    nn_exec * (values[i][j] as i128) - total_i
}

/// The exact autocorrelation ratio of a grid of per-tile scalars. The
/// numerator multiplies N into the sum of neighbor deviation products, the
/// denominator multiplies the total neighbor weight W into the sum of squared
/// deviations, so that num/den equals the classic row-standardized statistic.
pub fn morans_i_values(values: &Vec<Vec<u8>>) -> (r: MoransRatio)
    requires
        value_grid_wf(values@.map_values(|row: Vec<u8>| row@)),
    ensures
        r.wf(),
        r.num == spec_morans_num(values@.map_values(|row: Vec<u8>| row@)),
        r.den == spec_morans_den(values@.map_values(|row: Vec<u8>| row@)),
{
    let ghost v = values@.map_values(|row: Vec<u8>| row@);
    let n = values.len();
    let ghost nn = (n * n) as int;
    // First pass: the total of all values.
    let mut total: u64 = 0;
    let mut i: usize = 0;
    while i < n
        invariant
            value_grid_wf(v),
            v == values@.map_values(|row: Vec<u8>| row@),
            n == v.len(),
            i <= n,
            total == sum_grid(v, i as int),
            total <= 90000,
        decreases n - i,
    {
        proof {
            assert(v[i as int] == values@[i as int]@);
            lemma_sum_grid_bounds(v, i as int);
        }
        let mut j: usize = 0;
        while j < n
            invariant
                value_grid_wf(v),
                v == values@.map_values(|row: Vec<u8>| row@),
                n == v.len(),
                i < n,
                j <= n,
                v[i as int] == values@[i as int]@,
                total == sum_grid(v, i as int) + sum_row(v[i as int], j as int),
                total <= 90000,
            decreases n - j,
        {
            proof {
                lemma_sum_grid_bounds(v, i as int);
                lemma_sum_row_bounds(v[i as int], (j + 1) as int);
                assert((9 * (i as int)) * (n as int) + 9 * ((j + 1) as int) <= 9 * ((n as int)
                    * (n as int)) && 9 * ((n as int) * (n as int)) <= 90000)
                    by (nonlinear_arith)
                    requires
                        0 <= i < n,
                        0 <= j < n,
                        1 <= n <= 100;
                assert(sum_row(v[i as int], (j + 1) as int) == sum_row(v[i as int], j as int)
                    + v[i as int][j as int]);
            }
            total = total + (values[i][j] as u64);
            j = j + 1;
        }
        proof {
            assert(sum_grid(v, i + 1) == sum_grid(v, i as int) + sum_row(
                v[i as int],
                v[i as int].len() as int,
            ));
        }
        i = i + 1;
    }
    let ghost s_total = sum_grid(v, n as int);
    // Second pass: deviation products with the four neighbors, and squared
    // deviations.
    proof {
        assert(0 <= (n as int) * (n as int) <= 10000) by (nonlinear_arith)
            requires 1 <= n <= 100;
    }
    let nn_exec: i128 = (n as i128) * (n as i128);
    let total_i: i128 = total as i128;
    let mut num_acc: i128 = 0;
    let mut den_acc: i128 = 0;
    let mut i2: usize = 0;
    while i2 < n
        invariant
            value_grid_wf(v),
            v == values@.map_values(|row: Vec<u8>| row@),
            n == v.len(),
            i2 <= n,
            nn_exec == n * n,
            total_i == sum_grid(v, n as int),
            num_acc == spec_num_grid(v, i2 as int),
            den_acc == spec_den_grid(v, i2 as int),
            -400000000000000 <= num_acc <= 400000000000000,
            0 <= den_acc <= 82000000000000,
        decreases n - i2,
    {
        let mut j2: usize = 0;
        while j2 < n
            invariant
                value_grid_wf(v),
                v == values@.map_values(|row: Vec<u8>| row@),
                n == v.len(),
                i2 < n,
                j2 <= n,
                nn_exec == n * n,
                total_i == sum_grid(v, n as int),
                num_acc == spec_num_grid(v, i2 as int) + spec_num_row(v, i2 as int, j2 as int),
                den_acc == spec_den_grid(v, i2 as int) + spec_den_row(v, i2 as int, j2 as int),
                -400000000000000 <= num_acc <= 400000000000000,
                0 <= den_acc <= 82000000000000,
            decreases n - j2,
        {
            let dev: i128 = dev_at(values, nn_exec, total_i, i2, j2);
            let mut nb: i128 = 0;
            if i2 > 0 {
                nb = nb + dev_at(values, nn_exec, total_i, i2 - 1, j2);
            }
            if j2 > 0 {
                nb = nb + dev_at(values, nn_exec, total_i, i2, j2 - 1);
            }
            if i2 + 1 < n {
                nb = nb + dev_at(values, nn_exec, total_i, i2 + 1, j2);
            }
            if j2 + 1 < n {
                nb = nb + dev_at(values, nn_exec, total_i, i2, j2 + 1);
            }
            proof {
                assert(-360000 <= nb <= 360000);
                assert(-33000000000 <= dev * nb <= 33000000000) by (nonlinear_arith)
                    requires
                        -90000 <= dev <= 90000,
                        -360000 <= nb <= 360000;
                assert(0 <= dev * dev <= 33000000000) by (nonlinear_arith)
                    requires -90000 <= dev <= 90000;
                assert(nb == (if i2 > 0 { spec_dev(v, i2 - 1, j2 as int) } else { 0 })
                    + (if j2 > 0 { spec_dev(v, i2 as int, j2 - 1) } else { 0 })
                    + (if i2 + 1 < n { spec_dev(v, i2 + 1, j2 as int) } else { 0 })
                    + (if j2 + 1 < n { spec_dev(v, i2 as int, j2 + 1) } else { 0 }));
                assert(dev * nb == spec_num_cell(v, i2 as int, j2 as int));
                assert(dev * dev == spec_den_cell(v, i2 as int, j2 as int));
                lemma_num_cell_bound(v, i2 as int, j2 as int);
                lemma_partial_bounds(v, i2 as int, j2 + 1);
                assert(spec_num_row(v, i2 as int, j2 + 1) == spec_num_row(v, i2 as int, j2 as int)
                    + spec_num_cell(v, i2 as int, j2 as int));
                assert(spec_den_row(v, i2 as int, j2 + 1) == spec_den_row(v, i2 as int, j2 as int)
                    + spec_den_cell(v, i2 as int, j2 as int));
                lemma_cells_capped(v, i2 as int, j2 + 1);
            }
            num_acc = num_acc + dev * nb;
            den_acc = den_acc + dev * dev;
            j2 = j2 + 1;
        }
        proof {
            assert(spec_num_grid(v, i2 + 1) == spec_num_grid(v, i2 as int) + spec_num_row(
                v,
                i2 as int,
                n as int,
            ));
            assert(spec_den_grid(v, i2 + 1) == spec_den_grid(v, i2 as int) + spec_den_row(
                v,
                i2 as int,
                n as int,
            ));
        }
        i2 = i2 + 1;
    }
    let w_exec: i128 = get_w(n) as i128;
    proof {
        assert(0 <= (n as int) * (n as int) <= 10000) by (nonlinear_arith)
            requires 1 <= n <= 100;
        assert(0 <= 4 * (n as int) * ((n as int) - 1) <= 40000) by (nonlinear_arith)
            requires 1 <= n <= 100;
        assert(nn_exec * num_acc <= 4000000000000000000 && nn_exec * num_acc
            >= -4000000000000000000) by (nonlinear_arith)
            requires
                0 <= nn_exec <= 10000,
                -400000000000000 <= num_acc <= 400000000000000;
        assert(w_exec * den_acc <= 4000000000000000000 && w_exec * den_acc >= 0)
            by (nonlinear_arith)
            requires
                0 <= w_exec <= 40000,
                0 <= den_acc <= 82000000000000;
    }
    let num: i128 = (nn_exec) * num_acc;
    let den: i128 = w_exec * den_acc;
    MoransRatio { num, den }
}

/// The partial accumulations grow by at most one per-cell bound per cell.
proof fn lemma_partial_bounds(v: Seq<Seq<u8>>, i: int, j: int)
    requires
        value_grid_wf(v),
        0 <= i <= v.len(),
        i < v.len() ==> 0 <= j <= v.len(),
        i == v.len() ==> j == 0,
    ensures
        -40000000000 * (i * v.len() + j) <= spec_num_grid(v, i) + spec_num_row(v, i, j),
        spec_num_grid(v, i) + spec_num_row(v, i, j) <= 40000000000 * (i * v.len() + j),
        0 <= spec_den_grid(v, i) + spec_den_row(v, i, j),
        spec_den_grid(v, i) + spec_den_row(v, i, j) <= 8200000000 * (i * v.len() + j),
    decreases i * (v.len() + 1) + j + 1,
{
    let n = v.len() as int;
    if i == 0 && j == 0 {
    } else if j > 0 {
        assert(i * (n + 1) + (j - 1) + 1 < i * (n + 1) + j + 1);
        lemma_partial_bounds(v, i, j - 1);
        lemma_num_cell_bound(v, i, j - 1);
        assert(40000000000 * (i * n + j - 1) + 40000000000 == 40000000000 * (i * n + j)
            && -40000000000 * (i * n + j - 1) - 40000000000 == -40000000000 * (i * n + j)
            && 8200000000 * (i * n + j - 1) + 8200000000 == 8200000000 * (i * n + j))
            by (nonlinear_arith);
    } else {
        assert((i - 1) * (n + 1) + n + 1 < i * (n + 1) + 0 + 1) by (nonlinear_arith)
            requires n >= 1, i >= 1;
        lemma_partial_bounds(v, i - 1, n);
        assert(spec_num_grid(v, i) == spec_num_grid(v, i - 1) + spec_num_row(v, i - 1, n));
        assert(spec_den_grid(v, i) == spec_den_grid(v, i - 1) + spec_den_row(v, i - 1, n));
        assert(40000000000 * ((i - 1) * n + n) == 40000000000 * (i * n + 0)
            && -40000000000 * ((i - 1) * n + n) == -40000000000 * (i * n + 0)
            && 8200000000 * ((i - 1) * n + n) == 8200000000 * (i * n + 0))
            by (nonlinear_arith);
    }
}

/// At most n^2 cells ever contribute, so the counted bound never exceeds a
/// fixed cap.
proof fn lemma_cells_capped(v: Seq<Seq<u8>>, i: int, j: int)
    requires
        value_grid_wf(v),
        0 <= i <= v.len(),
        i < v.len() ==> 0 <= j <= v.len(),
        i == v.len() ==> j == 0,
    ensures
        40000000000 * (i * v.len() + j) <= 400000000000000,
        -40000000000 * (i * v.len() + j) >= -400000000000000,
        8200000000 * (i * v.len() + j) <= 82000000000000,
        0 <= 8200000000 * (i * v.len() + j),
{
    let n = v.len() as int;
    assert(i * n + j <= n * n) by (nonlinear_arith)
        requires
            0 <= i <= n,
            i < n ==> 0 <= j <= n,
            i == n ==> j == 0,
            n >= 1;
    assert(40000000000 * (i * n + j) <= 40000000000 * (n * n)
        && -40000000000 * (i * n + j) >= -(40000000000 * (n * n))
        && 8200000000 * (i * n + j) <= 8200000000 * (n * n)
        && 0 <= 8200000000 * (i * n + j)) by (nonlinear_arith)
        requires 0 <= i * n + j <= n * n;
    assert(40000000000 * (n * n) <= 400000000000000 && 8200000000 * (n * n)
        <= 82000000000000) by (nonlinear_arith)
        requires 1 <= n <= 100;
    assert(0 <= i * n + j) by (nonlinear_arith)
        requires
            0 <= i,
            0 <= j || (i == v.len() && j == 0),
            n >= 1,
            0 <= j;
}

/// Per-cell bound on the numerator and denominator contributions.
proof fn lemma_num_cell_bound(v: Seq<Seq<u8>>, i: int, j: int)
    requires
        value_grid_wf(v),
        0 <= i < v.len(),
        0 <= j < v.len(),
    ensures
        -40000000000 <= spec_num_cell(v, i, j) <= 40000000000,
        0 <= spec_den_cell(v, i, j) <= 8200000000,
{
    let n = v.len() as int;
    assert(0 <= n * n <= 10000) by (nonlinear_arith)
        requires 1 <= n <= 100;
    let nn = n * n;
    lemma_dev_bound(v, i, j);
    if i > 0 {
        lemma_dev_bound(v, i - 1, j);
    }
    if j > 0 {
        lemma_dev_bound(v, i, j - 1);
    }
    if i < n - 1 {
        lemma_dev_bound(v, i + 1, j);
    }
    if j < n - 1 {
        lemma_dev_bound(v, i, j + 1);
    }
    let d = spec_dev(v, i, j);
    let nb = (if i > 0 {
        spec_dev(v, i - 1, j)
    } else {
        0
    }) + (if j > 0 {
        spec_dev(v, i, j - 1)
    } else {
        0
    }) + (if i < n - 1 {
        spec_dev(v, i + 1, j)
    } else {
        0
    }) + (if j < n - 1 {
        spec_dev(v, i, j + 1)
    } else {
        0
    });
    assert(spec_num_cell(v, i, j) == d * nb);
    assert(spec_den_cell(v, i, j) == d * d);
    assert(-36 * nn <= nb <= 36 * nn);
    assert(-324 * nn * nn <= d * nb <= 324 * nn * nn) by (nonlinear_arith)
        requires
            -9 * nn <= d <= 9 * nn,
            -36 * nn <= nb <= 36 * nn,
            nn >= 0;
    assert(0 <= d * d <= 81 * nn * nn) by (nonlinear_arith)
        requires -9 * nn <= d <= 9 * nn;
    assert(324 * nn * nn <= 32400000000 && 81 * nn * nn <= 8100000000) by (nonlinear_arith)
        requires 0 <= nn <= 10000;
    assert(-324 * nn * nn == -(324 * nn * nn) && -(324 * nn * nn) >= -32400000000)
        by (nonlinear_arith)
        requires 324 * nn * nn <= 32400000000;
}

/// A value grid is consistent with a sector slice: same square shape, every
/// value in range, and every observed collectible content mapped to its
/// fixed ordinal.
pub open spec fn values_match(g: Seq<Seq<Option<Tile>>>, v: Seq<Seq<u8>>) -> bool {
    &&& v.len() == g.len()
    &&& forall|i: int| 0 <= i < v.len() ==> (#[trigger] v[i]).len() == g[i].len()
    &&& forall|i: int, j: int|
        0 <= i < g.len() && 0 <= j < g[i].len() && g[i][j] is Some && spec_destroyable(
            (#[trigger] g[i][j]).unwrap().content,
        ) ==> v[i][j] == spec_content_value(g[i][j].unwrap().content)
}

/// Derives the per-tile scalars of a square sector slice; unknown tiles and
/// uncollectible content receive pseudo-random fillers.
pub fn values_of_sector(sector: &Vec<Vec<Option<Tile>>>) -> (r: Vec<Vec<u8>>)
    requires
        crate::utils::grid_wf(crate::utils::grid_view(sector)),
        crate::utils::grid_view(sector).len() == crate::utils::grid_view(sector)[0].len(),
        crate::utils::grid_view(sector).len() <= 100,
    ensures
        value_grid_wf(r@.map_values(|row: Vec<u8>| row@)),
        values_match(crate::utils::grid_view(sector), r@.map_values(|row: Vec<u8>| row@)),
{
    let ghost g = crate::utils::grid_view(sector);
    let n = sector.len();
    let mut r: Vec<Vec<u8>> = Vec::new();
    let mut i: usize = 0;
    while i < n
        invariant
            crate::utils::grid_wf(g),
            g == crate::utils::grid_view(sector),
            n == g.len(),
            g[0].len() == n,
            n <= 100,
            i <= n,
            r@.len() == i,
            forall|k: int| 0 <= k < i ==> (#[trigger] r@[k]@).len() == n,
            forall|k: int, l: int|
                0 <= k < i && 0 <= l < n ==> 1 <= #[trigger] r@[k]@[l] <= 9,
            forall|k: int, l: int|
                0 <= k < i && 0 <= l < n && g[k][l] is Some && spec_destroyable(
                    (#[trigger] g[k][l]).unwrap().content,
                ) ==> r@[k]@[l] == spec_content_value(g[k][l].unwrap().content),
        decreases n - i,
    {
        proof {
            assert(g[i as int] == sector@[i as int]@);
            assert(g[i as int].len() == g[0].len());
        }
        let mut row: Vec<u8> = Vec::new();
        let mut j: usize = 0;
        while j < n
            invariant
                crate::utils::grid_wf(g),
                g == crate::utils::grid_view(sector),
                n == g.len(),
                g[0].len() == n,
                i < n,
                j <= n,
                g[i as int] == sector@[i as int]@,
                g[i as int].len() == n,
                row@.len() == j,
                forall|l: int| 0 <= l < j ==> 1 <= #[trigger] row@[l] <= 9,
                forall|l: int|
                    0 <= l < j && g[i as int][l] is Some && spec_destroyable(
                        (#[trigger] g[i as int][l]).unwrap().content,
                    ) ==> row@[l] == spec_content_value(g[i as int][l].unwrap().content),
            decreases n - j,
        {
            row.push(get_content_value_morans(&sector[i][j]));
            j = j + 1;
        }
        r.push(row);
        proof {
            assert(r@[i as int]@ == row@);
        }
        i = i + 1;
    }
    proof {
        let vv = r@.map_values(|row: Vec<u8>| row@);
        assert forall|k: int| 0 <= k < vv.len() implies (#[trigger] vv[k]).len() == n by {
            assert(vv[k] == r@[k]@);
        }
        assert forall|k: int, l: int|
            0 <= k < vv.len() && 0 <= l < vv.len() implies 1 <= #[trigger] vv[k][l] <= 9 by {
            assert(vv[k] == r@[k]@);
        }
        assert forall|k: int, l: int|
            0 <= k < g.len() && 0 <= l < g[k].len() && g[k][l] is Some && spec_destroyable(
                (#[trigger] g[k][l]).unwrap().content,
            ) implies vv[k][l] == spec_content_value(g[k][l].unwrap().content) by {
            assert(vv[k] == r@[k]@);
            assert(g[k].len() == g[0].len());
        }
    }
    r
}

/// The spatial-autocorrelation ratio of a square sector slice. The scalar
/// grid it actually ran on is consistent with the sector; unknown cells hold
/// fillers, so two calls need not agree there.
pub fn morans_i(sector: &Vec<Vec<Option<Tile>>>) -> (r: MoransRatio)
    requires
        crate::utils::grid_wf(crate::utils::grid_view(sector)),
        crate::utils::grid_view(sector).len() == crate::utils::grid_view(sector)[0].len(),
        crate::utils::grid_view(sector).len() <= 100,
    ensures
        r.wf(),
        exists|v: Seq<Seq<u8>>|
            #[trigger] values_match(crate::utils::grid_view(sector), v) && value_grid_wf(v)
                && r.num == spec_morans_num(v) && r.den == spec_morans_den(v),
{
    let values = values_of_sector(sector);
    let r = morans_i_values(&values);
    proof {
        let v = values@.map_values(|row: Vec<u8>| row@);
        assert(values_match(crate::utils::grid_view(sector), v) && value_grid_wf(v) && r.num
            == spec_morans_num(v) && r.den == spec_morans_den(v));
    }
    r
}

proof fn lemma_uniform_row_sum(s: Seq<u8>, c: u8, j: int)
    requires
        0 <= j <= s.len(),
        forall|l: int| 0 <= l < s.len() ==> #[trigger] s[l] == c,
    ensures
        sum_row(s, j) == j * c,
    decreases j,
{
    if j == 0 {
        assert(j * c == 0) by (nonlinear_arith)
            requires j == 0;
    } else {
        lemma_uniform_row_sum(s, c, j - 1);
        assert((j - 1) * c + c == j * c) by (nonlinear_arith);
    }
}

proof fn lemma_uniform_grid_sum(v: Seq<Seq<u8>>, c: u8, i: int)
    requires
        value_grid_wf(v),
        0 <= i <= v.len(),
        forall|k: int, l: int| 0 <= k < v.len() && 0 <= l < v.len() ==> #[trigger] v[k][l] == c,
    ensures
        sum_grid(v, i) == i * (v.len() * c),
    decreases i,
{
    if i == 0 {
        assert(i * (v.len() * c) == 0) by (nonlinear_arith)
            requires i == 0;
    } else {
        lemma_uniform_grid_sum(v, c, i - 1);
        assert(v[i - 1].len() == v.len());
        assert forall|l: int| 0 <= l < v[i - 1].len() implies #[trigger] v[i - 1][l] == c by {}
        lemma_uniform_row_sum(v[i - 1], c, v[i - 1].len() as int);
        assert((i - 1) * (v.len() * c) + v.len() * c == i * (v.len() * c))
            by (nonlinear_arith);
        assert((v[i - 1].len() as int) * c == v.len() * c);
    }
}

proof fn lemma_uniform_dev_zero(v: Seq<Seq<u8>>, c: u8, i: int, j: int)
    requires
        value_grid_wf(v),
        0 <= i < v.len(),
        0 <= j < v.len(),
        forall|k: int, l: int| 0 <= k < v.len() && 0 <= l < v.len() ==> #[trigger] v[k][l] == c,
    ensures
        spec_dev(v, i, j) == 0,
{
    let n = v.len() as int;
    lemma_uniform_grid_sum(v, c, n);
    assert((n * n) * c == n * (n * c)) by (nonlinear_arith);
    assert(n * ((v.len() as int) * c) == n * (n * c));
}

proof fn lemma_uniform_den_row(v: Seq<Seq<u8>>, c: u8, i: int, j: int)
    requires
        value_grid_wf(v),
        0 <= i < v.len(),
        0 <= j <= v.len(),
        forall|k: int, l: int| 0 <= k < v.len() && 0 <= l < v.len() ==> #[trigger] v[k][l] == c,
    ensures
        spec_den_row(v, i, j) == 0,
    decreases j,
{
    if j > 0 {
        lemma_uniform_den_row(v, c, i, j - 1);
        lemma_uniform_dev_zero(v, c, i, j - 1);
    }
}

proof fn lemma_uniform_den_grid(v: Seq<Seq<u8>>, c: u8, i: int)
    requires
        value_grid_wf(v),
        0 <= i <= v.len(),
        forall|k: int, l: int| 0 <= k < v.len() && 0 <= l < v.len() ==> #[trigger] v[k][l] == c,
    ensures
        spec_den_grid(v, i) == 0,
    decreases i,
{
    if i > 0 {
        lemma_uniform_den_grid(v, c, i - 1);
        lemma_uniform_den_row(v, c, i - 1, v.len() as int);
    }
}

/// A single-value grid has zero deviation everywhere, so the statistic's
/// denominator vanishes: the randomness test must take its guard branch and
/// never divides by it.
pub proof fn lemma_uniform_grid_denominator_zero(v: Seq<Seq<u8>>, c: u8)
    requires
        value_grid_wf(v),
        forall|k: int, l: int| 0 <= k < v.len() && 0 <= l < v.len() ==> #[trigger] v[k][l] == c,
    ensures
        spec_morans_den(v) == 0,
        forall|m: MoransRatio|
            m.num == spec_morans_num(v) && m.den == spec_morans_den(v)
                ==> #[trigger] m.spec_is_random(),
{
    lemma_uniform_den_grid(v, c, v.len() as int);
    assert((4 * v.len() * (v.len() - 1)) * spec_den_grid(v, v.len() as int) == 0)
        by (nonlinear_arith)
        requires spec_den_grid(v, v.len() as int) == 0;
}

/// A perfect two-value checkerboard: cells of even coordinate parity hold
/// one value, the others the second.
pub open spec fn checkerboard(v: Seq<Seq<u8>>, a: u8, b: u8) -> bool {
    &&& value_grid_wf(v)
    &&& a != b
    &&& forall|i: int, j: int|
        0 <= i < v.len() && 0 <= j < v.len() ==> #[trigger] v[i][j] == (if (i + j) % 2 == 0 {
            a
        } else {
            b
        })
}

proof fn lemma_cb_row_sum(v: Seq<Seq<u8>>, a: u8, b: u8, i: int, j: int)
    requires
        checkerboard(v, a, b),
        0 <= i < v.len(),
        0 <= j <= v.len(),
        j % 2 == 0,
    ensures
        sum_row(v[i], j) == (j / 2) * (a + b),
    decreases j,
{
    if j == 0 {
        assert((j / 2) * (a + b) == 0) by (nonlinear_arith)
            requires j == 0;
    } else {
        lemma_cb_row_sum(v, a, b, i, j - 2);
        assert(v[i].len() == v.len());
        assert(v[i][j - 2] + v[i][j - 1] == a + b) by {
            assert(v[i][j - 2] == (if (i + j - 2) % 2 == 0 { a } else { b }));
            assert(v[i][j - 1] == (if (i + j - 1) % 2 == 0 { a } else { b }));
            assert((i + j - 2) % 2 != (i + j - 1) % 2);
        }
        assert(sum_row(v[i], j) == sum_row(v[i], j - 1) + v[i][j - 1]);
        assert(sum_row(v[i], j - 1) == sum_row(v[i], j - 2) + v[i][j - 2]);
        assert(((j - 2) / 2) * (a + b) + (a + b) == (j / 2) * (a + b)) by (nonlinear_arith)
            requires j % 2 == 0, j >= 2;
    }
}

proof fn lemma_cb_grid_sum(v: Seq<Seq<u8>>, a: u8, b: u8, i: int)
    requires
        checkerboard(v, a, b),
        v.len() % 2 == 0,
        0 <= i <= v.len(),
    ensures
        sum_grid(v, i) == i * ((v.len() as int / 2) * (a + b)),
    decreases i,
{
    if i == 0 {
        assert(i * ((v.len() as int / 2) * (a + b)) == 0) by (nonlinear_arith)
            requires i == 0;
    } else {
        lemma_cb_grid_sum(v, a, b, i - 1);
        assert(v[i - 1].len() == v.len());
        lemma_cb_row_sum(v, a, b, i - 1, v.len() as int);
        assert((i - 1) * ((v.len() as int / 2) * (a + b)) + (v.len() as int / 2) * (a + b)
            == i * ((v.len() as int / 2) * (a + b))) by (nonlinear_arith);
    }
}

/// On an even-sided checkerboard every deviation is plus or minus one common
/// magnitude, by cell parity.
proof fn lemma_cb_dev(v: Seq<Seq<u8>>, a: u8, b: u8, i: int, j: int)
    requires
        checkerboard(v, a, b),
        v.len() % 2 == 0,
        0 <= i < v.len(),
        0 <= j < v.len(),
    ensures
        (i + j) % 2 == 0 ==> spec_dev(v, i, j) == cb_dev_mag(v, a, b),
        (i + j) % 2 != 0 ==> spec_dev(v, i, j) == -cb_dev_mag(v, a, b),
{
    let n = v.len() as int;
    lemma_cb_grid_sum(v, a, b, n);
    let s = sum_grid(v, n);
    assert(s == n * ((n / 2) * (a + b)));
    if (i + j) % 2 == 0 {
        assert(v[i][j] == a);
    } else {
        assert(v[i][j] == b);
        // N*b - S == -(N*a - S) because N*(a + b) == 2*S
        assert((n * n) * b - s == -((n * n) * a - s)) by (nonlinear_arith)
            requires
                s == n * ((n / 2) * (a + b)),
                n % 2 == 0;
    }
}

/// The common deviation magnitude of the checkerboard's majority-parity
/// cells.
pub open spec fn cb_dev_mag(v: Seq<Seq<u8>>, a: u8, b: u8) -> int {
    (v.len() * v.len()) * a - sum_grid(v, v.len() as int)
}

/// The number of existing 4-neighbors of a cell.
pub open spec fn spec_degree(n: int, i: int, j: int) -> int {
    (if i > 0 {
        1int
    } else {
        0int
    }) + (if i < n - 1 {
        1int
    } else {
        0int
    }) + (if j > 0 {
        1int
    } else {
        0int
    }) + (if j < n - 1 {
        1int
    } else {
        0int
    })
}

/// Degrees of the first `j` cells of row `i`.
pub open spec fn degree_row(n: int, i: int, j: int) -> int
    decreases j,
{
    if j <= 0 {
        0
    } else {
        degree_row(n, i, j - 1) + spec_degree(n, i, j - 1)
    }
}

/// Degrees of the first `i` full rows.
pub open spec fn degree_grid(n: int, i: int) -> int
    decreases i,
{
    if i <= 0 {
        0
    } else {
        degree_grid(n, i - 1) + degree_row(n, i - 1, n)
    }
}

proof fn lemma_degree_row_closed(n: int, i: int, j: int)
    requires
        n >= 2,
        0 <= i < n,
        0 <= j <= n,
    ensures
        degree_row(n, i, j) == j * ((if i > 0 { 1int } else { 0int }) + (if i < n - 1 {
            1int
        } else {
            0int
        })) + (if j > 0 {
            j - 1
        } else {
            0int
        }) + (if j <= n - 1 {
            j
        } else {
            n - 1
        }),
    decreases j,
{
    let irow = (if i > 0 { 1int } else { 0int }) + (if i < n - 1 { 1int } else { 0int });
    if j == 0 {
        assert(j * irow == 0) by (nonlinear_arith)
            requires j == 0;
    } else {
        lemma_degree_row_closed(n, i, j - 1);
        assert(degree_row(n, i, j) == degree_row(n, i, j - 1) + spec_degree(n, i, j - 1));
        assert(spec_degree(n, i, j - 1) == irow + (if j - 1 > 0 { 1int } else { 0int }) + (
        if j - 1 < n - 1 {
            1int
        } else {
            0int
        }));
        assert((j - 1) * irow + irow == j * irow) by (nonlinear_arith);
        assert((if j - 1 > 0 { (j - 1) - 1 } else { 0int }) + (if j - 1 > 0 {
            1int
        } else {
            0int
        }) == (if j > 0 { j - 1 } else { 0int }));
        assert((if j - 1 <= n - 1 { j - 1 } else { n - 1 }) + (if j - 1 < n - 1 {
            1int
        } else {
            0int
        }) == (if j <= n - 1 { j } else { n - 1 }));
    }
}

proof fn lemma_degree_grid_closed(n: int, i: int)
    requires
        n >= 2,
        0 <= i <= n,
    ensures
        degree_grid(n, i) == i * (2 * (n - 1)) + n * ((if i > 0 {
            i - 1
        } else {
            0int
        }) + (if i <= n - 1 {
            i
        } else {
            n - 1
        })),
    decreases i,
{
    if i == 0 {
        assert(i * (2 * (n - 1)) == 0 && n * ((if i > 0 { i - 1 } else { 0int }) + (if i
            <= n - 1 {
            i
        } else {
            n - 1
        })) == 0) by (nonlinear_arith)
            requires
                i == 0,
                n >= 2;
    } else {
        lemma_degree_grid_closed(n, i - 1);
        lemma_degree_row_closed(n, i - 1, n);
        let irow = (if i - 1 > 0 { 1int } else { 0int }) + (if i - 1 < n - 1 {
            1int
        } else {
            0int
        });
        assert(degree_row(n, i - 1, n) == n * irow + 2 * (n - 1)) by (nonlinear_arith)
            requires
                degree_row(n, i - 1, n) == n * irow + (n - 1) + (n - 1),
                n >= 2;
        let prev_s = (if i - 1 > 0 { i - 2 } else { 0int }) + (if i - 1 <= n - 1 {
            i - 1
        } else {
            n - 1
        });
        let cur_s = (if i > 0 { i - 1 } else { 0int }) + (if i <= n - 1 { i } else { n - 1 });
        assert(prev_s + irow == cur_s);
        assert((i - 1) * (2 * (n - 1)) + n * prev_s + (n * irow + 2 * (n - 1)) == i * (2 * (n
            - 1)) + n * cur_s) by (nonlinear_arith)
            requires prev_s + irow == cur_s;
    }
}

/// The total neighbor weight equals the degree sum of the whole grid.
proof fn lemma_degree_grid_total(n: int)
    requires
        n >= 2,
    ensures
        degree_grid(n, n) == 4 * n * (n - 1),
{
    lemma_degree_grid_closed(n, n);
    assert(n * (2 * (n - 1)) + n * ((n - 1) + (n - 1)) == 4 * n * (n - 1))
        by (nonlinear_arith);
}

proof fn lemma_cb_den_row(v: Seq<Seq<u8>>, a: u8, b: u8, i: int, j: int)
    requires
        checkerboard(v, a, b),
        v.len() % 2 == 0,
        0 <= i < v.len(),
        0 <= j <= v.len(),
    ensures
        spec_den_row(v, i, j) == j * (cb_dev_mag(v, a, b) * cb_dev_mag(v, a, b)),
    decreases j,
{
    let dd = cb_dev_mag(v, a, b) * cb_dev_mag(v, a, b);
    if j == 0 {
        assert(j * dd == 0) by (nonlinear_arith)
            requires j == 0;
    } else {
        lemma_cb_den_row(v, a, b, i, j - 1);
        lemma_cb_dev(v, a, b, i, j - 1);
        let d = spec_dev(v, i, j - 1);
        let m = cb_dev_mag(v, a, b);
        assert(d * d == dd) by (nonlinear_arith)
            requires d == m || d == -m, dd == m * m;
        assert((j - 1) * dd + dd == j * dd) by (nonlinear_arith);
    }
}

proof fn lemma_cb_den_grid(v: Seq<Seq<u8>>, a: u8, b: u8, i: int)
    requires
        checkerboard(v, a, b),
        v.len() % 2 == 0,
        0 <= i <= v.len(),
    ensures
        spec_den_grid(v, i) == i * ((v.len() as int) * (cb_dev_mag(v, a, b) * cb_dev_mag(
            v,
            a,
            b,
        ))),
    decreases i,
{
    let n = v.len() as int;
    let dd = cb_dev_mag(v, a, b) * cb_dev_mag(v, a, b);
    if i == 0 {
        assert(i * (n * dd) == 0) by (nonlinear_arith)
            requires i == 0;
    } else {
        lemma_cb_den_grid(v, a, b, i - 1);
        assert(v[i - 1].len() == v.len());
        lemma_cb_den_row(v, a, b, i - 1, n);
        assert((i - 1) * (n * dd) + n * dd == i * (n * dd)) by (nonlinear_arith);
    }
}

proof fn lemma_cb_num_cell(v: Seq<Seq<u8>>, a: u8, b: u8, i: int, j: int)
    requires
        checkerboard(v, a, b),
        v.len() % 2 == 0,
        0 <= i < v.len(),
        0 <= j < v.len(),
    ensures
        spec_num_cell(v, i, j) == -(spec_degree(v.len() as int, i, j) * (cb_dev_mag(v, a, b)
            * cb_dev_mag(v, a, b))),
{
    let n = v.len() as int;
    let m = cb_dev_mag(v, a, b);
    let dd = m * m;
    lemma_cb_dev(v, a, b, i, j);
    let d = spec_dev(v, i, j);
    if i > 0 {
        lemma_cb_dev(v, a, b, i - 1, j);
        assert(spec_dev(v, i - 1, j) == -d);
    }
    if i < n - 1 {
        lemma_cb_dev(v, a, b, i + 1, j);
        assert(spec_dev(v, i + 1, j) == -d);
    }
    if j > 0 {
        lemma_cb_dev(v, a, b, i, j - 1);
        assert(spec_dev(v, i, j - 1) == -d);
    }
    if j < n - 1 {
        lemma_cb_dev(v, a, b, i, j + 1);
        assert(spec_dev(v, i, j + 1) == -d);
    }
    let deg = spec_degree(n, i, j);
    let nb = (if i > 0 {
        spec_dev(v, i - 1, j)
    } else {
        0
    }) + (if j > 0 {
        spec_dev(v, i, j - 1)
    } else {
        0
    }) + (if i < n - 1 {
        spec_dev(v, i + 1, j)
    } else {
        0
    }) + (if j < n - 1 {
        spec_dev(v, i, j + 1)
    } else {
        0
    });
    assert(nb == deg * (-d)) by (nonlinear_arith)
        requires
            nb == (if i > 0 { -d } else { 0int }) + (if j > 0 { -d } else { 0int }) + (if i
                < n - 1 {
                -d
            } else {
                0int
            }) + (if j < n - 1 {
                -d
            } else {
                0int
            }),
            deg == (if i > 0 { 1int } else { 0int }) + (if i < n - 1 { 1int } else { 0int })
                + (if j > 0 { 1int } else { 0int }) + (if j < n - 1 { 1int } else { 0int });
    assert(d * (deg * (-d)) == -(deg * dd)) by (nonlinear_arith)
        requires d == m || d == -m, dd == m * m;
    assert(spec_num_cell(v, i, j) == d * nb);
}

proof fn lemma_cb_num_row(v: Seq<Seq<u8>>, a: u8, b: u8, i: int, j: int)
    requires
        checkerboard(v, a, b),
        v.len() % 2 == 0,
        0 <= i < v.len(),
        0 <= j <= v.len(),
    ensures
        spec_num_row(v, i, j) == -(degree_row(v.len() as int, i, j) * (cb_dev_mag(v, a, b)
            * cb_dev_mag(v, a, b))),
    decreases j,
{
    let n = v.len() as int;
    let dd = cb_dev_mag(v, a, b) * cb_dev_mag(v, a, b);
    if j == 0 {
        assert(degree_row(n, i, 0) * dd == 0) by (nonlinear_arith)
            requires degree_row(n, i, 0) == 0;
    } else {
        lemma_cb_num_row(v, a, b, i, j - 1);
        lemma_cb_num_cell(v, a, b, i, j - 1);
        assert(-(degree_row(n, i, j - 1) * dd) + -(spec_degree(n, i, j - 1) * dd) == -((
        degree_row(n, i, j - 1) + spec_degree(n, i, j - 1)) * dd)) by (nonlinear_arith);
    }
}

proof fn lemma_cb_num_grid(v: Seq<Seq<u8>>, a: u8, b: u8, i: int)
    requires
        checkerboard(v, a, b),
        v.len() % 2 == 0,
        0 <= i <= v.len(),
    ensures
        spec_num_grid(v, i) == -(degree_grid(v.len() as int, i) * (cb_dev_mag(v, a, b)
            * cb_dev_mag(v, a, b))),
    decreases i,
{
    let n = v.len() as int;
    let dd = cb_dev_mag(v, a, b) * cb_dev_mag(v, a, b);
    if i == 0 {
        assert(degree_grid(n, 0) * dd == 0) by (nonlinear_arith)
            requires degree_grid(n, 0) == 0;
    } else {
        lemma_cb_num_grid(v, a, b, i - 1);
        assert(v[i - 1].len() == v.len());
        lemma_cb_num_row(v, a, b, i - 1, n);
        assert(-(degree_grid(n, i - 1) * dd) + -(degree_row(n, i - 1, n) * dd) == -((
        degree_grid(n, i - 1) + degree_row(n, i - 1, n)) * dd)) by (nonlinear_arith);
    }
}

/// A perfectly checkerboarded two-value grid of even side yields the most
/// negative statistic there is: the scaled numerator is exactly the negated
/// denominator, and the denominator is positive, so the ratio is minus one.
pub proof fn lemma_checkerboard_statistic(v: Seq<Seq<u8>>, a: u8, b: u8)
    requires
        checkerboard(v, a, b),
        v.len() % 2 == 0,
    ensures
        spec_morans_num(v) == -spec_morans_den(v),
        spec_morans_den(v) > 0,
{
    let n = v.len() as int;
    let m = cb_dev_mag(v, a, b);
    let dd = m * m;
    lemma_cb_num_grid(v, a, b, n);
    lemma_cb_den_grid(v, a, b, n);
    lemma_degree_grid_total(n);
    assert((n * n) * (-((4 * n * (n - 1)) * dd)) == -((4 * n * (n - 1)) * (n * (n * dd))))
        by (nonlinear_arith);
    assert(spec_morans_num(v) == (n * n) * spec_num_grid(v, n));
    assert(spec_morans_den(v) == (4 * n * (n - 1)) * spec_den_grid(v, n));
    // the common deviation magnitude is nonzero because the two values differ
    lemma_cb_grid_sum(v, a, b, n);
    assert(2 * m == (n * n) * a - (n * n) * b) by (nonlinear_arith)
        requires
            m == (n * n) * a - n * ((n / 2) * (a + b)),
            n % 2 == 0,
            n >= 2;
    assert(m != 0) by (nonlinear_arith)
        requires
            2 * m == (n * n) * a - (n * n) * b,
            a != b,
            n >= 2,
            0 <= a,
            0 <= b;
    assert((4 * n * (n - 1)) * (n * (n * dd)) > 0) by (nonlinear_arith)
        requires
            dd == m * m,
            m != 0,
            n >= 2;
}

} // verus!
