//! The grid of level hypervectors: one hypervector per pixel, made so that the
//! Hamming distance between two pixels grows linearly with their offset along
//! each axis.

use vstd::prelude::*;
use rand::rngs::ThreadRng;
use crate::hypervec::{count_true, xor_seq, hamming, lemma_count_all_false, lemma_count_set_bit, lemma_count_within, lemma_count_xor_disjoint,
    lemma_count_xor_subset};
use crate::random::{thread_rng, random_bits, choose_multiple};

verus! {

/// Level hypervectors for a `rows` × `cols` pixel grid, each of length `dim`:
/// `cells[y][x]` is the hypervector of pixel `(x, y)`.
pub struct LevelGrid {
    rows: usize,
    cols: usize,
    dim: usize,
    cells: Vec<Vec<Vec<bool>>>,
}

/// `|a - b|`.
pub open spec fn abs_diff(a: int, b: int) -> int {
    if a >= b { a - b } else { b - a }
}

/// Whether nested cells have exactly the shape `rows` × `cols` × `dim`.
pub open spec fn has_shape(cells: Seq<Vec<Vec<bool>>>, rows: nat, cols: nat, dim: nat) -> bool {
    &&& cells.len() == rows
    &&& forall|y: int| 0 <= y < rows ==> (#[trigger] cells[y])@.len() == cols
    &&& forall|y: int, x: int|
        0 <= y < rows && 0 <= x < cols ==> (#[trigger] cells[y]@[x])@.len() == dim
}

impl LevelGrid {
    /// The cells have the shape the grid records.
    #[verifier::type_invariant]
    spec fn shape_ok(self) -> bool {
        has_shape(self.cells@, self.rows as nat, self.cols as nat, self.dim as nat)
    }

    /// Number of pixel rows (the `y` extent).
    pub closed spec fn num_rows(self) -> nat {
        self.rows as nat
    }

    /// Number of pixel columns (the `x` extent).
    pub closed spec fn num_cols(self) -> nat {
        self.cols as nat
    }

    /// Length of every hypervector in the grid.
    pub closed spec fn hv_dim(self) -> nat {
        self.dim as nat
    }

    /// The hypervector of pixel `(x, y)`.
    pub closed spec fn cell(self, y: int, x: int) -> Seq<bool> {
        self.cells@[y]@[x]@
    }

    /// Builds a grid from nested cells; `None` unless there are `cells.len()`
    /// rows of `cols` hypervectors, each of length `dim`.
    pub fn from_cells(cols: usize, dim: usize, cells: Vec<Vec<Vec<bool>>>) -> (g: Option<LevelGrid>)
        ensures
            g is Some <==> has_shape(cells@, cells@.len(), cols as nat, dim as nat),
            g matches Some(g) ==> {
                &&& g.num_rows() == cells@.len()
                &&& g.num_cols() == cols
                &&& g.hv_dim() == dim
                &&& forall|y: int, x: int|
                    0 <= y < g.num_rows() && 0 <= x < cols ==> #[trigger] g.cell(y, x)
                        == cells@[y]@[x]@
            },
    {
        let rows: usize = cells.len();
        let mut y: usize = 0;
        while y < rows
            invariant
                rows == cells@.len(),
                y <= rows,
                forall|yy: int| 0 <= yy < y ==> (#[trigger] cells@[yy])@.len() == cols,
                forall|yy: int, x: int|
                    0 <= yy < y && 0 <= x < cols ==> (#[trigger] cells@[yy]@[x])@.len() == dim,
            decreases rows - y,
        {
            if cells[y].len() != cols {
                return None;
            }
            let mut x: usize = 0;
            while x < cols
                invariant
                    rows == cells@.len(),
                    y < rows,
                    cells@[y as int]@.len() == cols,
                    x <= cols,
                    forall|xx: int| 0 <= xx < x ==> (#[trigger] cells@[y as int]@[xx])@.len() == dim,
                decreases cols - x,
            {
                if cells[y][x].len() != dim {
                    return None;
                }
                x = x + 1;
            }
            y = y + 1;
        }
        Some(LevelGrid { rows, cols, dim, cells })
    }

    /// Number of pixel rows.
    pub fn rows(&self) -> (r: usize)
        ensures
            r == self.num_rows(),
    {
        self.rows
    }

    /// Number of pixel columns.
    pub fn cols(&self) -> (c: usize)
        ensures
            c == self.num_cols(),
    {
        self.cols
    }

    /// Length of every hypervector.
    pub fn dim(&self) -> (d: usize)
        ensures
            d == self.hv_dim(),
    {
        self.dim
    }

    /// The hypervector of pixel `(x, y)`.
    pub fn pixel(&self, y: usize, x: usize) -> (hv: &Vec<bool>)
        requires
            y < self.num_rows(),
            x < self.num_cols(),
        ensures
            hv@ == self.cell(y as int, x as int),
            hv@.len() == self.hv_dim(),
    {
        proof {
            use_type_invariant(self);
        }
        &self.cells[y][x]
    }

    /// All cells, row by row.
    pub fn cells(&self) -> (c: &Vec<Vec<Vec<bool>>>)
        ensures
            has_shape(c@, self.num_rows(), self.num_cols(), self.hv_dim()),
            forall|y: int, x: int|
                0 <= y < self.num_rows() && 0 <= x < self.num_cols() ==> (#[trigger] c@[y]@[x])@
                    == self.cell(y, x),
    {
        proof {
            use_type_invariant(self);
        }
        &self.cells
    }
}

/// The positions in `[lo, hi)` whose bit in `mask` is clear, in increasing order.
fn clear_positions(mask: &Vec<bool>, lo: usize, hi: usize) -> (pool: Vec<usize>)
    requires
        lo <= hi <= mask.len(),
        forall|i: int| 0 <= i < mask.len() && !(lo <= i < hi) ==> !mask@[i],
    ensures
        count_true(mask@) <= hi - lo,
        pool.len() == (hi - lo) - count_true(mask@),
        pool@.no_duplicates(),
        forall|j: int| 0 <= j < pool.len() ==> lo <= #[trigger] pool@[j] < hi && !mask@[pool@[j] as int],
{
    let mut pool: Vec<usize> = Vec::new();
    let mut i: usize = lo;
    let ghost m = mask@;
    while i < hi
        invariant
            lo <= i <= hi <= mask.len(),
            m == mask@,
            pool.len() + count_true(m.subrange(lo as int, i as int)) == i - lo,
            forall|j: int, k: int| 0 <= j < k < pool.len() ==> pool@[j] < pool@[k],
            forall|j: int| 0 <= j < pool.len() ==> lo <= #[trigger] pool@[j] < i && !m[pool@[j] as int],
        decreases hi - i,
    {
        proof {
            assert(m.subrange(lo as int, i + 1).drop_last() =~= m.subrange(lo as int, i as int));
        }
        if !mask[i] {
            pool.push(i);
        }
        i = i + 1;
    }
    proof {
        lemma_count_within(m, lo as int, hi as int);
        assert forall|j: int, k: int| 0 <= j < pool.len() && 0 <= k < pool.len() && j != k implies pool@[j]
            != pool@[k] by {
            if j < k {
                assert(pool@[j] < pool@[k]);
            } else {
                assert(pool@[k] < pool@[j]);
            }
        }
    }
    pool
}

/// A mask of length `dim` whose set bits are exactly `positions`.
fn mask_of_positions(dim: usize, positions: &Vec<usize>) -> (mask: Vec<bool>)
    requires
        positions@.no_duplicates(),
        forall|j: int| 0 <= j < positions.len() ==> #[trigger] positions@[j] < dim,
    ensures
        mask.len() == dim,
        forall|i: int| 0 <= i < dim ==> mask@[i] == positions@.contains(i as usize),
        count_true(mask@) == positions.len(),
{
    let mut mask: Vec<bool> = Vec::with_capacity(dim);
    let mut i: usize = 0;
    while i < dim
        invariant
            i <= dim,
            mask.len() == i,
            forall|k: int| 0 <= k < i ==> !mask@[k],
        decreases dim - i,
    {
        mask.push(false);
        i = i + 1;
    }
    proof {
        lemma_count_all_false(mask@);
    }
    let n: usize = positions.len();
    let mut j: usize = 0;
    while j < n
        invariant
            n == positions.len(),
            j <= n,
            mask.len() == dim,
            positions@.no_duplicates(),
            forall|k: int| 0 <= k < positions.len() ==> #[trigger] positions@[k] < dim,
            forall|k: int| 0 <= k < dim ==> mask@[k] == positions@.take(j as int).contains(k as usize),
            count_true(mask@) == j,
        decreases n - j,
    {
        let p: usize = positions[j];
        proof {
            if positions@.take(j as int).contains(p) {
                let q = choose|q: int| 0 <= q < j && positions@.take(j as int)[q] == p;
                assert(positions@[q] == positions@[j as int]);
            }
            lemma_count_set_bit(mask@, p as int);
        }
        mask.set(p, true);
        proof {
            assert forall|k: int| 0 <= k < dim implies mask@[k] == positions@.take(j + 1).contains(
                k as usize,
            ) by {
                let t0 = positions@.take(j as int);
                let t1 = positions@.take(j + 1);
                assert(t1 =~= t0.push(p));
                if t0.contains(k as usize) {
                    let q = choose|q: int| 0 <= q < t0.len() && t0[q] == k as usize;
                    assert(t1[q] == k as usize);
                }
                if k == p {
                    assert(t1[j as int] == p);
                }
                if t1.contains(k as usize) && k != p {
                    let q = choose|q: int| 0 <= q < t1.len() && t1[q] == k as usize;
                    assert(q < j);
                    assert(t0[q] == k as usize);
                }
            }
        }
        j = j + 1;
    }
    assert(positions@.take(n as int) =~= positions@);
    mask
}

/// Cumulative flip masks of length `dim`, one per level, drawn inside `[lo, hi)`:
/// level 0 is all clear and each further level sets `flips` more bits that are
/// still clear. So the set bits of a level include those of every earlier one
/// and level `j` has exactly `j * flips` of them.
fn level_flip_masks(
    rng: &mut ThreadRng,
    dim: usize,
    lo: usize,
    hi: usize,
    levels: usize,
    flips: usize,
) -> (masks: Vec<Vec<bool>>)
    requires
        lo <= hi <= dim,
        levels >= 1,
        levels * flips <= hi - lo,
    ensures
        masks.len() == levels,
        forall|j: int| 0 <= j < levels ==> (#[trigger] masks@[j])@.len() == dim,
        forall|j: int| 0 <= j < levels ==> count_true((#[trigger] masks@[j])@) == j * flips,
        forall|j: int, i: int|
            0 <= j < levels && 0 <= i < dim && #[trigger] masks@[j]@[i] ==> lo <= i < hi,
        forall|j1: int, j2: int, i: int|
            0 <= j1 <= j2 < levels && 0 <= i < dim && #[trigger] masks@[j1]@[i] ==> #[trigger] masks@[j2]@[i],
{
    let mut masks: Vec<Vec<bool>> = Vec::with_capacity(levels);
    let none: Vec<usize> = Vec::new();
    let first = mask_of_positions(dim, &none);
    masks.push(first);
    assert(masks@[0]@ == first@);
    assert(0 * flips == 0) by (nonlinear_arith);
    let mut level: usize = 1;
    while level < levels
        invariant
            lo <= hi <= dim,
            1 <= level <= levels,
            levels * flips <= hi - lo,
            masks.len() == level,
            forall|j: int| 0 <= j < level ==> (#[trigger] masks@[j])@.len() == dim,
            forall|j: int| 0 <= j < level ==> count_true((#[trigger] masks@[j])@) == j * flips,
            forall|j: int, i: int|
                0 <= j < level && 0 <= i < dim && #[trigger] masks@[j]@[i] ==> lo <= i < hi,
            forall|j1: int, j2: int, i: int|
                0 <= j1 <= j2 < level && 0 <= i < dim && #[trigger] masks@[j1]@[i] ==> #[trigger] masks@[j2]@[i],
        decreases levels - level,
    {
        let prev: &Vec<bool> = &masks[level - 1];
        let ghost pm = prev@;
        assert(forall|i: int| 0 <= i < prev.len() && !(lo <= i < hi) ==> !prev@[i]);
        let pool = clear_positions(prev, lo, hi);
        proof {
            assert((level - 1) * flips + flips == level * flips) by (nonlinear_arith);
            assert(level * flips <= levels * flips) by (nonlinear_arith)
                requires
                    level <= levels,
            ;
        }
        let chosen = choose_multiple(rng, pool.as_slice(), flips);
        assert(chosen.len() == flips);
        proof {
            assert forall|j: int| 0 <= j < chosen.len() implies #[trigger] chosen@[j] < dim by {
                let c = chosen@[j];
                assert(pool@.contains(c));
                let q = choose|q: int| 0 <= q < pool.len() && pool@[q] == c;
                assert(lo <= pool@[q] < hi);
            }
        }
        let flip = mask_of_positions(dim, &chosen);
        proof {
            assert forall|i: int| 0 <= i < dim implies !(pm[i] && flip@[i]) && (flip@[i] ==> lo <= i
                < hi) by {
                if flip@[i] {
                    assert(chosen@.contains(i as usize));
                    let q = choose|q: int| 0 <= q < chosen.len() && chosen@[q] == i as usize;
                    assert(pool@.contains(chosen@[q]));
                    let r = choose|r: int| 0 <= r < pool.len() && pool@[r] == i as usize;
                    assert(lo <= pool@[r] < hi && !pm[pool@[r] as int]);
                }
            }
            lemma_count_xor_disjoint(pm, flip@);
        }
        let next = crate::hypervec::xor(prev, &flip);
        masks.push(next);
        proof {
            assert(masks@[level as int]@ == xor_seq(pm, flip@));
            assert forall|j1: int, j2: int, i: int|
                0 <= j1 <= j2 < level + 1 && 0 <= i < dim && #[trigger] masks@[j1]@[i] implies #[trigger] masks@[j2]@[i] by {
                if j2 == level && j1 < level {
                    assert(masks@[j1]@[i] ==> masks@[level - 1]@[i]);
                }
            }
        }
        level = level + 1;
    }
    masks
}

/// Three-way element-wise XOR of equal-length hypervectors.
fn xor3(a: &Vec<bool>, b: &Vec<bool>, c: &Vec<bool>) -> (r: Vec<bool>)
    requires
        a.len() == b.len(),
        b.len() == c.len(),
    ensures
        r@ == xor_seq(xor_seq(a@, b@), c@),
{
    let n: usize = a.len();
    let mut r: Vec<bool> = Vec::with_capacity(n);
    let mut i: usize = 0;
    while i < n
        invariant
            n == a.len(),
            a.len() == b.len(),
            b.len() == c.len(),
            i <= n,
            r@ =~= xor_seq(xor_seq(a@, b@), c@).take(i as int),
        decreases n - i,
    {
        r.push((a[i] != b[i]) != c[i]);
        i = i + 1;
    }
    r
}

/// Two cumulative masks at levels `j1` and `j2` (with `k` set bits per level,
/// the lower level's bits contained in the higher's) differ in
/// `|j1 - j2| * k` positions.
proof fn lemma_level_mask_distance(a1: Seq<bool>, a2: Seq<bool>, j1: int, j2: int, k: int)
    requires
        a1.len() == a2.len(),
        0 <= j1,
        0 <= j2,
        0 <= k,
        count_true(a1) == j1 * k,
        count_true(a2) == j2 * k,
        j1 <= j2 ==> forall|i: int| 0 <= i < a1.len() && a1[i] ==> a2[i],
        j2 <= j1 ==> forall|i: int| 0 <= i < a1.len() && a2[i] ==> a1[i],
    ensures
        count_true(xor_seq(a1, a2)) == abs_diff(j1, j2) * k,
{
    if j1 <= j2 {
        assert(xor_seq(a1, a2) =~= xor_seq(a2, a1));
        lemma_count_xor_subset(a2, a1);
        assert(j2 * k - j1 * k == (j2 - j1) * k) by (nonlinear_arith);
    } else {
        lemma_count_xor_subset(a1, a2);
        assert(j1 * k - j2 * k == (j1 - j2) * k) by (nonlinear_arith);
    }
}

/// Cells made as `corner ^ x_mask ^ y_mask`, with the x masks set only below
/// `half` and the y masks only from `half` on: the corner cancels and the two
/// halves add up.
proof fn lemma_cell_distance_splits(
    corner: Seq<bool>,
    a1: Seq<bool>,
    a2: Seq<bool>,
    b1: Seq<bool>,
    b2: Seq<bool>,
    half: int,
)
    requires
        a1.len() == corner.len(),
        a2.len() == corner.len(),
        b1.len() == corner.len(),
        b2.len() == corner.len(),
        forall|i: int| 0 <= i < corner.len() && (a1[i] || a2[i]) ==> i < half,
        forall|i: int| 0 <= i < corner.len() && (b1[i] || b2[i]) ==> i >= half,
    ensures
        hamming(xor_seq(xor_seq(corner, a1), b1), xor_seq(xor_seq(corner, a2), b2)) == count_true(
            xor_seq(a1, a2),
        ) + count_true(xor_seq(b1, b2)),
{
    let u = xor_seq(a1, a2);
    let v = xor_seq(b1, b2);
    assert(xor_seq(xor_seq(xor_seq(corner, a1), b1), xor_seq(xor_seq(corner, a2), b2))
        =~= xor_seq(u, v));
    lemma_count_xor_disjoint(u, v);
}

/// Makes the grid of level hypervectors, of shape
/// `[num_pixels_y_dim, num_pixels_x_dim, hypervec_dim]`.
///
/// A random corner hypervector is split into an "x" half (positions below
/// `hypervec_dim / 2`) and a "y" half. Moving one pixel along x flips
/// `(hypervec_dim / 2) / num_pixels_x_dim` fresh bits of the x half, moving one
/// pixel along y flips `(hypervec_dim / 2) / num_pixels_y_dim` fresh bits of
/// the y half; so whatever the random draws, the distance between two pixels
/// is that many bits per step along each axis.
pub fn create_grid_level_hypervecs(
    num_pixels_x_dim: usize,
    num_pixels_y_dim: usize,
    hypervec_dim: usize,
) -> (grid: LevelGrid)
    requires
        num_pixels_x_dim >= 1,
        num_pixels_y_dim >= 1,
    ensures
        grid.num_rows() == num_pixels_y_dim,
        grid.num_cols() == num_pixels_x_dim,
        grid.hv_dim() == hypervec_dim,
        forall|y1: int, x1: int, y2: int, x2: int|
            0 <= y1 < num_pixels_y_dim && 0 <= x1 < num_pixels_x_dim && 0 <= y2 < num_pixels_y_dim
                && 0 <= x2 < num_pixels_x_dim ==> #[trigger] hamming(grid.cell(y1, x1), grid.cell(y2, x2))
                == abs_diff(x1, x2) * ((hypervec_dim / 2 / num_pixels_x_dim) as int) + abs_diff(y1, y2)
                * ((hypervec_dim / 2 / num_pixels_y_dim) as int),
        forall|y1: int, y2: int, x: int, i: int|
            0 <= y1 < num_pixels_y_dim && 0 <= y2 < num_pixels_y_dim && 0 <= x < num_pixels_x_dim
                && 0 <= i < hypervec_dim / 2 ==> #[trigger] grid.cell(y1, x)[i] == #[trigger] grid.cell(
                y2,
                x,
            )[i],
        forall|y: int, x1: int, x2: int, i: int|
            0 <= y < num_pixels_y_dim && 0 <= x1 < num_pixels_x_dim && 0 <= x2 < num_pixels_x_dim
                && hypervec_dim / 2 <= i < hypervec_dim ==> #[trigger] grid.cell(y, x1)[i]
                == #[trigger] grid.cell(y, x2)[i],
{
    let nx: usize = num_pixels_x_dim;
    let ny: usize = num_pixels_y_dim;
    let d: usize = hypervec_dim;
    let mut rng = thread_rng();
    let corner = random_bits(&mut rng, d);
    let half: usize = d / 2;
    let kx: usize = half / nx;
    let ky: usize = half / ny;
    proof {
        vstd::arithmetic::div_mod::lemma_fundamental_div_mod(half as int, nx as int);
        vstd::arithmetic::div_mod::lemma_fundamental_div_mod(half as int, ny as int);
        assert(nx * kx <= half) by (nonlinear_arith)
            requires
                half == nx * (half / nx) + half % nx,
                half % nx >= 0,
                kx == half / nx,
        ;
        assert(ny * ky <= half) by (nonlinear_arith)
            requires
                half == ny * (half / ny) + half % ny,
                half % ny >= 0,
                ky == half / ny,
        ;
    }
    let x_masks = level_flip_masks(&mut rng, d, 0, half, nx, kx);
    let y_masks = level_flip_masks(&mut rng, d, half, d, ny, ky);
    let mut cells: Vec<Vec<Vec<bool>>> = Vec::with_capacity(ny);
    let mut y: usize = 0;
    while y < ny
        invariant
            y <= ny,
            corner.len() == d,
            x_masks.len() == nx,
            y_masks.len() == ny,
            forall|j: int| 0 <= j < nx ==> (#[trigger] x_masks@[j])@.len() == d,
            forall|j: int| 0 <= j < ny ==> (#[trigger] y_masks@[j])@.len() == d,
            cells.len() == y,
            forall|yy: int| 0 <= yy < y ==> (#[trigger] cells@[yy])@.len() == nx,
            forall|yy: int, xx: int|
                0 <= yy < y && 0 <= xx < nx ==> (#[trigger] cells@[yy]@[xx])@ == xor_seq(
                    xor_seq(corner@, x_masks@[xx]@),
                    y_masks@[yy]@,
                ),
        decreases ny - y,
    {
        let mut row: Vec<Vec<bool>> = Vec::with_capacity(nx);
        let mut x: usize = 0;
        while x < nx
            invariant
                x <= nx,
                y < ny,
                corner.len() == d,
                x_masks.len() == nx,
                y_masks.len() == ny,
                forall|j: int| 0 <= j < nx ==> (#[trigger] x_masks@[j])@.len() == d,
                forall|j: int| 0 <= j < ny ==> (#[trigger] y_masks@[j])@.len() == d,
                row.len() == x,
                forall|xx: int|
                    0 <= xx < x ==> (#[trigger] row@[xx])@ == xor_seq(
                        xor_seq(corner@, x_masks@[xx]@),
                        y_masks@[y as int]@,
                    ),
            decreases nx - x,
        {
            let cell = xor3(&corner, &x_masks[x], &y_masks[y]);
            row.push(cell);
            x = x + 1;
        }
        cells.push(row);
        y = y + 1;
    }
    let grid = LevelGrid { rows: ny, cols: nx, dim: d, cells };
    proof {
        assert forall|yy: int, xx: int|
            0 <= yy < ny && 0 <= xx < nx implies (#[trigger] grid.cells@[yy]@[xx])@.len() == d by {
            assert(xor_seq(xor_seq(corner@, x_masks@[xx]@), y_masks@[yy]@).len() == d);
        }
        assert forall|y1: int, y2: int, x: int, i: int|
            0 <= y1 < ny && 0 <= y2 < ny && 0 <= x < nx && 0 <= i < half implies #[trigger] grid.cell(
            y1,
            x,
        )[i] == #[trigger] grid.cell(y2, x)[i] by {
            if y_masks@[y1]@[i] {
                assert(half <= i);
            }
            if y_masks@[y2]@[i] {
                assert(half <= i);
            }
        }
        assert forall|y: int, x1: int, x2: int, i: int|
            0 <= y < ny && 0 <= x1 < nx && 0 <= x2 < nx && half <= i < d implies #[trigger] grid.cell(
            y,
            x1,
        )[i] == #[trigger] grid.cell(y, x2)[i] by {
            if x_masks@[x1]@[i] {
                assert(i < half);
            }
            if x_masks@[x2]@[i] {
                assert(i < half);
            }
        }
        assert forall|y1: int, x1: int, y2: int, x2: int|
            0 <= y1 < ny && 0 <= x1 < nx && 0 <= y2 < ny && 0 <= x2 < nx implies #[trigger] hamming(
            grid.cell(y1, x1),
            grid.cell(y2, x2),
        ) == abs_diff(x1, x2) * (kx as int) + abs_diff(y1, y2) * (ky as int) by {
            let a1 = x_masks@[x1]@;
            let a2 = x_masks@[x2]@;
            let b1 = y_masks@[y1]@;
            let b2 = y_masks@[y2]@;
            assert forall|i: int| 0 <= i < d && (a1[i] || a2[i]) implies i < half by {
                if a1[i] {
                    assert(x_masks@[x1]@[i]);
                } else {
                    assert(x_masks@[x2]@[i]);
                }
            }
            assert forall|i: int| 0 <= i < d && (b1[i] || b2[i]) implies i >= half by {
                if b1[i] {
                    assert(y_masks@[y1]@[i]);
                } else {
                    assert(y_masks@[y2]@[i]);
                }
            }
            lemma_cell_distance_splits(corner@, a1, a2, b1, b2, half as int);
            assert(x1 <= x2 ==> forall|i: int| 0 <= i < d && a1[i] ==> a2[i]) by {
                if x1 <= x2 {
                    assert forall|i: int| 0 <= i < d && a1[i] implies a2[i] by {
                        assert(x_masks@[x1]@[i]);
                    }
                }
            }
            assert(x2 <= x1 ==> forall|i: int| 0 <= i < d && a2[i] ==> a1[i]) by {
                if x2 <= x1 {
                    assert forall|i: int| 0 <= i < d && a2[i] implies a1[i] by {
                        assert(x_masks@[x2]@[i]);
                    }
                }
            }
            assert(y1 <= y2 ==> forall|i: int| 0 <= i < d && b1[i] ==> b2[i]) by {
                if y1 <= y2 {
                    assert forall|i: int| 0 <= i < d && b1[i] implies b2[i] by {
                        assert(y_masks@[y1]@[i]);
                    }
                }
            }
            assert(y2 <= y1 ==> forall|i: int| 0 <= i < d && b2[i] ==> b1[i]) by {
                if y2 <= y1 {
                    assert forall|i: int| 0 <= i < d && b2[i] implies b1[i] by {
                        assert(y_masks@[y2]@[i]);
                    }
                }
            }
            assert(count_true(a1) == x1 * kx);
            assert(count_true(a2) == x2 * kx);
            assert(count_true(b1) == y1 * ky);
            assert(count_true(b2) == y2 * ky);
            lemma_level_mask_distance(a1, a2, x1, x2, kx as int);
            lemma_level_mask_distance(b1, b2, y1, y2, ky as int);
        }
    }
    grid
}

} // verus!
