//! Encoding of pixel sequences: positional binding by permutation, window
//! hypervectors, majority bundling and the hypervector of a whole goal.

use vstd::prelude::*;
use crate::hypervec::{count_true, xor_seq, lemma_count_prefix_step, lemma_count_all_false,
    lemma_count_all_true};
use crate::level_grid::LevelGrid;
use crate::random::{thread_rng, shuffle};

verus! {

/// Coordinates of a pixel in the grid of level hypervectors.
#[derive(Clone, Copy, Debug, PartialEq, Eq, Structural)]
pub struct GridLevelHvCoord {
    pub x: usize,
    pub y: usize,
}

/// `0, 1, ..., n - 1`.
pub open spec fn index_seq(n: nat) -> Seq<usize> {
    Seq::new(n, |i: int| i as usize)
}

/// Whether `perm` rearranges `0, 1, ..., n - 1`.
pub open spec fn is_permutation_of_range(perm: Seq<usize>, n: nat) -> bool {
    perm.to_multiset() == index_seq(n).to_multiset()
}

/// Whether `perm` has at least `dim` entries, the first `dim` of them below `dim`:
/// what binding a hypervector of length `dim` through it reads.
pub open spec fn perm_fits(perm: Seq<usize>, dim: nat) -> bool {
    &&& perm.len() >= dim
    &&& forall|k: int| 0 <= k < dim ==> #[trigger] perm[k] < dim
}

/// The pixel hypervector of `c`, bound to its position by `perm`:
/// entry `k` is the pixel's entry `perm[k]`.
pub open spec fn permuted_pixel(grid: LevelGrid, c: GridLevelHvCoord, perm: Seq<usize>) -> Seq<bool> {
    Seq::new(grid.hv_dim(), |k: int| grid.cell(c.y as int, c.x as int)[perm[k] as int])
}

/// The hypervector of a non-empty window: the XOR of its permuted pixel
/// hypervectors, instant `i` permuted by `perms[i]`.
pub open spec fn window_hv(grid: LevelGrid, window: Seq<GridLevelHvCoord>, perms: Seq<Vec<usize>>) -> Seq<
    bool,
>
    decreases window.len(),
{
    if window.len() <= 1 {
        permuted_pixel(grid, window[0], perms[0]@)
    } else {
        xor_seq(
            window_hv(grid, window.drop_last(), perms),
            permuted_pixel(grid, window.last(), perms[window.len() - 1]@),
        )
    }
}

/// Whether every pixel of `pixels` lies inside `grid`.
pub open spec fn pixels_in_grid(grid: LevelGrid, pixels: Seq<GridLevelHvCoord>) -> bool {
    forall|i: int|
        0 <= i < pixels.len() ==> (#[trigger] pixels[i]).y < grid.num_rows() && pixels[i].x
            < grid.num_cols()
}

/// Whether the first `n` permutation arrays exist and fit the grid's dimension.
pub open spec fn perms_fit(grid: LevelGrid, perms: Seq<Vec<usize>>, n: int) -> bool {
    &&& n <= perms.len()
    &&& forall|i: int| 0 <= i < n ==> perm_fits((#[trigger] perms[i])@, grid.hv_dim())
}

/// Entry `i` of every hypervector in `hvs`.
pub open spec fn column(hvs: Seq<Seq<bool>>, i: int) -> Seq<bool> {
    Seq::new(hvs.len(), |j: int| hvs[j][i])
}

/// Majority vote, position by position: a position is set when strictly more
/// than half of the hypervectors set it (a tie gives `false`).
pub open spec fn majority(hvs: Seq<Seq<bool>>, dim: nat) -> Seq<bool> {
    Seq::new(dim, |i: int| 2 * count_true(column(hvs, i)) > hvs.len())
}

/// The views of a sequence of hypervectors.
pub open spec fn views(hvs: Seq<Vec<bool>>) -> Seq<Seq<bool>> {
    hvs.map_values(|v: Vec<bool>| v@)
}

/// The windows of `window_size` consecutive pixels, encoded one by one.
pub open spec fn window_hvs(
    grid: LevelGrid,
    pixels: Seq<GridLevelHvCoord>,
    window_size: nat,
    perms: Seq<Vec<usize>>,
) -> Seq<Seq<bool>> {
    Seq::new(
        (pixels.len() - window_size + 1) as nat,
        |s: int| window_hv(grid, pixels.subrange(s, s + window_size), perms),
    )
}

/// Creates `num_arrays` permutation arrays for binding positions, each a random
/// rearrangement of `0, 1, ..., hypervec_dim - 1`.
pub fn _make_perm_arrays(num_arrays: usize, hypervec_dim: usize) -> (perm_arrays: Vec<Vec<usize>>)
    ensures
        perm_arrays.len() == num_arrays,
        forall|a: int|
            0 <= a < num_arrays ==> (#[trigger] perm_arrays@[a])@.len() == hypervec_dim
                && is_permutation_of_range(perm_arrays@[a]@, hypervec_dim as nat) && perm_fits(
                perm_arrays@[a]@,
                hypervec_dim as nat,
            ),
{
    let mut indices: Vec<usize> = Vec::with_capacity(hypervec_dim);
    let mut i: usize = 0;
    while i < hypervec_dim
        invariant
            i <= hypervec_dim,
            indices@ =~= index_seq(hypervec_dim as nat).take(i as int),
        decreases hypervec_dim - i,
    {
        indices.push(i);
        i = i + 1;
    }
    assert(indices@ =~= index_seq(hypervec_dim as nat));
    let mut perm_arrays: Vec<Vec<usize>> = Vec::with_capacity(num_arrays);
    let mut rng = thread_rng();
    let mut a: usize = 0;
    while a < num_arrays
        invariant
            a <= num_arrays,
            indices@ == index_seq(hypervec_dim as nat),
            perm_arrays.len() == a,
            forall|b: int|
                0 <= b < a ==> (#[trigger] perm_arrays@[b])@.len() == hypervec_dim
                    && is_permutation_of_range(perm_arrays@[b]@, hypervec_dim as nat) && perm_fits(
                    perm_arrays@[b]@,
                    hypervec_dim as nat,
                ),
        decreases num_arrays - a,
    {
        let mut perm = indices.clone();
        assert(perm@ =~= indices@);
        shuffle(&mut rng, &mut perm);
        proof {
            lemma_permutation_fits(perm@, hypervec_dim as nat);
        }
        perm_arrays.push(perm);
        a = a + 1;
    }
    perm_arrays
}

/// A rearrangement of `0, 1, ..., n - 1` has only entries below `n`.
pub proof fn lemma_permutation_fits(perm: Seq<usize>, n: nat)
    requires
        perm.len() == n,
        is_permutation_of_range(perm, n),
    ensures
        perm_fits(perm, n),
{
    broadcast use vstd::seq_lib::group_to_multiset_ensures;

    assert forall|k: int| 0 <= k < n implies #[trigger] perm[k] < n by {
        let e = perm[k];
        assert(perm.contains(e));
        assert(perm.to_multiset().count(e) > 0);
        assert(index_seq(n).contains(e));
    }
}

/// Binds the pixel hypervector of `c` to its position through `perm`.
fn permute_pixel(c: GridLevelHvCoord, grid: &LevelGrid, perm: &Vec<usize>) -> (hv: Vec<bool>)
    requires
        c.y < grid.num_rows(),
        c.x < grid.num_cols(),
        perm_fits(perm@, grid.hv_dim()),
    ensures
        hv@ == permuted_pixel(*grid, c, perm@),
{
    let dim: usize = grid.dim();
    let pixel: &Vec<bool> = grid.pixel(c.y, c.x);
    let mut hv: Vec<bool> = Vec::with_capacity(dim);
    let mut k: usize = 0;
    while k < dim
        invariant
            k <= dim,
            dim == grid.hv_dim(),
            pixel@ == grid.cell(c.y as int, c.x as int),
            pixel@.len() == dim,
            perm_fits(perm@, grid.hv_dim()),
            hv@ =~= permuted_pixel(*grid, c, perm@).take(k as int),
        decreases dim - k,
    {
        let index: usize = perm[k];
        hv.push(pixel[index]);
        k = k + 1;
    }
    hv
}

/// Returns the hypervector for a window of coordinates: the XOR of each
/// instant's pixel hypervector permuted by the permutation array of its
/// position. `None` when the window is empty.
pub fn encode_window_seq_pos(
    window: &Vec<GridLevelHvCoord>,
    grid_hvs: &LevelGrid,
    perm_arrays: &Vec<Vec<usize>>,
) -> (window_hv_opt: Option<Vec<bool>>)
    requires
        pixels_in_grid(*grid_hvs, window@),
        perms_fit(*grid_hvs, perm_arrays@, window@.len() as int),
    ensures
        window_hv_opt is None <==> window.len() == 0,
        window_hv_opt matches Some(hv) ==> hv@ == window_hv(*grid_hvs, window@, perm_arrays@)
            && hv@.len() == grid_hvs.hv_dim(),
{
    let n: usize = window.len();
    if n == 0 {
        return None;
    }
    let mut acc: Vec<bool> = permute_pixel(window[0], grid_hvs, &perm_arrays[0]);
    assert(window@.take(1).drop_last().len() == 0);
    let mut i: usize = 1;
    while i < n
        invariant
            1 <= i <= n,
            n == window.len(),
            pixels_in_grid(*grid_hvs, window@),
            perms_fit(*grid_hvs, perm_arrays@, n as int),
            acc@ == window_hv(*grid_hvs, window@.take(i as int), perm_arrays@),
            acc@.len() == grid_hvs.hv_dim(),
        decreases n - i,
    {
        let permed = permute_pixel(window[i], grid_hvs, &perm_arrays[i]);
        acc = crate::hypervec::xor(&acc, &permed);
        proof {
            let t = window@.take(i + 1);
            assert(t.drop_last() =~= window@.take(i as int));
            assert(t.last() == window@[i as int]);
        }
        i = i + 1;
    }
    assert(window@.take(n as int) =~= window@);
    Some(acc)
}

/// Bundles hypervectors by majority vote, position by position: a position is
/// set when more than half of them set it; a tie gives `false`. The result has
/// the dimension of the first hypervector, which all of them share.
pub fn bundle(hypervecs: &Vec<Vec<bool>>) -> (bundled: Vec<bool>)
    requires
        hypervecs.len() > 0,
        forall|j: int| 0 <= j < hypervecs.len() ==> (#[trigger] hypervecs@[j])@.len() == hypervecs@[0]@.len(),
    ensures
        bundled@ == majority(views(hypervecs@), hypervecs@[0]@.len()),
{
    let n: usize = hypervecs.len();
    let dim: usize = hypervecs[0].len();
    let ghost hvs = views(hypervecs@);
    let mut sums: Vec<usize> = Vec::with_capacity(dim);
    let mut i: usize = 0;
    while i < dim
        invariant
            i <= dim,
            sums.len() == i,
            forall|k: int| 0 <= k < i ==> sums@[k] == 0,
        decreases dim - i,
    {
        sums.push(0);
        i = i + 1;
    }
    let mut j: usize = 0;
    while j < n
        invariant
            j <= n,
            n == hypervecs.len(),
            dim == hypervecs@[0]@.len(),
            hvs == views(hypervecs@),
            forall|jj: int| 0 <= jj < hypervecs.len() ==> (#[trigger] hypervecs@[jj])@.len() == dim,
            sums.len() == dim,
            forall|k: int| 0 <= k < dim ==> #[trigger] sums@[k] == count_true(column(hvs, k).take(j as int)),
            forall|k: int| 0 <= k < dim ==> #[trigger] sums@[k] <= j,
        decreases n - j,
    {
        let hv: &Vec<bool> = &hypervecs[j];
        let mut k: usize = 0;
        while k < dim
            invariant
                k <= dim,
                j < n,
                n == hypervecs.len(),
                hvs == views(hypervecs@),
                hv@ == hypervecs@[j as int]@,
                hv@.len() == dim,
                sums.len() == dim,
                forall|kk: int| 0 <= kk < k ==> #[trigger] sums@[kk] == count_true(column(hvs, kk).take(j + 1)),
                forall|kk: int| 0 <= kk < k ==> #[trigger] sums@[kk] <= j + 1,
                forall|kk: int| k <= kk < dim ==> #[trigger] sums@[kk] == count_true(column(hvs, kk).take(j as int)),
                forall|kk: int| k <= kk < dim ==> #[trigger] sums@[kk] <= j,
            decreases dim - k,
        {
            proof {
                lemma_count_prefix_step(column(hvs, k as int), j as int);
                assert(column(hvs, k as int)[j as int] == hv@[k as int]);
            }
            if hv[k] {
                let s: usize = sums[k];
                sums.set(k, s + 1);
            }
            k = k + 1;
        }
        j = j + 1;
    }
    let mut bundled: Vec<bool> = Vec::with_capacity(dim);
    let mut k: usize = 0;
    while k < dim
        invariant
            k <= dim,
            n == hypervecs.len(),
            hvs == views(hypervecs@),
            dim == hypervecs@[0]@.len(),
            sums.len() == dim,
            forall|kk: int| 0 <= kk < dim ==> #[trigger] sums@[kk] == count_true(column(hvs, kk).take(n as int)),
            forall|kk: int| 0 <= kk < dim ==> #[trigger] sums@[kk] <= n,
            bundled@ =~= majority(hvs, dim as nat).take(k as int),
        decreases dim - k,
    {
        assert(column(hvs, k as int).take(n as int) =~= column(hvs, k as int));
        let s: usize = sums[k];
        bundled.push(s > n - s);
        k = k + 1;
    }
    bundled
}

/// Bundling copies of one hypervector gives that hypervector back.
pub proof fn lemma_bundle_of_copies(hvs: Seq<Seq<bool>>, h: Seq<bool>)
    requires
        hvs.len() > 0,
        forall|j: int| 0 <= j < hvs.len() ==> #[trigger] hvs[j] == h,
    ensures
        majority(hvs, h.len()) == h,
{
    assert forall|i: int| 0 <= i < h.len() implies #[trigger] majority(hvs, h.len())[i] == h[i] by {
        if h[i] {
            lemma_count_all_true(column(hvs, i));
        } else {
            lemma_count_all_false(column(hvs, i));
        }
    }
    assert(majority(hvs, h.len()) =~= h);
}

/// Encodes a goal, given as the pixels its puck passes through, as one
/// hypervector: every run of `window_size` consecutive pixels is encoded as a
/// window hypervector, instant `k` of a window bound by permutation array `k`,
/// and the windows are bundled by majority.
/// Returns `None` when the goal has no pixels or fewer pixels than the window size.
pub fn encode_goal_seq_pos(
    pixels: &Vec<GridLevelHvCoord>,
    window_size: usize,
    grid_hvs: &LevelGrid,
    perm_arrays: &Vec<Vec<usize>>,
) -> (goal_hv: Option<Vec<bool>>)
    requires
        window_size >= 1 || pixels.len() == 0,
        pixels.len() >= window_size && pixels.len() > 0 ==> pixels_in_grid(*grid_hvs, pixels@)
            && perms_fit(*grid_hvs, perm_arrays@, window_size as int),
    ensures
        goal_hv is None <==> (pixels.len() == 0 || pixels.len() < window_size),
        goal_hv matches Some(hv) ==> hv@ == majority(
            window_hvs(*grid_hvs, pixels@, window_size as nat, perm_arrays@),
            grid_hvs.hv_dim(),
        ) && hv@.len() == grid_hvs.hv_dim(),
{
    let n: usize = pixels.len();
    if n == 0 {
        return None;
    }
    if n < window_size {
        return None;
    }
    let count: usize = n - window_size + 1;
    let ghost spec_windows = window_hvs(*grid_hvs, pixels@, window_size as nat, perm_arrays@);
    let mut windows: Vec<Vec<bool>> = Vec::with_capacity(count);
    let mut s: usize = 0;
    while s < count
        invariant
            s <= count,
            count == n - window_size + 1,
            n == pixels.len(),
            window_size >= 1,
            n >= window_size,
            pixels_in_grid(*grid_hvs, pixels@),
            perms_fit(*grid_hvs, perm_arrays@, window_size as int),
            spec_windows == window_hvs(*grid_hvs, pixels@, window_size as nat, perm_arrays@),
            windows.len() == s,
            forall|t: int| 0 <= t < s ==> (#[trigger] windows@[t])@ == spec_windows[t],
            forall|t: int| 0 <= t < s ==> (#[trigger] windows@[t])@.len() == grid_hvs.hv_dim(),
        decreases count - s,
    {
        let mut window: Vec<GridLevelHvCoord> = Vec::with_capacity(window_size);
        let mut k: usize = 0;
        while k < window_size
            invariant
                k <= window_size,
                s + window_size <= n,
                n == pixels.len(),
                window@ =~= pixels@.subrange(s as int, s + k),
            decreases window_size - k,
        {
            window.push(pixels[s + k]);
            k = k + 1;
        }
        assert(pixels_in_grid(*grid_hvs, window@)) by {
            assert forall|i: int| 0 <= i < window@.len() implies (#[trigger] window@[i]).y
                < grid_hvs.num_rows() && window@[i].x < grid_hvs.num_cols() by {
                assert(window@[i] == pixels@[s + i]);
            }
        }
        let hv = encode_window_seq_pos(&window, grid_hvs, perm_arrays);
        match hv {
            Some(hv) => {
                windows.push(hv);
            },
            None => {},
        }
        s = s + 1;
    }
    proof {
        assert(views(windows@) =~= spec_windows);
        assert(windows@[0]@.len() == grid_hvs.hv_dim());
    }
    let goal_hv = bundle(&windows);
    Some(goal_hv)
}

} // verus!
