use goal_hdc::encoding::{_make_perm_arrays, bundle, encode_goal_seq_pos, encode_window_seq_pos, GridLevelHvCoord};
use goal_hdc::hypervec::dist;
use goal_hdc::level_grid::{create_grid_level_hypervecs, LevelGrid};

fn test_grid() -> LevelGrid {
    let cells = vec![
        vec![
            vec![false, false, false, false, true],
            vec![false, false, true, false, false],
            vec![false, false, true, true, false],
        ],
        vec![
            vec![false, true, true, true, false],
            vec![true, false, false, true, false],
            vec![true, false, true, false, true],
        ],
        vec![
            vec![true, true, false, false, false],
            vec![true, false, true, false, false],
            vec![true, true, true, false, true],
        ],
    ];
    LevelGrid::from_cells(3, 5, cells).unwrap()
}

fn test_perms() -> Vec<Vec<usize>> {
    vec![vec![0, 1, 2, 4, 3], vec![2, 3, 4, 0, 1], vec![1, 4, 2, 3, 0]]
}

fn pixel_of(v: f64, scale_factor: f64) -> usize {
    (v / scale_factor) as usize
}

#[test]
fn create_grid_level_hypervecs_dist_checks() {
    let num_pixels_x_dim = 241;
    let num_pixels_y_dim = 102;
    let hypervec_dim = 5000;

    let grid_hvs = create_grid_level_hypervecs(num_pixels_x_dim, num_pixels_y_dim, hypervec_dim);

    // check shape
    assert_eq!([grid_hvs.rows(), grid_hvs.cols(), grid_hvs.dim()], [102, 241, 5000]);

    // check opposite corners
    let corner_dist = dist(grid_hvs.pixel(0, 0), grid_hvs.pixel(101, 240));
    assert!(corner_dist >= 4750);

    // check neighbors
    let adjacent_dist = dist(grid_hvs.pixel(30, 40), grid_hvs.pixel(31, 40));
    let diag_dist = dist(grid_hvs.pixel(30, 40), grid_hvs.pixel(31, 41));
    assert!(adjacent_dist < diag_dist);
}

#[test]
fn create_grid_level_hypervecs_exact_distances() {
    // x flips (100 / 2) / 5 = 10 bits per step, y flips 50 / 4 = 12 bits per step
    let grid = create_grid_level_hypervecs(5, 4, 100);
    assert_eq!(grid.rows(), 4);
    assert_eq!(grid.cols(), 5);
    assert_eq!(grid.dim(), 100);
    assert_eq!(dist(grid.pixel(0, 0), grid.pixel(0, 4)), 40);
    assert_eq!(dist(grid.pixel(0, 0), grid.pixel(3, 0)), 36);
    assert_eq!(dist(grid.pixel(1, 1), grid.pixel(3, 4)), 3 * 10 + 2 * 12);
    assert_eq!(dist(grid.pixel(2, 3), grid.pixel(2, 3)), 0);
}

#[test]
fn from_cells_rejects_ragged_grid() {
    let cells = vec![vec![vec![true, false], vec![true]]];
    assert!(LevelGrid::from_cells(2, 2, cells).is_none());
    let cells = vec![vec![vec![true, false]]];
    assert!(LevelGrid::from_cells(2, 2, cells).is_none());
}

#[test]
fn _make_perm_arrays_shape() {
    let num_arrays = 3;
    let hypervec_dim = 5;
    let perm_arrays = _make_perm_arrays(num_arrays, hypervec_dim);

    assert_eq!(perm_arrays.len(), 3);
    assert_eq!(perm_arrays[0].len(), 5);
    assert_eq!(perm_arrays[1].len(), 5);
    assert_eq!(perm_arrays[2].len(), 5);
}

#[test]
fn _make_perm_arrays_vals() {
    let num_arrays = 3;
    let hypervec_dim = 5;
    let perm_arrays = _make_perm_arrays(num_arrays, hypervec_dim);

    let sorted = vec![0, 1, 2, 3, 4];
    let mut first_sorted = perm_arrays[0].clone();
    first_sorted.sort();
    assert_eq!(first_sorted, sorted);

    let mut first_sorted = perm_arrays[1].clone();
    first_sorted.sort();
    assert_eq!(first_sorted, sorted);

    let mut first_sorted = perm_arrays[2].clone();
    first_sorted.sort();
    assert_eq!(first_sorted, sorted);
}

#[test]
fn encode_window_seq_pos_empty_window() {
    let window = vec![];
    let num_pixels_x_dim = 5;
    let num_pixels_y_dim = 5;
    let hypervec_dim = 10;
    let grid_hvs = create_grid_level_hypervecs(num_pixels_x_dim, num_pixels_y_dim, hypervec_dim);
    let perm_arrays = _make_perm_arrays(3, hypervec_dim);

    let window_hv = encode_window_seq_pos(&window, &grid_hvs, &perm_arrays);
    assert!(window_hv.is_none());
}

#[test]
fn encode_window_seq_pos_nonempty_window() {
    let window = vec![
        GridLevelHvCoord { x: 0, y: 0 },
        GridLevelHvCoord { x: 1, y: 1 },
        GridLevelHvCoord { x: 1, y: 2 },
    ];
    let grid_hvs = test_grid();
    let perm_arrays = test_perms();

    let window_hv_opt = encode_window_seq_pos(&window, &grid_hvs, &perm_arrays);

    assert!(window_hv_opt.is_some());
    let window_hv = window_hv_opt.unwrap();
    assert_eq!(window_hv.len(), 5);
    assert_eq!(window_hv, vec![false, true, true, false, true]);
}

#[test]
fn encode_window_single_instant_is_permuted_pixel() {
    let window = vec![GridLevelHvCoord { x: 2, y: 1 }];
    let grid_hvs = test_grid();
    let perm_arrays = test_perms();
    // pixel (x 2, y 1) is [true, false, true, false, true], permuted by [0, 1, 2, 4, 3]
    let window_hv = encode_window_seq_pos(&window, &grid_hvs, &perm_arrays).unwrap();
    assert_eq!(window_hv, vec![true, false, true, true, false]);
}

#[test]
fn bundle_all_false() {
    let a_1 = vec![false, false, false, false, false];
    let a_2 = vec![false, false, false, false, false];
    let a_3 = vec![false, false, false, false, false];
    let hypervecs = vec![a_1, a_2, a_3];

    let bundled_rslt = bundle(&hypervecs);
    assert_eq!(bundled_rslt, vec![false, false, false, false, false]);
}

#[test]
fn bundle_all_true() {
    let a_1 = vec![true, true, true, true, true];
    let a_2 = vec![true, true, true, true, true];
    let hypervecs = vec![a_1, a_2];

    let bundled_rslt = bundle(&hypervecs);
    assert_eq!(bundled_rslt, vec![true, true, true, true, true]);
}

#[test]
fn bundle_mix() {
    let a_1 = vec![false, true, false, true, false];
    let a_2 = vec![true, false, false, true, false];
    let a_3 = vec![false, true, false, true, true];
    let hypervecs = vec![a_1, a_2, a_3];

    let bundled_rslt = bundle(&hypervecs);
    assert_eq!(bundled_rslt, vec![false, true, false, true, false]);
}

#[test]
fn bundle_ties() {
    let a_1 = vec![false, true];
    let a_2 = vec![true, false];
    let hypervecs = vec![a_1, a_2];

    let bundled_rslt = bundle(&hypervecs);
    assert_eq!(bundled_rslt, vec![false, false]);
}

#[test]
fn bundle_single_hv() {
    let a_1 = vec![false, true, false, true, false];
    let hypervecs = vec![a_1.clone()];

    let bundled_rslt = bundle(&hypervecs);
    assert_eq!(bundled_rslt, a_1);
}

#[test]
fn encode_goal_seq_pos_scale_empty_goal() {
    let coords: Vec<(f64, f64)> = vec![];
    let window_size = 3;
    let scale_factor = 10.;
    let pixels: Vec<GridLevelHvCoord> = coords
        .iter()
        .map(|(x, y)| GridLevelHvCoord { x: pixel_of(*x, scale_factor), y: pixel_of(*y, scale_factor) })
        .collect();
    let goal_hv = encode_goal_seq_pos(&pixels, window_size, &test_grid(), &test_perms());
    assert!(goal_hv.is_none());
}

#[test]
fn encode_goal_seq_pos_scale_nonempty_goal() {
    let coords: Vec<(f64, f64)> = vec![(4., 8.), (11., 17.), (14., 25.), (24., 26.)];
    let window_size = 3;
    let scale_factor = 10.;
    let pixels: Vec<GridLevelHvCoord> = coords
        .iter()
        .map(|(x, y)| GridLevelHvCoord { x: pixel_of(*x, scale_factor), y: pixel_of(*y, scale_factor) })
        .collect();
    let goal_hv = encode_goal_seq_pos(&pixels, window_size, &test_grid(), &test_perms());

    // first window hypervector is [false, true, true, false, true],
    // second is [true, true, true, true, false]; ties bundle to false
    assert_eq!(goal_hv.unwrap(), vec![false, true, true, false, false]);
}

#[test]
fn encode_goal_shorter_than_window_is_none() {
    let pixels = vec![GridLevelHvCoord { x: 0, y: 0 }, GridLevelHvCoord { x: 1, y: 1 }];
    assert!(encode_goal_seq_pos(&pixels, 3, &test_grid(), &test_perms()).is_none());
}

#[test]
fn encode_goal_single_window_equals_window_hv() {
    let pixels = vec![
        GridLevelHvCoord { x: 0, y: 0 },
        GridLevelHvCoord { x: 1, y: 1 },
        GridLevelHvCoord { x: 1, y: 2 },
    ];
    let goal_hv = encode_goal_seq_pos(&pixels, 3, &test_grid(), &test_perms()).unwrap();
    assert_eq!(goal_hv, vec![false, true, true, false, true]);
}

#[test]
fn _make_perm_arrays_are_shuffled() {
    // the chance that 4 shuffles of 100 indices all leave them in order is negligible
    let perm_arrays = _make_perm_arrays(4, 100);
    let identity: Vec<usize> = (0..100).collect();
    assert!(perm_arrays.iter().any(|p| *p != identity));
    for p in &perm_arrays {
        let mut sorted = p.clone();
        sorted.sort();
        assert_eq!(sorted, identity);
    }
}

#[test]
fn _make_perm_arrays_none() {
    assert!(_make_perm_arrays(0, 10).is_empty());
    assert_eq!(_make_perm_arrays(2, 0), vec![Vec::<usize>::new(), Vec::new()]);
}

#[test]
fn encode_goal_empty_goal_any_window_size_is_none() {
    let pixels: Vec<GridLevelHvCoord> = vec![];
    assert!(encode_goal_seq_pos(&pixels, 0, &test_grid(), &test_perms()).is_none());
    assert!(encode_goal_seq_pos(&pixels, 3, &test_grid(), &vec![]).is_none());
}

#[test]
fn encode_goal_long_track_uses_window_size_arrays() {
    // 6 pixels, 3 permutation arrays: 4 windows
    let pixels = vec![
        GridLevelHvCoord { x: 0, y: 0 },
        GridLevelHvCoord { x: 1, y: 1 },
        GridLevelHvCoord { x: 1, y: 2 },
        GridLevelHvCoord { x: 2, y: 2 },
        GridLevelHvCoord { x: 0, y: 0 },
        GridLevelHvCoord { x: 1, y: 1 },
    ];
    let grid = test_grid();
    let perms = test_perms();
    let goal_hv = encode_goal_seq_pos(&pixels, 3, &grid, &perms).unwrap();
    let windows: Vec<Vec<bool>> =
        (0..4).map(|s| encode_window_seq_pos(&pixels[s..s + 3].to_vec(), &grid, &perms).unwrap()).collect();
    assert_eq!(goal_hv, bundle(&windows));
    assert_eq!(goal_hv.len(), 5);
}

#[test]
fn create_grid_axes_use_separate_halves() {
    let grid = create_grid_level_hypervecs(6, 5, 40);
    for y1 in 0..5 {
        for y2 in 0..5 {
            for x in 0..6 {
                assert_eq!(grid.pixel(y1, x)[..20], grid.pixel(y2, x)[..20]);
            }
        }
    }
    for y in 0..5 {
        for x1 in 0..6 {
            for x2 in 0..6 {
                assert_eq!(grid.pixel(y, x1)[20..], grid.pixel(y, x2)[20..]);
            }
        }
    }
}
