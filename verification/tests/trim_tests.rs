use goal_hdc::trim::{kept_instants, scan_trim_points, trim_goal_coords, InstantFeatures};

fn present(moved_from_first: bool, near_faceoff_dot: bool, near_first_start: bool, in_goal_area: bool) -> Option<InstantFeatures> {
    Some(InstantFeatures { moved_from_first, near_faceoff_dot, near_first_start, in_goal_area })
}

/// A track of `n` present instants moving away from the first one, in the
/// net area at `goal` and missing at `missing`.
fn moving_track(n: usize, goal: &[usize], missing: &[usize]) -> Vec<Option<InstantFeatures>> {
    (0..n)
        .map(|i| {
            if missing.contains(&i) {
                None
            } else {
                present(i > 0, false, i == 0, goal.contains(&i))
            }
        })
        .collect()
}

/// A track that stays near its first position and never reaches the net.
fn slow_track(pattern: &[bool]) -> Vec<Option<InstantFeatures>> {
    pattern.iter().map(|p| if *p { present(false, false, true, false) } else { None }).collect()
}

#[test]
fn trim_features_never_enters_net() {
    let track = slow_track(&[true, true, true]);
    assert_eq!(trim_goal_coords(&track), vec![0, 1, 2]);
}

#[test]
fn trim_features_nones_start_never_enters_net() {
    let track = slow_track(&[false, false, false, true, true, true]);
    let scan = scan_trim_points(&track);
    assert_eq!(scan.start, 2);
    assert!(scan.cutoff.is_none());
    assert_eq!(trim_goal_coords(&track), vec![3, 4, 5]);
}

#[test]
fn trim_features_one_none_start_never_enters_net() {
    let track = slow_track(&[false, true, true, true]);
    assert_eq!(scan_trim_points(&track).start, 0);
    assert_eq!(trim_goal_coords(&track), vec![1, 2, 3]);
}

#[test]
fn trim_features_nones_end_never_enters_net() {
    let track = slow_track(&[true, true, true, false, false, false]);
    assert_eq!(trim_goal_coords(&track), vec![0, 1, 2]);
}

#[test]
fn trim_features_nones_middle_never_enters_net() {
    let track = slow_track(&[true, false, false, true, false, true, true]);
    assert_eq!(trim_goal_coords(&track), vec![0, 3, 5, 6]);
}

#[test]
fn trim_features_nones_everywhere_never_enters_net() {
    let track = slow_track(&[false, true, false, false, true, false, true, true, false, false, false]);
    assert_eq!(trim_goal_coords(&track), vec![1, 4, 6, 7]);
}

#[test]
fn trim_features_faceoff_dot_start_trimmed() {
    let mut track: Vec<Option<InstantFeatures>> = (0..4).map(|_| present(false, true, true, false)).collect();
    for _ in 0..3 {
        track.push(present(true, false, false, false));
    }
    assert_eq!(trim_goal_coords(&track), vec![4, 5, 6]);
}

#[test]
fn trim_features_stationary_not_dot() {
    let mut track: Vec<Option<InstantFeatures>> = (0..6).map(|_| present(false, false, true, false)).collect();
    track.push(present(true, false, false, false));
    assert_eq!(trim_goal_coords(&track), vec![0, 1, 2, 3, 4, 5, 6]);
}

#[test]
fn trim_features_before_35_perc() {
    let track = moving_track(10, &[2], &[]);
    assert_eq!(trim_goal_coords(&track), vec![0, 1, 2]);
}

#[test]
fn trim_features_before_35_before_60() {
    let track = moving_track(10, &[2, 4], &[]);
    assert_eq!(trim_goal_coords(&track), vec![0, 1, 2, 3, 4]);
}

#[test]
fn trim_features_before_35_after_60() {
    let track = moving_track(10, &[2, 5], &[]);
    assert_eq!(trim_goal_coords(&track), vec![0, 1, 2, 3, 4, 5]);
}

#[test]
fn trim_features_35_50_60() {
    let track = moving_track(10, &[2, 4, 6], &[]);
    let scan = scan_trim_points(&track);
    assert_eq!(scan.cutoff, Some(6));
    assert!(scan.stopped);
    assert_eq!(trim_goal_coords(&track), vec![0, 1, 2, 3, 4, 5, 6]);
}

#[test]
fn trim_features_before_35_60_twice() {
    let track = moving_track(10, &[2, 6, 8], &[]);
    assert_eq!(trim_goal_coords(&track), vec![0, 1, 2, 3, 4, 5, 6]);
}

#[test]
fn trim_features_35_40_lt_200_once() {
    let track = moving_track(11, &[3, 4], &[]);
    assert_eq!(trim_goal_coords(&track), vec![0, 1, 2, 3]);
}

#[test]
fn trim_features_35_40_lt_200_again() {
    let track = moving_track(11, &[3, 4, 9], &[]);
    assert_eq!(trim_goal_coords(&track), (0..10).collect::<Vec<usize>>());
}

#[test]
fn trim_features_35_40_gt_200() {
    let track = moving_track(210, &[72, 73, 74], &[]);
    let kept = trim_goal_coords(&track);
    assert_eq!(kept, (0..73).collect::<Vec<usize>>());
}

#[test]
fn trim_features_37_perc_long_track_cuts_at_once() {
    // earliest entry at 80 / 210 (38%) in a track of 200 instants or more
    let track = moving_track(210, &[80, 81, 150], &[]);
    let scan = scan_trim_points(&track);
    assert_eq!(scan.cutoff, Some(80));
    assert!(scan.stopped);
    assert_eq!(trim_goal_coords(&track), (0..81).collect::<Vec<usize>>());
}

#[test]
fn trim_features_40_60_once() {
    let track = moving_track(10, &[3, 4], &[]);
    assert_eq!(trim_goal_coords(&track), vec![0, 1, 2, 3]);
}

#[test]
fn trim_features_40_60_again() {
    let track = moving_track(100, &[45, 46, 47, 55, 56, 57], &[]);
    let kept = trim_goal_coords(&track);
    assert_eq!(kept, (0..56).collect::<Vec<usize>>());
}

#[test]
fn trim_features_40_60_after_60_twice() {
    let track = moving_track(100, &[45, 46, 47, 65, 66, 67, 75, 76, 77], &[]);
    assert_eq!(trim_goal_coords(&track), (0..66).collect::<Vec<usize>>());
}

#[test]
fn trim_features_after_60_twice() {
    let track = moving_track(100, &[65, 66, 67, 75, 76, 77], &[]);
    let kept = trim_goal_coords(&track);
    assert_eq!(kept, (0..66).collect::<Vec<usize>>());
}

#[test]
fn trim_features_start_nones_60() {
    let missing: Vec<usize> = (0..50).collect();
    let mut track = moving_track(100, &[65, 66, 67, 75, 76, 77], &missing);
    // distances are measured from the first present instant
    track[50] = present(false, false, true, false);
    let scan = scan_trim_points(&track);
    assert_eq!(scan.start, 49);
    assert_eq!(scan.cutoff, Some(65));
    let kept = trim_goal_coords(&track);
    assert_eq!(kept, (50..66).collect::<Vec<usize>>());
}

#[test]
fn trim_features_start_past_cutoff_detected() {
    // in the net early (no stop), then back near the faceoff spot several times
    let mut track = vec![present(false, true, true, false), present(false, false, false, true)];
    for _ in 0..5 {
        track.push(present(false, false, true, false));
    }
    let scan = scan_trim_points(&track);
    assert_eq!(scan.cutoff, Some(1));
    assert!(scan.start > 2);
}

#[test]
fn kept_instants_drops_missing() {
    let track = slow_track(&[true, false, true, true, false]);
    assert_eq!(kept_instants(&track, 1, 4), vec![2, 3]);
    assert_eq!(kept_instants(&track, 2, 2), Vec::<usize>::new());
}

#[test]
fn trim_features_late_faceoff_is_ignored() {
    // near a faceoff dot only after the first six present instants
    let mut track: Vec<Option<InstantFeatures>> = (0..7).map(|_| present(false, false, true, false)).collect();
    track.push(present(false, true, true, false));
    track.push(present(false, false, true, false));
    let scan = scan_trim_points(&track);
    assert!(!scan.in_faceoff);
    assert_eq!(scan.start, 0);
    assert_eq!(trim_goal_coords(&track), (0..9).collect::<Vec<usize>>());
}

#[test]
fn trim_features_entering_net_is_always_cut() {
    let track = moving_track(20, &[13], &[]);
    let scan = scan_trim_points(&track);
    assert_eq!(scan.cutoff, Some(13));
    assert_eq!(trim_goal_coords(&track), (0..14).collect::<Vec<usize>>());
}
