use goal_hdc::hypervec::{dist, xor};

#[test]
fn dist_all_same_false() {
    let a_1 = vec![false, false, false, false, false];
    let a_2 = vec![false, false, false, false, false];
    assert_eq!(dist(&a_1, &a_2), 0);
}

#[test]
fn dist_all_same_true() {
    let a_1 = vec![true, true, true, true, true];
    let a_2 = vec![true, true, true, true, true];
    assert_eq!(dist(&a_1, &a_2), 0);
}

#[test]
fn dist_all_same_mixed() {
    let a_1 = vec![true, false, true, true, false];
    let a_2 = vec![true, false, true, true, false];
    assert_eq!(dist(&a_1, &a_2), 0);
}

#[test]
fn dist_all_diff_all_false_true() {
    let a_1 = vec![false, false, false, false, false];
    let a_2 = vec![true, true, true, true, true];
    assert_eq!(dist(&a_1, &a_2), 5);
}

#[test]
fn dist_all_diff_mixed() {
    let a_1 = vec![false, true, false, false, true];
    let a_2 = vec![true, false, true, true, false];
    assert_eq!(dist(&a_1, &a_2), 5);
}

#[test]
fn dist_mix() {
    let a_1 = vec![false, false, false, true, false];
    let a_2 = vec![true, false, true, true, true];
    assert_eq!(dist(&a_1, &a_2), 3);
}

#[test]
fn dist_empty_vectors() {
    let a: Vec<bool> = vec![];
    assert_eq!(dist(&a, &a), 0);
}

#[test]
fn dist_is_symmetric_and_obeys_triangle() {
    let a = vec![true, false, true, true, false, false];
    let b = vec![false, false, true, false, true, false];
    let c = vec![true, true, false, false, true, true];
    assert_eq!(dist(&a, &b), dist(&b, &a));
    assert_eq!(dist(&a, &b), 3);
    assert!(dist(&a, &c) <= dist(&a, &b) + dist(&b, &c));
}

#[test]
fn xor_elementwise() {
    let a = vec![true, false, true, false];
    let b = vec![true, true, false, false];
    assert_eq!(xor(&a, &b), vec![false, true, true, false]);
}
