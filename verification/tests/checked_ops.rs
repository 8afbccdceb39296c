use segment_tree::all_range_sums_fit;
use segment_tree::nth;
use segment_tree::try_segment_tree;
use segment_tree::try_set_nth;

#[test]
fn empty_input_is_rejected() {
    assert!(try_segment_tree(vec![]).is_none());
}

#[test]
fn overflowing_input_is_rejected() {
    assert!(try_segment_tree(vec![i64::MAX, 1]).is_none());
    assert!(try_segment_tree(vec![i64::MIN, -1]).is_none());
    // every node value fits, yet the slice [MAX, MAX] does not
    assert!(try_segment_tree(vec![i64::MAX, i64::MAX, i64::MIN, i64::MIN]).is_none());
}

#[test]
fn fitting_input_is_accepted() {
    let tree = try_segment_tree(vec![3, 1, 4, 1, 5, 9, 2, 6]).unwrap();
    assert_eq!(tree, [31, 9, 22, 4, 5, 14, 8, 3, 1, 4, 1, 5, 9, 2, 6]);
    let extremes = try_segment_tree(vec![i64::MAX, i64::MIN]).unwrap();
    assert_eq!(extremes, [-1, i64::MAX, i64::MIN]);
}

#[test]
fn overflowing_update_is_rejected_and_rolled_back() {
    let mut tree = try_segment_tree(vec![i64::MAX - 10, 5]).unwrap();
    assert!(!try_set_nth(&mut tree, 1, 11));
    assert_eq!(nth(&tree, 0), i64::MAX - 10);
    assert_eq!(nth(&tree, 1), 5);
    assert!(try_set_nth(&mut tree, 1, 10));
    assert_eq!(nth(&tree, 1), 10);
    assert_eq!(tree[0], i64::MAX);
}

#[test]
fn range_sum_fitting_is_decided_exactly() {
    assert!(all_range_sums_fit(&vec![]));
    assert!(all_range_sums_fit(&vec![i64::MAX, i64::MIN, i64::MAX]));
    assert!(!all_range_sums_fit(&vec![i64::MAX, i64::MAX, i64::MIN, i64::MIN]));
    assert!(!all_range_sums_fit(&vec![-1, i64::MIN]));
    assert!(all_range_sums_fit(&vec![0, i64::MIN]));
}
