use segment_tree::nth;
use segment_tree::segment_tree;
use segment_tree::set_nth;
use segment_tree::sum;

#[test]
fn test_representation() {
    let tree = segment_tree(vec![3, 1, 4, 1, 5, 9, 2, 6]);
    assert_eq!(tree, [31, 9, 22, 4, 5, 14, 8, 3, 1, 4, 1, 5, 9, 2, 6]);
}

#[test]
fn test_setter_and_getter() {
    let mut tree = segment_tree(vec![3, 1, 4, 1, 5, 9, 2, 6]);
    set_nth(&mut tree, 2, -42);
    let elements: Vec<i64> = (0..8).map(|i| nth(&tree, i)).collect();
    assert_eq!(elements, [3, 1, -42, 1, 5, 9, 2, 6]);
}

#[test]
fn test_sum_on_range() {
    let tree = segment_tree(vec![3, 1, 4, 1, 5, 9, 2, 6]);
    let sums: Vec<i64> = (2..8).map(|i| sum(&tree, i - 2, i)).collect();
    assert_eq!(sums, [8, 6, 10, 15, 16, 17]);
}

#[test]
fn update_propagates_to_every_ancestor() {
    let mut tree = segment_tree(vec![3, 1, 4, 1, 5, 9, 2, 6]);
    set_nth(&mut tree, 2, -42);
    // leaf slot 9 changed; its ancestors are nodes 4, 1 and 0
    assert_eq!(tree, [-15, -37, 22, 4, -41, 14, 8, 3, 1, -42, 1, 5, 9, 2, 6]);
}

#[test]
fn set_then_get_returns_written_value() {
    let mut tree = segment_tree(vec![3, 1, 4, 1, 5, 9, 2, 6]);
    set_nth(&mut tree, 5, 100);
    set_nth(&mut tree, 0, -7);
    for i in 0..8 {
        let x = (i as i64) * 11 - 30;
        set_nth(&mut tree, i, x);
        assert_eq!(nth(&tree, i), x);
    }
}

#[test]
fn full_range_sum_equals_sum_of_gets() {
    let mut tree = segment_tree(vec![3, 1, 4, 1, 5, 9, 2, 6]);
    set_nth(&mut tree, 3, -20);
    set_nth(&mut tree, 7, 13);
    let total: i64 = (0..8).map(|i| nth(&tree, i)).sum();
    assert_eq!(sum(&tree, 0, 7), total);
    assert_eq!(sum(&tree, 0, 7), 3 + 1 + 4 - 20 + 5 + 9 + 2 + 13);
}

#[test]
fn non_power_of_two_input_pads_to_eight_leaves() {
    let tree = segment_tree(vec![10, 20, 30, 40, 50]);
    // P = 8 leaf slots, N = 2 * 8 - 1 buffer slots
    assert_eq!(tree.len(), 15);
    for i in 0..5 {
        assert_eq!(nth(&tree, i), (i as i64 + 1) * 10);
    }
    assert_eq!(sum(&tree, 0, 4), 150);
    let mut tree = tree;
    set_nth(&mut tree, 4, -1);
    for i in 0..4 {
        assert_eq!(nth(&tree, i), (i as i64 + 1) * 10);
    }
    assert_eq!(nth(&tree, 4), -1);
    assert_eq!(sum(&tree, 0, 4), 99);
}

#[test]
fn single_slot_range_equals_get() {
    let mut tree = segment_tree(vec![3, 1, 4, 1, 5, 9, 2, 6]);
    for i in 0..8 {
        assert_eq!(sum(&tree, i, i), nth(&tree, i));
    }
    set_nth(&mut tree, 6, -600);
    for i in 0..8 {
        assert_eq!(sum(&tree, i, i), nth(&tree, i));
    }
}

#[test]
fn single_element_tree() {
    let mut tree = segment_tree(vec![42]);
    assert_eq!(tree, [42]);
    assert_eq!(nth(&tree, 0), 42);
    assert_eq!(sum(&tree, 0, 0), 42);
    set_nth(&mut tree, 0, -5);
    assert_eq!(tree, [-5]);
    assert_eq!(sum(&tree, 0, 0), -5);
}
