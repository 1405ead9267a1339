use camcam::sign::{sees_even_odd_lines_before, sees_even_odd_lines_before_helper, y_values_before};

#[test]
fn crossings_add_up_over_shapes() {
    assert_eq!(y_values_before(&vec![]), 0);
    assert_eq!(y_values_before(&vec![2, 0, 3]), 5);
}

#[test]
fn votes_follow_crossing_parity() {
    assert_eq!(sees_even_odd_lines_before_helper(1, 1, true, false), 1);
    assert_eq!(sees_even_odd_lines_before_helper(2, 3, true, false), 0);
    assert_eq!(sees_even_odd_lines_before_helper(2, 3, true, true), 1);
    assert_eq!(sees_even_odd_lines_before_helper(2, 2, false, false), 1);
    assert_eq!(sees_even_odd_lines_before_helper(3, 3, false, true), 0);
}

#[test]
fn two_of_three_votes_decide() {
    assert!(sees_even_odd_lines_before(1, 1, 0));
    assert!(sees_even_odd_lines_before(1, 1, 1));
    assert!(!sees_even_odd_lines_before(0, 1, 0));
    assert!(!sees_even_odd_lines_before(0, 0, 0));
}
