use camcam::algorithms::{seen_before, seen_before_or_equal};

#[test]
pub fn test_seen_before_zero_len() {
    assert_eq!(seen_before(&Vec::<f64>::new(), 0.0), 0);
}

#[test]
pub fn test_seen_before() {
    let v = vec![4.0, 4.5, 10.0, 14.0, 14.0, 15.0, 16.3];

    assert_eq!(seen_before(&v, 3.0), 0);
    assert_eq!(seen_before(&v, 4.0), 0);
    assert_eq!(seen_before(&v, 4.1), 1);
    assert_eq!(seen_before(&v, 4.6), 2);
    assert_eq!(seen_before(&v, 10.0), 2);
}

#[test]
fn seen_before_counts_smaller_integers() {
    let v: Vec<u64> = vec![1, 3, 3, 5, 9];
    assert_eq!(seen_before(&v, 0), 0);
    assert_eq!(seen_before(&v, 1), 0);
    assert_eq!(seen_before(&v, 2), 1);
    assert_eq!(seen_before(&v, 3), 1);
    assert_eq!(seen_before(&v, 4), 3);
    assert_eq!(seen_before(&v, 9), 4);
    assert_eq!(seen_before(&v, 10), 5);
}

#[test]
fn seen_before_single_element() {
    let v: Vec<u64> = vec![7];
    assert_eq!(seen_before(&v, 6), 0);
    assert_eq!(seen_before(&v, 7), 0);
    assert_eq!(seen_before(&v, 8), 1);
}

#[test]
fn seen_before_or_equal_counts_not_greater() {
    let v: Vec<u64> = vec![1, 3, 3, 5, 9];
    assert_eq!(seen_before_or_equal(&v, 0), 0);
    assert_eq!(seen_before_or_equal(&v, 1), 1);
    assert_eq!(seen_before_or_equal(&v, 3), 3);
    assert_eq!(seen_before_or_equal(&v, 4), 3);
    assert_eq!(seen_before_or_equal(&v, 5), 4);
    assert_eq!(seen_before_or_equal(&v, 9), 4);
    assert_eq!(seen_before_or_equal(&v, 10), 5);
}

#[test]
fn seen_before_or_equal_empty_and_floats() {
    assert_eq!(seen_before_or_equal(&Vec::<f64>::new(), 1.0), 0);
    let v = vec![4.0, 4.5, 10.0, 14.0, 14.0, 15.0, 16.3];
    assert_eq!(seen_before_or_equal(&v, 4.0), 1);
    assert_eq!(seen_before_or_equal(&v, 14.0), 5);
    assert_eq!(seen_before_or_equal(&v, 20.0), 7);
}
