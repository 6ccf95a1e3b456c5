use mindmap::coord::{sat_add, sat_sub};

#[test]
fn saturating_addition() {
    assert_eq!(sat_add(1, 2), 3);
    assert_eq!(sat_add(-5, 5), 0);
    assert_eq!(sat_add(i64::MAX, 1), i64::MAX);
    assert_eq!(sat_add(i64::MIN, -1), i64::MIN);
}

#[test]
fn saturating_subtraction() {
    assert_eq!(sat_sub(5, 7), -2);
    assert_eq!(sat_sub(i64::MIN, 1), i64::MIN);
    assert_eq!(sat_sub(i64::MAX, -1), i64::MAX);
    assert_eq!(sat_sub(0, i64::MIN), i64::MAX);
}
