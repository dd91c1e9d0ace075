use ship_cache::scalar::Scalar;

#[test]
fn mean_of_whole_numbers() {
    assert_eq!(i64::mean(&[7]), 7);
    assert_eq!(i64::mean(&[1, 2, 3, 4]), 2);
    assert_eq!(i64::mean(&[1, 2]), 1);
    assert_eq!(i64::mean(&[-1, -2]), -1);
    assert_eq!(i64::mean(&[-3, 2]), 0);
    assert_eq!(i64::mean(&[-7, 0, 0]), -2);
    assert_eq!(i64::mean(&[i64::MAX, i64::MAX, i64::MAX]), i64::MAX);
    assert_eq!(i64::mean(&[i64::MIN, i64::MIN]), i64::MIN);
    assert_eq!(i64::mean(&[i64::MIN, i64::MAX]), 0);
}
