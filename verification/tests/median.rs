//! Lower median of integer series.
use hft_research::metrics::lower_median;

#[test]
fn lower_median_of_odd_and_even_counts() {
    assert_eq!(lower_median(&vec![]), None);
    assert_eq!(lower_median(&vec![7]), Some(7));
    assert_eq!(lower_median(&vec![5, 1, 9]), Some(5));
    assert_eq!(lower_median(&vec![40, 10, 30, 20]), Some(20));
    assert_eq!(lower_median(&vec![-3, 8, -3, 8, 0]), Some(0));
    assert_eq!(lower_median(&vec![i64::MAX, i64::MIN]), Some(i64::MIN));
}
