use compound_sim::horizon::{horizon_months, is_snapshot_month, snapshot_months, MONTHS_PER_YEAR};

#[test]
fn a_year_has_twelve_months() {
    assert_eq!(MONTHS_PER_YEAR, 12);
    assert_eq!(horizon_months(1), Some(12));
    assert_eq!(horizon_months(0), Some(0));
    assert_eq!(horizon_months(30), Some(360));
}

#[test]
fn horizon_that_does_not_fit_is_refused() {
    assert_eq!(horizon_months(u64::MAX / 12), Some(u64::MAX / 12 * 12));
    assert_eq!(horizon_months(u64::MAX / 12 + 1), None);
    assert_eq!(horizon_months(u64::MAX), None);
}

#[test]
fn first_month_of_each_year_is_a_snapshot() {
    assert!(is_snapshot_month(0));
    assert!(is_snapshot_month(12));
    assert!(is_snapshot_month(120));
    assert!(!is_snapshot_month(1));
    assert!(!is_snapshot_month(11));
    assert!(!is_snapshot_month(13));
}

#[test]
fn snapshot_months_are_the_multiples_of_twelve() {
    assert_eq!(snapshot_months(0), Vec::<usize>::new());
    assert_eq!(snapshot_months(1), vec![0]);
    assert_eq!(snapshot_months(12), vec![0]);
    assert_eq!(snapshot_months(13), vec![0, 12]);
    assert_eq!(snapshot_months(24), vec![0, 12]);
    assert_eq!(snapshot_months(25), vec![0, 12, 24]);
}

#[test]
fn snapshot_months_agree_with_the_month_test() {
    for len in 0..100usize {
        let expected: Vec<usize> = (0..len).filter(|m| is_snapshot_month(*m)).collect();
        assert_eq!(snapshot_months(len), expected);
    }
}
