use compound_sim::horizon::horizon_months;
use compound_sim::placement::{from_draws, place_drops, Draw, DropAssignment};

fn draw(month: u64, class: usize) -> Draw {
    Draw { month, class }
}

/// Compounds a monthly contribution over the horizon, month by month, with
/// the percentages of `severities` applied on the months that `plan` strikes.
fn compound(contribution: f64, annual_rate: f64, plan: &DropAssignment, severities: &[f64]) -> Vec<f64> {
    let monthly_rate = annual_rate / 12.0;
    let mut series: Vec<f64> = Vec::new();
    for month in 0..plan.months() {
        series.push(contribution);
        for value in series.iter_mut() {
            match plan.class_at(month) {
                Some(class) => *value -= *value * severities[class],
                None => *value += *value * monthly_rate,
            }
        }
    }
    series
}

/// Sum of the series, its percentage of the invested capital, and its
/// average per month.
fn summary(series: &[f64], contribution: f64) -> (f64, f64, f64, f64) {
    let mut pnl = 0.0;
    for value in series {
        pnl += value;
    }
    let invested = series.len() as f64 * contribution;
    (invested, pnl, pnl / invested * 100.0, pnl / series.len() as f64)
}

#[test]
fn new_assignment_strikes_no_month() {
    let a = DropAssignment::new(24);
    assert_eq!(a.months(), 24);
    assert_eq!(a.struck_months(), 0);
    for month in 0..24 {
        assert_eq!(a.class_at(month), None);
    }
}

#[test]
fn record_overwrites_an_earlier_class() {
    let mut a = DropAssignment::new(12);
    a.record(3, 0);
    a.record(5, 0);
    assert_eq!(a.class_at(3), Some(0));
    a.record(3, 1);
    assert_eq!(a.class_at(3), Some(1));
    assert_eq!(a.class_at(5), Some(0));
    assert_eq!(a.class_at(4), None);
    assert_eq!(a.struck_months(), 2);
    assert_eq!(a.months(), 12);
}

#[test]
fn scripted_draws_resolve_collisions_by_last_writer() {
    let draws = vec![draw(7, 0), draw(2, 0), draw(7, 1), draw(11, 2), draw(2, 2), draw(0, 2)];
    let a = from_draws(12, &draws).unwrap();
    assert_eq!(a.class_at(7), Some(1));
    assert_eq!(a.class_at(2), Some(2));
    assert_eq!(a.class_at(11), Some(2));
    assert_eq!(a.class_at(0), Some(2));
    assert_eq!(a.class_at(1), None);
    assert_eq!(a.struck_months(), 4);
}

#[test]
fn scripted_draws_within_one_class_collide_too() {
    let draws = vec![draw(4, 0), draw(4, 0), draw(4, 0)];
    let a = from_draws(6, &draws).unwrap();
    assert_eq!(a.struck_months(), 1);
    assert_eq!(a.class_at(4), Some(0));
}

#[test]
fn scripted_draw_outside_the_horizon_is_refused() {
    assert!(from_draws(12, &vec![draw(0, 0), draw(12, 0)]).is_none());
    assert!(from_draws(0, &vec![draw(0, 0)]).is_none());
    assert!(from_draws(12, &vec![draw(11, 0)]).is_some());
}

#[test]
fn no_scripted_draws_leave_every_month_growing() {
    let a = from_draws(0, &Vec::new()).unwrap();
    assert_eq!(a.months(), 0);
    assert_eq!(a.struck_months(), 0);
}

#[test]
fn no_drop_classes_strike_no_month() {
    let a = place_drops(&Vec::new(), 12);
    assert_eq!(a.months(), 12);
    assert_eq!(a.struck_months(), 0);
}

#[test]
fn classes_without_occurrences_strike_no_month() {
    let a = place_drops(&vec![0, 0, 0], 36);
    assert_eq!(a.struck_months(), 0);
    for month in 0..36 {
        assert_eq!(a.class_at(month), None);
    }
}

#[test]
fn sampled_months_stay_inside_the_horizon() {
    for round in 0..200u64 {
        let months = 1 + round % 30;
        let occurrences = vec![round % 7, 3, 0, round % 5];
        let a = place_drops(&occurrences, months);
        assert_eq!(a.months(), months);
        let mut struck = 0;
        for month in 0..months {
            if a.class_at(month).is_some() {
                struck += 1;
            }
        }
        assert_eq!(struck, a.struck_months());
        for month in months..months + 64 {
            assert_eq!(a.class_at(month), None);
        }
    }
}

#[test]
fn sampled_classes_are_ones_that_asked_for_occurrences() {
    for _ in 0..200 {
        let occurrences = vec![4, 0, 9, 0];
        let a = place_drops(&occurrences, 24);
        let struck = a.struck_months();
        assert!(1 <= struck && struck <= 13);
        let mut last_class_seen = false;
        for month in 0..24 {
            match a.class_at(month) {
                Some(class) => {
                    assert!(class == 0 || class == 2);
                    last_class_seen = last_class_seen || class == 2;
                }
                None => {}
            }
        }
        assert!(last_class_seen);
    }
}

#[test]
fn single_month_horizon_is_always_struck() {
    for _ in 0..50 {
        let a = place_drops(&vec![3], 1);
        assert_eq!(a.class_at(0), Some(0));
        assert_eq!(a.struck_months(), 1);
    }
}

#[test]
fn later_class_takes_over_a_single_month_horizon() {
    let a = place_drops(&vec![2, 5, 1], 1);
    assert_eq!(a.class_at(0), Some(2));
}

#[test]
fn sampling_spreads_over_the_horizon() {
    let a = place_drops(&vec![5000], 12);
    assert_eq!(a.struck_months(), 12);
}

#[test]
fn growth_only_year_compounds_every_tranche() {
    let months = horizon_months(1).unwrap();
    let plan = place_drops(&Vec::new(), months);
    let series = compound(100.0, 0.12, &plan, &[]);
    assert_eq!(series.len(), 12);
    for (i, value) in series.iter().enumerate() {
        let expected = 100.0 * 1.01f64.powi(12 - i as i32);
        assert!((value - expected).abs() < 1e-9);
    }
    let (invested, pnl, roi, avg) = summary(&series, 100.0);
    assert_eq!(invested, 1200.0);
    assert!((pnl - 1280.9328043328942).abs() < 1e-6);
    assert!((roi - 106.74440036107452).abs() < 1e-6);
    assert!((avg * 12.0 - pnl).abs() < 1e-9);
}

#[test]
fn growth_only_year_at_eight_percent() {
    let months = horizon_months(1).unwrap();
    let plan = place_drops(&Vec::new(), months);
    let series = compound(500.0, 0.08, &plan, &[]);
    let (invested, pnl, roi, avg) = summary(&series, 500.0);
    assert_eq!(invested, 6000.0);
    assert_eq!(series.len(), 12);
    let mut expected_pnl = 0.0;
    for i in 0..12 {
        expected_pnl += 500.0 * (1.0 + 0.08 / 12.0f64).powi(12 - i);
    }
    assert!((pnl - expected_pnl).abs() < 1e-6);
    assert!((roi - expected_pnl / 60.0).abs() < 1e-6);
    assert!((avg - expected_pnl / 12.0).abs() < 1e-6);
    let monthly = 1.0 + 0.08 / 12.0;
    assert!((series[11] - 500.0 * monthly).abs() < 1e-9);
    assert!((series[1] - 500.0 * monthly.powi(11)).abs() < 1e-9);
    assert!((series[1] - 537.91).abs() < 0.01);
    assert!((series[0] - 500.0 * monthly.powi(12)).abs() < 1e-9);
}

#[test]
fn zero_rate_keeps_every_tranche_at_the_contribution() {
    let plan = place_drops(&vec![0], 36);
    let series = compound(250.0, 0.0, &plan, &[0.4]);
    assert_eq!(series.len(), 36);
    for value in &series {
        assert_eq!(*value, 250.0);
    }
    let (invested, pnl, roi, avg) = summary(&series, 250.0);
    assert_eq!(invested, 9000.0);
    assert_eq!(pnl, invested);
    assert_eq!(roi, 100.0);
    assert_eq!(avg, 250.0);
}

#[test]
fn full_severity_on_every_month_wipes_the_portfolio() {
    let draws: Vec<Draw> = (0..12).map(|m| draw(m, 0)).collect();
    let plan = from_draws(12, &draws).unwrap();
    let series = compound(100.0, 0.12, &plan, &[1.0]);
    for value in &series {
        assert_eq!(*value, 0.0);
    }
}

#[test]
fn struck_month_shrinks_every_tranche_held_so_far() {
    let plan = from_draws(3, &vec![draw(1, 0)]).unwrap();
    let series = compound(100.0, 0.0, &plan, &[0.4]);
    assert_eq!(series, vec![60.0, 60.0, 100.0]);
}

#[test]
fn doubling_the_contribution_doubles_every_tranche() {
    let plan = from_draws(24, &vec![draw(3, 0), draw(17, 1), draw(3, 1)]).unwrap();
    let single = compound(100.0, 0.06, &plan, &[0.05, 0.15]);
    let double = compound(200.0, 0.06, &plan, &[0.05, 0.15]);
    for (a, b) in single.iter().zip(double.iter()) {
        assert_eq!(2.0 * a, *b);
    }
    let (invested_1, pnl_1, roi_1, _) = summary(&single, 100.0);
    let (invested_2, pnl_2, roi_2, _) = summary(&double, 200.0);
    assert_eq!(2.0 * invested_1, invested_2);
    assert_eq!(2.0 * pnl_1, pnl_2);
    assert_eq!(roi_1, roi_2);
}

#[test]
fn average_times_months_gives_back_the_sum() {
    let plan = from_draws(60, &vec![draw(10, 0), draw(30, 1), draw(31, 1), draw(59, 0)]).unwrap();
    let series = compound(321.5, 0.07, &plan, &[0.15, 0.4]);
    let (_, pnl, _, avg) = summary(&series, 321.5);
    assert!((avg * 60.0 - pnl).abs() < 1e-6);
}

#[test]
fn empty_horizon_without_occurrences_is_empty() {
    let a = place_drops(&vec![0, 0], 0);
    assert_eq!(a.months(), 0);
    assert_eq!(a.struck_months(), 0);
    let b = place_drops(&Vec::new(), 0);
    assert_eq!(b.struck_months(), 0);
}
