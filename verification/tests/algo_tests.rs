use vacation_planner::Date;
use vacation_planner::algo::calculate_vacation_days;
use vacation_planner::rounding::round;

fn d(y: i32, m: u32, day: u32) -> Date {
    Date::from_ymd(y, m, day).unwrap()
}

#[test]
fn round_test() {
    // 60.2, 15.4 and 24.6 as exact tenths.
    let input = vec![602, 154, 246];
    let output = round(&input, 10);
    assert_eq!(output, vec![60, 16, 24]);
}

#[test]
fn round_preserves_integer_sum() {
    let input = vec![602, 154, 246];
    let output = round(&input, 10);
    let sum: i64 = output.iter().sum();
    assert_eq!(sum, 100);
}

#[test]
fn round_empty() {
    let input = vec![];
    assert_eq!(round(&input, 7), Vec::<i64>::new());
}

#[test]
fn round_carries_error_forward() {
    // 0.5, 0.5, 0.5: ties round away from zero, the carried error pulls
    // the middle one down.
    let input = vec![5, 5, 5];
    assert_eq!(round(&input, 10), vec![1, 0, 1]);
}

#[test]
fn window_midpoint() {
    // A window spanning 10 days with one assigned day: the single midpoint.
    let anchors = vec![d(2021, 6, 1), d(2021, 6, 11)];
    let out = calculate_vacation_days(anchors, 1, &d(2021, 1, 1));
    assert_eq!(out, vec![d(2021, 6, 6)]);
}

#[test]
fn zero_budget_gives_empty() {
    let anchors = vec![d(2021, 1, 1), d(2021, 6, 1), d(2021, 12, 31)];
    let out = calculate_vacation_days(anchors, 0, &d(2021, 1, 1));
    assert!(out.is_empty());
}

#[test]
fn no_anchors_gives_empty() {
    let out = calculate_vacation_days(Vec::new(), 5, &d(2021, 1, 1));
    assert!(out.is_empty());
}

#[test]
fn single_anchor_gives_empty() {
    let out = calculate_vacation_days(vec![d(2021, 7, 1)], 5, &d(2021, 1, 1));
    assert!(out.is_empty());
}

#[test]
fn conservation_order_disjointness() {
    let anchors = vec![d(2021, 1, 1), d(2021, 4, 1), d(2021, 12, 31)];
    let out = calculate_vacation_days(anchors.clone(), 6, &d(2021, 1, 1));
    assert_eq!(out.len(), 6);
    for w in out.windows(2) {
        assert!(w[0].day_number() < w[1].day_number());
    }
    for day in &out {
        assert!(!anchors.contains(day));
    }
}

#[test]
fn deterministic() {
    let anchors = vec![d(2021, 1, 1), d(2021, 4, 1), d(2021, 12, 31)];
    let a = calculate_vacation_days(anchors.clone(), 6, &d(2021, 2, 1));
    let b = calculate_vacation_days(anchors, 6, &d(2021, 2, 1));
    assert_eq!(a, b);
}

#[test]
fn tie_breaks_to_first_window() {
    // Two windows of equal span: the first one gets the day.
    let anchors = vec![d(2021, 3, 1), d(2021, 3, 11), d(2021, 3, 21)];
    let out = calculate_vacation_days(anchors, 1, &d(2021, 1, 1));
    assert_eq!(out, vec![d(2021, 3, 6)]);
}

#[test]
fn duplicate_anchors_are_deduplicated() {
    let anchors = vec![d(2021, 6, 1), d(2021, 6, 1), d(2021, 6, 11)];
    let out = calculate_vacation_days(anchors, 1, &d(2021, 1, 1));
    assert_eq!(out, vec![d(2021, 6, 6)]);
}

#[test]
fn unsorted_anchors_are_sorted() {
    let anchors = vec![d(2021, 6, 11), d(2021, 6, 1)];
    let out = calculate_vacation_days(anchors, 1, &d(2021, 1, 1));
    assert_eq!(out, vec![d(2021, 6, 6)]);
}

#[test]
fn last_anchor_before_start_is_kept() {
    // The most recent anchor before the start date still bounds the first
    // window.
    let anchors = vec![d(2021, 5, 27), d(2021, 6, 6)];
    let out = calculate_vacation_days(anchors, 1, &d(2021, 6, 1));
    assert_eq!(out, vec![d(2021, 6, 1)]);
}

#[test]
fn day_numbers_are_consecutive() {
    assert_eq!(
        d(2021, 1, 4).day_number(),
        d(2021, 1, 3).day_number() + 1
    );
    assert!(d(2021, 1, 3).before(&d(2021, 1, 4)));
    assert!(!d(2021, 1, 4).before(&d(2021, 1, 4)));
}

#[test]
fn from_ymd_validates() {
    assert!(Date::from_ymd(2021, 2, 29).is_none());
    assert!(Date::from_ymd(2020, 2, 29).is_some());
    assert!(Date::from_ymd(2021, 13, 1).is_none());
    assert!(Date::from_ymd(2021, 0, 1).is_none());
}

#[test]
fn from_day_number_roundtrip() {
    let day = d(1999, 9, 3);
    let n = day.day_number();
    assert_eq!(n, 730_000);
    assert_eq!(Date::from_day_number(n).unwrap(), day);
    assert!(Date::from_day_number(70_000_001).is_none());
}
