use vacation_planner::Date;
use vacation_planner::weeks::calculate_vacation_weeks;

fn d(y: i32, m: u32, day: u32) -> Date {
    Date::from_ymd(y, m, day).unwrap()
}

#[test]
fn simple_dates_test() {
    // Anchors on the Mondays of ISO weeks 1 and 52 of 2021, one remaining
    // day, starting January 1: the midpoint week 27.
    let input_dates = vec![d(2021, 1, 4), d(2021, 12, 27)];
    let weeks = calculate_vacation_weeks(&input_dates, 1, &d(2021, 1, 1));
    let weeks_u32: Vec<u32> = weeks.iter().map(|week| week.week).collect();
    assert_eq!(weeks_u32, vec![27]);
}

#[test]
fn week_results_carry_the_start_year() {
    let input_dates = vec![d(2021, 1, 4), d(2021, 12, 27)];
    let weeks = calculate_vacation_weeks(&input_dates, 1, &d(2021, 1, 1));
    assert!(weeks.iter().all(|week| week.year == 2021));
}

#[test]
fn three_days_spread_over_the_year() {
    // Ideal positions 13.75, 26.5 and 39.25: the carried rounding error
    // pulls the middle week down and pushes the last one up.
    let input_dates = vec![d(2021, 1, 4), d(2021, 12, 27)];
    let weeks = calculate_vacation_weeks(&input_dates, 3, &d(2021, 1, 1));
    let weeks_u32: Vec<u32> = weeks.iter().map(|week| week.week).collect();
    assert_eq!(weeks_u32, vec![14, 26, 40]);
}

#[test]
fn weeks_zero_budget_gives_empty() {
    let input_dates = vec![d(2021, 1, 4), d(2021, 12, 27)];
    let weeks = calculate_vacation_weeks(&input_dates, 0, &d(2021, 1, 1));
    assert!(weeks.is_empty());
}

#[test]
fn weeks_single_anchor_gives_empty() {
    let input_dates = vec![d(2021, 7, 1)];
    let weeks = calculate_vacation_weeks(&input_dates, 4, &d(2021, 1, 1));
    assert!(weeks.is_empty());
}

#[test]
fn weeks_no_anchors_gives_empty() {
    let weeks = calculate_vacation_weeks(&Vec::new(), 4, &d(2021, 1, 1));
    assert!(weeks.is_empty());
}

#[test]
fn weeks_deterministic() {
    let input_dates = vec![d(2021, 1, 4), d(2021, 6, 7), d(2021, 12, 27)];
    let a = calculate_vacation_weeks(&input_dates, 3, &d(2021, 1, 1));
    let b = calculate_vacation_weeks(&input_dates, 3, &d(2021, 1, 1));
    assert_eq!(a, b);
}

#[test]
fn weeks_too_tight_window_gets_nothing() {
    // Two anchors one week apart: the only window is far below the ideal
    // interval, its weight is zeroed, and no allocation is possible.
    let input_dates = vec![d(2021, 6, 7), d(2021, 6, 14)];
    let weeks = calculate_vacation_weeks(&input_dates, 4, &d(2021, 1, 1));
    assert!(weeks.is_empty());
}

#[test]
fn iso_week_of_january_first() {
    // January 1, 2021 is a Friday of ISO week 53 (of ISO year 2020).
    assert_eq!(d(2021, 1, 1).iso_week(), 53);
    assert_eq!(d(2021, 1, 4).iso_week(), 1);
    assert_eq!(d(2021, 12, 27).iso_week(), 52);
}

#[test]
fn iso_week_of_december_end() {
    assert_eq!(Date::iso_week_of_dec31(2021), 52);
    assert_eq!(Date::iso_week_of_dec31(2020), 53);
}

#[test]
fn iso_week_existence() {
    assert!(Date::iso_week_in_year(2020, 53));
    assert!(!Date::iso_week_in_year(2021, 53));
    assert!(Date::iso_week_in_year(2021, 52));
    assert!(!Date::iso_week_in_year(2021, 0));
}

#[test]
fn year_of_date() {
    assert_eq!(d(2021, 1, 1).year(), 2021);
    assert_eq!(d(-4, 2, 29).year(), -4);
}
