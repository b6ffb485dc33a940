use vacation_planner::CanadianHolidays;
use vacation_planner::Date;
use vacation_planner::Error;
use vacation_planner::Planner;
use vacation_planner::Province;
use vacation_planner::api;

fn d(y: i32, m: u32, day: u32) -> Date {
    Date::from_ymd(y, m, day).unwrap()
}

#[test]
fn from_api_id_parses_every_province() {
    let cases = [
        ("AB", Province::AB),
        ("BC", Province::BC),
        ("MB", Province::MB),
        ("NB", Province::NB),
        ("NL", Province::NL),
        ("NS", Province::NS),
        ("NT", Province::NT),
        ("NU", Province::NU),
        ("ON", Province::ON),
        ("PE", Province::PE),
        ("QC", Province::QC),
        ("SK", Province::SK),
        ("YT", Province::YT),
    ];
    for (id, expected) in cases {
        assert_eq!(Province::from_api_id(id).unwrap(), expected);
    }
}

#[test]
fn from_api_id_rejects_unknown() {
    assert_eq!(Province::from_api_id("XX"), Err(Error::ProvinceParse));
    assert_eq!(Province::from_api_id(""), Err(Error::ProvinceParse));
    assert_eq!(Province::from_api_id("ABC"), Err(Error::ProvinceParse));
}

#[test]
fn holidays_are_sorted_and_per_province() {
    let mut table = CanadianHolidays::new();
    table.add(Province::BC, d(2021, 7, 1));
    table.add(Province::BC, d(2021, 1, 1));
    table.add(Province::ON, d(2021, 8, 2));
    let planner = Planner::new(table, Province::BC);
    assert_eq!(planner.holidays(), vec![d(2021, 1, 1), d(2021, 7, 1)]);
}

#[test]
fn holidays_of_absent_province_are_empty() {
    let planner = Planner::new(CanadianHolidays::new(), Province::QC);
    assert!(planner.holidays().is_empty());
}

#[test]
fn add_vacation_day_needs_budget() {
    let mut planner = Planner::new(CanadianHolidays::new(), Province::BC);
    assert_eq!(planner.add_vacation_day(d(2021, 2, 2)), Err(Error::InsertionFail));
    planner.set_num_vacation_days(1);
    assert_eq!(planner.add_vacation_day(d(2021, 2, 2)), Ok(()));
    assert_eq!(planner.add_vacation_day(d(2021, 3, 2)), Err(Error::InsertionFail));
}

#[test]
fn fixed_days_stay_sorted_and_unique() {
    let mut planner = Planner::new(CanadianHolidays::new(), Province::BC);
    planner.set_num_vacation_days(5);
    planner.add_vacation_day(d(2021, 3, 2)).unwrap();
    planner.add_vacation_day(d(2021, 2, 2)).unwrap();
    planner.add_vacation_day(d(2021, 2, 2)).unwrap();
    assert_eq!(
        planner.fixed_vacation_days(),
        vec![d(2021, 2, 2), d(2021, 3, 2)]
    );
    assert_eq!(planner.remaining_days(), 3);
}

#[test]
fn remaining_days_never_underflows() {
    let mut planner = Planner::new(CanadianHolidays::new(), Province::BC);
    planner.set_num_vacation_days(2);
    planner.add_vacation_day(d(2021, 2, 2)).unwrap();
    planner.add_vacation_day(d(2021, 3, 2)).unwrap();
    planner.set_num_vacation_days(1);
    assert_eq!(planner.remaining_days(), 0);
}

#[test]
fn suggested_weeks_midpoint_through_planner() {
    let mut table = CanadianHolidays::new();
    table.add(Province::BC, d(2021, 1, 4));
    table.add(Province::BC, d(2021, 12, 27));
    let mut planner = Planner::new(table, Province::BC);
    planner.set_num_vacation_days(1);
    planner.set_start_date(d(2021, 1, 1));
    let weeks = planner.suggested_vacation_weeks();
    let week_numbers: Vec<u32> = weeks.iter().map(|week| week.week).collect();
    assert_eq!(week_numbers, vec![27]);
}

#[test]
fn suggested_weeks_zero_budget_empty() {
    // No fixed days, a remaining budget of zero: always the empty sequence.
    let mut planner = Planner::new(CanadianHolidays::new(), Province::BC);
    planner.set_start_date(d(2021, 4, 1));
    assert!(planner.suggested_vacation_weeks().is_empty());
}

#[test]
fn from_response_builds_holidays() {
    let response = api::HolidaysResponse {
        holidays: vec![
            api::Holiday {
                date: String::from("2021-07-01"),
                provinces: vec![
                    api::Province { id: String::from("BC") },
                    api::Province { id: String::from("ON") },
                ],
            },
            api::Holiday {
                date: String::from("2021-01-01"),
                provinces: vec![api::Province { id: String::from("BC") }],
            },
        ],
    };
    let planner = Planner::from_response(response, Province::BC).unwrap();
    assert_eq!(planner.holidays(), vec![d(2021, 1, 1), d(2021, 7, 1)]);
}

#[test]
fn from_response_rejects_bad_date() {
    let response = api::HolidaysResponse {
        holidays: vec![api::Holiday {
            date: String::from("2021-13-99"),
            provinces: vec![api::Province { id: String::from("BC") }],
        }],
    };
    assert!(matches!(
        Planner::from_response(response, Province::BC),
        Err(Error::DateParse)
    ));
}

#[test]
fn from_response_rejects_bad_province() {
    let response = api::HolidaysResponse {
        holidays: vec![api::Holiday {
            date: String::from("2021-07-01"),
            provinces: vec![api::Province { id: String::from("ZZ") }],
        }],
    };
    assert!(matches!(
        Planner::from_response(response, Province::BC),
        Err(Error::ProvinceParse)
    ));
}

#[test]
fn from_response_reports_date_error_first() {
    let response = api::HolidaysResponse {
        holidays: vec![api::Holiday {
            date: String::from("not a date"),
            provinces: vec![api::Province { id: String::from("ZZ") }],
        }],
    };
    assert!(matches!(
        Planner::from_response(response, Province::BC),
        Err(Error::DateParse)
    ));
}

#[test]
fn date_parse_matches_from_ymd() {
    let parsed = Date::parse("2021-07-01", "%Y-%m-%d").unwrap();
    assert_eq!(parsed, d(2021, 7, 1));
    assert!(Date::parse("07/01/2021", "%Y-%m-%d").is_none());
}

#[test]
fn error_messages() {
    assert_eq!(Error::Http.message(), "Http request failed");
    assert_eq!(Error::JsonParse.message(), "Deserializing failed");
    assert_eq!(Error::DateParse.message(), "Parsing date failed");
    assert_eq!(Error::ProvinceParse.message(), "Failed to parse province ID");
    assert_eq!(Error::InsertionFail.message(), "Insertion failed");
}
