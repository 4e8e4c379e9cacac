use runlogger::date::Date;
use runlogger::run::Run;
use runlogger::validation::{
    format_date, format_distance, format_time, parse_date, parse_distance, parse_time,
    ValidationError,
};
use runlogger::TimeOfDay;

fn d(year: i32, month: u8, day: u8) -> Date {
    Date { year, month, day }
}

fn t(hour: u8, minute: u8, second: u8) -> TimeOfDay {
    TimeOfDay { hour, minute, second }
}

#[test]
fn distance_strings_parse_to_hundredths() {
    assert_eq!(parse_distance("0"), Ok(0));
    assert_eq!(parse_distance("-3"), Ok(-300));
    assert_eq!(parse_distance("250"), Ok(25000));
    assert_eq!(parse_distance("3.5"), Ok(350));
    assert_eq!(parse_distance(" 2.75 "), Ok(275));
    assert_eq!(parse_distance(".5"), Ok(50));
    assert_eq!(parse_distance("3."), Ok(300));
    assert_eq!(parse_distance("+4"), Ok(400));
    assert_eq!(parse_distance("1.239"), Ok(123));
    assert_eq!(parse_distance("3.05"), Ok(305));
}

#[test]
fn unreadable_distances_are_rejected() {
    assert_eq!(parse_distance(""), Err(ValidationError::DistanceRequired));
    assert_eq!(parse_distance("   "), Err(ValidationError::InvalidDistance));
    assert_eq!(parse_distance("abc"), Err(ValidationError::InvalidDistance));
    assert_eq!(parse_distance("."), Err(ValidationError::InvalidDistance));
    assert_eq!(parse_distance("1.2.3"), Err(ValidationError::InvalidDistance));
    assert_eq!(parse_distance("3,5"), Err(ValidationError::InvalidDistance));
    assert_eq!(parse_distance("-"), Err(ValidationError::InvalidDistance));
}

#[test]
fn huge_distances_saturate() {
    assert_eq!(parse_distance("99999999999999999999"), Ok(1000000));
    assert_eq!(parse_distance("-99999999999999999999"), Ok(-1000000));
}

#[test]
fn out_of_range_distances_fail_run_construction() {
    let date = d(2025, 6, 15);
    let time = t(7, 30, 0);
    let zero = Run::new(date, time, parse_distance("0").unwrap(), None);
    assert!(matches!(zero, Err(ValidationError::DistanceNotPositive)));
    let negative = Run::new(date, time, parse_distance("-3").unwrap(), None);
    assert!(matches!(negative, Err(ValidationError::DistanceNotPositive)));
    let huge = Run::new(date, time, parse_distance("250").unwrap(), None);
    assert!(matches!(huge, Err(ValidationError::DistanceUnrealistic)));
    let fine = Run::new(date, time, parse_distance("3.5").unwrap(), None).unwrap();
    assert_eq!(fine.distance_centimiles, 350);
    assert_eq!(fine.date, date);
    assert_eq!(fine.time_started, time);
    assert!(fine.id.is_none());
    assert!(fine.note.is_none());
}

#[test]
fn dates_parse_in_three_formats() {
    let today = d(2025, 6, 15);
    assert_eq!(parse_date("2025-03-04", &today), Ok(d(2025, 3, 4)));
    assert_eq!(parse_date("3/4/2025", &today), Ok(d(2025, 3, 4)));
    assert_eq!(parse_date("03/04/2025", &today), Ok(d(2025, 3, 4)));
    assert_eq!(parse_date("03-04-2025", &today), Ok(d(2025, 3, 4)));
    assert_eq!(parse_date("2024-02-29", &today), Ok(d(2024, 2, 29)));
    assert_eq!(parse_date("", &today), Ok(today));
}

#[test]
fn unreadable_dates_are_rejected() {
    let today = d(2025, 6, 15);
    assert_eq!(parse_date("2025-02-29", &today), Err(ValidationError::InvalidDate));
    assert_eq!(parse_date("2025-13-01", &today), Err(ValidationError::InvalidDate));
    assert_eq!(parse_date("2025-00-10", &today), Err(ValidationError::InvalidDate));
    assert_eq!(parse_date("garbage", &today), Err(ValidationError::InvalidDate));
    assert_eq!(parse_date("2025/03/04", &today), Err(ValidationError::InvalidDate));
    assert_eq!(parse_date("25-03-04", &today), Err(ValidationError::InvalidDate));
    assert_eq!(parse_date("2025-3", &today), Err(ValidationError::InvalidDate));
}

#[test]
fn times_parse_in_four_formats() {
    let now = t(12, 0, 0);
    assert_eq!(parse_time("07:30:15", &now), Ok(t(7, 30, 15)));
    assert_eq!(parse_time("7:30", &now), Ok(t(7, 30, 0)));
    assert_eq!(parse_time("7:30 PM", &now), Ok(t(19, 30, 0)));
    assert_eq!(parse_time("7:30 am", &now), Ok(t(7, 30, 0)));
    assert_eq!(parse_time("12:00 AM", &now), Ok(t(0, 0, 0)));
    assert_eq!(parse_time("12:00 PM", &now), Ok(t(12, 0, 0)));
    assert_eq!(parse_time("07:15:30 pm", &now), Ok(t(19, 15, 30)));
    assert_eq!(parse_time("", &now), Ok(now));
}

#[test]
fn unreadable_times_are_rejected() {
    let now = t(12, 0, 0);
    assert_eq!(parse_time("25:00", &now), Err(ValidationError::InvalidTime));
    assert_eq!(parse_time("7:60", &now), Err(ValidationError::InvalidTime));
    assert_eq!(parse_time("13:00 PM", &now), Err(ValidationError::InvalidTime));
    assert_eq!(parse_time("0:30 AM", &now), Err(ValidationError::InvalidTime));
    assert_eq!(parse_time("073015", &now), Err(ValidationError::InvalidTime));
    assert_eq!(parse_time("7:30:15:2", &now), Err(ValidationError::InvalidTime));
    assert_eq!(parse_time("noon", &now), Err(ValidationError::InvalidTime));
}

#[test]
fn formatting_is_canonical() {
    assert_eq!(format_date(&d(2025, 3, 4)), "2025-03-04");
    assert_eq!(format_date(&d(800, 12, 31)), "0800-12-31");
    assert_eq!(format_time(&t(7, 5, 9)), "07:05:09");
    assert_eq!(format_time(&t(23, 59, 59)), "23:59:59");
    assert_eq!(format_distance(350), "3.5");
    assert_eq!(format_distance(305), "3.05");
    assert_eq!(format_distance(300), "3");
    assert_eq!(format_distance(1234), "12.34");
    assert_eq!(format_distance(20000), "200");
    assert_eq!(format_distance(50), "0.5");
    assert_eq!(format_distance(0), "0");
}

#[test]
fn formatted_dates_parse_back() {
    let today = d(2025, 6, 15);
    for &date in &[d(2024, 2, 29), d(1999, 1, 1), d(2025, 12, 31)] {
        let text = format_date(&date);
        assert_eq!(parse_date(&text, &today), Ok(date));
    }
    let time = t(18, 4, 59);
    let text = format_time(&time);
    assert_eq!(parse_time(&text, &t(0, 0, 0)), Ok(time));
}

#[test]
fn error_messages_match_the_ui_texts() {
    assert_eq!(ValidationError::DistanceRequired.message(), "Distance is required");
    assert_eq!(
        ValidationError::InvalidDistance.message(),
        "Invalid distance. Enter a number (e.g., 3.5)"
    );
    assert_eq!(ValidationError::DistanceNotPositive.message(), "Distance must be positive");
    assert_eq!(
        ValidationError::DistanceUnrealistic.message(),
        "Distance seems unrealistic (>200 miles)"
    );
    assert_eq!(ValidationError::InvalidDate.message(), "Invalid date format. Use YYYY-MM-DD");
    assert_eq!(ValidationError::InvalidTime.message(), "Invalid time format. Use HH:MM or HH:MM:SS");
}

#[test]
fn date_validity_follows_the_calendar() {
    assert!(d(2024, 2, 29).is_valid());
    assert!(!d(2025, 2, 29).is_valid());
    assert!(!d(2100, 2, 29).is_valid());
    assert!(d(2000, 2, 29).is_valid());
    assert!(d(2025, 4, 30).is_valid());
    assert!(!d(2025, 4, 31).is_valid());
    assert!(!d(0, 1, 1).is_valid());
    assert!(!d(10000, 1, 1).is_valid());
    assert!(t(23, 59, 59).is_valid());
    assert!(!t(24, 0, 0).is_valid());
}
