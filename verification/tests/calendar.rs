use argon40::calendar::{DateTime, MAX_YEAR, MIN_YEAR};

fn time(year: i32, month: u32, day: u32, hour: u32, minute: u32, second: u32) -> DateTime {
    DateTime::new(year, month, day, hour, minute, second).unwrap()
}

#[test]
fn only_existing_times_are_made() {
    assert!(DateTime::new(2028, 2, 29, 0, 0, 0).is_some());
    assert!(DateTime::new(2026, 2, 29, 0, 0, 0).is_none());
    assert!(DateTime::new(1900, 2, 29, 0, 0, 0).is_none());
    assert!(DateTime::new(2026, 13, 1, 0, 0, 0).is_none());
    assert!(DateTime::new(2026, 1, 1, 24, 0, 0).is_none());
    assert!(DateTime::new(2026, 1, 1, 0, 60, 0).is_none());
    assert!(DateTime::new(2026, 1, 1, 0, 0, 60).is_none());
    assert!(DateTime::has_date(MAX_YEAR, 12, 31) && !DateTime::has_date(MAX_YEAR + 1, 1, 1));
    assert!(DateTime::has_date(MIN_YEAR, 1, 1) && !DateTime::has_date(MIN_YEAR - 1, 12, 31));
}

#[test]
fn weekdays_are_counted_from_sunday() {
    assert_eq!(time(2026, 8, 16, 0, 0, 0).weekday_from_sunday(), 0);
    assert_eq!(time(2026, 8, 22, 0, 0, 0).weekday_from_sunday(), 6);
    assert_eq!(time(1970, 1, 1, 0, 0, 0).weekday_from_sunday(), 4);
    assert_eq!(time(2000, 2, 29, 0, 0, 0).short_weekday(), "Tue");
}

#[test]
fn minutes_and_months_pass() {
    assert_eq!(time(2026, 12, 31, 23, 59, 7).minute_after(), time(2027, 1, 1, 0, 0, 7));
    assert_eq!(time(2028, 2, 28, 23, 59, 0).minute_after(), time(2028, 2, 29, 0, 0, 0));
    assert_eq!(
        time(2027, 1, 31, 5, 6, 7).months_after(13),
        Some(time(2028, 2, 29, 5, 6, 7))
    );
    assert_eq!(time(MAX_YEAR, 6, 1, 0, 0, 0).months_after(7), None);
    assert!(time(MAX_YEAR, 12, 31, 23, 59, 0).ends_calendar());
    assert!(time(2026, 1, 1, 0, 0, 0).not_after(&time(2026, 1, 1, 0, 0, 1)));
    assert!(!time(2026, 1, 1, 0, 0, 0).not_after(&time(2025, 12, 31, 23, 59, 59)));
}

#[test]
fn seconds_are_counted_from_1970() {
    assert_eq!(time(1970, 1, 1, 0, 0, 0).unix_timestamp(), 0);
    assert_eq!(time(2001, 9, 9, 1, 46, 40).unix_timestamp(), 1_000_000_000);
    assert_eq!(time(1969, 12, 31, 23, 59, 59).unix_timestamp(), -1);
}

#[test]
fn dates_and_times_are_shown() {
    let names = [
        "Jan", "Feb", "Mar", "Apr", "May", "Jun", "Jul", "Aug", "Sep", "Oct", "Nov", "Dec",
    ];
    for (month, name) in (1..=12).zip(names) {
        assert_eq!(time(2026, month, 5, 0, 0, 0).month_and_day(), format!("{name}05"));
    }
    let days = ["Sun", "Mon", "Tue", "Wed", "Thu", "Fri", "Sat"];
    for (day, name) in (16..=22).zip(days) {
        assert_eq!(time(2026, 8, day, 0, 0, 0).short_weekday(), name);
    }
    assert_eq!(time(2026, 8, 16, 7, 5, 59).hour_and_minute(), "07:05");
    assert_eq!(time(2026, 8, 16, 23, 40, 0).hour_and_minute(), "23:40");
}
