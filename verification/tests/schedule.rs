use argon40::calendar::DateTime;
use argon40::schedule::{
    add_schedule, next_startup, next_startup_schedule, parse_schedule_file, remove_schedule,
    serialize_schedule_file, FieldName, Schedule, ScheduleCommand, ScheduleError,
    ScheduleIndexError,
};

fn dt(year: i32, month: u32, day: u32, hour: u32, minute: u32) -> DateTime {
    DateTime::new(year, month, day, hour, minute, 0).unwrap()
}

#[test]
fn parses_csv_wildcards_and_round_trips() {
    let schedule = Schedule::parse("0,30 1,13 * * * off").unwrap();
    assert_eq!(schedule.render(), "0,30 1,13 * * * off");
    assert!(schedule.matches(dt(2026, 8, 11, 13, 30)));
    assert!(!schedule.matches(dt(2026, 8, 11, 13, 31)));
}

#[test]
fn rejects_generic_cron_features_and_any_minute() {
    assert!(Schedule::parse("*/5 * * * * on").is_err());
    assert!(Schedule::parse("* 1 * * * on").is_err());
    assert!(Schedule::parse("0 1 * * * command").is_err());
}

#[test]
fn sunday_accepts_zero_and_seven_correcting_legacy_ui_bug() {
    let sunday = dt(2026, 8, 16, 8, 0);
    assert!(Schedule::parse("0 8 * * 0 on").unwrap().matches(sunday));
    assert!(Schedule::parse("0 8 * * 7 on").unwrap().matches(sunday));
}

#[test]
fn month_is_ignored_for_compatibility() {
    assert!(Schedule::parse("0 8 * 1 * on").unwrap().matches(dt(2026, 8, 11, 8, 0)));
}

#[test]
fn next_occurrence_handles_month_end_and_leap_year() {
    let monthly = Schedule::parse("0 8 31 * * on").unwrap();
    assert_eq!(
        monthly.next_after(dt(2026, 4, 30, 9, 0)),
        Some(dt(2026, 5, 31, 8, 0))
    );
    let leap = Schedule::parse("0 8 29 2 * on").unwrap();
    assert_eq!(
        leap.next_after(dt(2027, 2, 28, 9, 0)),
        Some(dt(2027, 3, 29, 8, 0))
    );
}

#[test]
fn next_startup_ignores_shutdown_entries() {
    let schedules = vec![
        Schedule::parse("5 8 * * * off").unwrap(),
        Schedule::parse("10 8 * * * on").unwrap(),
    ];
    assert_eq!(
        next_startup(&schedules, dt(2026, 8, 11, 8, 0)),
        Some(dt(2026, 8, 11, 8, 10))
    );
}

#[test]
fn faulty_schedules_say_what_is_wrong() {
    assert_eq!(
        Schedule::parse("0 1 * * on").unwrap_err(),
        ScheduleError::FieldCount { count: 5 }
    );
    assert_eq!(
        Schedule::parse("0 x * * * on").unwrap_err(),
        ScheduleError::InvalidValue { field: FieldName::Hour, text: "x".to_owned() }
    );
    assert_eq!(
        Schedule::parse("0 1 32 * * on").unwrap_err(),
        ScheduleError::OutOfRange {
            field: FieldName::DayOfMonth,
            value: 32,
            minimum: 1,
            maximum: 31
        }
    );
    assert_eq!(Schedule::parse("* 1 * * * on").unwrap_err(), ScheduleError::AnyMinute);
    assert_eq!(
        Schedule::parse("0 1 * * * Boot").unwrap_err(),
        ScheduleError::UnknownCommand { text: "boot".to_owned() }
    );
}

#[test]
fn values_are_sorted_and_written_once() {
    let schedule = Schedule::parse(" 30,0,30  5 * 2,1 7,0 ON ").unwrap();
    assert_eq!(schedule.render(), "0,30 5 * 2,1 0,7 on");
    assert_eq!(schedule.command, ScheduleCommand::On);
    assert_eq!(Schedule::parse(&schedule.render()).unwrap(), schedule);
}

#[test]
fn schedule_files_read_back() {
    let schedules = vec![
        Schedule::parse("0 1 * * * off").unwrap(),
        Schedule::parse("30 7 * * 1 on").unwrap(),
    ];
    let text = serialize_schedule_file(&schedules);
    assert!(text.starts_with("#\n# Argon RTC Configuration\n"));
    assert!(text.ends_with("#\n0 1 * * * off\n30 7 * * 1 on\n"));
    assert_eq!(parse_schedule_file(&text).unwrap(), schedules);
    assert_eq!(parse_schedule_file(&serialize_schedule_file(&[])).unwrap(), vec![]);
}

#[test]
fn the_faulty_line_of_a_file_is_named() {
    let error = parse_schedule_file("# list\n\n0 1 * * * off\nnonsense\n").unwrap_err();
    assert_eq!(error.line, 4);
    assert_eq!(error.error, ScheduleError::FieldCount { count: 1 });
}

#[test]
fn the_earliest_startup_comes_with_its_schedule() {
    let schedules = vec![
        Schedule::parse("0 9 * * * on").unwrap(),
        Schedule::parse("0 8 12 * * on").unwrap(),
        Schedule::parse("0 8 * * * on").unwrap(),
    ];
    let (schedule, time) = next_startup_schedule(&schedules, dt(2026, 8, 11, 9, 0)).unwrap();
    assert_eq!(schedule, &schedules[1]);
    assert_eq!(time, dt(2026, 8, 12, 8, 0));
    assert_eq!(next_startup(&[], dt(2026, 8, 11, 9, 0)), None);
}

#[test]
fn the_same_minute_does_not_count_again() {
    let schedule = Schedule::parse("0 8 * * * on").unwrap();
    assert_eq!(
        schedule.next_after(dt(2026, 8, 11, 8, 0)),
        Some(dt(2026, 8, 12, 8, 0))
    );
    let late = DateTime::new(2026, 8, 11, 7, 59, 59).unwrap();
    assert_eq!(schedule.next_after(late), Some(dt(2026, 8, 11, 8, 0)));
}

#[test]
fn schedules_are_added_and_removed_by_number() {
    let fields = |line: &str| line.split(' ').map(str::to_owned).collect::<Vec<_>>();
    let mut schedules = Vec::new();
    add_schedule(&mut schedules, &fields("0 1 * * * off")).unwrap();
    add_schedule(&mut schedules, &fields("30 7 * * 1 on")).unwrap();
    assert_eq!(
        add_schedule(&mut schedules, &fields("61 7 * * 1 on")).unwrap_err(),
        ScheduleError::OutOfRange {
            field: FieldName::Minute,
            value: 61,
            minimum: 0,
            maximum: 59
        }
    );
    assert_eq!(schedules.len(), 2);
    assert_eq!(
        remove_schedule(&mut schedules, 0).unwrap_err(),
        ScheduleIndexError { index: 0, count: 2 }
    );
    assert_eq!(
        remove_schedule(&mut schedules, 3).unwrap_err(),
        ScheduleIndexError { index: 3, count: 2 }
    );
    remove_schedule(&mut schedules, 1).unwrap();
    assert_eq!(schedules, vec![Schedule::parse("30 7 * * 1 on").unwrap()]);
}
