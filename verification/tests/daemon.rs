use argon40::calendar::DateTime;
use argon40::clock::{Duration, Instant};
use argon40::config::{OledConfig, OledPage};
use argon40::daemon::{
    fan_step, governing_temperature, plan_alarm, settled, shutdown_due, AlarmAction, FanReport, OledAction,
    OledScreen,
};
use argon40::fan::{FanCurve, FanOutput, FanPolicy};
use argon40::schedule::Schedule;
use argon40::single::Single;

fn at(seconds: u64) -> Instant {
    Instant { nanos: 0 }.plus(Duration::from_secs(seconds))
}

fn single(value: f32) -> Single {
    Single { bits: value.to_bits() }
}

#[derive(Default)]
struct Output {
    writes: Vec<u8>,
    broken: bool,
}

impl FanOutput for Output {
    type Error = &'static str;

    fn set_percent(&mut self, percent: u8) -> Result<(), &'static str> {
        if self.broken {
            return Err("broken");
        }
        self.writes.push(percent);
        Ok(())
    }
}

#[test]
fn the_fan_follows_the_hotter_sensor() {
    let curve = FanCurve::fallback();
    let mut policy = FanPolicy::new(0, Duration::from_secs(30));
    let mut output = Output::default();
    let mut step = |cpu: Option<f32>, drive: Option<f32>, now: u64| {
        fan_step(
            &curve,
            &mut policy,
            &mut output,
            cpu.map(single),
            drive.map(single),
            at(now),
            |_, _| (),
        )
    };
    assert!(matches!(step(Some(40.0), Some(61.0), 0), FanReport::Applied { percent: 55 }));
    assert!(matches!(step(Some(62.0), None, 1), FanReport::Unchanged));
    assert!(matches!(step(None, Some(99.0), 2), FanReport::Preserved { percent: 55 }));
    assert!(matches!(step(Some(10.0), Some(20.0), 10), FanReport::Pending { percent: 0, .. }));
    match step(Some(10.0), None, 30) {
        FanReport::Pending { percent, remaining } => {
            assert_eq!((percent, remaining), (0, Duration::from_secs(10)));
        }
        other => panic!("{other:?}"),
    }
    assert!(matches!(step(Some(10.0), None, 40), FanReport::Applied { percent: 0 }));
    assert_eq!(output.writes, vec![100, 55, 0]);
}

#[test]
fn a_speed_counts_once_it_was_set() {
    let curve = FanCurve::fallback();
    let mut policy = FanPolicy::new(0, Duration::from_secs(30));
    let mut output = Output { broken: true, ..Output::default() };
    let hot = Some(single(70.0));
    let report = fan_step(&curve, &mut policy, &mut output, hot, None, at(0), |_, _| ());
    assert!(matches!(report, FanReport::Failed("broken")));
    assert_eq!(policy.current_percent(), 0);
    output.broken = false;
    let report = fan_step(&curve, &mut policy, &mut output, hot, None, at(1), |_, _| ());
    assert!(matches!(report, FanReport::Applied { percent: 100 }));
    assert_eq!(policy.current_percent(), 100);
    assert_eq!(output.writes, vec![100, 100]);
}

#[test]
fn the_higher_temperature_governs() {
    assert_eq!(governing_temperature(single(40.0), Some(single(50.0))), single(50.0));
    assert_eq!(governing_temperature(single(60.0), Some(single(50.0))), single(60.0));
    assert_eq!(governing_temperature(single(60.0), None), single(60.0));
    assert_eq!(governing_temperature(single(60.0), Some(single(f32::NAN))), single(60.0));
}

fn config(switch_seconds: u64, screensaver_seconds: Option<u64>) -> OledConfig {
    OledConfig {
        enabled: true,
        switch_seconds,
        screensaver_seconds,
        pages: vec![OledPage::Clock, OledPage::Cpu, OledPage::Ip],
    }
}

#[test]
fn an_unused_display_has_no_screen() {
    let off = OledConfig { enabled: false, ..config(0, None) };
    assert!(OledScreen::new(off, at(0)).is_none());
    let empty = OledConfig { pages: vec![], ..config(0, None) };
    assert!(OledScreen::new(empty, at(0)).is_none());
}

#[test]
fn pages_are_drawn_at_first_and_every_minute() {
    let mut screen = OledScreen::new(config(0, None), at(0)).unwrap();
    assert_eq!(screen.tick(false, at(0)), OledAction::Render(OledPage::Clock));
    assert_eq!(screen.tick(false, at(1)), OledAction::Render(OledPage::Clock));
    screen.rendered(at(2));
    assert_eq!(screen.tick(false, at(61)), OledAction::Nothing);
    assert_eq!(screen.tick(false, at(62)), OledAction::Render(OledPage::Clock));
    screen.rendered(at(63));
    assert_eq!(screen.tick(false, at(1_000_000)), OledAction::Render(OledPage::Clock));
}

#[test]
fn pages_go_round() {
    let mut screen = OledScreen::new(config(0, None), at(0)).unwrap();
    let mut seen = Vec::new();
    for second in 1..=4 {
        seen.push(screen.tick(true, at(second)));
        screen.rendered(at(second));
    }
    assert_eq!(
        seen,
        vec![
            OledAction::Render(OledPage::Cpu),
            OledAction::Render(OledPage::Ip),
            OledAction::Render(OledPage::Clock),
            OledAction::Render(OledPage::Cpu),
        ]
    );
}

#[test]
fn pages_are_switched_when_their_time_is_over() {
    let mut screen = OledScreen::new(config(10, None), at(0)).unwrap();
    assert_eq!(screen.tick(false, at(0)), OledAction::Render(OledPage::Clock));
    screen.rendered(at(0));
    assert_eq!(screen.tick(false, at(9)), OledAction::Nothing);
    assert_eq!(screen.tick(false, at(10)), OledAction::Render(OledPage::Cpu));
    screen.rendered(at(10));
    assert_eq!(screen.tick(false, at(19)), OledAction::Nothing);
    assert_eq!(screen.tick(false, at(20)), OledAction::Render(OledPage::Ip));
}

#[test]
fn the_screensaver_ends_with_the_next_page() {
    let mut screen = OledScreen::new(config(0, Some(120)), at(0)).unwrap();
    screen.tick(false, at(0));
    screen.rendered(at(0));
    assert_eq!(screen.tick(false, at(119)), OledAction::Render(OledPage::Clock));
    screen.rendered(at(119));
    assert_eq!(screen.tick(false, at(120)), OledAction::Blank);
    assert_eq!(screen.tick(false, at(121)), OledAction::Nothing);
    assert_eq!(screen.tick(false, at(500)), OledAction::Nothing);
    assert_eq!(screen.tick(true, at(501)), OledAction::Render(OledPage::Cpu));
    screen.rendered(at(501));
    assert_eq!(screen.tick(false, at(621)), OledAction::Blank);
}

#[test]
fn the_alarm_is_set_when_the_startup_changes() {
    let schedules = vec![
        Schedule::parse("30 7 * * 1 on").unwrap(),
        Schedule::parse("0 6 1 * * on").unwrap(),
        Schedule::parse("0 1 * * * off").unwrap(),
    ];
    let now = DateTime::new(2026, 8, 11, 8, 0, 30).unwrap();
    let monday = DateTime::new(2026, 8, 17, 7, 30, 0).unwrap();
    let plan = AlarmAction::Program { local: monday, include_day: false, include_weekday: true };
    assert_eq!(plan_alarm(&schedules, now, None), plan);
    assert_eq!(plan_alarm(&schedules, now, Some(now)), plan);
    assert_eq!(plan_alarm(&schedules, now, Some(monday)), AlarmAction::Keep);
    assert_eq!(
        plan_alarm(&schedules[1..2], now, None),
        AlarmAction::Program {
            local: DateTime::new(2026, 9, 1, 6, 0, 0).unwrap(),
            include_day: true,
            include_weekday: false,
        }
    );
    assert_eq!(plan_alarm(&schedules[2..], now, None), AlarmAction::Keep);
    assert_eq!(plan_alarm(&schedules[2..], now, Some(monday)), AlarmAction::Clear);
}

#[test]
fn an_alarm_that_was_not_set_is_tried_again() {
    let schedules = vec![Schedule::parse("30 7 * * * on").unwrap()];
    let now = DateTime::new(2026, 8, 11, 8, 0, 30).unwrap();
    let next = DateTime::new(2026, 8, 12, 7, 30, 0).unwrap();
    let plan = plan_alarm(&schedules, now, None);
    assert_eq!(settled(plan, false, None), None);
    assert_eq!(plan_alarm(&schedules, now, settled(plan, false, None)), plan);
    assert_eq!(settled(plan, true, None), Some(next));
    assert_eq!(plan_alarm(&schedules, now, settled(plan, true, None)), AlarmAction::Keep);
    assert_eq!(settled(AlarmAction::Keep, true, Some(next)), Some(next));
    assert_eq!(settled(AlarmAction::Clear, false, Some(next)), Some(next));
    assert_eq!(settled(AlarmAction::Clear, true, Some(next)), None);
}

#[test]
fn the_first_of_equal_entries_sets_the_alarm() {
    let schedules = vec![
        Schedule::parse("30 7 * * * on").unwrap(),
        Schedule::parse("30 7 12 * * on").unwrap(),
    ];
    let now = DateTime::new(2026, 8, 11, 8, 0, 30).unwrap();
    let local = DateTime::new(2026, 8, 12, 7, 30, 0).unwrap();
    assert_eq!(
        plan_alarm(&schedules, now, None),
        AlarmAction::Program { local, include_day: false, include_weekday: false }
    );
}

#[test]
fn only_shutdown_entries_switch_off() {
    let schedules = vec![
        Schedule::parse("0 1 * * * on").unwrap(),
        Schedule::parse("0 2 * * * off").unwrap(),
    ];
    assert!(!shutdown_due(&schedules, DateTime::new(2026, 8, 11, 1, 0, 0).unwrap()));
    assert!(shutdown_due(&schedules, DateTime::new(2026, 8, 11, 2, 0, 59).unwrap()));
    assert!(!shutdown_due(&[], DateTime::new(2026, 8, 11, 2, 0, 0).unwrap()));
}
