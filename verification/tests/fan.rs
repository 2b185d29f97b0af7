use argon40::clock::{Duration, Instant};
use argon40::fan::{
    apply_decision, finish_change, start_change, FanConfigError, FanCurve, FanDecision, FanOutput, FanPoint, FanPolicy,
    DEFAULT_CURVE,
};
use argon40::single::Single;

fn single(value: f32) -> Single {
    Single { bits: value.to_bits() }
}

fn parse(input: &str) -> Result<FanCurve, FanConfigError> {
    FanCurve::parse(input, |text: &str| text.parse::<f32>().ok().map(single))
}

fn start() -> Instant {
    Instant { nanos: 5_000_000_000 }
}

#[test]
fn parses_sorts_and_selects_boundaries() {
    let curve = parse("60=55\n# ignored\n55=10\n65=100\n").unwrap();
    assert_eq!(curve.points()[0].temperature_c, single(65.0));
    assert_eq!(curve.speed_for(single(54.99)), 0);
    assert_eq!(curve.speed_for(single(55.0)), 25);
    assert_eq!(curve.speed_for(single(60.0)), 55);
    assert_eq!(curve.speed_for(single(65.0)), 100);
}

#[test]
fn rejects_invalid_and_empty_curves() {
    assert!(matches!(parse(""), Err(FanConfigError::Empty)));
    assert!(matches!(parse("101=20"), Err(FanConfigError::InvalidTemperature { .. })));
    assert!(matches!(parse("50=-1"), Err(FanConfigError::InvalidPercent { .. })));
    assert!(matches!(parse("bad"), Err(FanConfigError::MissingEquals { .. })));
}

#[test]
fn fallback_matches_legacy_behavior() {
    let curve = FanCurve::fallback();
    assert_eq!(curve.speed_for(single(55.0)), 25);
    assert_eq!(curve.speed_for(single(60.0)), 55);
    assert_eq!(curve.speed_for(single(65.0)), 100);
}

#[test]
fn upshift_is_immediate_and_downshift_is_delayed() {
    let start = start();
    let mut policy = FanPolicy::new(0, Duration::from_secs(30));
    assert_eq!(
        policy.evaluate(55, start),
        FanDecision::Apply { percent: 55, spin_up: true }
    );
    policy.commit(55);
    assert!(matches!(policy.evaluate(25, start), FanDecision::DownshiftPending { .. }));
    assert!(matches!(
        policy.evaluate(25, start.plus(Duration::from_secs(29))),
        FanDecision::DownshiftPending { .. }
    ));
    assert_eq!(
        policy.evaluate(25, start.plus(Duration::from_secs(30))),
        FanDecision::Apply { percent: 25, spin_up: false }
    );
    policy.commit(25);
    assert_eq!(policy.current_percent(), 25);
}

#[test]
fn failed_write_is_retried_until_committed() {
    let start = start();
    let mut policy = FanPolicy::new(0, Duration::from_secs(30));
    assert!(matches!(policy.evaluate(55, start), FanDecision::Apply { .. }));
    assert!(matches!(policy.evaluate(55, start), FanDecision::Apply { .. }));
    policy.commit(55);
    assert_eq!(policy.evaluate(55, start), FanDecision::Unchanged);
}

#[derive(Default)]
struct Fake {
    writes: Vec<u8>,
    fails_at: Option<u8>,
}

impl FanOutput for Fake {
    type Error = ();

    fn set_percent(&mut self, percent: u8) -> Result<(), ()> {
        if self.fails_at == Some(percent) {
            return Err(());
        }
        self.writes.push(percent);
        Ok(())
    }
}

#[test]
fn stopped_fan_gets_one_second_kick() {
    let mut fake = Fake::default();
    let mut sleeps = Vec::new();
    apply_decision(
        &mut fake,
        FanDecision::Apply { percent: 25, spin_up: true },
        |duration, _| sleeps.push(duration),
    )
    .unwrap();
    assert_eq!(fake.writes, vec![100, 25]);
    assert_eq!(sleeps, vec![Duration::from_secs(1)]);
}

#[test]
fn a_failed_kick_ends_the_change() {
    let mut fake = Fake { fails_at: Some(100), ..Fake::default() };
    let mut sleeps = Vec::new();
    let decision = FanDecision::Apply { percent: 25, spin_up: true };
    assert!(apply_decision(&mut fake, decision, |duration, _| sleeps.push(duration)).is_err());
    assert!(fake.writes.is_empty());
    assert!(sleeps.is_empty());
}

#[test]
fn other_decisions_leave_the_fan_alone() {
    let mut fake = Fake::default();
    let pending = FanDecision::DownshiftPending { percent: 5, remaining: Duration::from_secs(2) };
    for decision in [FanDecision::Unchanged, pending] {
        apply_decision(&mut fake, decision, |_, _| ()).unwrap();
    }
    apply_decision(&mut fake, FanDecision::Apply { percent: 0, spin_up: true }, |_, _| ()).unwrap();
    assert_eq!(fake.writes, vec![0]);
}

#[test]
fn fallback_is_the_default_curve() {
    assert_eq!(parse(DEFAULT_CURVE).unwrap(), FanCurve::fallback());
    assert_eq!(
        FanCurve::fallback().points(),
        &[
            FanPoint { temperature_c: single(65.0), percent: 100 },
            FanPoint { temperature_c: single(60.0), percent: 55 },
            FanPoint { temperature_c: single(55.0), percent: 10 },
        ]
    );
}

#[test]
fn faults_tell_the_line_and_the_text() {
    assert_eq!(parse("\n55=10\nhot").unwrap_err(), FanConfigError::MissingEquals { line: 3 });
    assert_eq!(
        parse("# x\n nan = 3").unwrap_err(),
        FanConfigError::InvalidTemperature { line: 2, value: "nan".to_owned() }
    );
    assert_eq!(
        parse("inf=3").unwrap_err(),
        FanConfigError::InvalidTemperature { line: 1, value: "inf".to_owned() }
    );
    assert_eq!(
        parse("40 = 100.5 ").unwrap_err(),
        FanConfigError::InvalidPercent { line: 1, value: "100.5".to_owned() }
    );
    assert_eq!(
        parse("40=").unwrap_err(),
        FanConfigError::InvalidPercent { line: 1, value: String::new() }
    );
}

#[test]
fn percentages_lose_their_fraction() {
    let percent = |text: &str| parse(&format!("50={text}")).unwrap().points()[0].percent;
    assert_eq!(percent("99.99"), 99);
    assert_eq!(percent("1.999"), 1);
    assert_eq!(percent("1"), 1);
    assert_eq!(percent("1.5e1"), 15);
    assert_eq!(percent("63.999996"), 63);
    assert_eq!(percent("64"), 64);
    assert_eq!(percent("100"), 100);
    assert_eq!(percent("-0"), 0);
    for value in 0..=100_u8 {
        assert_eq!(percent(&value.to_string()), value);
    }
}

#[test]
fn a_speed_below_one_percent_still_turns_the_fan() {
    let curve = parse("55=0.5").unwrap();
    assert_eq!(curve.points()[0].percent, 1);
    assert_eq!(curve.speed_for(single(60.0)), 25);
    assert_eq!(curve.speed_for(single(54.0)), 0);
    for text in ["0.999", "1e-45", "0.00001"] {
        assert_eq!(parse(&format!("55={text}")).unwrap().speed_for(single(55.0)), 25);
    }
    for text in ["0", "-0", "0.0"] {
        assert_eq!(parse(&format!("55={text}")).unwrap().speed_for(single(60.0)), 0);
    }
}

#[test]
fn a_kick_is_begun_and_finished() {
    let mut fake = Fake::default();
    let kick = FanDecision::Apply { percent: 30, spin_up: true };
    assert_eq!(start_change(&mut fake, kick).unwrap(), Some(Duration::from_secs(1)));
    assert_eq!(fake.writes, vec![100]);
    finish_change(&mut fake, kick).unwrap();
    assert_eq!(fake.writes, vec![100, 30]);
    let plain = FanDecision::Apply { percent: 40, spin_up: false };
    assert_eq!(start_change(&mut fake, plain).unwrap(), None);
    finish_change(&mut fake, plain).unwrap();
    assert_eq!(start_change(&mut fake, FanDecision::Unchanged).unwrap(), None);
    finish_change(&mut fake, FanDecision::Unchanged).unwrap();
    assert_eq!(fake.writes, vec![100, 30, 40]);
}

#[test]
fn the_wait_is_between_the_two_speeds() {
    let mut fake = Fake::default();
    let decision = FanDecision::Apply { percent: 30, spin_up: true };
    let mut seen = Vec::new();
    apply_decision(&mut fake, decision, |_, output: &Fake| seen = output.writes.clone())
        .unwrap();
    assert_eq!(seen, vec![100]);
    assert_eq!(fake.writes, vec![100, 30]);
}

#[test]
fn equal_temperatures_keep_their_order() {
    let curve = parse("50=30\n60=70\n50=40\n").unwrap();
    let percents: Vec<u8> = curve.points().iter().map(|point| point.percent).collect();
    assert_eq!(percents, vec![70, 30, 40]);
    assert_eq!(curve.speed_for(single(50.0)), 30);
}

#[test]
fn the_two_zeros_are_sorted_apart() {
    let curve = parse("-0=30\n0=40\n").unwrap();
    assert_eq!(curve.points()[0].percent, 40);
    assert_eq!(curve.speed_for(single(-0.0)), 40);
    assert_eq!(curve.speed_for(single(f32::NAN)), 0);
    assert_eq!(curve.speed_for(single(-1.0)), 0);
    assert_eq!(curve.speed_for(single(f32::INFINITY)), 40);
}

#[test]
fn slow_speeds_become_running_speeds() {
    let curve = parse("70=24\n60=25\n50=1\n40=0\n").unwrap();
    assert_eq!(curve.speed_for(single(75.0)), 25);
    assert_eq!(curve.speed_for(single(65.0)), 25);
    assert_eq!(curve.speed_for(single(50.0)), 25);
    assert_eq!(curve.speed_for(single(45.0)), 0);
}

#[test]
fn another_wish_restarts_the_wait() {
    let start = start();
    let after = |seconds: u64| start.plus(Duration::from_secs(seconds));
    let mut policy = FanPolicy::new(100, Duration::from_secs(30));
    policy.evaluate(25, after(0));
    policy.evaluate(55, after(20));
    assert_eq!(
        policy.evaluate(25, after(40)),
        FanDecision::DownshiftPending { percent: 25, remaining: Duration::from_secs(30) }
    );
    assert_eq!(
        policy.evaluate(25, after(60)),
        FanDecision::DownshiftPending { percent: 25, remaining: Duration::from_secs(10) }
    );
    assert_eq!(policy.evaluate(100, after(65)), FanDecision::Unchanged);
    assert_eq!(
        policy.evaluate(25, after(70)),
        FanDecision::DownshiftPending { percent: 25, remaining: Duration::from_secs(30) }
    );
}

#[test]
fn numbers_compare_as_they_should() {
    let values = [
        f32::NEG_INFINITY, -3.5, -0.0, 0.0, f32::MIN_POSITIVE, 1.0e-42, 0.1, 99.9, 100.0, 3.0e38,
        f32::INFINITY, f32::NAN,
    ];
    for a in values {
        for b in values {
            assert_eq!(single(a).at_least(single(b)), a >= b);
            let larger = single(a).maximum(single(b));
            let expected = a.max(b);
            if expected.is_nan() {
                assert!(larger.is_nan());
            } else {
                assert_eq!(f32::from_bits(larger.bits), expected);
            }
            assert_eq!(single(a).precedes(single(b)), a.total_cmp(&b).is_lt());
        }
        assert_eq!(
            single(a).is_within_hundred(),
            a.is_finite() && (0.0..=100.0).contains(&a)
        );
    }
}

struct Numbered {
    failing: u8,
    writes: Vec<u8>,
}

impl FanOutput for Numbered {
    type Error = String;

    fn set_percent(&mut self, percent: u8) -> Result<(), String> {
        self.writes.push(percent);
        if percent == self.failing {
            return Err(format!("no {percent}"));
        }
        Ok(())
    }
}

#[test]
fn the_error_is_that_of_the_speed_that_failed() {
    let decision = FanDecision::Apply { percent: 25, spin_up: true };
    let mut output = Numbered { failing: 100, writes: Vec::new() };
    let error = apply_decision(&mut output, decision, |_, _| ()).unwrap_err();
    assert_eq!((error.as_str(), output.writes), ("no 100", vec![100]));
    let mut output = Numbered { failing: 25, writes: Vec::new() };
    let error = apply_decision(&mut output, decision, |_, _| ()).unwrap_err();
    assert_eq!((error.as_str(), output.writes), ("no 25", vec![100, 25]));
}

#[test]
fn the_default_curve_stands_in_for_a_configuration() {
    let read = |text: &str| text.parse::<f32>().ok().map(single);
    let (curve, fault) = FanCurve::in_force(Some("40=30"), read);
    assert_eq!((curve.speed_for(single(40.0)), fault), (30, None));
    let (curve, fault) = FanCurve::in_force(Some("40=hot"), read);
    assert_eq!(curve.points(), FanCurve::fallback().points());
    let value = "hot".to_owned();
    assert_eq!(fault, Some(FanConfigError::InvalidPercent { line: 1, value }));
    let (curve, fault) = FanCurve::in_force(Some(""), read);
    assert_eq!(curve.points(), FanCurve::fallback().points());
    assert_eq!(fault, Some(FanConfigError::Empty));
    let (curve, fault) = FanCurve::in_force(None, read);
    assert_eq!(curve.points(), FanCurve::fallback().points());
    assert_eq!(fault, None);
}
