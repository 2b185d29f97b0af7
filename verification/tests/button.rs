use argon40::button::{classify_pulse, react, ButtonAction, HostPower, Reaction};
use argon40::clock::Duration;
use argon40::hardware::{GpioEdge, GpioPulse, PulseTracker};

#[test]
fn preserves_documented_timing_windows() {
    assert_eq!(classify_pulse(Duration::from_millis(19)), ButtonAction::Ignore);
    assert_eq!(classify_pulse(Duration::from_millis(20)), ButtonAction::Reboot);
    assert_eq!(classify_pulse(Duration::from_millis(30)), ButtonAction::Reboot);
    assert_eq!(classify_pulse(Duration::from_millis(31)), ButtonAction::Ignore);
    assert_eq!(classify_pulse(Duration::from_millis(40)), ButtonAction::Shutdown);
    assert_eq!(classify_pulse(Duration::from_millis(50)), ButtonAction::Shutdown);
    assert_eq!(classify_pulse(Duration::from_millis(51)), ButtonAction::Ignore);
    assert_eq!(classify_pulse(Duration::from_millis(60)), ButtonAction::OledNext);
    assert_eq!(classify_pulse(Duration::from_millis(70)), ButtonAction::OledNext);
    assert_eq!(classify_pulse(Duration::from_millis(71)), ButtonAction::Ignore);
}

#[test]
fn only_full_milliseconds_count() {
    assert_eq!(classify_pulse(Duration::from_nanos(30_999_999)), ButtonAction::Reboot);
    assert_eq!(classify_pulse(Duration::from_nanos(31_000_000)), ButtonAction::Ignore);
    assert_eq!(classify_pulse(Duration::from_nanos(19_999_999)), ButtonAction::Ignore);
}

#[derive(Default)]
struct Host {
    requests: Vec<&'static str>,
    refuses: bool,
}

impl HostPower for Host {
    type Error = ();

    fn reboot(&mut self) -> Result<(), ()> {
        self.requests.push("reboot");
        if self.refuses {
            Err(())
        } else {
            Ok(())
        }
    }

    fn poweroff(&mut self) -> Result<(), ()> {
        self.requests.push("poweroff");
        if self.refuses {
            Err(())
        } else {
            Ok(())
        }
    }
}

#[test]
fn watched_gestures_do_nothing() {
    let mut host = Host::default();
    for action in [
        ButtonAction::Reboot,
        ButtonAction::Shutdown,
        ButtonAction::OledNext,
        ButtonAction::Ignore,
    ] {
        assert!(matches!(react(&mut host, action, true), Reaction::Nothing));
    }
    assert!(host.requests.is_empty());
}

#[test]
fn gestures_reach_the_host() {
    let mut host = Host::default();
    assert!(matches!(react(&mut host, ButtonAction::Reboot, false), Reaction::Reboot(Ok(()))));
    assert!(matches!(react(&mut host, ButtonAction::Shutdown, false), Reaction::Poweroff(Ok(()))));
    assert!(matches!(react(&mut host, ButtonAction::OledNext, false), Reaction::NextPage));
    assert!(matches!(react(&mut host, ButtonAction::Ignore, false), Reaction::Nothing));
    assert_eq!(host.requests, vec!["reboot", "poweroff"]);
    let mut refusing = Host { refuses: true, ..Host::default() };
    assert!(matches!(react(&mut refusing, ButtonAction::Reboot, false), Reaction::Reboot(Err(()))));
}

#[test]
fn pulses_end_with_a_falling_edge() {
    let mut tracker = PulseTracker::new();
    assert!(tracker.edge(GpioEdge { rising: false, timestamp_ns: 5 }).is_none());
    assert!(tracker.edge(GpioEdge { rising: true, timestamp_ns: 10 }).is_none());
    assert!(tracker.edge(GpioEdge { rising: true, timestamp_ns: 20 }).is_none());
    let pulse = tracker.edge(GpioEdge { rising: false, timestamp_ns: 25_000_020 }).unwrap();
    assert_eq!((pulse.rising_ns, pulse.falling_ns), (20, 25_000_020));
    assert_eq!(pulse.duration(), Duration::from_millis(25));
    assert!(tracker.edge(GpioEdge { rising: false, timestamp_ns: 30 }).is_none());
}

#[test]
fn a_pulse_that_ends_before_it_begins_has_no_length() {
    let pulse = GpioPulse { rising_ns: 9, falling_ns: 4 };
    assert_eq!(pulse.duration(), Duration::from_nanos(0));
}
