use argon40::hardware::GpioEdge;
use argon40::ir::{
    code_text, frame_text, pulse_text, CodeLearner, Pulse, PulseCapture, Sample, PULSE_COUNT,
};

#[test]
fn a_frame_has_a_pulse_between_any_two_edges() {
    let mut capture = PulseCapture::new();
    assert!(!capture.edge(GpioEdge { rising: false, timestamp_ns: 1 }));
    assert!(capture.pulses().is_empty());
    for n in 0..PULSE_COUNT as u64 {
        assert!(!capture.edge(GpioEdge { rising: n % 2 == 0, timestamp_ns: n * n * 1_000 }));
    }
    let last = PULSE_COUNT as u64;
    assert!(capture.edge(GpioEdge { rising: true, timestamp_ns: last * last * 1_000 + 999 }));
    assert_eq!(capture.pulses().len(), PULSE_COUNT);
    for (n, pulse) in capture.pulses().iter().enumerate() {
        assert_eq!(*pulse, Pulse { high: n % 2 == 0, duration_us: 2 * n as u32 + 1 });
    }
}

#[test]
fn long_and_backward_pulses_are_limited() {
    let mut capture = PulseCapture::new();
    capture.edge(GpioEdge { rising: true, timestamp_ns: 5_000 });
    capture.edge(GpioEdge { rising: false, timestamp_ns: 4_000 });
    capture.edge(GpioEdge { rising: true, timestamp_ns: u64::MAX });
    assert_eq!(
        capture.pulses(),
        &[Pulse { high: true, duration_us: 0 }, Pulse { high: false, duration_us: u32::MAX }]
    );
}

#[test]
fn a_code_has_to_come_three_times() {
    let code = [0x00, 0xff, 0x39, 0xc6];
    let mut learner = CodeLearner::new();
    assert_eq!(learner.sample(code), Sample::More);
    assert_eq!(learner.sample(code), Sample::More);
    assert_eq!(learner.sample(code), Sample::Learned);
    let mut learner = CodeLearner::new();
    assert_eq!(learner.sample(code), Sample::More);
    assert_eq!(learner.sample([0x00, 0xff, 0x39, 0xc7]), Sample::Mismatch);
}

#[test]
fn codes_and_pulses_are_shown() {
    assert_eq!(code_text([0x00, 0xff, 0x39, 0xc6]), "00ff39c6");
    assert_eq!(frame_text([0x00, 0xff, 0x39, 0xc6], 66), "code=00ff39c6 pulse_count=66");
    assert_eq!(code_text([0x1a, 0xb2, 0x09, 0xf0]), "1ab209f0");
    assert_eq!(
        pulse_text(7, Pulse { high: true, duration_us: 9012 }),
        "07 level=high duration_us=9012"
    );
    assert_eq!(
        pulse_text(65, Pulse { high: false, duration_us: 0 }),
        "65 level=low duration_us=0"
    );
}
