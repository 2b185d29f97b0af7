//! Infrared signals: the pulses of a frame, and the code that a remote control repeats.
use crate::hardware::GpioEdge;
use crate::text;
use vstd::prelude::*;
use vstd::string::StringExecFns;

verus! {

/// How many pulses a frame has.
pub const PULSE_COUNT: usize = 66;

/// How many times a code is asked for before it counts.
pub const SAMPLE_COUNT: u8 = 3;

/// How long the line stayed high or low.
#[derive(Debug, Clone, Copy, PartialEq, Eq, Structural)]
pub struct Pulse {
    pub high: bool,
    pub duration_us: u32,
}

/// Collects the pulses of a frame.
#[derive(Debug)]
pub struct PulseCapture {
    previous: Option<GpioEdge>,
    pulses: Vec<Pulse>,
}

/// What a [`PulseCapture`] has collected, and the edge before the next one.
pub struct CaptureState {
    pub previous: Option<GpioEdge>,
    pub pulses: Seq<Pulse>,
}

impl View for PulseCapture {
    type V = CaptureState;

    closed spec fn view(&self) -> CaptureState {
        CaptureState { previous: self.previous, pulses: self.pulses@ }
    }
}

/// The pulse between two edges, in full microseconds; what takes longer than can be held counts
/// as the longest that can.
pub open spec fn pulse_between(first: GpioEdge, second: GpioEdge) -> Pulse {
    let nanos = if second.timestamp_ns > first.timestamp_ns {
        second.timestamp_ns - first.timestamp_ns
    } else {
        0
    };
    Pulse {
        high: first.rising,
        duration_us: if nanos / 1_000 > u32::MAX {
            u32::MAX
        } else {
            (nanos / 1_000) as u32
        },
    }
}

impl CaptureState {
    pub open spec fn complete(self) -> bool {
        self.pulses.len() == PULSE_COUNT
    }

    /// What is known after one more edge. A frame begins with the line going high.
    pub open spec fn with_edge(self, edge: GpioEdge) -> CaptureState {
        match self.previous {
            None => CaptureState {
                previous: if edge.rising {
                    Some(edge)
                } else {
                    None
                },
                ..self
            },
            Some(previous) => CaptureState {
                previous: Some(edge),
                pulses: self.pulses.push(pulse_between(previous, edge)),
            },
        }
    }
}

impl PulseCapture {
    pub fn new() -> (r: PulseCapture)
        ensures
            r@ == (CaptureState { previous: None, pulses: Seq::empty() }),
    {
        PulseCapture { previous: None, pulses: Vec::new() }
    }

    /// Takes the next edge and tells whether the frame is complete.
    pub fn edge(&mut self, edge: GpioEdge) -> (r: bool)
        requires
            old(self)@.pulses.len() < PULSE_COUNT,
        ensures
            final(self)@ == old(self)@.with_edge(edge),
            r == final(self)@.complete(),
    {
        match self.previous {
            None => {
                if edge.rising {
                    self.previous = Some(edge);
                }
            },
            Some(previous) => {
                let micros = edge.timestamp_ns.saturating_sub(previous.timestamp_ns) / 1_000;
                self.pulses.push(
                    Pulse {
                        high: previous.rising,
                        duration_us: if micros > u32::MAX as u64 {
                            u32::MAX
                        } else {
                            micros as u32
                        },
                    },
                );
                self.previous = Some(edge);
            },
        }
        self.pulses.len() == PULSE_COUNT
    }

    /// The pulses collected so far.
    pub fn pulses(&self) -> (r: &[Pulse])
        ensures
            r@ == self@.pulses,
    {
        self.pulses.as_slice()
    }
}

/// The state after edges, one after the other.
pub open spec fn after_edges(state: CaptureState, edges: Seq<GpioEdge>) -> CaptureState
    decreases edges.len(),
{
    if edges.len() == 0 {
        state
    } else {
        after_edges(state, edges.drop_last()).with_edge(edges.last())
    }
}

/// The pulses of a frame are what lies between its edges, in order: one fewer than there are
/// edges, from the first time on that the line goes high.
pub proof fn law_pulses_lie_between_edges(edges: Seq<GpioEdge>)
    requires
        edges.len() > 0,
        edges[0].rising,
    ensures
        ({
            let state = after_edges(
                CaptureState { previous: None, pulses: Seq::empty() },
                edges,
            );
            &&& state.previous == Some(edges.last())
            &&& state.pulses.len() == edges.len() - 1
            &&& forall|i: int|
                0 <= i < edges.len() - 1 ==> #[trigger] state.pulses[i] == pulse_between(
                    edges[i],
                    edges[i + 1],
                )
        }),
    decreases edges.len(),
{
    let head = edges.drop_last();
    let start = CaptureState { previous: None, pulses: Seq::empty() };
    if head.len() > 0 {
        law_pulses_lie_between_edges(head);
        let before = after_edges(start, head);
        let state = after_edges(start, edges);
        assert forall|i: int| 0 <= i < edges.len() - 1 implies #[trigger] state.pulses[i]
            == pulse_between(edges[i], edges[i + 1]) by {
            if i < head.len() - 1 {
                assert(state.pulses[i] == before.pulses[i]);
            }
        }
    } else {
        assert(after_edges(start, head) == start);
    }
}

/// Learns a code that has to come the same every time.
#[derive(Debug)]
pub struct CodeLearner {
    code: Option<[u8; 4]>,
    samples: u8,
}

/// What came of a sample.
#[derive(Debug, Clone, Copy, PartialEq, Eq, Structural)]
pub enum Sample {
    /// More samples are needed.
    More,
    /// The code came often enough.
    Learned,
    /// The code is not the one that came before.
    Mismatch,
}

/// What is known of a code and how often it came, once another one came, and what comes of that.
pub open spec fn sampled(known: (Option<Seq<u8>>, int), code: Seq<u8>) -> (
    (Option<Seq<u8>>, int),
    Sample,
) {
    if known.0 is Some && known.0 != Some(code) {
        (known, Sample::Mismatch)
    } else {
        (
            (Some(code), known.1 + 1),
            if known.1 + 1 == SAMPLE_COUNT {
                Sample::Learned
            } else {
                Sample::More
            },
        )
    }
}

impl CodeLearner {
    /// The code, and how often it came.
    pub closed spec fn known(&self) -> (Option<Seq<u8>>, int) {
        (
            match self.code {
                Some(code) => Some(code@),
                None => None,
            },
            self.samples as int,
        )
    }

    /// A code is known once it came, and it did not come too often yet.
    pub open spec fn valid(&self) -> bool {
        let (code, samples) = self.known();
        0 <= samples <= SAMPLE_COUNT && (code is None <==> samples == 0)
    }

    pub fn new() -> (r: CodeLearner)
        ensures
            r.valid(),
            r.known() == (None::<Seq<u8>>, 0int),
    {
        CodeLearner { code: None, samples: 0 }
    }

    /// Takes the next code.
    pub fn sample(&mut self, code: [u8; 4]) -> (r: Sample)
        requires
            old(self).valid(),
            old(self).known().1 < SAMPLE_COUNT,
        ensures
            final(self).valid(),
            (final(self).known(), r) == sampled(old(self).known(), code@),
            ({
                let (before, samples) = old(self).known();
                if before is Some && before != Some(code@) {
                    r == Sample::Mismatch && final(self).known() == old(self).known()
                } else {
                    &&& final(self).known() == (Some(code@), samples + 1)
                    &&& r == (if samples + 1 == SAMPLE_COUNT {
                        Sample::Learned
                    } else {
                        Sample::More
                    })
                }
            }),
    {
        if let Some(prior) = self.code {
            if !same_code(prior, code) {
                return Sample::Mismatch;
            }
            assert(prior@ =~= code@);
        }
        self.code = Some(code);
        self.samples = self.samples + 1;
        if self.samples == SAMPLE_COUNT {
            Sample::Learned
        } else {
            Sample::More
        }
    }
}

fn same_code(a: [u8; 4], b: [u8; 4]) -> (r: bool)
    ensures
        r == (a@ == b@),
{
    if a[0] == b[0] && a[1] == b[1] && a[2] == b[2] && a[3] == b[3] {
        assert(a@ =~= b@);
        true
    } else {
        false
    }
}

/// A hexadecimal digit.
pub open spec fn hex_digit(n: int) -> char {
    if n < 10 {
        ('0' as int + n) as char
    } else {
        ('a' as int + n - 10) as char
    }
}

/// A code as hexadecimal digits, two for each byte.
pub open spec fn hex(bytes: Seq<u8>) -> Seq<char> {
    Seq::new(
        2 * bytes.len(),
        |i: int|
            hex_digit(
                if i % 2 == 0 {
                    bytes[i / 2] as int / 16
                } else {
                    bytes[i / 2] as int % 16
                },
            ),
    )
}

fn digit(n: u8) -> (r: char)
    requires
        n < 16,
    ensures
        r == hex_digit(n as int),
{
    if n < 10 {
        let byte: u8 = 48 + n;
        assert(byte as char == hex_digit(n as int));
        byte as char
    } else {
        let byte: u8 = 97 + n - 10;
        assert(byte as char == hex_digit(n as int));
        byte as char
    }
}

/// A code as hexadecimal digits.
pub fn code_text(code: [u8; 4]) -> (r: String)
    ensures
        r@ == hex(code@),
{
    let mut out = String::new();
    let mut i: usize = 0;
    while i < 4
        invariant
            i <= 4,
            out@ == hex(code@).take(2 * i as int),
        decreases 4 - i,
    {
        out.push(digit(code[i] / 16));
        out.push(digit(code[i] % 16));
        assert(out@ =~= hex(code@).take(2 * i + 2));
        i += 1;
    }
    assert(out@ =~= hex(code@));
    out
}

/// How a frame is shown: its code, and how many pulses it has.
pub fn frame_text(code: [u8; 4], pulse_count: u64) -> (r: String)
    ensures
        r@ == "code="@ + hex(code@) + " pulse_count="@ + text::decimal(pulse_count as nat),
{
    let mut out = String::new();
    out.append("code=");
    out.append(code_text(code).as_str());
    out.append(" pulse_count=");
    text::push_decimal(&mut out, pulse_count);
    assert(Seq::<char>::empty() + "code="@ =~= "code="@);
    out
}

/// A number in at least two digits.
pub open spec fn padded(n: nat) -> Seq<char> {
    if n < 10 {
        seq!['0'] + text::decimal(n)
    } else {
        text::decimal(n)
    }
}

/// How a pulse is shown.
pub open spec fn pulse_line(index: nat, pulse: Pulse) -> Seq<char> {
    padded(index) + " level="@ + (if pulse.high {
        "high"@
    } else {
        "low"@
    }) + " duration_us="@ + text::decimal(pulse.duration_us as nat)
}

/// How the pulse with the given number is shown.
pub fn pulse_text(index: u64, pulse: Pulse) -> (r: String)
    ensures
        r@ == pulse_line(index as nat, pulse),
{
    let mut out = String::new();
    if index < 10 {
        out.push('0');
    }
    text::push_decimal(&mut out, index);
    assert(out@ =~= padded(index as nat));
    out.append(" level=");
    out.append(
        if pulse.high {
            "high"
        } else {
            "low"
        },
    );
    out.append(" duration_us=");
    text::push_decimal(&mut out, pulse.duration_us as u64);
    out
}

/// A code is learned when it came three times, each time the same; one that differs is told apart
/// and changes nothing, whenever it comes.
pub proof fn law_code_comes_three_times(code: Seq<u8>, other: Seq<u8>)
    requires
        other != code,
    ensures
        ({
            let none = (None::<Seq<u8>>, 0int);
            let (first, a) = sampled(none, code);
            let (second, b) = sampled(first, code);
            let (third, c) = sampled(second, code);
            &&& a == Sample::More
            &&& b == Sample::More
            &&& c == Sample::Learned
            &&& first.0 == Some(code) && second.0 == Some(code) && third.0 == Some(code)
            &&& sampled(first, other) == (first, Sample::Mismatch)
            &&& sampled(second, other) == (second, Sample::Mismatch)
        }),
{
}

/// A pulse lasts from its edge to the next, in whole microseconds, and is high if its first edge
/// rises.
pub proof fn law_length_of_a_pulse(first: GpioEdge, second: GpioEdge)
    ensures
        pulse_between(first, second).high == first.rising,
        first.timestamp_ns <= second.timestamp_ns && second.timestamp_ns - first.timestamp_ns
            < 4_294_967_296_000 ==> {
            let micros = pulse_between(first, second).duration_us;
            let nanos = second.timestamp_ns - first.timestamp_ns;
            1_000 * micros <= nanos < 1_000 * (micros + 1)
        },
        first.timestamp_ns > second.timestamp_ns ==> pulse_between(first, second).duration_us == 0,
        second.timestamp_ns - first.timestamp_ns >= 4_294_967_295_000 ==> pulse_between(
            first,
            second,
        ).duration_us == u32::MAX,
{
}

/// Edges before the line first goes high do not count.
pub proof fn law_frame_begins_high(edge: GpioEdge)
    ensures
        ({
            let start = CaptureState { previous: None, pulses: Seq::empty() };
            &&& !edge.rising ==> start.with_edge(edge) == start
            &&& edge.rising ==> start.with_edge(edge).previous == Some(edge) && start.with_edge(
                edge,
            ).pulses.len() == 0
        }),
        forall|state: CaptureState| #[trigger] state.complete() <==> state.pulses.len() == 66,
{
}

/// The value of a hexadecimal digit.
pub open spec fn hex_value(c: char) -> int {
    if '0' <= c <= '9' {
        c as int - '0' as int
    } else {
        c as int - 'a' as int + 10
    }
}

/// Each byte is shown with two hexadecimal digits, the higher one first, in small letters.
pub proof fn law_hexadecimal_digits(bytes: Seq<u8>, i: int)
    requires
        0 <= i < bytes.len(),
    ensures
        hex(bytes).len() == 2 * bytes.len(),
        16 * hex_value(hex(bytes)[2 * i]) + hex_value(hex(bytes)[2 * i + 1]) == bytes[i],
        '0' <= hex(bytes)[2 * i] <= '9' || 'a' <= hex(bytes)[2 * i] <= 'f',
        '0' <= hex(bytes)[2 * i + 1] <= '9' || 'a' <= hex(bytes)[2 * i + 1] <= 'f',
{
    assert((2 * i) % 2 == 0 && (2 * i) / 2 == i);
    assert((2 * i + 1) % 2 == 1 && (2 * i + 1) / 2 == i);
}

/// The number of a pulse has at least two digits and means the number.
pub proof fn law_padded_numbers(n: nat)
    ensures
        padded(n).len() >= 2,
        text::value_of(padded(n)) == n,
        n >= 10 ==> padded(n) == text::decimal(n),
{
    text::lemma_decimal(n);
    if n < 10 {
        let digits = padded(n);
        assert(digits.drop_last() =~= seq!['0']);
        assert(seq!['0'].drop_last() =~= seq![]);
        assert(text::value_of(seq![]) == 0);
        assert(text::value_of(seq!['0']) == 0);
        assert(digits.last() == text::decimal(n).last());
    } else {
        text::lemma_decimal(n / 10);
    }
}

/// A pulse is shown with its number first, with `high` or `low` as it was, and with its length
/// last.
pub proof fn law_shown_pulses(index: nat, pulse: Pulse)
    ensures
        text::begins(pulse_line(index, pulse), padded(index)),
        pulse.high ==> text::holds(pulse_line(index, pulse), "level=high "@),
        !pulse.high ==> text::holds(pulse_line(index, pulse), "level=low "@),
        text::ends(
            pulse_line(index, pulse),
            "duration_us="@ + text::decimal(pulse.duration_us as nat),
        ),
{
    reveal_strlit(" level=");
    reveal_strlit("high");
    reveal_strlit("low");
    reveal_strlit(" duration_us=");
    reveal_strlit("duration_us=");
    reveal_strlit("level=high ");
    reveal_strlit("level=low ");
    let number = padded(index);
    let length = text::decimal(pulse.duration_us as nat);
    let line = pulse_line(index, pulse);
    let level = if pulse.high {
        "level=high "@
    } else {
        "level=low "@
    };
    let last = "duration_us="@ + length;
    let head = number + seq![' '];
    assert(" level="@ + (if pulse.high {
        "high"@
    } else {
        "low"@
    }) + " duration_us="@ =~= seq![' '] + level + "duration_us="@);
    assert(line =~= head + level + last);
    text::lemma_holds_between(head, level, last);
    text::lemma_holds_between(head + level, last, seq![]);
    assert(line =~= number + (seq![' '] + level + last));
    text::lemma_holds_between(seq![], number, seq![' '] + level + last);
}

} // verus!
