//! The fan: which speed a temperature asks for, and when a speed is changed.
use crate::clock::{elapsed, Duration, Instant};
use crate::outcome::failure;
use crate::single::{lemma_whole_number, lemma_whole_quotient, whole, Single};
use crate::text;
use vstd::prelude::*;

verus! {

/// The curve when none is configured.
pub const DEFAULT_CURVE: &'static str = "55=10\n60=55\n65=100\n";

/// The slowest speed at which the fan turns reliably.
pub const MIN_RUNNING_PERCENT: u8 = 25;

/// From a temperature on, a speed.
#[derive(Debug, Clone, Copy, PartialEq, Eq, Structural)]
pub struct FanPoint {
    pub temperature_c: Single,
    pub percent: u8,
}

/// The speeds by temperature, the highest temperature first.
#[derive(Debug, Clone, PartialEq, Eq)]
pub struct FanCurve {
    points: Vec<FanPoint>,
}

/// Why a text is no curve.
#[derive(Debug, Clone, PartialEq, Eq)]
pub enum FanConfigError {
    MissingEquals { line: usize },
    /// Not a number from 0 to 100.
    InvalidTemperature { line: usize, value: String },
    /// Not a number from 0 to 100.
    InvalidPercent { line: usize, value: String },
    /// There is no point at all.
    Empty,
}

/// What a [`FanConfigError`] says.
pub enum FanProblem {
    MissingEquals { line: nat },
    InvalidTemperature { line: nat, value: Seq<char> },
    InvalidPercent { line: nat, value: Seq<char> },
    Empty,
}

impl View for FanConfigError {
    type V = FanProblem;

    open spec fn view(&self) -> FanProblem {
        match *self {
            FanConfigError::MissingEquals { line } => FanProblem::MissingEquals {
                line: line as nat,
            },
            FanConfigError::InvalidTemperature { line, value } => FanProblem::InvalidTemperature {
                line: line as nat,
                value: value@,
            },
            FanConfigError::InvalidPercent { line, value } => FanProblem::InvalidPercent {
                line: line as nat,
                value: value@,
            },
            FanConfigError::Empty => FanProblem::Empty,
        }
    }
}

impl View for FanCurve {
    type V = Seq<FanPoint>;

    closed spec fn view(&self) -> Seq<FanPoint> {
        self.points@
    }
}

/// How numbers are read from text.
pub type Reading = spec_fn(Seq<char>) -> Option<Single>;

/// Whether `read` reads numbers the way `reading` says.
pub open spec fn reads_as<R: Fn(&str) -> Option<Single>>(read: R, reading: Reading) -> bool {
    forall|text: &str, number: Option<Single>|
        #[trigger] call_ensures(read, (text,), number) ==> number == reading(text@)
}

/// A number from 0 to 100.
pub open spec fn bounded_number(text: Seq<char>, reading: Reading) -> Option<Single> {
    match reading(text) {
        Some(number) => if number.within_hundred() {
            Some(number)
        } else {
            None
        },
        None => None,
    }
}

/// The whole part of a percentage; one where less than that is asked for, but not nothing.
pub open spec fn percent_of(number: Single) -> u8 {
    if 0 < number.value() < whole(1) {
        1
    } else {
        (number.value() / whole(1)) as u8
    }
}

/// The points after one line, the `line`-th.
pub open spec fn with_point(
    points: Seq<FanPoint>,
    line: nat,
    raw: Seq<char>,
    reading: Reading,
) -> Result<Seq<FanPoint>, FanProblem> {
    let trimmed = text::trimmed(raw);
    if text::is_blank(trimmed) {
        Ok(points)
    } else {
        match text::split_first(trimmed, '=') {
            None => Err(FanProblem::MissingEquals { line }),
            Some((temperature, speed)) => {
                let temperature = text::trimmed(temperature);
                let speed = text::trimmed(speed);
                match (bounded_number(temperature, reading), bounded_number(speed, reading)) {
                    (None, _) => Err(FanProblem::InvalidTemperature { line, value: temperature }),
                    (_, None) => Err(FanProblem::InvalidPercent { line, value: speed }),
                    (Some(temperature_c), Some(speed)) => Ok(
                        points.push(FanPoint { temperature_c, percent: percent_of(speed) }),
                    ),
                }
            },
        }
    }
}

/// The points of the lines, in their order, or the first fault.
pub open spec fn points_of(lines: Seq<Seq<char>>, reading: Reading) -> Result<
    Seq<FanPoint>,
    FanProblem,
>
    decreases lines.len(),
{
    if lines.len() == 0 {
        Ok(seq![])
    } else {
        match points_of(lines.drop_last(), reading) {
            Err(problem) => Err(problem),
            Ok(points) => with_point(points, lines.len(), lines.last(), reading),
        }
    }
}

/// The points with one more, which goes behind those that are not cooler.
pub open spec fn inserted(points: Seq<FanPoint>, point: FanPoint) -> Seq<FanPoint>
    decreases points.len(),
{
    if points.len() > 0 && points.last().temperature_c.rank() < point.temperature_c.rank() {
        inserted(points.drop_last(), point).push(points.last())
    } else {
        points.push(point)
    }
}

/// The points, the hottest first; of equally hot ones, the first stays first.
pub open spec fn descending(points: Seq<FanPoint>) -> Seq<FanPoint>
    decreases points.len(),
{
    if points.len() == 0 {
        seq![]
    } else {
        inserted(descending(points.drop_last()), points.last())
    }
}

/// The curve that a text describes.
pub open spec fn read_curve(input: Seq<char>, reading: Reading) -> Result<
    Seq<FanPoint>,
    FanProblem,
> {
    match points_of(text::lines_of(input), reading) {
        Err(problem) => Err(problem),
        Ok(points) => if points.len() == 0 {
            Err(FanProblem::Empty)
        } else {
            Ok(descending(points))
        },
    }
}

/// Whether the points are a curve: there is one, they are in order, and every number is one from
/// 0 to 100.
pub open spec fn is_curve(points: Seq<FanPoint>) -> bool {
    &&& points.len() > 0
    &&& forall|i: int, j: int|
        0 <= i < j < points.len() ==> (#[trigger] points[i]).temperature_c.rank() >= (
        #[trigger] points[j]).temperature_c.rank()
    &&& forall|i: int| 0 <= i < points.len() ==> plausible(#[trigger] points[i])
}

/// Whether the temperature and the speed are from 0 to 100.
pub open spec fn plausible(point: FanPoint) -> bool {
    point.temperature_c.within_hundred() && point.percent <= 100
}

/// A speed that makes the fan turn, or none.
pub open spec fn running(percent: u8) -> u8 {
    if 0 < percent < MIN_RUNNING_PERCENT {
        MIN_RUNNING_PERCENT
    } else {
        percent
    }
}

/// The speed of the first point that the temperature reaches; none when it reaches no point.
pub open spec fn speed_at(points: Seq<FanPoint>, temperature_c: Single) -> u8
    decreases points.len(),
{
    if points.len() == 0 {
        0
    } else if temperature_c.reaches(points[0].temperature_c) {
        running(points[0].percent)
    } else {
        speed_at(points.drop_first(), temperature_c)
    }
}

/// The default curve, in order.
pub open spec fn fallback_points() -> Seq<FanPoint> {
    seq![
        FanPoint { temperature_c: Single { bits: 0x4282_0000 }, percent: 100 },
        FanPoint { temperature_c: Single { bits: 0x4270_0000 }, percent: 55 },
        FanPoint { temperature_c: Single { bits: 0x425c_0000 }, percent: 10 },
    ]
}

/// The curve that is used with a configuration, if there is one.
pub open spec fn curve_in_force(input: Option<Seq<char>>, reading: Reading) -> Seq<FanPoint> {
    match input {
        Some(input) => match read_curve(input, reading) {
            Ok(points) => points,
            Err(_) => fallback_points(),
        },
        None => fallback_points(),
    }
}

/// A fault among the first lines is the fault of the text.
proof fn lemma_first_fault(lines: Seq<Seq<char>>, reading: Reading, n: int)
    requires
        0 <= n <= lines.len(),
        points_of(lines.take(n), reading) is Err,
    ensures
        points_of(lines, reading) == points_of(lines.take(n), reading),
    decreases lines.len(),
{
    if n == lines.len() {
        assert(lines.take(n) == lines);
    } else {
        assert(lines.drop_last().take(n) == lines.take(n));
        lemma_first_fault(lines.drop_last(), reading, n);
    }
}

/// The number from 0 to 100 that `read` reads from `text`.
fn read_bounded<R: Fn(&str) -> Option<Single>>(text: &[char], read: &R) -> (r: Option<Single>)
    requires
        forall|text: &str| call_requires(*read, (text,)),
    ensures
        r matches Some(number) ==> number.within_hundred(),
        forall|reading: Reading|
            #[trigger] reads_as(*read, reading) ==> r == bounded_number(text@, reading),
{
    let string = text::to_text(text);
    let number = read(string.as_str());
    match number {
        Some(number) => if number.is_within_hundred() {
            Some(number)
        } else {
            None
        },
        None => None,
    }
}

/// The percentage that a number from 0 to 100 asks for.
fn whole_percent(number: Single) -> (r: u8)
    requires
        number.within_hundred(),
    ensures
        r == percent_of(number),
{
    let percent = number.whole_part();
    proof {
        vstd::arithmetic::power2::lemma_pow2_pos(149);
        if number.value() < whole(1) {
            vstd::arithmetic::div_mod::lemma_basic_div(number.value(), whole(1));
        } else {
            vstd::arithmetic::div_mod::lemma_div_is_ordered(whole(1), number.value(), whole(1));
            lemma_whole_quotient(1);
        }
    }
    if percent == 0 && number.is_positive() {
        1
    } else {
        percent
    }
}

/// The points with what a line gives.
pub open spec fn continued(
    points: Seq<FanPoint>,
    r: Result<Option<FanPoint>, FanConfigError>,
) -> Result<Seq<FanPoint>, FanProblem> {
    match r {
        Ok(None) => Ok(points),
        Ok(Some(point)) => Ok(points.push(point)),
        Err(error) => Err(error@),
    }
}

/// The point of the `line`-th line, if it has one.
fn read_point<R: Fn(&str) -> Option<Single>>(line: usize, raw: &[char], read: &R) -> (r: Result<
    Option<FanPoint>,
    FanConfigError,
>)
    requires
        forall|text: &str| call_requires(*read, (text,)),
    ensures
        forall|points: Seq<FanPoint>, reading: Reading|
            reads_as(*read, reading) ==> #[trigger] with_point(points, line as nat, raw@, reading)
                == continued(points, r),
{
    let trimmed = text::trim(raw);
    if text::says_nothing(trimmed) {
        return Ok(None);
    }
    match text::split_once(trimmed, '=') {
        None => Err(FanConfigError::MissingEquals { line }),
        Some((temperature, speed)) => {
            let temperature = text::trim(temperature);
            let speed = text::trim(speed);
            let temperature_c = match read_bounded(temperature, read) {
                Some(number) => number,
                None => {
                    return Err(
                        FanConfigError::InvalidTemperature {
                            line,
                            value: text::to_text(temperature),
                        },
                    );
                },
            };
            match read_bounded(speed, read) {
                Some(number) => {
                    Ok(Some(FanPoint { temperature_c, percent: whole_percent(number) }))
                },
                None => Err(FanConfigError::InvalidPercent { line, value: text::to_text(speed) }),
            }
        },
    }
}

/// Puts a point behind those that are not cooler.
fn insert(points: &mut Vec<FanPoint>, point: FanPoint)
    ensures
        final(points)@ == inserted(old(points)@, point),
{
    let ghost start = points@;
    let mut place = points.len();
    assert(start.take(place as int) =~= start);
    assert(start.skip(place as int) =~= Seq::empty());
    while place > 0 && points[place - 1].temperature_c.precedes(point.temperature_c)
        invariant
            points@ == start,
            place <= start.len(),
            inserted(start, point) == inserted(start.take(place as int), point) + start.skip(
                place as int,
            ),
        decreases place,
    {
        proof {
            let head = start.take(place as int);
            assert(head.drop_last() =~= start.take(place - 1));
            assert(seq![head.last()] + start.skip(place as int) =~= start.skip(place - 1));
            assert(inserted(head.drop_last(), point).push(head.last()) + start.skip(place as int)
                =~= inserted(head.drop_last(), point) + start.skip(place - 1));
        }
        place -= 1;
    }
    points.insert(place, point);
    assert(points@ =~= start.take(place as int).push(point) + start.skip(place as int));
}

/// The points, the hottest first.
fn sort(points: &Vec<FanPoint>) -> (r: Vec<FanPoint>)
    ensures
        r@ == descending(points@),
{
    let mut sorted: Vec<FanPoint> = Vec::new();
    let mut i: usize = 0;
    assert(points@.take(0) =~= Seq::empty());
    while i < points.len()
        invariant
            i <= points@.len(),
            sorted@ == descending(points@.take(i as int)),
        decreases points@.len() - i,
    {
        assert(points@.take(i + 1).drop_last() =~= points@.take(i as int));
        insert(&mut sorted, points[i]);
        i += 1;
    }
    assert(points@.take(i as int) =~= points@);
    sorted
}

/// The outcome of reading a curve.
pub open spec fn outcome(r: Result<FanCurve, FanConfigError>) -> Result<Seq<FanPoint>, FanProblem> {
    match r {
        Ok(curve) => Ok(curve@),
        Err(error) => Err(error@),
    }
}

impl FanCurve {
    /// Reads a curve: lines of the form `temperature=speed`. `read` reads a number.
    pub fn parse<R: Fn(&str) -> Option<Single>>(input: &str, read: R) -> (r: Result<
        FanCurve,
        FanConfigError,
    >)
        requires
            forall|text: &str| call_requires(read, (text,)),
        ensures
            forall|reading: Reading|
                #[trigger] reads_as(read, reading) ==> outcome(r) == read_curve(input@, reading),
    {
        let chars = text::to_chars(input);
        let lines = text::lines(chars.as_slice());
        let ghost rows = text::views(lines@);
        let mut points: Vec<FanPoint> = Vec::new();
        let mut index: usize = 0;
        assert(rows.take(0) =~= Seq::empty());
        while index < lines.len()
            invariant
                forall|text: &str| call_requires(read, (text,)),
                rows == text::views(lines@),
                rows == text::lines_of(input@),
                index <= lines@.len(),
                forall|reading: Reading|
                    #[trigger] reads_as(read, reading) ==> points_of(
                        rows.take(index as int),
                        reading,
                    ) == Ok::<Seq<FanPoint>, FanProblem>(points@),
            decreases lines@.len() - index,
        {
            let ghost next = rows.take(index + 1);
            assert(next.drop_last() == rows.take(index as int));
            assert(next.last() == lines@[index as int]@);
            let read_line = read_point(index + 1, lines[index], &read);
            assert forall|reading: Reading| #[trigger] reads_as(read, reading) implies points_of(
                next,
                reading,
            ) == continued(points@, read_line) by {
                assert(with_point(points@, next.len(), next.last(), reading) == continued(
                    points@,
                    read_line,
                ));
            }
            match read_line {
                Ok(Some(point)) => {
                    points.push(point);
                },
                Ok(None) => {},
                Err(error) => {
                    assert forall|reading: Reading| #[trigger] reads_as(read, reading) implies Err::<
                        Seq<FanPoint>,
                        FanProblem,
                    >(error@) == read_curve(input@, reading) by {
                        lemma_first_fault(rows, reading, index + 1);
                    }
                    return Err(error);
                },
            }
            index += 1;
        }
        assert(rows.take(index as int) == rows);
        if points.len() == 0 {
            return Err(FanConfigError::Empty);
        }
        Ok(FanCurve { points: sort(&points) })
    }

    /// The default curve.
    pub fn fallback() -> (r: FanCurve)
        ensures
            r@ == fallback_points(),
    {
        let mut points: Vec<FanPoint> = Vec::new();
        points.push(FanPoint { temperature_c: Single { bits: 0x4282_0000 }, percent: 100 });
        points.push(FanPoint { temperature_c: Single { bits: 0x4270_0000 }, percent: 55 });
        points.push(FanPoint { temperature_c: Single { bits: 0x425c_0000 }, percent: 10 });
        assert(points@ =~= fallback_points());
        FanCurve { points }
    }

    /// The curve that is used with this configuration, if there is one: what it says, and the
    /// default curve where it is missing or at fault. The fault is told as well.
    pub fn in_force<R: Fn(&str) -> Option<Single>>(input: Option<&str>, read: R) -> (r: (
        FanCurve,
        Option<FanConfigError>,
    ))
        requires
            forall|text: &str| call_requires(read, (text,)),
        ensures
            input is None ==> r.0@ == fallback_points() && r.1 is None,
            forall|reading: Reading|
                #[trigger] reads_as(read, reading) ==> r.0@ == curve_in_force(
                    match input {
                        Some(input) => Some(input@),
                        None => None,
                    },
                    reading,
                ),
            input matches Some(input) ==> forall|reading: Reading|
                #[trigger] reads_as(read, reading) ==> match read_curve(input@, reading) {
                    Ok(points) => r.0@ == points && r.1 is None,
                    Err(problem) => r.0@ == fallback_points() && (r.1 matches Some(error) && error@
                        == problem),
                },
    {
        match input {
            Some(input) => match FanCurve::parse(input, read) {
                Ok(curve) => (curve, None),
                Err(error) => (FanCurve::fallback(), Some(error)),
            },
            None => (FanCurve::fallback(), None),
        }
    }

    pub fn points(&self) -> (r: &[FanPoint])
        ensures
            r@ == self@,
    {
        self.points.as_slice()
    }

    /// The speed that the temperature asks for.
    pub fn speed_for(&self, temperature_c: Single) -> (r: u8)
        ensures
            r == speed_at(self@, temperature_c),
    {
        let mut i: usize = 0;
        assert(self@.skip(0) =~= self@);
        while i < self.points.len()
            invariant
                i <= self.points@.len(),
                speed_at(self@, temperature_c) == speed_at(self@.skip(i as int), temperature_c),
            decreases self.points@.len() - i,
        {
            let point = self.points[i];
            assert(self@.skip(i as int).drop_first() =~= self@.skip(i + 1));
            if temperature_c.at_least(point.temperature_c) {
                return if point.percent > 0 && point.percent < MIN_RUNNING_PERCENT {
                    MIN_RUNNING_PERCENT
                } else {
                    point.percent
                };
            }
            i += 1;
        }
        0
    }
}

/// Where fan speeds go.
pub trait FanOutput: Sized {
    type Error;

    /// Whether setting the speed can take the output from one state to the other, with this error
    /// where it fails; any, where an implementation does not say.
    open spec fn applied(
        before: Self,
        percent: u8,
        after: Self,
        error: Option<Self::Error>,
    ) -> bool {
        true
    }

    fn set_percent(&mut self, percent: u8) -> (r: Result<(), Self::Error>)
        ensures
            Self::applied(*old(self), percent, *final(self), failure(r)),
    ;
}

/// Decides when the speed of the fan changes.
#[derive(Debug)]
pub struct FanPolicy {
    current_percent: u8,
    pending_downshift: Option<(u8, Instant)>,
    downshift_delay: Duration,
}

/// What to do about the speed of the fan.
#[derive(Debug, Clone, Copy, PartialEq, Eq, Structural)]
pub enum FanDecision {
    Unchanged,
    /// Set the speed; a fan that stands still is given a kick first.
    Apply { percent: u8, spin_up: bool },
    /// Wait before slowing down.
    DownshiftPending { percent: u8, remaining: Duration },
}

/// What a [`FanPolicy`] knows: the speed that was set last, the slower speed that is waited for
/// and since when, and how long to wait.
pub struct PolicyState {
    pub current: u8,
    pub pending: Option<(u8, Instant)>,
    pub delay: Duration,
}

impl View for FanPolicy {
    type V = PolicyState;

    closed spec fn view(&self) -> PolicyState {
        PolicyState {
            current: self.current_percent,
            pending: self.pending_downshift,
            delay: self.downshift_delay,
        }
    }
}

impl PolicyState {
    /// Since when the slower speed `desired` has been asked for without interruption.
    pub open spec fn since(self, desired: u8, now: Instant) -> Instant {
        match self.pending {
            Some((percent, since)) => if percent == desired {
                since
            } else {
                now
            },
            None => now,
        }
    }

    /// Whether the wait for the slower speed `desired` is over. One that is first asked for now is
    /// waited for in any case.
    pub open spec fn settled(self, desired: u8, now: Instant) -> bool {
        self.pending matches Some((percent, since)) && percent == desired && elapsed(since, now)
            >= self.delay.nanos
    }

    /// What is done when `desired` is asked for.
    pub open spec fn decision(self, desired: u8, now: Instant) -> FanDecision {
        if desired == self.current {
            FanDecision::Unchanged
        } else if desired > self.current {
            FanDecision::Apply { percent: desired, spin_up: self.current == 0 }
        } else if self.settled(desired, now) {
            FanDecision::Apply { percent: desired, spin_up: false }
        } else {
            FanDecision::DownshiftPending {
                percent: desired,
                remaining: Duration {
                    nanos: (self.delay.nanos - elapsed(self.since(desired, now), now)) as u128,
                },
            }
        }
    }

    /// What is known once `desired` was asked for.
    pub open spec fn asked(self, desired: u8, now: Instant) -> PolicyState {
        PolicyState {
            pending: if desired < self.current && !self.settled(desired, now) {
                Some((desired, self.since(desired, now)))
            } else {
                None
            },
            ..self
        }
    }

    /// What is known once a speed was set.
    pub open spec fn committed(self, percent: u8) -> PolicyState {
        PolicyState { current: percent, ..self }
    }
}

impl FanPolicy {
    pub fn new(initial_percent: u8, downshift_delay: Duration) -> (r: Self)
        ensures
            r@ == (PolicyState { current: initial_percent, pending: None, delay: downshift_delay }),
    {
        FanPolicy { current_percent: initial_percent, pending_downshift: None, downshift_delay }
    }

    pub fn current_percent(&self) -> (r: u8)
        ensures
            r == self@.current,
    {
        self.current_percent
    }

    /// Decides what to do when `desired` is asked for.
    pub fn evaluate(&mut self, desired: u8, now: Instant) -> (r: FanDecision)
        ensures
            r == old(self)@.decision(desired, now),
            final(self)@ == old(self)@.asked(desired, now),
    {
        if desired == self.current_percent {
            self.pending_downshift = None;
            return FanDecision::Unchanged;
        }
        if desired > self.current_percent {
            let spin_up = self.current_percent == 0;
            self.pending_downshift = None;
            return FanDecision::Apply { percent: desired, spin_up };
        }
        match self.pending_downshift {
            Some((percent, since)) => {
                if percent == desired {
                    let waited = now.saturating_duration_since(since);
                    if waited.nanos >= self.downshift_delay.nanos {
                        self.pending_downshift = None;
                        return FanDecision::Apply { percent: desired, spin_up: false };
                    }
                    return FanDecision::DownshiftPending {
                        percent: desired,
                        remaining: Duration { nanos: self.downshift_delay.nanos - waited.nanos },
                    };
                }
            },
            None => {},
        }
        self.pending_downshift = Some((desired, now));
        FanDecision::DownshiftPending { percent: desired, remaining: self.downshift_delay }
    }

    /// Records a speed once it was set.
    pub fn commit(&mut self, percent: u8)
        ensures
            final(self)@ == old(self)@.committed(percent),
    {
        self.current_percent = percent;
    }
}

/// How long a fan that stands still is given full speed.
pub open spec fn kick_time() -> Duration {
    Duration { nanos: 1_000_000_000 }
}

/// Whether the decision asks for a kick.
pub open spec fn kicks(decision: FanDecision) -> bool {
    decision matches FanDecision::Apply { percent, spin_up } && spin_up && percent > 0
}

/// Begins to carry out a decision: a kick sets full speed. The result tells how long to wait
/// before the change is finished.
pub fn start_change<O: FanOutput>(output: &mut O, decision: FanDecision) -> (r: Result<
    Option<Duration>,
    O::Error,
>)
    ensures
        kicks(decision) ==> O::applied(*old(output), 100, *final(output), failure(r)),
        !kicks(decision) ==> r is Ok && *final(output) == *old(output),
        r matches Ok(wait) ==> wait == (if kicks(decision) {
            Some(kick_time())
        } else {
            None
        }),
{
    match decision {
        FanDecision::Apply { percent, spin_up } => {
            if spin_up && percent > 0 {
                match output.set_percent(100) {
                    Ok(()) => Ok(Some(Duration::from_secs(1))),
                    Err(error) => Err(error),
                }
            } else {
                Ok(None)
            }
        },
        _ => Ok(None),
    }
}

/// Whether the speed of the decision was set, and nothing where it asks for none.
pub open spec fn finished<O: FanOutput>(
    before: O,
    decision: FanDecision,
    after: O,
    error: Option<O::Error>,
) -> bool {
    match decision {
        FanDecision::Apply { percent, .. } => O::applied(before, percent, after, error),
        _ => error is None && after == before,
    }
}

/// Finishes carrying out a decision: sets the speed.
pub fn finish_change<O: FanOutput>(output: &mut O, decision: FanDecision) -> (r: Result<
    (),
    O::Error,
>)
    ensures
        finished(*old(output), decision, *final(output), failure(r)),
{
    match decision {
        FanDecision::Apply { percent, .. } => output.set_percent(percent),
        _ => Ok(()),
    }
}

/// Whether the decision was carried out: a kick sets full speed, then `sleep` takes its time with
/// the output as the kick left it, and only then the speed is set. When the kick fails nothing
/// else is done. `error` is that of the speed that could not be set.
pub open spec fn carried_out<O: FanOutput, S: FnOnce(Duration, &O)>(
    before: O,
    decision: FanDecision,
    sleep: S,
    after: O,
    error: Option<O::Error>,
) -> bool {
    if kicks(decision) {
        ||| error is Some && O::applied(before, 100, after, error)
        ||| exists|kicked: O|
            {
                &&& O::applied(before, 100, kicked, None)
                &&& call_ensures(sleep, (kick_time(), &kicked), ())
                &&& #[trigger] finished(kicked, decision, after, error)
            }
    } else {
        finished(before, decision, after, error)
    }
}

/// Whether `sleep` may be called where a kick has just set full speed, and need not be callable
/// anywhere else.
pub open spec fn sleeps_behind_kick<O: FanOutput, S: FnOnce(Duration, &O)>(
    before: O,
    decision: FanDecision,
    sleep: S,
) -> bool {
    forall|kicked: O|
        kicks(decision) && #[trigger] O::applied(before, 100, kicked, None) ==> call_requires(
            sleep,
            (kick_time(), &kicked),
        )
}

/// Carries out a decision. A kick lasts as long as `sleep` takes for a second; `sleep` is called
/// at most once, between the two speeds, and not at all without a kick.
pub fn apply_decision<O, S>(output: &mut O, decision: FanDecision, sleep: S) -> (r: Result<
    (),
    O::Error,
>) where O: FanOutput, S: FnOnce(Duration, &O)
    requires
        sleeps_behind_kick(*old(output), decision, sleep),
    ensures
        carried_out(*old(output), decision, sleep, *final(output), failure(r)),
{
    match start_change(output, decision) {
        Ok(Some(wait)) => {
            assert(O::applied(*old(output), 100, *output, None));
            sleep(wait, output);
        },
        Ok(None) => {},
        Err(error) => {
            return Err(error);
        },
    }
    finish_change(output, decision)
}

/// A slower speed is set no sooner than it has been asked for the whole delay without
/// interruption, and then at once; until then the fan keeps its speed.
pub proof fn law_downshift_waits(
    state: PolicyState,
    desired: u8,
    first: Instant,
    later: Instant,
)
    requires
        desired < state.current,
        state.pending is None,
    ensures
        state.decision(desired, first) == (FanDecision::DownshiftPending {
            percent: desired,
            remaining: state.delay,
        }),
        elapsed(first, later) >= state.delay.nanos ==> state.asked(desired, first).decision(
            desired,
            later,
        ) == (FanDecision::Apply { percent: desired, spin_up: false }),
        elapsed(first, later) < state.delay.nanos ==> state.asked(desired, first).decision(
            desired,
            later,
        ) is DownshiftPending && state.asked(desired, first).asked(desired, later) == state.asked(
            desired,
            first,
        ),
{
    assert(elapsed(first, first) == 0);
}

/// A wait for a slower speed starts over when anything else was asked for in between.
pub proof fn law_interruption_restarts_wait(
    state: PolicyState,
    other: u8,
    between: Instant,
    desired: u8,
    later: Instant,
)
    requires
        desired < state.current,
        other != desired,
    ensures
        state.asked(other, between).decision(desired, later) == (FanDecision::DownshiftPending {
            percent: desired,
            remaining: state.delay,
        }),
{
    assert(elapsed(later, later) == 0);
}

/// A faster speed is set at once, and as long as no speed is recorded it is set again.
pub proof fn law_upshift_repeats_until_committed(
    state: PolicyState,
    desired: u8,
    first: Instant,
    later: Instant,
)
    requires
        desired > state.current,
    ensures
        state.decision(desired, first) == (FanDecision::Apply {
            percent: desired,
            spin_up: state.current == 0,
        }),
        state.asked(desired, first).decision(desired, later) == state.decision(desired, first),
        state.asked(desired, first).committed(desired).decision(desired, later)
            == FanDecision::Unchanged,
{
}

/// What [`inserted`] keeps.
proof fn lemma_inserted(points: Seq<FanPoint>, point: FanPoint)
    requires
        points.len() > 0 ==> is_curve(points),
        plausible(point),
    ensures
        is_curve(inserted(points, point)),
        inserted(points, point).to_multiset() == points.to_multiset().insert(point),
        inserted(points, point).len() == points.len() + 1,
        inserted(points, point)[0].temperature_c.rank() >= point.temperature_c.rank(),
        inserted(points, point).last() == point || (points.len() > 0 && inserted(
            points,
            point,
        ).last() == points.last()),
    decreases points.len(),
{
    broadcast use vstd::seq_lib::group_to_multiset_ensures;

    if points.len() > 0 && points.last().temperature_c.rank() < point.temperature_c.rank() {
        let head = points.drop_last();
        lemma_inserted(head, point);
        let placed = inserted(head, point);
        assert(head.push(points.last()) =~= points);
        let all = placed.push(points.last());
        assert forall|i: int, j: int| 0 <= i < j < all.len() implies (
        #[trigger] all[i]).temperature_c.rank() >= (#[trigger] all[j]).temperature_c.rank() by {
            if j == placed.len() {
                assert(placed[i].temperature_c.rank() >= placed.last().temperature_c.rank());
            }
        }
    }
}

/// The points of one place in the order of temperatures.
pub open spec fn at_rank(points: Seq<FanPoint>, rank: int) -> Seq<FanPoint> {
    points.filter(|point: FanPoint| point.temperature_c.rank() == rank)
}

/// The points of one place with one more point at the end.
proof fn lemma_at_rank_push(points: Seq<FanPoint>, point: FanPoint, rank: int)
    ensures
        at_rank(points.push(point), rank) == (if point.temperature_c.rank() == rank {
            at_rank(points, rank).push(point)
        } else {
            at_rank(points, rank)
        }),
{
    reveal(Seq::filter);
    assert(points.push(point).drop_last() =~= points);
}

/// One more point comes behind the others of its place.
proof fn lemma_inserted_behind(points: Seq<FanPoint>, point: FanPoint, rank: int)
    ensures
        at_rank(inserted(points, point), rank) == at_rank(points.push(point), rank),
    decreases points.len(),
{
    if points.len() > 0 && points.last().temperature_c.rank() < point.temperature_c.rank() {
        let head = points.drop_last();
        lemma_inserted_behind(head, point, rank);
        lemma_at_rank_push(inserted(head, point), points.last(), rank);
        lemma_at_rank_push(head, point, rank);
        lemma_at_rank_push(head, points.last(), rank);
        lemma_at_rank_push(points, point, rank);
        assert(head.push(points.last()) =~= points);
    }
}

/// Sorting keeps the order of the points of one place.
proof fn lemma_descending_keeps_order(points: Seq<FanPoint>, rank: int)
    ensures
        at_rank(descending(points), rank) == at_rank(points, rank),
    decreases points.len(),
{
    if points.len() > 0 {
        let head = points.drop_last();
        lemma_descending_keeps_order(head, rank);
        lemma_inserted_behind(descending(head), points.last(), rank);
        lemma_at_rank_push(descending(head), points.last(), rank);
        lemma_at_rank_push(head, points.last(), rank);
        assert(head.push(points.last()) =~= points);
    } else {
        assert(descending(points) =~= points);
    }
}

/// A curve that was read is in order, its numbers are from 0 to 100, its points are those of the
/// text, and points of one temperature keep the order of the text.
pub proof fn law_curve_is_ordered(input: Seq<char>, reading: Reading)
    ensures
        read_curve(input, reading) matches Ok(curve) ==> {
            &&& is_curve(curve)
            &&& points_of(text::lines_of(input), reading) matches Ok(points) && curve.to_multiset()
                == points.to_multiset() && forall|rank: int|
                #[trigger] at_rank(curve, rank) == at_rank(points, rank)
        },
{
    let lines = text::lines_of(input);
    lemma_points_plausible(lines, reading);
    if let Ok(points) = points_of(lines, reading) {
        lemma_descending(points);
        assert forall|rank: int| #[trigger] at_rank(descending(points), rank) == at_rank(
            points,
            rank,
        ) by {
            lemma_descending_keeps_order(points, rank);
        }
    }
}

proof fn lemma_points_plausible(lines: Seq<Seq<char>>, reading: Reading)
    ensures
        points_of(lines, reading) matches Ok(points) ==> forall|i: int|
            0 <= i < points.len() ==> plausible(#[trigger] points[i]),
    decreases lines.len(),
{
    if lines.len() > 0 {
        lemma_points_plausible(lines.drop_last(), reading);
        lemma_percents();
    }
}

/// The whole part of a number from 0 to 100 is one from 0 to 100.
proof fn lemma_percents()
    ensures
        forall|number: Single|
            number.within_hundred() ==> 0 <= #[trigger] (number.value() / whole(1)) <= 100,
{
    vstd::arithmetic::power2::lemma_pow2_pos(149);
    assert forall|number: Single| number.within_hundred() implies 0 <= #[trigger] (number.value()
        / whole(1)) <= 100 by {
        vstd::arithmetic::div_mod::lemma_div_is_ordered(number.value(), whole(100), whole(1));
        vstd::arithmetic::div_mod::lemma_div_multiples_vanish(100, whole(1));
        vstd::arithmetic::div_mod::lemma_div_pos_is_pos(number.value(), whole(1));
    }
}

proof fn lemma_descending(points: Seq<FanPoint>)
    requires
        forall|i: int| 0 <= i < points.len() ==> plausible(#[trigger] points[i]),
    ensures
        points.len() > 0 ==> is_curve(descending(points)),
        descending(points).len() == points.len(),
        descending(points).to_multiset() == points.to_multiset(),
    decreases points.len(),
{
    broadcast use vstd::seq_lib::group_to_multiset_ensures;

    if points.len() > 0 {
        lemma_descending(points.drop_last());
        lemma_inserted(descending(points.drop_last()), points.last());
        assert(points.drop_last().push(points.last()) =~= points);
    } else {
        assert(descending(points) =~= points);
    }
}

/// A point whose configured number is above zero never leaves the fan standing still: where the
/// temperature reaches it and no point before it, the speed is one at which the fan turns.
pub proof fn law_configured_speed_turns_the_fan(
    points: Seq<FanPoint>,
    n: int,
    number: Single,
    temperature_c: Single,
)
    requires
        0 <= n < points.len(),
        number.within_hundred(),
        number.value() > 0,
        points[n].percent == percent_of(number),
        temperature_c.reaches(points[n].temperature_c),
        forall|i: int|
            0 <= i < n ==> !temperature_c.reaches((#[trigger] points[i]).temperature_c),
    ensures
        MIN_RUNNING_PERCENT <= speed_at(points, temperature_c) <= 100,
    decreases n,
{
    if n > 0 {
        let rest = points.drop_first();
        assert(!temperature_c.reaches(points[0].temperature_c));
        assert forall|i: int| 0 <= i < n - 1 implies !temperature_c.reaches(
            (#[trigger] rest[i]).temperature_c,
        ) by {
            assert(rest[i] == points[i + 1]);
        }
        assert(rest[n - 1] == points[n]);
        law_configured_speed_turns_the_fan(rest, n - 1, number, temperature_c);
    } else {
        lemma_percents();
        vstd::arithmetic::power2::lemma_pow2_pos(149);
        if number.value() >= whole(1) {
            vstd::arithmetic::div_mod::lemma_div_is_ordered(whole(1), number.value(), whole(1));
            lemma_whole_quotient(1);
        }
        assert(0 <= number.value() / whole(1) <= 100);
    }
}

/// A curve never asks for a speed at which the fan would not turn, and for none above 100.
pub proof fn law_speeds_turn_the_fan(points: Seq<FanPoint>, temperature_c: Single)
    requires
        is_curve(points),
    ensures
        ({
            let speed = speed_at(points, temperature_c);
            speed == 0 || MIN_RUNNING_PERCENT <= speed <= 100
        }),
    decreases points.len(),
{
    let rest = points.drop_first();
    if rest.len() > 0 {
        lemma_rest_is_curve(points);
        law_speeds_turn_the_fan(rest, temperature_c);
    } else {
        assert(speed_at(rest, temperature_c) == 0);
    }
}

/// What is left of a curve without its hottest point.
proof fn lemma_rest_is_curve(points: Seq<FanPoint>)
    requires
        is_curve(points),
        points.len() > 1,
    ensures
        is_curve(points.drop_first()),
{
    let rest = points.drop_first();
    assert forall|i: int, j: int| 0 <= i < j < rest.len() implies (
    #[trigger] rest[i]).temperature_c.rank() >= (#[trigger] rest[j]).temperature_c.rank() by {
        assert(rest[i] == points[i + 1] && rest[j] == points[j + 1]);
    }
}

/// Whether the temperature reaches the `i`-th point.
pub open spec fn reached(points: Seq<FanPoint>, i: int, temperature_c: Single) -> bool {
    0 <= i < points.len() && temperature_c.reaches(points[i].temperature_c)
}

/// Whether the temperature reaches the `n`-th point and no hotter one.
pub open spec fn hottest_reached(points: Seq<FanPoint>, n: int, temperature_c: Single) -> bool {
    &&& reached(points, n, temperature_c)
    &&& forall|i: int|
        #[trigger] reached(points, i, temperature_c) ==> points[i].temperature_c.rank()
            <= points[n].temperature_c.rank()
}

/// The speed is that of the hottest point that the temperature reaches; below all points the fan
/// stands still.
pub proof fn law_speed_of_hottest_point(points: Seq<FanPoint>, temperature_c: Single)
    requires
        is_curve(points),
    ensures
        (exists|i: int| reached(points, i, temperature_c)) ==> exists|n: int|
            hottest_reached(points, n, temperature_c) && speed_at(points, temperature_c) == running(
                #[trigger] points[n].percent,
            ),
        !(exists|i: int| reached(points, i, temperature_c)) ==> speed_at(points, temperature_c)
            == 0,
    decreases points.len(),
{
    let rest = points.drop_first();
    if reached(points, 0, temperature_c) {
        assert(hottest_reached(points, 0, temperature_c));
    } else if rest.len() > 0 {
        lemma_rest_is_curve(points);
        law_speed_of_hottest_point(rest, temperature_c);
        assert forall|i: int| #[trigger] reached(points, i, temperature_c) implies reached(
            rest,
            i - 1,
            temperature_c,
        ) by {
        }
        if exists|i: int| reached(points, i, temperature_c) {
            let i = choose|i: int| reached(points, i, temperature_c);
            assert(reached(rest, i - 1, temperature_c));
            let n = choose|n: int|
                hottest_reached(rest, n, temperature_c) && speed_at(rest, temperature_c)
                    == running(#[trigger] rest[n].percent);
            assert(hottest_reached(points, n + 1, temperature_c));
            assert(points[n + 1].percent == rest[n].percent);
        } else {
            assert forall|i: int| !#[trigger] reached(rest, i, temperature_c) by {
                assert(!reached(points, i + 1, temperature_c));
            }
        }
    } else {
        assert(speed_at(rest, temperature_c) == 0);
        assert(speed_at(points, temperature_c) == 0);
    }
}

/// A line with a temperature and a speed.
proof fn lemma_pair_line(
    points: Seq<FanPoint>,
    line: nat,
    temperature: Seq<char>,
    speed: Seq<char>,
    reading: Reading,
    temperature_c: Single,
    n: int,
)
    requires
        text::is_word(temperature),
        text::is_word(speed),
        text::free_of(temperature, '='),
        temperature[0] != '#',
        reading(temperature) == Some(temperature_c),
        temperature_c.within_hundred(),
        reading(speed) matches Some(number) && number.finite() && number.value() == whole(n),
        0 <= n <= 100,
    ensures
        with_point(points, line, temperature + seq!['='] + speed, reading) == Ok::<
            Seq<FanPoint>,
            FanProblem,
        >(points.push(FanPoint { temperature_c, percent: n as u8 })),
{
    let all = temperature + seq!['='] + speed;
    assert(all[0] == temperature[0] && all.last() == speed.last());
    assert(!text::is_space(temperature[0]) && !text::is_space(temperature.last()));
    assert(!text::is_space(speed[0]) && !text::is_space(speed.last()));
    text::lemma_trimmed(all);
    text::lemma_piece(temperature, '=', speed);
    text::lemma_trimmed(temperature);
    text::lemma_trimmed(speed);
    lemma_whole_quotient(n);
    lemma_whole_in_order(n);
}

proof fn lemma_whole_in_order(n: int)
    requires
        0 <= n <= 100,
    ensures
        0 <= whole(n) <= whole(100),
        n > 0 ==> whole(1) <= whole(n),
        n == 0 ==> whole(n) == 0,
{
    vstd::arithmetic::power2::lemma_pow2_pos(149);
    let unit = vstd::arithmetic::power2::pow2(149) as int;
    assert(0 <= n * unit <= 100 * unit) by (nonlinear_arith)
        requires
            0 <= n <= 100,
            unit > 0,
    ;
    assert(n > 0 ==> unit <= n * unit) by (nonlinear_arith)
        requires
            unit > 0,
    ;
}

/// A line of the default text.
spec fn pair_line(temperature: Seq<char>, speed: Seq<char>) -> Seq<char> {
    temperature + seq!['='] + speed
}

/// The lines of the default text.
proof fn lemma_default_lines()
    ensures
        text::lines_of(DEFAULT_CURVE@) == seq![
            pair_line("55"@, "10"@),
            pair_line("60"@, "55"@),
            pair_line("65"@, "100"@),
        ],
{
    reveal_strlit("55=10\n60=55\n65=100\n");
    reveal_strlit("10");
    reveal_strlit("55");
    reveal_strlit("60");
    reveal_strlit("65");
    reveal_strlit("100");
    let first = pair_line("55"@, "10"@);
    let second = pair_line("60"@, "55"@);
    let third = pair_line("65"@, "100"@);
    let last = third + seq!['\n'] + Seq::empty();
    let tail = second + seq!['\n'] + last;
    assert(DEFAULT_CURVE@ =~= first + seq!['\n'] + tail);
    text::lemma_line(first, tail);
    text::lemma_line(second, last);
    text::lemma_line(third, Seq::empty());
    assert(text::lines_of(Seq::empty()) =~= Seq::empty());
    assert(text::lines_of(DEFAULT_CURVE@) =~= seq![first, second, third]);
}

/// Three points in rising order.
proof fn lemma_three_descending(a: FanPoint, b: FanPoint, c: FanPoint)
    requires
        a.temperature_c.rank() < b.temperature_c.rank() < c.temperature_c.rank(),
    ensures
        descending(seq![a, b, c]) == seq![c, b, a],
{
    let none = Seq::<FanPoint>::empty();
    assert(seq![a].drop_last() =~= none);
    assert(descending(none) =~= none);
    assert(descending(seq![a]) =~= seq![a]);
    assert(inserted(none, b) =~= seq![b]);
    assert(inserted(seq![a], b) =~= seq![b, a]);
    assert(seq![a, b].drop_last() =~= seq![a]);
    assert(descending(seq![a, b]) == seq![b, a]);
    assert(seq![b].drop_last() =~= none);
    assert(inserted(none, c) =~= seq![c]);
    assert(inserted(seq![b], c) =~= seq![c, b]);
    assert(seq![b, a].drop_last() =~= seq![b]);
    assert(inserted(seq![b, a], c) =~= seq![c, b, a]);
    assert(seq![a, b, c].drop_last() =~= seq![a, b]);
}

/// The points of three lines.
proof fn lemma_three_points(
    lines: Seq<Seq<char>>,
    reading: Reading,
    a: FanPoint,
    b: FanPoint,
    c: FanPoint,
)
    requires
        lines.len() == 3,
        with_point(seq![], 1, lines[0], reading) == Ok::<Seq<FanPoint>, FanProblem>(seq![].push(a)),
        with_point(seq![a], 2, lines[1], reading) == Ok::<Seq<FanPoint>, FanProblem>(
            seq![a].push(b),
        ),
        with_point(seq![a, b], 3, lines[2], reading) == Ok::<Seq<FanPoint>, FanProblem>(
            seq![a, b].push(c),
        ),
    ensures
        points_of(lines, reading) == Ok::<Seq<FanPoint>, FanProblem>(seq![a, b, c]),
{
    let two = lines.drop_last();
    let one = two.drop_last();
    assert(one.drop_last() =~= Seq::empty());
    assert(points_of(one.drop_last(), reading) == Ok::<Seq<FanPoint>, FanProblem>(seq![]));
    assert(seq![].push(a) =~= seq![a]);
    assert(seq![a].push(b) =~= seq![a, b]);
    assert(seq![a, b].push(c) =~= seq![a, b, c]);
    assert(points_of(one, reading) == Ok::<Seq<FanPoint>, FanProblem>(seq![a]));
    assert(points_of(two, reading) == Ok::<Seq<FanPoint>, FanProblem>(seq![a, b]));
}

/// The fallback is the curve that the default text describes, if the numbers in it are read as
/// the numbers that they are.
pub proof fn law_fallback_is_default_curve(reading: Reading)
    requires
        reading("10"@) matches Some(number) && number.finite() && number.value() == whole(10),
        reading("55"@) == Some(Single { bits: 0x425c_0000 }),
        reading("60"@) == Some(Single { bits: 0x4270_0000 }),
        reading("65"@) == Some(Single { bits: 0x4282_0000 }),
        reading("100"@) matches Some(number) && number.finite() && number.value() == whole(100),
    ensures
        read_curve(DEFAULT_CURVE@, reading) == Ok::<Seq<FanPoint>, FanProblem>(fallback_points()),
{
    reveal_strlit("10");
    reveal_strlit("55");
    reveal_strlit("60");
    reveal_strlit("65");
    reveal_strlit("100");
    vstd::arithmetic::power2::lemma2_to64();
    lemma_whole_number(Single { bits: 0x425c_0000 }, 55);
    lemma_whole_number(Single { bits: 0x4270_0000 }, 60);
    lemma_whole_number(Single { bits: 0x4282_0000 }, 65);
    lemma_whole_in_order(55);
    lemma_whole_in_order(60);
    lemma_whole_in_order(65);
    let a = fallback_points()[2];
    let b = fallback_points()[1];
    let c = fallback_points()[0];
    lemma_pair_line(seq![], 1, "55"@, "10"@, reading, a.temperature_c, 10);
    lemma_pair_line(seq![a], 2, "60"@, "55"@, reading, b.temperature_c, 55);
    lemma_pair_line(seq![a, b], 3, "65"@, "100"@, reading, c.temperature_c, 100);
    lemma_default_lines();
    lemma_three_points(text::lines_of(DEFAULT_CURVE@), reading, a, b, c);
    lemma_three_descending(a, b, c);
}

/// A speed that was set is the one that is known from then on, whatever was known before: asking
/// for it again changes nothing, asking for more sets more at once, with a kick exactly if the fan
/// was stopped, and asking for less is waited for. The wait itself is not touched.
pub proof fn law_set_speed_is_remembered(
    state: PolicyState,
    percent: u8,
    desired: u8,
    now: Instant,
)
    ensures
        state.committed(percent).current == percent,
        state.committed(percent).pending == state.pending,
        state.committed(percent).delay == state.delay,
        desired == percent ==> state.committed(percent).decision(desired, now)
            == FanDecision::Unchanged,
        desired > percent ==> state.committed(percent).decision(desired, now)
            == (FanDecision::Apply { percent: desired, spin_up: percent == 0 }),
        desired < percent ==> state.committed(percent).decision(desired, now) != (
        FanDecision::Apply { percent: desired, spin_up: true }),
        desired > 0 ==> state.committed(0).decision(desired, now) == (FanDecision::Apply {
            percent: desired,
            spin_up: true,
        }),
{
}

/// Asking for a speed does not change the speed that is known, nor how long is waited.
pub proof fn law_asking_sets_nothing(state: PolicyState, desired: u8, now: Instant)
    ensures
        state.asked(desired, now).current == state.current,
        state.asked(desired, now).delay == state.delay,
        desired >= state.current ==> state.asked(desired, now).pending is None,
        desired < state.current && state.decision(desired, now) is DownshiftPending
            ==> state.asked(desired, now).pending is Some,
        state.decision(desired, now) matches FanDecision::Apply { percent, .. } ==> percent
            == desired,
        state.decision(desired, now) matches FanDecision::DownshiftPending { percent, .. }
            ==> percent == desired,
{
}

/// While a slower speed is waited for, what is left of the wait and what has passed of it make up
/// the delay.
pub proof fn law_wait_counts_down(
    state: PolicyState,
    desired: u8,
    first: Instant,
    later: Instant,
)
    requires
        desired < state.current,
        state.pending is None,
        first.nanos <= later.nanos,
    ensures
        state.asked(desired, first).decision(desired, later) matches FanDecision::DownshiftPending {
            remaining,
            ..
        } ==> remaining.nanos + (later.nanos - first.nanos) == state.delay.nanos,
        state.asked(desired, first).decision(desired, later) is Apply <==> later.nanos - first.nanos
            >= state.delay.nanos,
{
}

/// A fan that stands still turns at 25 percent or faster, if at all; from 25 percent on speeds are
/// set as they are asked for.
pub proof fn law_slowest_speed(percent: u8)
    ensures
        running(percent) == 0 <==> percent == 0,
        percent > 0 ==> running(percent) >= 25,
        percent >= 25 ==> running(percent) == percent,
        0 < percent < 25 ==> running(percent) == 25,
{
}

/// The percentage of a number is its whole part, and one for what is smaller but not zero.
pub proof fn law_percentage_is_the_whole_part(number: Single)
    requires
        number.within_hundred(),
    ensures
        0 <= percent_of(number) <= 100,
        percent_of(number) == 0 <==> number.value() == 0,
        number.value() >= whole(1) ==> whole(percent_of(number) as int) <= number.value() < whole(
            percent_of(number) as int + 1,
        ),
        0 < number.value() < whole(1) ==> percent_of(number) == 1,
{
    lemma_percents();
    vstd::arithmetic::power2::lemma_pow2_pos(149);
    let unit = whole(1);
    let value = number.value();
    vstd::arithmetic::div_mod::lemma_fundamental_div_mod(value, unit);
    vstd::arithmetic::div_mod::lemma_mod_bound(value, unit);
    let q = value / unit;
    vstd::arithmetic::mul::lemma_mul_is_commutative(q, unit);
    vstd::arithmetic::mul::lemma_mul_is_distributive_add_other_way(unit, q, 1);
    vstd::arithmetic::div_mod::lemma_div_is_ordered(0, value, unit);
    vstd::arithmetic::div_mod::lemma_div_is_ordered(value, whole(100), unit);
    lemma_whole_quotient(100);
    lemma_whole_quotient(0);
    assert(whole(0) == 0);
    assert(0 <= q <= 100);
    assert(whole(q) == q * unit);
    assert(whole(q + 1) == (q + 1) * unit);
    if value >= unit {
        vstd::arithmetic::div_mod::lemma_div_is_ordered(unit, value, unit);
        lemma_whole_quotient(1);
    }
}

/// A line of a curve: a temperature and a speed from 0 to 100 on both sides of the first equals
/// sign, with spaces around them or not, give one more point; an empty line or a comment gives
/// none; all others are faults.
pub proof fn law_line_of_a_curve(
    points: Seq<FanPoint>,
    line: nat,
    raw: Seq<char>,
    left: Seq<char>,
    right: Seq<char>,
    reading: Reading,
)
    requires
        text::trimmed(raw) == left + seq!['='] + right,
        !left.contains('='),
        text::trimmed(raw)[0] != '#',
    ensures
        ({
            let temperature = reading(text::trimmed(left));
            let speed = reading(text::trimmed(right));
            match with_point(points, line, raw, reading) {
                Ok(after) => {
                    &&& after.len() == points.len() + 1
                    &&& after.drop_last() == points
                    &&& temperature == Some(after.last().temperature_c)
                    &&& after.last().temperature_c.within_hundred()
                    &&& speed matches Some(number) && number.within_hundred()
                        && after.last().percent == percent_of(number)
                },
                Err(FanProblem::InvalidTemperature { line: at, value }) => at == line && value
                    == text::trimmed(left) && (temperature matches Some(number)
                    ==> !number.within_hundred()),
                Err(FanProblem::InvalidPercent { line: at, value }) => at == line && value
                    == text::trimmed(right) && (temperature matches Some(number)
                    && number.within_hundred()) && (speed matches Some(number)
                    ==> !number.within_hundred()),
                _ => false,
            }
        }),
{
    assert forall|i: int| 0 <= i < left.len() implies left[i] != '=' by {
        assert(left.contains(left[i]));
    }
    text::lemma_piece(left, '=', right);
    if let Ok(after) = with_point(points, line, raw, reading) {
        assert(after.drop_last() =~= points);
    }
}

/// Lines without an equals sign are faults, but for empty ones and comments, which say nothing.
pub proof fn law_line_without_a_point(
    points: Seq<FanPoint>,
    line: nat,
    raw: Seq<char>,
    reading: Reading,
)
    ensures
        ({
            let bare = text::trimmed(raw);
            &&& bare.len() == 0 || bare[0] == '#' ==> with_point(points, line, raw, reading) == Ok::<
                Seq<FanPoint>,
                FanProblem,
            >(points)
            &&& bare.len() > 0 && bare[0] != '#' && !bare.contains('=') ==> with_point(
                points,
                line,
                raw,
                reading,
            ) == Err::<Seq<FanPoint>, FanProblem>(FanProblem::MissingEquals { line })
        }),
{
    text::law_parted_at_first(text::trimmed(raw), '=');
    if let Some((first, second)) = text::split_first(text::trimmed(raw), '=') {
        let all = first + seq!['='] + second;
        assert(all[first.len() as int] == '=');
    }
}

/// The points of lines behind others come behind theirs.
pub proof fn law_curve_lines_add_up(a: Seq<Seq<char>>, b: Seq<Seq<char>>, reading: Reading)
    ensures
        points_of(a, reading) is Err ==> points_of(a + b, reading) == points_of(a, reading),
        points_of(a, reading) is Ok && points_of(b, reading) is Ok ==> points_of(a + b, reading)
            == Ok::<Seq<FanPoint>, FanProblem>(
            points_of(a, reading)->Ok_0 + points_of(b, reading)->Ok_0,
        ),
        points_of(a, reading) is Ok && points_of(b, reading) is Err ==> points_of(
            a + b,
            reading,
        ) is Err,
    decreases b.len(),
{
    if b.len() == 0 {
        assert(a + b =~= a);
        if let Ok(points) = points_of(a, reading) {
            assert(points + seq![] =~= points);
        }
    } else {
        law_curve_lines_add_up(a, b.drop_last(), reading);
        assert((a + b).drop_last() =~= a + b.drop_last());
        if points_of(a, reading) is Ok && points_of(b.drop_last(), reading) is Ok {
            let first = points_of(a, reading)->Ok_0;
            let second = points_of(b.drop_last(), reading)->Ok_0;
            lemma_point_behind(first, second, (a + b).len(), b.len(), b.last(), reading);
        }
    }
}

/// What a line adds does not depend on the points before it.
proof fn lemma_point_behind(
    first: Seq<FanPoint>,
    second: Seq<FanPoint>,
    line: nat,
    other: nat,
    raw: Seq<char>,
    reading: Reading,
)
    ensures
        match with_point(second, other, raw, reading) {
            Ok(points) => with_point(first + second, line, raw, reading) == Ok::<
                Seq<FanPoint>,
                FanProblem,
            >(first + points),
            Err(_) => with_point(first + second, line, raw, reading) is Err,
        },
{
    if let Ok(points) = with_point(second, other, raw, reading) {
        if points != second {
            assert((first + second).push(points.last()) =~= first + second.push(points.last()));
            assert(second.push(points.last()).last() == points.last());
        }
    }
}

/// The speed of a point is used from its temperature on, up to that of the next hotter point.
pub proof fn law_speed_between_points(points: Seq<FanPoint>, n: int, temperature_c: Single)
    requires
        0 <= n < points.len(),
        temperature_c.reaches(points[n].temperature_c),
        forall|i: int| 0 <= i < n ==> !temperature_c.reaches((#[trigger] points[i]).temperature_c),
    ensures
        points[n].percent == 0 ==> speed_at(points, temperature_c) == 0,
        points[n].percent >= 25 ==> speed_at(points, temperature_c) == points[n].percent,
        0 < points[n].percent < 25 ==> speed_at(points, temperature_c) == 25,
    decreases n,
{
    if n > 0 {
        let rest = points.drop_first();
        assert(!temperature_c.reaches(points[0].temperature_c));
        assert forall|i: int| 0 <= i < n - 1 implies !temperature_c.reaches(
            (#[trigger] rest[i]).temperature_c,
        ) by {
            assert(rest[i] == points[i + 1]);
        }
        assert(rest[n - 1] == points[n]);
        law_speed_between_points(rest, n - 1, temperature_c);
    }
}

/// A fan is kicked exactly when it stands still and is to turn; the kick is full speed for a
/// second, and behind it comes the speed that was asked for.
pub proof fn law_stopped_fan_is_kicked<O: FanOutput, S: FnOnce(Duration, &O)>(
    state: PolicyState,
    desired: u8,
    now: Instant,
    before: O,
    sleep: S,
    after: O,
)
    requires
        carried_out(before, state.decision(desired, now), sleep, after, None),
    ensures
        state.current == 0 && desired > 0 ==> exists|kicked: O|
            {
                &&& #[trigger] O::applied(before, 100, kicked, None)
                &&& call_ensures(sleep, (Duration { nanos: 1_000_000_000 }, &kicked), ())
                &&& O::applied(kicked, desired, after, None)
            },
        0 < state.current < desired ==> O::applied(before, desired, after, None),
        desired == state.current ==> after == before,
        desired < state.current && state.pending is None ==> after == before,
{
    let decision = state.decision(desired, now);
    if state.current == 0 && desired > 0 {
        let kicked = choose|kicked: O|
            {
                &&& O::applied(before, 100, kicked, None)
                &&& call_ensures(sleep, (kick_time(), &kicked), ())
                &&& #[trigger] finished(kicked, decision, after, None)
            };
        assert(O::applied(before, 100, kicked, None));
    }
}

/// When the kick fails, its error is told and the fan is told nothing else.
pub proof fn law_failed_kick_ends_the_change<O: FanOutput, S: FnOnce(Duration, &O)>(
    before: O,
    percent: u8,
    sleep: S,
    after: O,
    error: O::Error,
)
    requires
        percent > 0,
        carried_out(
            before,
            FanDecision::Apply { percent, spin_up: true },
            sleep,
            after,
            Some(error),
        ),
        forall|kicked: O| !#[trigger] O::applied(before, 100, kicked, None),
    ensures
        O::applied(before, 100, after, Some(error)),
{
}

/// The fault of a text is that of its first faulty line, told with the number of that line.
pub proof fn law_first_fault_of_a_curve(lines: Seq<Seq<char>>, reading: Reading)
    ensures
        points_of(lines, reading) matches Err(problem) ==> exists|n: int|
            {
                &&& 0 <= n < lines.len()
                &&& #[trigger] points_of(lines.take(n), reading) is Ok
                &&& with_point(
                    points_of(lines.take(n), reading)->Ok_0,
                    (n + 1) as nat,
                    lines[n],
                    reading,
                ) == Err::<Seq<FanPoint>, FanProblem>(problem)
            },
    decreases lines.len(),
{
    if lines.len() > 0 {
        let head = lines.drop_last();
        law_first_fault_of_a_curve(head, reading);
        match points_of(head, reading) {
            Err(problem) => {
                let n = choose|n: int|
                    {
                        &&& 0 <= n < head.len()
                        &&& #[trigger] points_of(head.take(n), reading) is Ok
                        &&& with_point(
                            points_of(head.take(n), reading)->Ok_0,
                            (n + 1) as nat,
                            head[n],
                            reading,
                        ) == Err::<Seq<FanPoint>, FanProblem>(problem)
                    };
                assert(lines.take(n) =~= head.take(n));
                assert(points_of(lines.take(n), reading) is Ok);
            },
            Ok(_) => {
                let n = lines.len() - 1;
                assert(lines.take(n) =~= head);
                assert(points_of(lines.take(n), reading) is Ok);
            },
        }
    }
}

/// A configuration counts if there is one without a fault; otherwise the fan turns with 10 percent
/// asked for from 55 degrees on, with 55 from 60 and with 100 from 65.
pub proof fn law_curve_in_force(input: Seq<char>, reading: Reading)
    ensures
        read_curve(input, reading) matches Ok(points) ==> curve_in_force(Some(input), reading)
            == points,
        read_curve(input, reading) is Err ==> curve_in_force(Some(input), reading)
            == curve_in_force(None, reading),
        curve_in_force(None, reading).len() == 3,
        ({
            let points = curve_in_force(None, reading);
            &&& points[0].percent == 100 && points[0].temperature_c.value() == whole(65)
            &&& points[1].percent == 55 && points[1].temperature_c.value() == whole(60)
            &&& points[2].percent == 10 && points[2].temperature_c.value() == whole(55)
        }),
{
    vstd::arithmetic::power2::lemma2_to64();
    lemma_whole_number(Single { bits: 0x4282_0000 }, 65);
    lemma_whole_number(Single { bits: 0x4270_0000 }, 60);
    lemma_whole_number(Single { bits: 0x425c_0000 }, 55);
}

} // verus!
