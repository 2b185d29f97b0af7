//! Startup and shutdown schedules: a restricted, cron-like format in local time.
//!
//! A line has six fields: minute, hour, day of the month, month, day of the week and `on` or
//! `off`. The first five hold `*` or integers with commas between them.
use crate::calendar::DateTime;
use crate::text;
use vstd::prelude::*;
use vstd::string::StringExecFns;

verus! {

/// What happens at a scheduled time.
#[derive(Debug, Clone, Copy, PartialEq, Eq, Structural)]
pub enum ScheduleCommand {
    On,
    Off,
}

/// The values of a field that match.
#[derive(Debug, Clone, PartialEq, Eq)]
pub enum Field {
    Any,
    Values(Vec<u32>),
}

/// The numeric fields.
#[derive(Debug, Clone, Copy, PartialEq, Eq, Structural)]
pub enum FieldName {
    Minute,
    Hour,
    DayOfMonth,
    Month,
    DayOfWeek,
}

/// One line of the schedule.
#[derive(Debug, Clone, PartialEq, Eq)]
pub struct Schedule {
    pub minute: Field,
    pub hour: Field,
    pub day: Field,
    /// Kept as it was written; it takes no part in matching.
    pub month_text: String,
    pub weekday: Field,
    pub command: ScheduleCommand,
}

/// Why a line is no schedule.
#[derive(Debug, Clone, PartialEq, Eq)]
pub enum ScheduleError {
    /// The line has `count` fields, not six.
    FieldCount { count: usize },
    /// A part of the field is no number.
    InvalidValue { field: FieldName, text: String },
    /// A number lies outside the range of the field.
    OutOfRange { field: FieldName, value: u32, minimum: u32, maximum: u32 },
    /// The minute is `*`.
    AnyMinute,
    /// The command, in lower case, is neither `on` nor `off`.
    UnknownCommand { text: String },
}

/// The first faulty line of a schedule file, counted from one.
#[derive(Debug, Clone, PartialEq, Eq)]
pub struct ScheduleFileError {
    pub line: usize,
    pub error: ScheduleError,
}

/// What a [`Field`] holds.
pub enum FieldView {
    Any,
    Values(Seq<u32>),
}

/// What a [`Schedule`] holds.
pub struct ScheduleView {
    pub minute: FieldView,
    pub hour: FieldView,
    pub day: FieldView,
    pub month_text: Seq<char>,
    pub weekday: FieldView,
    pub command: ScheduleCommand,
}

/// What a [`ScheduleError`] says.
pub enum ScheduleProblem {
    FieldCount { count: nat },
    InvalidValue { field: FieldName, text: Seq<char> },
    OutOfRange { field: FieldName, value: u32, minimum: u32, maximum: u32 },
    AnyMinute,
    UnknownCommand { text: Seq<char> },
}

impl View for Field {
    type V = FieldView;

    open spec fn view(&self) -> FieldView {
        match *self {
            Field::Any => FieldView::Any,
            Field::Values(values) => FieldView::Values(values@),
        }
    }
}

impl View for Schedule {
    type V = ScheduleView;

    open spec fn view(&self) -> ScheduleView {
        ScheduleView {
            minute: self.minute@,
            hour: self.hour@,
            day: self.day@,
            month_text: self.month_text@,
            weekday: self.weekday@,
            command: self.command,
        }
    }
}

impl View for ScheduleError {
    type V = ScheduleProblem;

    open spec fn view(&self) -> ScheduleProblem {
        match *self {
            ScheduleError::FieldCount { count } => ScheduleProblem::FieldCount {
                count: count as nat,
            },
            ScheduleError::InvalidValue { field, text } => ScheduleProblem::InvalidValue {
                field,
                text: text@,
            },
            ScheduleError::OutOfRange {
                field,
                value,
                minimum,
                maximum,
            } => ScheduleProblem::OutOfRange { field, value, minimum, maximum },
            ScheduleError::AnyMinute => ScheduleProblem::AnyMinute,
            ScheduleError::UnknownCommand { text } => ScheduleProblem::UnknownCommand {
                text: text@,
            },
        }
    }
}

/// `values` in ascending order with `value` among them.
pub open spec fn with_value(values: Seq<u32>, value: u32) -> Seq<u32>
    decreases values.len(),
{
    if values.len() == 0 {
        seq![value]
    } else if values.last() < value {
        values.push(value)
    } else if values.last() == value {
        values
    } else {
        with_value(values.drop_last(), value).push(values.last())
    }
}

/// The numbers that `parts` write down, ascending and each once; or the first fault.
pub open spec fn field_values(
    parts: Seq<Seq<char>>,
    field: FieldName,
    minimum: u32,
    maximum: u32,
) -> Result<Seq<u32>, ScheduleProblem>
    decreases parts.len(),
{
    if parts.len() == 0 {
        Ok(seq![])
    } else {
        match field_values(parts.drop_last(), field, minimum, maximum) {
            Err(problem) => Err(problem),
            Ok(values) => match text::number(parts.last(), u32::MAX as nat) {
                None => Err(ScheduleProblem::InvalidValue { field, text: parts.last() }),
                Some(number) => {
                    let value = number as u32;
                    if minimum <= value <= maximum {
                        Ok(with_value(values, value))
                    } else {
                        Err(ScheduleProblem::OutOfRange { field, value, minimum, maximum })
                    }
                },
            },
        }
    }
}

/// What a field says: `*`, or numbers with commas between them.
pub open spec fn read_field(
    text: Seq<char>,
    field: FieldName,
    minimum: u32,
    maximum: u32,
) -> Result<FieldView, ScheduleProblem> {
    if text == "*"@ {
        Ok(FieldView::Any)
    } else {
        match field_values(text::pieces(text, ','), field, minimum, maximum) {
            Ok(values) => Ok(FieldView::Values(values)),
            Err(problem) => Err(problem),
        }
    }
}

/// The command with the given name.
pub open spec fn read_command(name: Seq<char>) -> Result<ScheduleCommand, ScheduleProblem> {
    if name == "on"@ {
        Ok(ScheduleCommand::On)
    } else if name == "off"@ {
        Ok(ScheduleCommand::Off)
    } else {
        Err(ScheduleProblem::UnknownCommand { text: name })
    }
}

/// What a line says. Of several faults the first counts: minute, command, month, hour, day of
/// the month, day of the week.
pub open spec fn read_schedule(line: Seq<char>) -> Result<ScheduleView, ScheduleProblem> {
    let fields = text::words_of(line);
    if fields.len() != 6 {
        Err(ScheduleProblem::FieldCount { count: fields.len() })
    } else {
        match (
            read_field(fields[0], FieldName::Minute, 0, 59),
            read_command(text::lowered(fields[5])),
            read_field(fields[3], FieldName::Month, 1, 12),
            read_field(fields[1], FieldName::Hour, 0, 23),
            read_field(fields[2], FieldName::DayOfMonth, 1, 31),
            read_field(fields[4], FieldName::DayOfWeek, 0, 7),
        ) {
            (Err(problem), _, _, _, _, _) => Err(problem),
            (Ok(FieldView::Any), _, _, _, _, _) => Err(ScheduleProblem::AnyMinute),
            (_, Err(problem), _, _, _, _) => Err(problem),
            (_, _, Err(problem), _, _, _) => Err(problem),
            (_, _, _, Err(problem), _, _) => Err(problem),
            (_, _, _, _, Err(problem), _) => Err(problem),
            (_, _, _, _, _, Err(problem)) => Err(problem),
            (Ok(minute), Ok(command), Ok(_), Ok(hour), Ok(day), Ok(weekday)) => Ok(
                ScheduleView { minute, hour, day, month_text: fields[3], weekday, command },
            ),
        }
    }
}

/// What the lines of a file say, empty lines and comments aside; or the first fault and the
/// number of its line.
pub open spec fn read_lines(lines: Seq<Seq<char>>) -> Result<
    Seq<ScheduleView>,
    (nat, ScheduleProblem),
>
    decreases lines.len(),
{
    if lines.len() == 0 {
        Ok(seq![])
    } else {
        match read_lines(lines.drop_last()) {
            Err(fault) => Err(fault),
            Ok(schedules) => {
                let line = text::trimmed(lines.last());
                if text::is_blank(line) {
                    Ok(schedules)
                } else {
                    match read_schedule(line) {
                        Ok(schedule) => Ok(schedules.push(schedule)),
                        Err(problem) => Err((lines.len(), problem)),
                    }
                }
            },
        }
    }
}

/// What a schedule file says.
pub open spec fn read_file(input: Seq<char>) -> Result<
    Seq<ScheduleView>,
    (nat, ScheduleProblem),
> {
    read_lines(text::lines_of(input))
}

/// Numbers in decimal with commas between them.
pub open spec fn comma_list(values: Seq<u32>) -> Seq<char>
    decreases values.len(),
{
    if values.len() == 0 {
        seq![]
    } else if values.len() == 1 {
        text::decimal(values[0] as nat)
    } else {
        comma_list(values.drop_last()) + seq![','] + text::decimal(values.last() as nat)
    }
}

/// How a field is written.
pub open spec fn field_text(field: FieldView) -> Seq<char> {
    match field {
        FieldView::Any => "*"@,
        FieldView::Values(values) => comma_list(values),
    }
}

/// How a command is written.
pub open spec fn command_text(command: ScheduleCommand) -> Seq<char> {
    match command {
        ScheduleCommand::On => "on"@,
        ScheduleCommand::Off => "off"@,
    }
}

/// How a schedule is written.
pub open spec fn schedule_text(schedule: ScheduleView) -> Seq<char> {
    field_text(schedule.minute) + seq![' '] + (field_text(schedule.hour) + seq![' '] + (field_text(
        schedule.day,
    ) + seq![' '] + (schedule.month_text + seq![' '] + (field_text(schedule.weekday) + seq![' ']
        + command_text(schedule.command)))))
}

/// Schedules, one to a line.
pub open spec fn schedule_lines(schedules: Seq<ScheduleView>) -> Seq<char>
    decreases schedules.len(),
{
    if schedules.len() == 0 {
        seq![]
    } else {
        schedule_text(schedules[0]) + seq!['\n'] + schedule_lines(schedules.drop_first())
    }
}

/// The comment at the head of a schedule file, and what follows it.
pub open spec fn with_header(rest: Seq<char>) -> Seq<char> {
    "#"@ + seq!['\n'] + ("# Argon RTC Configuration"@ + seq!['\n'] + (
    "# minute hour day-of-month month day-of-week on|off"@ + seq!['\n'] + (
    "# Month is retained but ignored for legacy compatibility."@ + seq!['\n'] + ("#"@ + seq!['\n']
        + rest))))
}

/// How a schedule file is written.
pub open spec fn file_text(schedules: Seq<ScheduleView>) -> Seq<char> {
    with_header(schedule_lines(schedules))
}

impl FieldView {
    /// Whether a value matches the field.
    pub open spec fn has(self, value: u32) -> bool {
        match self {
            FieldView::Any => true,
            FieldView::Values(values) => values.contains(value),
        }
    }
}

impl ScheduleView {
    /// Whether the schedule matches the minute of `time`. Both 0 and 7 mean Sunday. The month
    /// takes no part.
    pub open spec fn at(self, time: DateTime) -> bool {
        let weekday = time.weekday() as u32;
        &&& self.minute.has(time.minute)
        &&& self.hour.has(time.hour)
        &&& self.day.has(time.day)
        &&& self.weekday.has(weekday) || (weekday == 0 && self.weekday.has(7))
    }

    /// Whether `next` is a full minute behind the one of `time`, and not more than twelve years
    /// behind `time`.
    pub open spec fn in_reach(time: DateTime, next: DateTime) -> bool {
        &&& next.valid()
        &&& next.second == 0
        &&& time.minute_number() < next.minute_number()
        &&& time.months_later(144) matches Some(limit) && next.second_number()
            <= limit.second_number()
    }

    /// Whether `next` is the first minute in reach that matches.
    pub open spec fn first_match(self, time: DateTime, next: DateTime) -> bool {
        &&& ScheduleView::in_reach(time, next)
        &&& self.at(next)
        &&& forall|other: DateTime|
            #![trigger self.at(other)]
            ScheduleView::in_reach(time, other) && self.at(other) ==> next.minute_number()
                <= other.minute_number()
    }

    /// The first minute in reach that matches, if there is one.
    pub open spec fn next_time(self, time: DateTime) -> Option<DateTime> {
        if exists|next: DateTime| self.first_match(time, next) {
            Some(choose|next: DateTime| self.first_match(time, next))
        } else {
            None
        }
    }
}

/// The schedules of a list.
pub open spec fn views(schedules: Seq<Schedule>) -> Seq<ScheduleView> {
    Seq::new(schedules.len(), |i: int| schedules[i]@)
}

/// The earliest startup behind `after` and the place of its schedule in the list; the first of
/// several with the same time.
pub open spec fn earliest_startup(schedules: Seq<ScheduleView>, after: DateTime) -> Option<
    (int, DateTime),
>
    decreases schedules.len(),
{
    if schedules.len() == 0 {
        None
    } else {
        let before = earliest_startup(schedules.drop_last(), after);
        let last = schedules.last();
        let next = if last.command == ScheduleCommand::On {
            last.next_time(after)
        } else {
            None
        };
        match (before, next) {
            (_, None) => before,
            (None, Some(time)) => Some((schedules.len() - 1, time)),
            (Some(earlier), Some(time)) => if time.second_number() < earlier.1.second_number() {
                Some((schedules.len() - 1, time))
            } else {
                before
            },
        }
    }
}

/// Whether values ascend without repetition.
pub open spec fn ascending(values: Seq<u32>) -> bool {
    forall|i: int, j: int| 0 <= i < j < values.len() ==> values[i] < values[j]
}

/// Adding a value keeps the order, and adds that value alone.
pub proof fn lemma_with_value(values: Seq<u32>, value: u32)
    requires
        ascending(values),
    ensures
        ascending(with_value(values, value)),
        with_value(values, value).len() > 0,
        forall|other: u32| #[trigger]
            with_value(values, value).contains(other) <==> values.contains(other) || other == value,
    decreases values.len(),
{
    let result = with_value(values, value);
    if values.len() == 0 {
        assert(result[0] == value);
    } else if values.last() < value {
        assert(result == values.push(value));
        assert forall|other: u32| #[trigger] result.contains(other) <==> values.contains(other)
            || other == value by {
            if values.contains(other) {
                let i = choose|i: int| 0 <= i < values.len() && values[i] == other;
                assert(result[i] == other);
            }
            assert(result[values.len() as int] == value);
        }
    } else if values.last() == value {
        assert(values[values.len() - 1] == value);
    } else {
        let head = values.drop_last();
        let last = values.last();
        lemma_with_value(head, value);
        let inner = with_value(head, value);
        assert forall|i: int| 0 <= i < inner.len() implies inner[i] < last by {
            assert(inner.contains(inner[i]));
            if head.contains(inner[i]) {
                let j = choose|j: int| 0 <= j < head.len() && head[j] == inner[i];
                assert(values[j] < values[values.len() - 1]);
            }
        }
        assert forall|other: u32| #[trigger] result.contains(other) <==> values.contains(other)
            || other == value by {
            if result.contains(other) {
                let i = choose|i: int| 0 <= i < result.len() && result[i] == other;
                if i < inner.len() {
                    assert(inner.contains(other));
                    if head.contains(other) {
                        let j = choose|j: int| 0 <= j < head.len() && head[j] == other;
                        assert(values[j] == other);
                    }
                } else {
                    assert(values[values.len() - 1] == other);
                }
            }
            if values.contains(other) || other == value {
                if other == last {
                    assert(result[inner.len() as int] == other);
                } else {
                    if values.contains(other) {
                        let j = choose|j: int| 0 <= j < values.len() && values[j] == other;
                        assert(head[j] == other);
                    }
                    assert(inner.contains(other));
                    let i = choose|i: int| 0 <= i < inner.len() && inner[i] == other;
                    assert(result[i] == other);
                }
            }
        }
    }
}

impl Field {
    /// Reads a field whose numbers lie between `minimum` and `maximum`.
    fn parse(text: &[char], field: FieldName, minimum: u32, maximum: u32) -> (r: Result<
        Field,
        ScheduleError,
    >)
        ensures
            match r {
                Ok(value) => read_field(text@, field, minimum, maximum) == Ok::<
                    FieldView,
                    ScheduleProblem,
                >(value@),
                Err(error) => read_field(text@, field, minimum, maximum) == Err::<
                    FieldView,
                    ScheduleProblem,
                >(error@),
            },
    {
        if text::reads(text, "*") {
            return Ok(Field::Any);
        }
        let parts = text::split(text, ',');
        let ghost pieces = text::views(parts@);
        let mut values: Vec<u32> = Vec::new();
        let mut index: usize = 0;
        assert(pieces.take(0) =~= Seq::empty());
        while index < parts.len()
            invariant
                pieces == text::views(parts@),
                pieces == text::pieces(text@, ','),
                text@ != "*"@,
                index <= parts@.len(),
                field_values(pieces.take(index as int), field, minimum, maximum) == Ok::<
                    Seq<u32>,
                    ScheduleProblem,
                >(values@),
            decreases parts@.len() - index,
        {
            let part = parts[index];
            let ghost next = pieces.take(index + 1);
            assert(next.drop_last() == pieces.take(index as int));
            assert(next.last() == part@);
            match text::parse_u32(part) {
                None => {
                    proof {
                        lemma_first_fault(pieces, index + 1, field, minimum, maximum);
                    }
                    return Err(ScheduleError::InvalidValue { field, text: text::to_text(part) });
                },
                Some(value) => {
                    if value < minimum || value > maximum {
                        proof {
                            lemma_first_fault(pieces, index + 1, field, minimum, maximum);
                        }
                        return Err(ScheduleError::OutOfRange { field, value, minimum, maximum });
                    }
                    insert_value(&mut values, value);
                },
            }
            index += 1;
        }
        assert(pieces.take(index as int) == pieces);
        Ok(Field::Values(values))
    }

    /// Whether a value matches.
    fn contains(&self, value: u32) -> (r: bool)
        ensures
            r == self@.has(value),
    {
        match self {
            Field::Any => true,
            Field::Values(values) => {
                let mut i: usize = 0;
                while i < values.len()
                    invariant
                        self@ == FieldView::Values(values@),
                        i <= values@.len(),
                        forall|j: int| 0 <= j < i ==> values@[j] != value,
                    decreases values@.len() - i,
                {
                    if values[i] == value {
                        assert(values@[i as int] == value);
                        return true;
                    }
                    i += 1;
                }
                false
            },
        }
    }

    /// Appends the field as it is written.
    fn render(&self, out: &mut String)
        ensures
            final(out)@ == old(out)@ + field_text(self@),
    {
        match self {
            Field::Any => out.append("*"),
            Field::Values(values) => {
                let ghost start = out@;
                let mut i: usize = 0;
                assert(values@.take(0) =~= Seq::empty());
                while i < values.len()
                    invariant
                        i <= values@.len(),
                        out@ == start + comma_list(values@.take(i as int)),
                    decreases values@.len() - i,
                {
                    let ghost next = values@.take(i + 1);
                    assert(next.drop_last() == values@.take(i as int));
                    if i > 0 {
                        out.push(',');
                    }
                    text::push_decimal(out, values[i] as u64);
                    assert(out@ =~= start + comma_list(next));
                    i += 1;
                }
                assert(values@.take(i as int) == values@);
            },
        }
    }

    /// Whether every value matches.
    pub fn is_any(&self) -> (r: bool)
        ensures
            r == (self@ is Any),
    {
        match self {
            Field::Any => true,
            Field::Values(_) => false,
        }
    }
}

/// A fault among the first parts is the fault of all.
proof fn lemma_first_fault(
    parts: Seq<Seq<char>>,
    n: int,
    field: FieldName,
    minimum: u32,
    maximum: u32,
)
    requires
        0 <= n <= parts.len(),
        field_values(parts.take(n), field, minimum, maximum) is Err,
    ensures
        field_values(parts, field, minimum, maximum) == field_values(
            parts.take(n),
            field,
            minimum,
            maximum,
        ),
    decreases parts.len(),
{
    if n == parts.len() {
        assert(parts.take(n) == parts);
    } else {
        assert(parts.drop_last().take(n) == parts.take(n));
        lemma_first_fault(parts.drop_last(), n, field, minimum, maximum);
    }
}

/// Puts `value` at its place among ascending values, unless it is there.
fn insert_value(values: &mut Vec<u32>, value: u32)
    ensures
        final(values)@ == with_value(old(values)@, value),
{
    let ghost start = values@;
    let mut at: usize = values.len();
    assert(start.take(at as int) == start);
    assert(start.skip(at as int) =~= Seq::empty());
    while at > 0 && values[at - 1] > value
        invariant
            at <= values@.len(),
            values@ == start,
            with_value(start, value) == with_value(start.take(at as int), value) + start.skip(
                at as int,
            ),
        decreases at,
    {
        let ghost head = start.take(at as int);
        assert(head.drop_last() == start.take(at - 1));
        assert(with_value(start, value) =~= with_value(start.take(at - 1), value) + start.skip(
            at - 1,
        ));
        at -= 1;
    }
    let ghost head = start.take(at as int);
    if at > 0 && values[at - 1] == value {
        assert(with_value(head, value) == head);
        assert(head + start.skip(at as int) =~= start);
    } else {
        assert(with_value(head, value) =~= head.push(value));
        values.insert(at, value);
        assert(values@ =~= head.push(value) + start.skip(at as int));
    }
}

impl ScheduleCommand {
    /// The command as it is written.
    pub fn as_str(self) -> (r: &'static str)
        ensures
            r@ == command_text(self),
    {
        match self {
            ScheduleCommand::On => "on",
            ScheduleCommand::Off => "off",
        }
    }
}

/// The outcome of reading a line.
pub open spec fn outcome(r: Result<Schedule, ScheduleError>) -> Result<
    ScheduleView,
    ScheduleProblem,
> {
    match r {
        Ok(schedule) => Ok(schedule@),
        Err(error) => Err(error@),
    }
}

/// The outcome of reading a file.
pub open spec fn file_outcome(r: Result<Vec<Schedule>, ScheduleFileError>) -> Result<
    Seq<ScheduleView>,
    (nat, ScheduleProblem),
> {
    match r {
        Ok(schedules) => Ok(views(schedules@)),
        Err(fault) => Err((fault.line as nat, fault.error@)),
    }
}

/// Two first matches are the same time.
proof fn lemma_first_match_unique(schedule: ScheduleView, time: DateTime, a: DateTime, b: DateTime)
    requires
        schedule.first_match(time, a),
        schedule.first_match(time, b),
    ensures
        a == b,
{
    assert(schedule.at(a) && schedule.at(b));
    crate::calendar::lemma_minute_unique(a, b);
}

impl Schedule {
    /// Reads one line.
    pub fn parse(line: &str) -> (r: Result<Schedule, ScheduleError>)
        ensures
            outcome(r) == read_schedule(line@),
    {
        let chars = text::to_chars(line);
        Schedule::parse_chars(chars.as_slice())
    }

    /// Reads the characters of one line.
    fn parse_chars(line: &[char]) -> (r: Result<Schedule, ScheduleError>)
        ensures
            outcome(r) == read_schedule(line@),
    {
        let fields = text::split_whitespace(line);
        let ghost words = text::views(fields@);
        if fields.len() != 6 {
            return Err(ScheduleError::FieldCount { count: fields.len() });
        }
        let minute = match Field::parse(fields[0], FieldName::Minute, 0, 59) {
            Ok(value) => value,
            Err(error) => {
                return Err(error);
            },
        };
        if minute.is_any() {
            return Err(ScheduleError::AnyMinute);
        }
        let name = text::to_ascii_lowercase(fields[5]);
        let command = if text::reads(name.as_slice(), "on") {
            ScheduleCommand::On
        } else if text::reads(name.as_slice(), "off") {
            ScheduleCommand::Off
        } else {
            return Err(ScheduleError::UnknownCommand { text: text::to_text(name.as_slice()) });
        };
        match Field::parse(fields[3], FieldName::Month, 1, 12) {
            Ok(_) => {},
            Err(error) => {
                return Err(error);
            },
        }
        let hour = match Field::parse(fields[1], FieldName::Hour, 0, 23) {
            Ok(value) => value,
            Err(error) => {
                return Err(error);
            },
        };
        let day = match Field::parse(fields[2], FieldName::DayOfMonth, 1, 31) {
            Ok(value) => value,
            Err(error) => {
                return Err(error);
            },
        };
        let weekday = match Field::parse(fields[4], FieldName::DayOfWeek, 0, 7) {
            Ok(value) => value,
            Err(error) => {
                return Err(error);
            },
        };
        Ok(
            Schedule {
                minute,
                hour,
                day,
                month_text: text::to_text(fields[3]),
                weekday,
                command,
            },
        )
    }

    /// Whether the schedule matches the minute of `time`.
    pub fn matches(&self, time: DateTime) -> (r: bool)
        requires
            time.valid(),
        ensures
            r == self@.at(time),
    {
        let weekday = time.weekday_from_sunday();
        let weekday_match = self.weekday.contains(weekday) || (weekday == 0
            && self.weekday.contains(7));
        self.minute.contains(time.minute) && self.hour.contains(time.hour) && self.day.contains(
            time.day,
        ) && weekday_match
    }

    /// The first full minute behind the one of `time` that matches, within twelve years.
    pub fn next_after(&self, time: DateTime) -> (r: Option<DateTime>)
        requires
            time.valid(),
        ensures
            r == self@.next_time(time),
    {
        let limit = match time.months_after(144) {
            Some(limit) => limit,
            None => {
                return None;
            },
        };
        proof {
            crate::calendar::lemma_months_later(time, 144);
        }
        let start = DateTime { second: 0, ..time };
        proof {
            crate::calendar::lemma_next_minute(start);
        }
        let mut candidate = start.minute_after();
        while candidate.not_after(&limit)
            invariant
                time.valid(),
                limit.valid(),
                time.months_later(144) == Some(limit),
                candidate.valid(),
                candidate.second == 0,
                time.minute_number() < candidate.minute_number(),
                forall|other: DateTime|
                    #![trigger self@.at(other)]
                    ScheduleView::in_reach(time, other) && other.minute_number()
                        < candidate.minute_number() ==> !self@.at(other),
            decreases limit.minute_number() - candidate.minute_number() + 1,
        {
            if self.matches(candidate) {
                assert(self@.first_match(time, candidate));
                proof {
                    lemma_first_match_unique(
                        self@,
                        time,
                        candidate,
                        choose|next: DateTime| self@.first_match(time, next),
                    );
                }
                return Some(candidate);
            }
            assert forall|other: DateTime|
                #![trigger self@.at(other)]
                ScheduleView::in_reach(time, other) && other.minute_number()
                    <= candidate.minute_number() implies !self@.at(other) by {
                if other.minute_number() == candidate.minute_number() {
                    crate::calendar::lemma_minute_unique(other, candidate);
                }
            }
            if candidate.ends_calendar() {
                proof {
                    assert forall|other: DateTime|
                        ScheduleView::in_reach(time, other) implies !self@.at(other) by {
                        crate::calendar::lemma_last_minute(other, candidate);
                    }
                }
                return None;
            }
            proof {
                crate::calendar::lemma_next_minute(candidate);
            }
            candidate = candidate.minute_after();
        }
        assert forall|other: DateTime| ScheduleView::in_reach(time, other) implies !self@.at(
            other,
        ) by {
            assert(other.second_number() <= limit.second_number());
        }
        None
    }

    /// The schedule as it is written.
    pub fn render(&self) -> (r: String)
        ensures
            r@ == schedule_text(self@),
    {
        let mut out = String::new();
        self.minute.render(&mut out);
        out.push(' ');
        self.hour.render(&mut out);
        out.push(' ');
        self.day.render(&mut out);
        out.push(' ');
        out.append(self.month_text.as_str());
        out.push(' ');
        self.weekday.render(&mut out);
        out.push(' ');
        out.append(self.command.as_str());
        assert(out@ =~= schedule_text(self@));
        out
    }
}

/// A faulty line among the first lines is the fault of the file.
proof fn lemma_first_faulty_line(lines: Seq<Seq<char>>, n: int)
    requires
        0 <= n <= lines.len(),
        read_lines(lines.take(n)) is Err,
    ensures
        read_lines(lines) == read_lines(lines.take(n)),
    decreases lines.len(),
{
    if n == lines.len() {
        assert(lines.take(n) == lines);
    } else {
        assert(lines.drop_last().take(n) == lines.take(n));
        lemma_first_faulty_line(lines.drop_last(), n);
    }
}

/// Reads a schedule file. Empty lines and comments are left out; the first faulty line is
/// reported.
pub fn parse_schedule_file(input: &str) -> (r: Result<Vec<Schedule>, ScheduleFileError>)
    ensures
        file_outcome(r) == read_file(input@),
{
    let chars = text::to_chars(input);
    let lines = text::lines(chars.as_slice());
    let ghost rows = text::views(lines@);
    let mut schedules: Vec<Schedule> = Vec::new();
    let mut index: usize = 0;
    assert(rows.take(0) =~= Seq::empty());
    assert(views(schedules@) =~= Seq::empty());
    while index < lines.len()
        invariant
            rows == text::views(lines@),
            rows == text::lines_of(input@),
            index <= lines@.len(),
            read_lines(rows.take(index as int)) == Ok::<Seq<ScheduleView>, (nat, ScheduleProblem)>(
                views(schedules@),
            ),
        decreases lines@.len() - index,
    {
        let ghost next = rows.take(index + 1);
        assert(next.drop_last() == rows.take(index as int));
        assert(next.last() == lines@[index as int]@);
        let line = text::trim(lines[index]);
        if !text::says_nothing(line) {
            match Schedule::parse_chars(line) {
                Ok(schedule) => {
                    let ghost before = schedules@;
                    schedules.push(schedule);
                    assert(views(schedules@) =~= views(before).push(schedule@));
                },
                Err(error) => {
                    proof {
                        lemma_first_faulty_line(rows, index + 1);
                    }
                    return Err(ScheduleFileError { line: index + 1, error });
                },
            }
        }
        index += 1;
    }
    assert(rows.take(index as int) == rows);
    Ok(schedules)
}

/// Writes a schedule file.
pub fn serialize_schedule_file(schedules: &[Schedule]) -> (r: String)
    ensures
        r@ == file_text(views(schedules@)),
{
    let mut out = String::new();
    out.append("#");
    out.push('\n');
    out.append("# Argon RTC Configuration");
    out.push('\n');
    out.append("# minute hour day-of-month month day-of-week on|off");
    out.push('\n');
    out.append("# Month is retained but ignored for legacy compatibility.");
    out.push('\n');
    out.append("#");
    out.push('\n');
    let ghost all = views(schedules@);
    assert(out@ =~= with_header(Seq::empty()));
    let ghost head = out@;
    let mut index: usize = 0;
    assert(all.skip(0) == all);
    while index < schedules.len()
        invariant
            all == views(schedules@),
            index <= schedules@.len(),
            out@ + schedule_lines(all.skip(index as int)) == head + schedule_lines(all),
        decreases schedules@.len() - index,
    {
        let ghost before = out@;
        let line = schedules[index].render();
        out.append(line.as_str());
        out.push('\n');
        assert(all.skip(index as int)[0] == schedules@[index as int]@);
        assert(all.skip(index as int).drop_first() == all.skip(index + 1));
        assert(out@ + schedule_lines(all.skip(index + 1)) =~= before + schedule_lines(
            all.skip(index as int),
        ));
        index += 1;
    }
    assert(schedule_lines(all.skip(index as int)).len() == 0);
    assert(out@ =~= head + schedule_lines(all));
    assert(with_header(schedule_lines(all)) =~= head + schedule_lines(all));
    out
}

/// The place in the list and the time of the earliest startup.
fn find_startup(schedules: &[Schedule], after: DateTime) -> (r: Option<(usize, DateTime)>)
    requires
        after.valid(),
    ensures
        match r {
            Some((index, time)) => {
                &&& index < schedules@.len()
                &&& earliest_startup(views(schedules@), after) == Some((index as int, time))
            },
            None => earliest_startup(views(schedules@), after) is None,
        },
{
    let ghost all = views(schedules@);
    let mut best: Option<(usize, DateTime)> = None;
    let mut index: usize = 0;
    while index < schedules.len()
        invariant
            after.valid(),
            all == views(schedules@),
            index <= schedules@.len(),
            match best {
                Some((place, time)) => {
                    &&& place < index
                    &&& time.valid()
                    &&& earliest_startup(all.take(index as int), after) == Some((place as int, time))
                },
                None => earliest_startup(all.take(index as int), after) is None,
            },
        decreases schedules@.len() - index,
    {
        let ghost next_all = all.take(index + 1);
        assert(next_all.drop_last() == all.take(index as int));
        assert(next_all.last() == schedules@[index as int]@);
        if schedules[index].command == ScheduleCommand::On {
            match schedules[index].next_after(after) {
                Some(time) => {
                    assert(schedules@[index as int]@.first_match(after, time));
                    match best {
                        Some((place, earlier)) => {
                            if !earlier.not_after(&time) {
                                best = Some((index, time));
                            }
                        },
                        None => {
                            best = Some((index, time));
                        },
                    }
                },
                None => {},
            }
        }
        index += 1;
    }
    assert(all.take(index as int) == all);
    best
}

/// The earliest startup behind `after`.
pub fn next_startup(schedules: &[Schedule], after: DateTime) -> (r: Option<DateTime>)
    requires
        after.valid(),
    ensures
        match r {
            Some(time) => earliest_startup(views(schedules@), after) matches Some(found)
                && found.1 == time,
            None => earliest_startup(views(schedules@), after) is None,
        },
{
    match find_startup(schedules, after) {
        Some((_, time)) => Some(time),
        None => None,
    }
}

/// The earliest startup behind `after` and its schedule.
pub fn next_startup_schedule<'a>(schedules: &'a [Schedule], after: DateTime) -> (r: Option<
    (&'a Schedule, DateTime),
>)
    requires
        after.valid(),
    ensures
        match r {
            Some((schedule, time)) => {
                &&& earliest_startup(views(schedules@), after) matches Some(found)
                &&& found.1 == time
                &&& *schedule == schedules@[found.0]
            },
            None => earliest_startup(views(schedules@), after) is None,
        },
{
    match find_startup(schedules, after) {
        Some((index, time)) => Some((&schedules[index], time)),
        None => None,
    }
}

impl FieldView {
    /// Whether a field is `*`, or holds ascending numbers of its range.
    pub open spec fn canonical(self, minimum: u32, maximum: u32) -> bool {
        match self {
            FieldView::Any => true,
            FieldView::Values(values) => {
                &&& values.len() > 0
                &&& ascending(values)
                &&& forall|i: int| 0 <= i < values.len() ==> minimum <= #[trigger] values[i]
                    <= maximum
            },
        }
    }
}

impl ScheduleView {
    /// Whether a line can say this.
    pub open spec fn canonical(self) -> bool {
        &&& self.minute is Values
        &&& self.minute.canonical(0, 59)
        &&& self.hour.canonical(0, 23)
        &&& self.day.canonical(1, 31)
        &&& text::is_word(self.month_text)
        &&& read_field(self.month_text, FieldName::Month, 1, 12) is Ok
        &&& self.weekday.canonical(0, 7)
    }
}

/// The numbers of a field ascend and lie in its range.
proof fn lemma_field_values(
    parts: Seq<Seq<char>>,
    field: FieldName,
    minimum: u32,
    maximum: u32,
)
    requires
        field_values(parts, field, minimum, maximum) is Ok,
    ensures
        ascending(field_values(parts, field, minimum, maximum)->Ok_0),
        parts.len() > 0 ==> field_values(parts, field, minimum, maximum)->Ok_0.len() > 0,
        forall|value: u32| #[trigger]
            field_values(parts, field, minimum, maximum)->Ok_0.contains(value) ==> minimum <= value
                <= maximum,
    decreases parts.len(),
{
    if parts.len() > 0 {
        lemma_field_values(parts.drop_last(), field, minimum, maximum);
        let values = field_values(parts.drop_last(), field, minimum, maximum)->Ok_0;
        let value = text::number(parts.last(), u32::MAX as nat)->Some_0 as u32;
        lemma_with_value(values, value);
    }
}

/// A field that was read is canonical.
proof fn lemma_read_field(text: Seq<char>, field: FieldName, minimum: u32, maximum: u32)
    ensures
        read_field(text, field, minimum, maximum) matches Ok(value) ==> value.canonical(
            minimum,
            maximum,
        ),
{
    let parts = text::pieces(text, ',');
    if text != "*"@ && field_values(parts, field, minimum, maximum) is Ok {
        lemma_field_values(parts, field, minimum, maximum);
        let values = field_values(parts, field, minimum, maximum)->Ok_0;
        assert forall|i: int| 0 <= i < values.len() implies minimum <= #[trigger] values[i]
            <= maximum by {
            assert(values.contains(values[i]));
        }
    }
}

/// What a line says is canonical: its numbers ascend, none occurs twice, and each lies in the
/// range of its field.
pub proof fn law_parsed_schedule_is_canonical(line: Seq<char>)
    ensures
        read_schedule(line) matches Ok(schedule) ==> schedule.canonical(),
{
    let fields = text::words_of(line);
    if read_schedule(line) is Ok {
        lemma_read_field(fields[0], FieldName::Minute, 0, 59);
        lemma_read_field(fields[1], FieldName::Hour, 0, 23);
        lemma_read_field(fields[2], FieldName::DayOfMonth, 1, 31);
        lemma_read_field(fields[4], FieldName::DayOfWeek, 0, 7);
        text::lemma_words_are_words(line);
        assert(text::is_word(fields[3]));
    }
}

/// The characters of a list of numbers.
proof fn lemma_comma_list(values: Seq<u32>)
    ensures
        forall|i: int|
            0 <= i < comma_list(values).len() ==> text::is_digit(#[trigger] comma_list(values)[i])
                || comma_list(values)[i] == ',',
        values.len() > 0 ==> comma_list(values).len() > 0 && text::is_digit(comma_list(values)[0]),
        values.len() > 0 ==> text::pieces(comma_list(values), ',') == Seq::new(
            values.len(),
            |i: int| text::decimal(values[i] as nat),
        ),
    decreases values.len(),
{
    if values.len() == 0 {
    } else {
        let last = text::decimal(values.last() as nat);
        text::lemma_decimal(values.last() as nat);
        text::lemma_decimal_word(values.last() as nat, ',');
        assert(text::is_digit(last[0]));
        let decimals = Seq::new(values.len(), |i: int| text::decimal(values[i] as nat));
        if values.len() == 1 {
            text::lemma_last_piece(last, ',');
            assert(seq![last] =~= decimals);
        } else {
            let head = comma_list(values.drop_last());
            lemma_comma_list(values.drop_last());
            text::lemma_pieces_append(head, ',', last);
            assert forall|i: int| 0 <= i < comma_list(values).len() implies text::is_digit(
                #[trigger] comma_list(values)[i],
            ) || comma_list(values)[i] == ',' by {
                if i < head.len() {
                    assert(comma_list(values)[i] == head[i]);
                } else if i > head.len() {
                    assert(comma_list(values)[i] == last[i - head.len() - 1]);
                }
            }
            assert(text::pieces(comma_list(values), ',') =~= decimals);
        }
    }
}

/// Numbers that ascend read back as themselves.
proof fn lemma_decimals_read_back(
    values: Seq<u32>,
    field: FieldName,
    minimum: u32,
    maximum: u32,
)
    requires
        ascending(values),
        forall|i: int| 0 <= i < values.len() ==> minimum <= #[trigger] values[i] <= maximum,
    ensures
        field_values(
            Seq::new(values.len(), |i: int| text::decimal(values[i] as nat)),
            field,
            minimum,
            maximum,
        ) == Ok::<Seq<u32>, ScheduleProblem>(values),
    decreases values.len(),
{
    let decimals = Seq::new(values.len(), |i: int| text::decimal(values[i] as nat));
    if values.len() > 0 {
        let head = values.drop_last();
        lemma_decimals_read_back(head, field, minimum, maximum);
        assert(decimals.drop_last() =~= Seq::new(
            head.len(),
            |i: int| text::decimal(head[i] as nat),
        ));
        text::lemma_number_of_decimal(values.last() as nat, u32::MAX as nat);
        assert(minimum <= values[values.len() - 1] <= maximum);
        if head.len() > 0 {
            assert(values[values.len() - 2] < values[values.len() - 1]);
            assert(head.last() == values[values.len() - 2]);
        }
        assert(with_value(head, values.last()) =~= values);
    } else {
        assert(values =~= Seq::empty());
    }
}

/// A canonical field is written as one word and reads back as itself.
proof fn lemma_field_reads_back(field: FieldView, name: FieldName, minimum: u32, maximum: u32)
    requires
        field.canonical(minimum, maximum),
    ensures
        text::is_word(field_text(field)),
        read_field(field_text(field), name, minimum, maximum) == Ok::<FieldView, ScheduleProblem>(
            field,
        ),
        field is Values ==> text::is_digit(field_text(field)[0]),
{
    reveal_strlit("*");
    match field {
        FieldView::Any => {},
        FieldView::Values(values) => {
            lemma_comma_list(values);
            lemma_decimals_read_back(values, name, minimum, maximum);
            let written = comma_list(values);
            assert forall|i: int| 0 <= i < written.len() implies !text::is_space(
                #[trigger] written[i],
            ) by {
                assert(text::is_digit(written[i]) || written[i] == ',');
            }
            assert(written[0] != '*');
        },
    }
}

/// A command is written as one word in lower case.
proof fn lemma_command(command: ScheduleCommand)
    ensures
        text::is_word(command_text(command)),
        text::lowered(command_text(command)) == command_text(command),
        read_command(command_text(command)) == Ok::<ScheduleCommand, ScheduleProblem>(command),
{
    reveal_strlit("on");
    reveal_strlit("off");
    assert(text::lowered(command_text(command)) =~= command_text(command));
}

/// Writing a schedule and reading it gives the schedule back.
pub proof fn law_schedule_reads_back(schedule: ScheduleView)
    requires
        schedule.canonical(),
    ensures
        read_schedule(schedule_text(schedule)) == Ok::<ScheduleView, ScheduleProblem>(schedule),
{
    lemma_field_reads_back(schedule.minute, FieldName::Minute, 0, 59);
    lemma_field_reads_back(schedule.hour, FieldName::Hour, 0, 23);
    lemma_field_reads_back(schedule.day, FieldName::DayOfMonth, 1, 31);
    lemma_field_reads_back(schedule.weekday, FieldName::DayOfWeek, 0, 7);
    lemma_command(schedule.command);
    let f5 = command_text(schedule.command);
    let f4 = field_text(schedule.weekday);
    let f3 = schedule.month_text;
    let f2 = field_text(schedule.day);
    let f1 = field_text(schedule.hour);
    let f0 = field_text(schedule.minute);
    let t4 = f4 + seq![' '] + f5;
    let t3 = f3 + seq![' '] + t4;
    let t2 = f2 + seq![' '] + t3;
    let t1 = f1 + seq![' '] + t2;
    text::lemma_last_word(f5);
    text::lemma_word(f4, f5);
    text::lemma_word(f3, t4);
    text::lemma_word(f2, t3);
    text::lemma_word(f1, t2);
    text::lemma_word(f0, t1);
    let words = text::words_of(schedule_text(schedule));
    assert(words =~= seq![f0, f1, f2, f3, f4, f5]);
}

/// Whether the only white space of `s` is the space character.
spec fn spaced(s: Seq<char>) -> bool {
    forall|i: int| 0 <= i < s.len() ==> s[i] == ' ' || !text::is_space(#[trigger] s[i])
}

proof fn lemma_spaced(a: Seq<char>, b: Seq<char>)
    requires
        spaced(a),
        spaced(b),
    ensures
        spaced(a + seq![' '] + b),
{
    let all = a + seq![' '] + b;
    assert forall|i: int| 0 <= i < all.len() implies all[i] == ' ' || !text::is_space(
        #[trigger] all[i],
    ) by {
        if i < a.len() {
            assert(all[i] == a[i]);
        } else if i > a.len() {
            assert(all[i] == b[i - a.len() - 1]);
        }
    }
}

/// A schedule is written on one line, which neither begins nor ends with white space.
proof fn lemma_schedule_line(schedule: ScheduleView)
    requires
        schedule.canonical(),
    ensures
        spaced(schedule_text(schedule)),
        schedule_text(schedule).len() > 0,
        text::is_digit(schedule_text(schedule)[0]),
        !text::is_space(schedule_text(schedule).last()),
{
    lemma_field_reads_back(schedule.minute, FieldName::Minute, 0, 59);
    lemma_field_reads_back(schedule.hour, FieldName::Hour, 0, 23);
    lemma_field_reads_back(schedule.day, FieldName::DayOfMonth, 1, 31);
    lemma_field_reads_back(schedule.weekday, FieldName::DayOfWeek, 0, 7);
    lemma_command(schedule.command);
    let f5 = command_text(schedule.command);
    let f4 = field_text(schedule.weekday);
    let f3 = schedule.month_text;
    let f2 = field_text(schedule.day);
    let f1 = field_text(schedule.hour);
    let f0 = field_text(schedule.minute);
    let t4 = f4 + seq![' '] + f5;
    let t3 = f3 + seq![' '] + t4;
    let t2 = f2 + seq![' '] + t3;
    let t1 = f1 + seq![' '] + t2;
    lemma_spaced(f4, f5);
    lemma_spaced(f3, t4);
    lemma_spaced(f2, t3);
    lemma_spaced(f1, t2);
    lemma_spaced(f0, t1);
    let all = schedule_text(schedule);
    assert(all[0] == f0[0]);
    assert(t4.last() == f5.last());
    assert(t3.last() == t4.last());
    assert(t2.last() == t3.last());
    assert(t1.last() == t2.last());
    assert(all.last() == t1.last());
    assert(!text::is_space(f5[f5.len() - 1]));
}

/// Lines read one after the other.
proof fn lemma_read_lines_append(head: Seq<Seq<char>>, tail: Seq<Seq<char>>)
    requires
        read_lines(head) is Ok,
        read_lines(tail) is Ok,
    ensures
        read_lines(head + tail) == Ok::<Seq<ScheduleView>, (nat, ScheduleProblem)>(
            read_lines(head)->Ok_0 + read_lines(tail)->Ok_0,
        ),
    decreases tail.len(),
{
    if tail.len() == 0 {
        assert(head + tail =~= head);
        assert(read_lines(head)->Ok_0 + read_lines(tail)->Ok_0 =~= read_lines(head)->Ok_0);
    } else {
        lemma_read_lines_append(head, tail.drop_last());
        assert((head + tail).drop_last() =~= head + tail.drop_last());
        assert(read_lines(head + tail)->Ok_0 =~= read_lines(head)->Ok_0 + read_lines(tail)->Ok_0);
    }
}

/// One line of a file.
proof fn lemma_read_one_line(line: Seq<char>)
    ensures
        text::is_blank(text::trimmed(line)) ==> read_lines(seq![line]) == Ok::<
            Seq<ScheduleView>,
            (nat, ScheduleProblem),
        >(seq![]),
        !text::is_blank(text::trimmed(line)) && read_schedule(text::trimmed(line)) is Ok
            ==> read_lines(seq![line]) == Ok::<Seq<ScheduleView>, (nat, ScheduleProblem)>(
            seq![read_schedule(text::trimmed(line))->Ok_0],
        ),
{
    assert(seq![line].drop_last() =~= Seq::<Seq<char>>::empty());
    assert(read_lines(Seq::<Seq<char>>::empty()) == Ok::<
        Seq<ScheduleView>,
        (nat, ScheduleProblem),
    >(seq![]));
    if !text::is_blank(text::trimmed(line)) && read_schedule(text::trimmed(line)) is Ok {
        let schedule = read_schedule(text::trimmed(line))->Ok_0;
        assert(Seq::<ScheduleView>::empty().push(schedule) =~= seq![schedule]);
    }
}

/// The lines of schedules read back as the schedules.
proof fn lemma_schedule_lines(schedules: Seq<ScheduleView>)
    requires
        forall|i: int| 0 <= i < schedules.len() ==> (#[trigger] schedules[i]).canonical(),
    ensures
        read_file(schedule_lines(schedules)) == Ok::<Seq<ScheduleView>, (nat, ScheduleProblem)>(
            schedules,
        ),
    decreases schedules.len(),
{
    if schedules.len() == 0 {
        assert(schedules =~= seq![]);
    } else {
        let first = schedules[0];
        let rest = schedules.drop_first();
        let line = schedule_text(first);
        assert forall|i: int| 0 <= i < rest.len() implies (#[trigger] rest[i]).canonical() by {
            assert(rest[i] == schedules[i + 1]);
        }
        lemma_schedule_lines(rest);
        lemma_schedule_line(first);
        law_schedule_reads_back(first);
        text::lemma_trimmed(line);
        text::lemma_line(line, schedule_lines(rest));
        lemma_read_one_line(line);
        lemma_read_lines_append(seq![line], text::lines_of(schedule_lines(rest)));
        assert(seq![first] + rest =~= schedules);
    }
}

/// A comment and what follows it.
proof fn lemma_comment(comment: Seq<char>, rest: Seq<char>)
    requires
        text::free_of(comment, '\n'),
        comment.len() > 0,
        comment[0] == '#',
        !text::is_space(comment.last()),
        read_file(rest) is Ok,
    ensures
        read_file(comment + seq!['\n'] + rest) == read_file(rest),
{
    text::lemma_line(comment, rest);
    text::lemma_trimmed(comment);
    lemma_read_one_line(comment);
    lemma_read_lines_append(seq![comment], text::lines_of(rest));
    assert(Seq::<ScheduleView>::empty() + read_file(rest)->Ok_0 =~= read_file(rest)->Ok_0);
}

/// Writing a schedule file and reading it gives the schedules back.
pub proof fn law_schedule_file_reads_back(schedules: Seq<ScheduleView>)
    requires
        forall|i: int| 0 <= i < schedules.len() ==> (#[trigger] schedules[i]).canonical(),
    ensures
        read_file(file_text(schedules)) == Ok::<Seq<ScheduleView>, (nat, ScheduleProblem)>(
            schedules,
        ),
{
    lemma_schedule_lines(schedules);
    let h1 = "#"@;
    let h2 = "# Argon RTC Configuration"@;
    let h3 = "# minute hour day-of-month month day-of-week on|off"@;
    let h4 = "# Month is retained but ignored for legacy compatibility."@;
    reveal_strlit("#");
    reveal_strlit("# Argon RTC Configuration");
    reveal_strlit("# minute hour day-of-month month day-of-week on|off");
    reveal_strlit("# Month is retained but ignored for legacy compatibility.");
    reveal_with_fuel(text::free_upto, 60);
    text::lemma_free_upto(h1, '\n', h1.len());
    text::lemma_free_upto(h2, '\n', h2.len());
    text::lemma_free_upto(h3, '\n', h3.len());
    text::lemma_free_upto(h4, '\n', h4.len());
    let r5 = schedule_lines(schedules);
    let r4 = h1 + seq!['\n'] + r5;
    let r3 = h4 + seq!['\n'] + r4;
    let r2 = h3 + seq!['\n'] + r3;
    let r1 = h2 + seq!['\n'] + r2;
    lemma_comment(h1, r5);
    lemma_comment(h4, r4);
    lemma_comment(h3, r3);
    lemma_comment(h2, r2);
    lemma_comment(h1, r1);
}

/// The month of a schedule takes no part in matching.
pub proof fn law_month_is_ignored(schedule: ScheduleView, month_text: Seq<char>, time: DateTime)
    ensures
        (ScheduleView { month_text, ..schedule }).at(time) == schedule.at(time),
        (ScheduleView { month_text, ..schedule }).next_time(time) == schedule.next_time(time),
{
    let other = ScheduleView { month_text, ..schedule };
    assert(forall|t: DateTime| other.at(t) == schedule.at(t));
    assert forall|next: DateTime| other.first_match(time, next) == schedule.first_match(
        time,
        next,
    ) by {
        assert(forall|t: DateTime| other.at(t) == schedule.at(t));
    }
    if schedule.next_time(time) is Some {
        let a = schedule.next_time(time)->Some_0;
        assert(other.first_match(time, a));
        let b = other.next_time(time)->Some_0;
        lemma_first_match_unique(schedule, time, a, b);
    } else if other.next_time(time) is Some {
        let b = other.next_time(time)->Some_0;
        assert(schedule.first_match(time, b));
    }
}

/// As a day of the week, 7 means what 0 means: Sunday.
pub proof fn law_seven_is_sunday(schedule: ScheduleView, time: DateTime)
    requires
        time.valid(),
    ensures
        (ScheduleView { weekday: FieldView::Values(seq![7u32]), ..schedule }).at(time) == (
        ScheduleView { weekday: FieldView::Values(seq![0u32]), ..schedule }).at(time),
{
    let seven = seq![7u32];
    let zero = seq![0u32];
    assert(seven[0] == 7 && zero[0] == 0);
    assert(seven.contains(7) && zero.contains(0));
    assert(forall|v: u32| seven.contains(v) ==> v == 7);
    assert(forall|v: u32| zero.contains(v) ==> v == 0);
}

/// The earliest startup belongs to an `on` schedule, and no `on` schedule has an earlier one. Of
/// several that start at the same time it belongs to the first.
pub proof fn law_earliest_startup(schedules: Seq<ScheduleView>, after: DateTime)
    ensures
        match earliest_startup(schedules, after) {
            Some((index, time)) => {
                &&& 0 <= index < schedules.len()
                &&& schedules[index].command == ScheduleCommand::On
                &&& schedules[index].next_time(after) == Some(time)
                &&& forall|i: int|
                    0 <= i < schedules.len() && (#[trigger] schedules[i]).command
                        == ScheduleCommand::On ==> (schedules[i].next_time(after) matches Some(
                        other,
                    ) ==> time.second_number() <= other.second_number())
                &&& forall|i: int|
                    0 <= i < index && (#[trigger] schedules[i]).command == ScheduleCommand::On ==> (
                    schedules[i].next_time(after) matches Some(other) ==> time.second_number()
                        < other.second_number())
            },
            None => forall|i: int|
                0 <= i < schedules.len() && (#[trigger] schedules[i]).command
                    == ScheduleCommand::On ==> schedules[i].next_time(after) is None,
        },
    decreases schedules.len(),
{
    if schedules.len() > 0 {
        let head = schedules.drop_last();
        law_earliest_startup(head, after);
        assert forall|i: int| 0 <= i < head.len() implies head[i] == #[trigger] schedules[i] by {}
    }
}

/// Texts with spaces between them.
pub open spec fn joined(parts: Seq<String>) -> Seq<char>
    decreases parts.len(),
{
    if parts.len() == 0 {
        seq![]
    } else if parts.len() == 1 {
        parts[0]@
    } else {
        joined(parts.drop_last()) + seq![' '] + parts.last()@
    }
}

/// Adds the schedule whose fields are given, if they are those of one.
pub fn add_schedule(schedules: &mut Vec<Schedule>, fields: &[String]) -> (r: Result<
    (),
    ScheduleError,
>)
    ensures
        match read_schedule(joined(fields@)) {
            Ok(schedule) => r is Ok && views(final(schedules)@) == views(old(schedules)@).push(
                schedule,
            ),
            Err(problem) => r is Err && r->Err_0@ == problem && final(schedules)@ == old(
                schedules,
            )@,
        },
{
    let mut line = String::new();
    let mut i: usize = 0;
    assert(fields@.take(0) =~= Seq::empty());
    while i < fields.len()
        invariant
            i <= fields@.len(),
            line@ == joined(fields@.take(i as int)),
        decreases fields@.len() - i,
    {
        let ghost before = line@;
        let ghost next = fields@.take(i + 1);
        assert(next.drop_last() =~= fields@.take(i as int));
        if i > 0 {
            line.push(' ');
        }
        line.append(fields[i].as_str());
        assert(line@ =~= if i > 0 {
            before + seq![' '] + next.last()@
        } else {
            next.last()@
        });
        i += 1;
    }
    assert(fields@.take(i as int) =~= fields@);
    match Schedule::parse(line.as_str()) {
        Ok(schedule) => {
            let ghost before = schedules@;
            schedules.push(schedule);
            assert(views(schedules@) =~= views(before).push(schedule@));
            Ok(())
        },
        Err(error) => Err(error),
    }
}

/// There is no schedule with the number.
#[derive(Debug, Clone, Copy, PartialEq, Eq, Structural)]
pub struct ScheduleIndexError {
    pub index: usize,
    pub count: usize,
}

/// Removes a schedule by its number in the list, counted from one.
pub fn remove_schedule(schedules: &mut Vec<Schedule>, index: usize) -> (r: Result<
    (),
    ScheduleIndexError,
>)
    ensures
        1 <= index <= old(schedules)@.len() ==> r is Ok && final(schedules)@ == old(
            schedules,
        )@.remove(index - 1),
        !(1 <= index <= old(schedules)@.len()) ==> r is Err && r->Err_0.index == index
            && r->Err_0.count == old(schedules)@.len() && final(schedules)@ == old(schedules)@,
{
    if index == 0 || index > schedules.len() {
        return Err(ScheduleIndexError { index, count: schedules.len() });
    }
    schedules.remove(index - 1);
    Ok(())
}

/// A field with a list matches exactly the numbers of the list, wherever they stand in it; a field
/// without one matches every number.
pub proof fn law_list_matches_its_numbers(values: Seq<u32>, value: u32)
    ensures
        FieldView::Values(values).has(value) <==> exists|i: int|
            0 <= i < values.len() && #[trigger] values[i] == value,
        forall|i: int| 0 <= i < values.len() ==> FieldView::Values(values).has(#[trigger] values[i]),
        FieldView::Any.has(value),
{
}

/// A schedule matches a time if each of its fields does: it has no list, or the number of the time
/// stands somewhere in the list. Sunday is 0 or 7.
pub proof fn law_schedule_matches_by_its_lists(schedule: ScheduleView, time: DateTime)
    requires
        time.valid(),
    ensures
        schedule.at(time) <==> {
            &&& schedule.minute matches FieldView::Values(values) ==> exists|i: int|
                0 <= i < values.len() && #[trigger] values[i] == time.minute
            &&& schedule.hour matches FieldView::Values(values) ==> exists|i: int|
                0 <= i < values.len() && #[trigger] values[i] == time.hour
            &&& schedule.day matches FieldView::Values(values) ==> exists|i: int|
                0 <= i < values.len() && #[trigger] values[i] == time.day
            &&& schedule.weekday matches FieldView::Values(values) ==> exists|i: int|
                0 <= i < values.len() && (#[trigger] values[i] == time.weekday() || (values[i] == 7
                    && time.weekday() == 0))
        },
{
    let weekday = time.weekday() as u32;
    if let FieldView::Values(values) = schedule.weekday {
        if schedule.weekday.has(weekday) {
            let i = choose|i: int| 0 <= i < values.len() && values[i] == weekday;
            assert(values[i] == weekday);
        }
        if weekday == 0 && schedule.weekday.has(7) {
            let i = choose|i: int| 0 <= i < values.len() && values[i] == 7;
            assert(values[i] == 7);
        }
        if exists|i: int|
            0 <= i < values.len() && (#[trigger] values[i] == time.weekday() || (values[i] == 7
                && time.weekday() == 0)) {
            let i = choose|i: int|
                0 <= i < values.len() && (#[trigger] values[i] == time.weekday() || (values[i] == 7
                    && time.weekday() == 0));
            assert(values.contains(values[i]));
        }
    }
}

/// Whether the text of a field names a number: with `*`, or as one of the numbers between its
/// commas.
pub open spec fn names_number(text: Seq<char>, value: int) -> bool {
    text == "*"@ || exists|i: int|
        0 <= i < text::pieces(text, ',').len() && text::number(
            #[trigger] text::pieces(text, ',')[i],
            u32::MAX as nat,
        ) == Some(value as nat)
}

/// Whether the text of a field is `*`, or has a number from `minimum` to `maximum` between any two
/// commas.
pub open spec fn names_range(text: Seq<char>, minimum: int, maximum: int) -> bool {
    text == "*"@ || forall|i: int|
        0 <= i < text::pieces(text, ',').len() ==> (text::number(
            #[trigger] text::pieces(text, ',')[i],
            u32::MAX as nat,
        ) matches Some(n) && minimum <= n <= maximum)
}

proof fn lemma_values_are_the_parts(
    parts: Seq<Seq<char>>,
    field: FieldName,
    minimum: u32,
    maximum: u32,
)
    ensures
        field_values(parts, field, minimum, maximum) is Ok <==> forall|i: int|
            0 <= i < parts.len() ==> (text::number(#[trigger] parts[i], u32::MAX as nat) matches Some(
                n,
            ) && minimum <= n <= maximum),
        field_values(parts, field, minimum, maximum) matches Ok(values) ==> ascending(values)
            && forall|value: u32| #[trigger]
            values.contains(value) <==> exists|i: int|
                0 <= i < parts.len() && text::number(#[trigger] parts[i], u32::MAX as nat) == Some(
                    value as nat,
                ),
    decreases parts.len(),
{
    if parts.len() > 0 {
        let head = parts.drop_last();
        lemma_values_are_the_parts(head, field, minimum, maximum);
        assert forall|i: int| 0 <= i < head.len() implies head[i] == #[trigger] parts[i] by {}
        assert(parts.last() == parts[parts.len() - 1]);
        let last = text::number(parts.last(), u32::MAX as nat);
        if field_values(parts, field, minimum, maximum) is Ok {
            let before = field_values(head, field, minimum, maximum)->Ok_0;
            let number = last->Some_0;
            assert(number <= u32::MAX);
            let added = number as u32;
            lemma_with_value(before, added);
            let values = field_values(parts, field, minimum, maximum)->Ok_0;
            assert forall|i: int| 0 <= i < parts.len() implies (text::number(
                #[trigger] parts[i],
                u32::MAX as nat,
            ) matches Some(n) && minimum <= n <= maximum) by {
                if i < head.len() {
                    assert(head[i] == parts[i]);
                }
            }
            assert forall|value: u32| #[trigger] values.contains(value) <==> exists|i: int|
                0 <= i < parts.len() && text::number(#[trigger] parts[i], u32::MAX as nat) == Some(
                    value as nat,
                ) by {
                if values.contains(value) {
                    if value == added {
                        assert(text::number(parts[parts.len() - 1], u32::MAX as nat) == Some(
                            value as nat,
                        ));
                    } else {
                        assert(before.contains(value));
                        let i = choose|i: int|
                            0 <= i < head.len() && text::number(
                                #[trigger] head[i],
                                u32::MAX as nat,
                            ) == Some(value as nat);
                        assert(parts[i] == head[i]);
                    }
                }
                if exists|i: int|
                    0 <= i < parts.len() && text::number(#[trigger] parts[i], u32::MAX as nat)
                        == Some(value as nat) {
                    let i = choose|i: int|
                        0 <= i < parts.len() && text::number(#[trigger] parts[i], u32::MAX as nat)
                            == Some(value as nat);
                    if i < head.len() {
                        assert(head[i] == parts[i]);
                        assert(before.contains(value));
                    } else {
                        assert(value == added);
                    }
                }
            }
        } else if forall|i: int|
            0 <= i < parts.len() ==> (text::number(#[trigger] parts[i], u32::MAX as nat) matches Some(
                n,
            ) && minimum <= n <= maximum) {
            assert forall|i: int| 0 <= i < head.len() implies (text::number(
                #[trigger] head[i],
                u32::MAX as nat,
            ) matches Some(n) && minimum <= n <= maximum) by {
                assert(head[i] == parts[i]);
            }
            assert(text::number(parts[parts.len() - 1], u32::MAX as nat) is Some);
        }
    } else {
        assert(field_values(parts, field, minimum, maximum) == Ok::<Seq<u32>, ScheduleProblem>(
            seq![],
        ));
    }
}

proof fn lemma_field_names(text: Seq<char>, field: FieldName, minimum: u32, maximum: u32)
    ensures
        read_field(text, field, minimum, maximum) is Ok <==> names_range(
            text,
            minimum as int,
            maximum as int,
        ),
        read_field(text, field, minimum, maximum) matches Ok(value) ==> (value is Any <==> text
            == "*"@) && forall|n: u32| #[trigger] value.has(n) <==> names_number(text, n as int),
{
    lemma_values_are_the_parts(text::pieces(text, ','), field, minimum, maximum);
}

/// A line is a schedule if it has six words: minute, hour, day, month and weekday in their ranges,
/// the minute not `*`, and `on` or `off` in letters of any case. What it says then matches exactly
/// the times whose minute, hour, day and weekday are named in the words for them.
pub proof fn law_line_matches_what_it_names(line: Seq<char>, time: DateTime)
    requires
        time.valid(),
    ensures
        ({
            let words = text::words_of(line);
            let command = text::lowered(words[5]);
            &&& read_schedule(line) is Ok <==> {
                &&& words.len() == 6
                &&& names_range(words[0], 0, 59)
                &&& words[0] != "*"@
                &&& names_range(words[1], 0, 23)
                &&& names_range(words[2], 1, 31)
                &&& names_range(words[3], 1, 12)
                &&& names_range(words[4], 0, 7)
                &&& command == "on"@ || command == "off"@
            }
            &&& read_schedule(line) matches Ok(schedule) ==> {
                &&& schedule.at(time) <==> {
                    &&& names_number(words[0], time.minute as int)
                    &&& names_number(words[1], time.hour as int)
                    &&& names_number(words[2], time.day as int)
                    &&& names_number(words[4], time.weekday()) || (time.weekday() == 0
                        && names_number(words[4], 7))
                }
                &&& schedule.command == ScheduleCommand::On <==> command == "on"@
                &&& schedule.command == ScheduleCommand::Off <==> command == "off"@
                &&& schedule.month_text == words[3]
            }
        }),
{
    let words = text::words_of(line);
    lemma_field_names(words[0], FieldName::Minute, 0, 59);
    lemma_field_names(words[1], FieldName::Hour, 0, 23);
    lemma_field_names(words[2], FieldName::DayOfMonth, 1, 31);
    lemma_field_names(words[3], FieldName::Month, 1, 12);
    lemma_field_names(words[4], FieldName::DayOfWeek, 0, 7);
    reveal_strlit("on");
    reveal_strlit("off");
    assert("on"@.len() == 2 && "off"@.len() == 3);
}

/// The next time is a full minute behind the minute asked from, it matches, and no full minute
/// between them does. There is one if any minute of the next twelve years matches, and it is no
/// later than that minute.
pub proof fn law_next_time_is_the_first(schedule: ScheduleView, time: DateTime, other: DateTime)
    requires
        time.valid(),
        other.valid(),
        other.second == 0,
        other.minute_number() > time.minute_number(),
    ensures
        match schedule.next_time(time) {
            Some(next) => {
                &&& next.valid()
                &&& next.second == 0
                &&& schedule.at(next)
                &&& next.minute_number() > time.minute_number()
                &&& next.year <= time.year + 12
                &&& next.year == time.year + 12 ==> next.month < time.month || (next.month
                    == time.month && next.day <= time.day)
                &&& other.minute_number() < next.minute_number() ==> !schedule.at(other)
            },
            None => other.year < time.year + 12 && time.year + 12 <= crate::calendar::MAX_YEAR
                ==> !schedule.at(other),
        },
{
    crate::calendar::law_months_later(time, 144);
    let later = time.months_later(144);
    match schedule.next_time(time) {
        Some(next) => {
            assert(schedule.first_match(time, next));
            let limit = later->Some_0;
            assert(limit.year == time.year + 12);
            crate::calendar::law_times_are_in_order(limit, next);
            if other.minute_number() < next.minute_number() {
                assert(other.second_number() <= next.second_number());
                assert(ScheduleView::in_reach(time, other));
            }
        },
        None => {
            if other.year < time.year + 12 && time.year + 12 <= crate::calendar::MAX_YEAR
                && schedule.at(other) {
                let limit = later->Some_0;
                assert(limit.year == time.year + 12);
                crate::calendar::law_times_are_in_order(other, limit);
                assert(ScheduleView::in_reach(time, other));
                lemma_some_match_is_first(
                    schedule,
                    time,
                    other,
                    (other.minute_number() - time.minute_number()) as nat,
                );
            }
        },
    }
}

/// Where some minute in reach matches, one is the first to match.
proof fn lemma_some_match_is_first(
    schedule: ScheduleView,
    time: DateTime,
    other: DateTime,
    distance: nat,
)
    requires
        ScheduleView::in_reach(time, other),
        schedule.at(other),
        distance == other.minute_number() - time.minute_number(),
    ensures
        exists|next: DateTime| schedule.first_match(time, next),
    decreases distance,
{
    if !schedule.first_match(time, other) {
        let earlier = choose|earlier: DateTime|
            #![trigger schedule.at(earlier)]
            ScheduleView::in_reach(time, earlier) && schedule.at(earlier)
                && earlier.minute_number() < other.minute_number();
        lemma_some_match_is_first(
            schedule,
            time,
            earlier,
            (earlier.minute_number() - time.minute_number()) as nat,
        );
    }
}

/// The schedules of lines behind others come behind theirs; a fault is that of the first faulty
/// line.
pub proof fn law_lines_add_up(a: Seq<Seq<char>>, b: Seq<Seq<char>>)
    ensures
        match (read_lines(a), read_lines(b)) {
            (Err(fault), _) => read_lines(a + b) == Err::<
                Seq<ScheduleView>,
                (nat, ScheduleProblem),
            >(fault),
            (Ok(_), Err(fault)) => read_lines(a + b) == Err::<
                Seq<ScheduleView>,
                (nat, ScheduleProblem),
            >((a.len() + fault.0, fault.1)),
            (Ok(first), Ok(second)) => read_lines(a + b) == Ok::<
                Seq<ScheduleView>,
                (nat, ScheduleProblem),
            >(first + second),
        },
    decreases b.len(),
{
    if b.len() == 0 {
        assert(a + b =~= a);
        if let Ok(first) = read_lines(a) {
            assert(read_lines(b) == Ok::<Seq<ScheduleView>, (nat, ScheduleProblem)>(seq![]));
            assert(first + seq![] =~= first);
        }
    } else {
        law_lines_add_up(a, b.drop_last());
        assert((a + b).drop_last() =~= a + b.drop_last());
        if let (Ok(first), Ok(second)) = (read_lines(a), read_lines(b.drop_last())) {
            if let Ok(schedule) = read_schedule(text::trimmed(b.last())) {
                assert((first + second).push(schedule) =~= first + second.push(schedule));
            }
        }
    }
}

/// A line gives one schedule, and none if it is empty or a comment; spaces around it do not count.
pub proof fn law_one_line(line: Seq<char>)
    ensures
        ({
            let bare = text::trimmed(line);
            if bare.len() == 0 || bare[0] == '#' {
                read_lines(seq![line]) == Ok::<Seq<ScheduleView>, (nat, ScheduleProblem)>(seq![])
            } else {
                match read_schedule(bare) {
                    Ok(schedule) => read_lines(seq![line]) == Ok::<
                        Seq<ScheduleView>,
                        (nat, ScheduleProblem),
                    >(seq![schedule]),
                    Err(problem) => read_lines(seq![line]) == Err::<
                        Seq<ScheduleView>,
                        (nat, ScheduleProblem),
                    >((1, problem)),
                }
            }
        }),
{
    assert(seq![line].drop_last() =~= seq![]);
    assert(read_lines(seq![]) == Ok::<Seq<ScheduleView>, (nat, ScheduleProblem)>(seq![]));
    if let Ok(schedule) = read_schedule(text::trimmed(line)) {
        assert(Seq::<ScheduleView>::empty().push(schedule) =~= seq![schedule]);
    }
}

/// The fault of a field is that of its first part that is no number, or none of its range.
pub proof fn law_fault_of_a_field(text: Seq<char>, field: FieldName, minimum: u32, maximum: u32)
    ensures
        read_field(text, field, minimum, maximum) matches Err(problem) ==> {
            let parts = text::pieces(text, ',');
            &&& text != "*"@
            &&& exists|i: int|
                {
                    &&& 0 <= i < parts.len()
                    &&& forall|k: int|
                        0 <= k < i ==> (text::number(#[trigger] parts[k], u32::MAX as nat) matches Some(
                            n,
                        ) && minimum <= n <= maximum)
                    &&& match text::number(#[trigger] parts[i], u32::MAX as nat) {
                        None => problem == (ScheduleProblem::InvalidValue {
                            field,
                            text: parts[i],
                        }),
                        Some(n) => !(minimum <= n <= maximum) && problem == (
                        ScheduleProblem::OutOfRange { field, value: n as u32, minimum, maximum }),
                    }
                }
        },
{
    if text != "*"@ {
        lemma_fault_of_parts(text::pieces(text, ','), field, minimum, maximum);
    }
}

proof fn lemma_fault_of_parts(
    parts: Seq<Seq<char>>,
    field: FieldName,
    minimum: u32,
    maximum: u32,
)
    ensures
        field_values(parts, field, minimum, maximum) matches Err(problem) ==> exists|i: int|
            {
                &&& 0 <= i < parts.len()
                &&& forall|k: int|
                    0 <= k < i ==> (text::number(#[trigger] parts[k], u32::MAX as nat) matches Some(
                        n,
                    ) && minimum <= n <= maximum)
                &&& match text::number(#[trigger] parts[i], u32::MAX as nat) {
                    None => problem == (ScheduleProblem::InvalidValue { field, text: parts[i] }),
                    Some(n) => !(minimum <= n <= maximum) && problem == (
                    ScheduleProblem::OutOfRange { field, value: n as u32, minimum, maximum }),
                }
            },
    decreases parts.len(),
{
    if parts.len() > 0 {
        let head = parts.drop_last();
        lemma_fault_of_parts(head, field, minimum, maximum);
        lemma_values_are_the_parts(head, field, minimum, maximum);
        match field_values(head, field, minimum, maximum) {
            Err(problem) => {
                let i = choose|i: int|
                    {
                        &&& 0 <= i < head.len()
                        &&& forall|k: int|
                            0 <= k < i ==> (text::number(
                                #[trigger] head[k],
                                u32::MAX as nat,
                            ) matches Some(n) && minimum <= n <= maximum)
                        &&& match text::number(#[trigger] head[i], u32::MAX as nat) {
                            None => problem == (ScheduleProblem::InvalidValue {
                                field,
                                text: head[i],
                            }),
                            Some(n) => !(minimum <= n <= maximum) && problem == (
                            ScheduleProblem::OutOfRange {
                                field,
                                value: n as u32,
                                minimum,
                                maximum,
                            }),
                        }
                    };
                assert(parts[i] == head[i]);
                assert forall|k: int| 0 <= k < i implies (text::number(
                    #[trigger] parts[k],
                    u32::MAX as nat,
                ) matches Some(n) && minimum <= n <= maximum) by {
                    assert(head[k] == parts[k]);
                }
            },
            Ok(_) => {
                assert(parts[parts.len() - 1] == parts.last());
                assert forall|k: int| 0 <= k < head.len() implies (text::number(
                    #[trigger] parts[k],
                    u32::MAX as nat,
                ) matches Some(n) && minimum <= n <= maximum) by {
                    assert(head[k] == parts[k]);
                }
            },
        }
    }
}

/// Of several faults of a line the first counts: the number of its words, then the minute, the
/// command, the month, the hour, the day and the weekday.
pub proof fn law_first_fault_of_a_line(line: Seq<char>)
    ensures
        read_schedule(line) matches Err(problem) ==> {
            let words = text::words_of(line);
            let command = text::lowered(words[5]);
            let minute = read_field(words[0], FieldName::Minute, 0, 59);
            let month = read_field(words[3], FieldName::Month, 1, 12);
            let hour = read_field(words[1], FieldName::Hour, 0, 23);
            let day = read_field(words[2], FieldName::DayOfMonth, 1, 31);
            let weekday = read_field(words[4], FieldName::DayOfWeek, 0, 7);
            let known = command == "on"@ || command == "off"@;
            &&& problem is FieldCount <==> words.len() != 6
            &&& problem matches ScheduleProblem::FieldCount { count } ==> count == words.len()
            &&& words.len() == 6 && minute is Err ==> problem == minute->Err_0
            &&& words.len() == 6 && words[0] == "*"@ ==> problem == ScheduleProblem::AnyMinute
            &&& problem is AnyMinute ==> words[0] == "*"@
            &&& problem is UnknownCommand <==> words.len() == 6 && minute is Ok && words[0] != "*"@
                && !known
            &&& problem matches ScheduleProblem::UnknownCommand { text } ==> text == command
            &&& words.len() == 6 && minute is Ok && words[0] != "*"@ && known ==> {
                &&& month is Err ==> problem == month->Err_0
                &&& month is Ok && hour is Err ==> problem == hour->Err_0
                &&& month is Ok && hour is Ok && day is Err ==> problem == day->Err_0
                &&& month is Ok && hour is Ok && day is Ok ==> weekday is Err && problem
                    == weekday->Err_0
            }
        },
{
    let words = text::words_of(line);
    law_fault_of_a_field(words[0], FieldName::Minute, 0, 59);
    law_fault_of_a_field(words[3], FieldName::Month, 1, 12);
    law_fault_of_a_field(words[1], FieldName::Hour, 0, 23);
    law_fault_of_a_field(words[2], FieldName::DayOfMonth, 1, 31);
    law_fault_of_a_field(words[4], FieldName::DayOfWeek, 0, 7);
    lemma_field_names(words[0], FieldName::Minute, 0, 59);
    lemma_field_names(words[1], FieldName::Hour, 0, 23);
    reveal_strlit("on");
    reveal_strlit("off");
    assert("on"@.len() == 2 && "off"@.len() == 3);
}

/// A schedule that is given by its fields has the words of all of them, in their order.
pub proof fn law_fields_are_joined(parts: Seq<String>, more: String)
    ensures
        joined(seq![]).len() == 0,
        text::words_of(joined(parts.push(more))) == text::words_of(joined(parts)) + text::words_of(
            more@,
        ),
{
    let all = parts.push(more);
    assert(all.drop_last() =~= parts);
    if parts.len() == 0 {
        assert(joined(parts) =~= seq![]);
        assert(text::words_of(seq![]) =~= seq![]);
        assert(seq![] + text::words_of(more@) =~= text::words_of(more@));
    } else {
        text::law_words_join(joined(parts), ' ', more@);
    }
}

/// Two texts one behind the other say what both say, however long they are.
pub proof fn law_files_add_up(a: Seq<char>, b: Seq<char>)
    requires
        a.len() > 0 ==> a.last() == '\n',
    ensures
        read_file(a) is Err ==> read_file(a + b) == read_file(a),
        read_file(a) is Ok && read_file(b) is Ok ==> read_file(a + b) == Ok::<
            Seq<ScheduleView>,
            (nat, ScheduleProblem),
        >(read_file(a)->Ok_0 + read_file(b)->Ok_0),
        read_file(a) is Ok && read_file(b) is Err ==> read_file(a + b) is Err,
{
    text::law_lines_join(a, b);
    law_lines_add_up(text::lines_of(a), text::lines_of(b));
}

/// A line of its own is read by itself.
pub proof fn law_file_of_one_line(line: Seq<char>)
    requires
        line.len() > 0,
        !line.contains('\n'),
    ensures
        ({
            let bare = text::trimmed(line);
            &&& bare.len() == 0 || bare[0] == '#' ==> read_file(line) == Ok::<
                Seq<ScheduleView>,
                (nat, ScheduleProblem),
            >(seq![])
            &&& bare.len() > 0 && bare[0] != '#' ==> match read_schedule(bare) {
                Ok(schedule) => read_file(line) == Ok::<
                    Seq<ScheduleView>,
                    (nat, ScheduleProblem),
                >(seq![schedule]),
                Err(problem) => read_file(line) == Err::<
                    Seq<ScheduleView>,
                    (nat, ScheduleProblem),
                >((1, problem)),
            }
        }),
{
    text::law_lines_hold_no_line_feed(line);
    law_one_line(line);
}

} // verus!
