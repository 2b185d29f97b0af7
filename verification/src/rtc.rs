//! The PCF8563 real-time clock: its time, its alarm and its timer.
use crate::calendar::{valid_date, valid_time, DateTime};
use crate::hardware::{
    law_fake_records, lemma_ran_cut, lemma_ran_join, lemma_ran_one, lemma_ran_push, ran,
    read_script, read_sequential, Event, FakeI2cDevice, FakeState, I2cDevice,
};
use crate::outcome::failure;
use vstd::prelude::*;

verus! {

pub const CONTROL_STATUS_2: u8 = 1;

pub const TIME_START: u8 = 2;

pub const ALARM_MINUTE: u8 = 9;

pub const ALARM_HOUR: u8 = 10;

pub const ALARM_DAY: u8 = 11;

pub const ALARM_WEEKDAY: u8 = 12;

pub const TIMER_CONTROL: u8 = 14;

pub const TIMER_VALUE: u8 = 15;

pub const ALARM_FLAG: u8 = 0x08;

pub const TIMER_FLAG: u8 = 0x04;

/// Why registers do not hold a time, or a time does not fit in the registers.
#[derive(Debug, Clone, Copy, PartialEq, Eq, Structural)]
pub enum RtcTimeError {
    InvalidDate { year: i32, month: u32, day: u32 },
    InvalidTime { hour: u32, minute: u32, second: u32 },
    /// A year outside 2000 to 2099.
    YearOutOfRange { year: i32 },
}

/// Why the clock was not read or set.
#[derive(Debug)]
pub enum RtcError<E> {
    Time(RtcTimeError),
    /// A timer of no length was asked for; nothing was sent.
    ZeroInterval,
    /// A transaction failed.
    Bus(E),
}

/// The error of the transaction, where that is what went wrong.
pub open spec fn bus_failure<T, E>(r: Result<T, RtcError<E>>) -> Option<E> {
    match r {
        Err(RtcError::Bus(error)) => Some(error),
        _ => None,
    }
}

/// The value of two decimal digits, four bits each.
pub open spec fn from_bcd(value: u8) -> int {
    value % 16 + value / 16 * 10
}

/// A value as decimal digits, four bits each. The tens of 160 and more lose their highest bit.
pub open spec fn to_bcd(value: int) -> u8 {
    (value / 10 % 16 * 16 + value % 10) as u8
}

pub fn bcd_to_decimal(value: u8) -> (r: u8)
    ensures
        r == from_bcd(value),
{
    value % 16 + value / 16 * 10
}

pub fn decimal_to_bcd(value: u8) -> (r: u8)
    ensures
        r == to_bcd(value as int),
{
    value / 10 % 16 * 16 + value % 10
}

/// What the time registers say, whether there is such a time or not.
pub open spec fn registered(registers: Seq<u8>) -> DateTime {
    DateTime {
        year: (2000 + from_bcd(registers[6])) as i32,
        month: from_bcd(registers[5] & 0x1f) as u32,
        day: from_bcd(registers[3] & 0x3f) as u32,
        hour: from_bcd(registers[2] & 0x3f) as u32,
        minute: from_bcd(registers[1] & 0x7f) as u32,
        second: from_bcd(registers[0] & 0x7f) as u32,
    }
}

/// The time that the registers hold.
pub open spec fn read_time(registers: Seq<u8>) -> Result<DateTime, RtcTimeError> {
    let time = registered(registers);
    if !valid_date(time.year as int, time.month as int, time.day as int) {
        Err(RtcTimeError::InvalidDate { year: time.year, month: time.month, day: time.day })
    } else if !valid_time(time.hour as int, time.minute as int, time.second as int) {
        Err(
            RtcTimeError::InvalidTime {
                hour: time.hour,
                minute: time.minute,
                second: time.second,
            },
        )
    } else {
        Ok(time)
    }
}

/// The registers that hold a time.
pub open spec fn registers_of(time: DateTime) -> Seq<u8> {
    seq![
        to_bcd(time.second as int),
        to_bcd(time.minute as int),
        to_bcd(time.hour as int),
        to_bcd(time.day as int),
        to_bcd(time.weekday()),
        to_bcd(time.month as int),
        to_bcd(time.year - 2000),
    ]
}

/// Whether the two digits of a year in the registers can hold the year.
pub open spec fn storable(time: DateTime) -> bool {
    2000 <= time.year <= 2099
}

/// Reads the time out of the registers.
pub fn decode_time(registers: [u8; 7]) -> (r: Result<DateTime, RtcTimeError>)
    ensures
        r == read_time(registers@),
{
    let second = bcd_to_decimal(registers[0] & 0x7f) as u32;
    let minute = bcd_to_decimal(registers[1] & 0x7f) as u32;
    let hour = bcd_to_decimal(registers[2] & 0x3f) as u32;
    let day = bcd_to_decimal(registers[3] & 0x3f) as u32;
    let month = bcd_to_decimal(registers[5] & 0x1f) as u32;
    let year = 2000 + bcd_to_decimal(registers[6]) as i32;
    if !DateTime::has_date(year, month, day) {
        return Err(RtcTimeError::InvalidDate { year, month, day });
    }
    match DateTime::new(year, month, day, hour, minute, second) {
        Some(time) => Ok(time),
        None => Err(RtcTimeError::InvalidTime { hour, minute, second }),
    }
}

/// The registers for a time.
pub fn encode_time(time: DateTime) -> (r: Result<[u8; 7], RtcTimeError>)
    requires
        time.valid(),
    ensures
        !storable(time) ==> r == Err::<[u8; 7], RtcTimeError>(
            RtcTimeError::YearOutOfRange { year: time.year },
        ),
        storable(time) ==> r is Ok && r->Ok_0@ == registers_of(time),
{
    if !(2000 <= time.year && time.year <= 2099) {
        return Err(RtcTimeError::YearOutOfRange { year: time.year });
    }
    let weekday = time.weekday_from_sunday() as u8;
    let registers: [u8; 7] = [
        decimal_to_bcd(time.second as u8),
        decimal_to_bcd(time.minute as u8),
        decimal_to_bcd(time.hour as u8),
        decimal_to_bcd(time.day as u8),
        decimal_to_bcd(weekday),
        decimal_to_bcd(time.month as u8),
        decimal_to_bcd((time.year - 2000) as u8),
    ];
    assert(registers@ =~= registers_of(time));
    Ok(registers)
}

/// A number below 160 comes back out of its decimal digits.
pub proof fn law_bcd_round_trip(value: int)
    requires
        0 <= value < 160,
    ensures
        from_bcd(to_bcd(value)) == value,
{
}

/// The registers for a time hold that time.
pub proof fn law_time_round_trip(time: DateTime)
    requires
        time.valid(),
        storable(time),
    ensures
        read_time(registers_of(time)) == Ok::<DateTime, RtcTimeError>(time),
{
    let registers = registers_of(time);
    lemma_masked_digits(time.second as int);
    lemma_masked_digits(time.minute as int);
    lemma_masked_digits(time.hour as int);
    lemma_masked_digits(time.day as int);
    lemma_masked_digits(time.month as int);
    law_bcd_round_trip(time.year - 2000);
    assert(registers[0] == to_bcd(time.second as int));
    assert(registers[1] == to_bcd(time.minute as int));
    assert(registers[2] == to_bcd(time.hour as int));
    assert(registers[3] == to_bcd(time.day as int));
    assert(registers[5] == to_bcd(time.month as int));
    assert(registers[6] == to_bcd(time.year - 2000));
    assert(registered(registers) == time);
}

/// The bits that a register does not use take nothing from a value that the register can hold.
proof fn lemma_masked_digits(value: int)
    requires
        0 <= value < 60,
    ensures
        from_bcd(to_bcd(value) & 0x7f) == value,
        value < 40 ==> from_bcd(to_bcd(value) & 0x3f) == value,
        value < 20 ==> from_bcd(to_bcd(value) & 0x1f) == value,
{
    let digits = to_bcd(value);
    assert(digits < 0x60 ==> digits & 0x7f == digits) by (bit_vector);
    assert(digits < 0x40 ==> digits & 0x3f == digits) by (bit_vector);
    assert(digits < 0x20 ==> digits & 0x1f == digits) by (bit_vector);
    law_bcd_round_trip(value);
}

/// Writing a register.
pub open spec fn write_event<E>(register: u8, value: u8) -> Event<E> {
    Event::WriteByteData { register, value, error: None }
}

/// Writing registers, one after the other.
pub open spec fn write_script<E>(writes: Seq<(u8, u8)>) -> Seq<Event<E>> {
    Seq::new(writes.len(), |i: int| write_event(writes[i].0, writes[i].1))
}

/// Setting the time registers.
pub open spec fn time_writes(time: DateTime) -> Seq<(u8, u8)> {
    let registers = registers_of(time);
    Seq::new(7, |i: int| ((TIME_START + i) as u8, registers[i]))
}

/// Switching every part of the alarm off.
pub open spec fn no_alarm_writes() -> Seq<(u8, u8)> {
    seq![(ALARM_MINUTE, 0x80), (ALARM_HOUR, 0x80), (ALARM_DAY, 0x80), (ALARM_WEEKDAY, 0x80)]
}

/// Setting the alarm: the hour and the minute, and the day or the weekday where they count.
pub open spec fn alarm_writes(time: DateTime, include_day: bool, include_weekday: bool) -> Seq<
    (u8, u8),
> {
    seq![
        (ALARM_MINUTE, to_bcd(time.minute as int)),
        (ALARM_HOUR, to_bcd(time.hour as int)),
        (
            ALARM_DAY,
            if include_day {
                to_bcd(time.day as int)
            } else {
                0x80
            },
        ),
        (
            ALARM_WEEKDAY,
            if include_weekday {
                to_bcd(time.weekday())
            } else {
                0x80
            },
        ),
    ]
}

/// Setting the timer.
pub open spec fn timer_writes(control: u8, value: u8) -> Seq<(u8, u8)> {
    seq![(TIMER_CONTROL, control), (TIMER_VALUE, value)]
}

/// The control of a running timer: one that counts seconds, or one that counts minutes.
pub open spec fn timer_source(seconds: bool) -> u8 {
    if seconds {
        0x82
    } else {
        0x83
    }
}

/// Reading `status` and writing it back with the bits of `keep` kept and those of `set` set.
pub open spec fn status_script<E>(status: u8, keep: u8, set: u8) -> Seq<Event<E>> {
    seq![
        Event::ReadByteData { register: CONTROL_STATUS_2, reply: Ok(status) },
        write_event(CONTROL_STATUS_2, (status & keep) | set),
    ]
}

/// Clearing the flags that the alarm and the timer have left.
pub open spec fn flags_script<E>(status: u8) -> Seq<Event<E>> {
    status_script(status, 0xf3, 0)
}

/// Switching the alarm off.
pub open spec fn no_alarm_script<E>(status: u8) -> Seq<Event<E>> {
    write_script(no_alarm_writes()) + status_script(status, 0xe5, 0)
}

/// Setting the alarm.
pub open spec fn alarm_script<E>(
    time: DateTime,
    include_day: bool,
    include_weekday: bool,
    status: u8,
) -> Seq<Event<E>> {
    write_script(alarm_writes(time, include_day, include_weekday)) + status_script(
        status,
        0xe7,
        0x02,
    )
}

/// Switching the timer off.
pub open spec fn no_timer_script<E>(status: u8) -> Seq<Event<E>> {
    status_script(status, 0xea, 0) + write_script(timer_writes(0x03, 0))
}

/// Starting the timer.
pub open spec fn timer_script<E>(value: u8, seconds: bool, status: u8) -> Seq<Event<E>> {
    status_script(status, 0xea, 0x01) + write_script(
        timer_writes(timer_source(seconds), to_bcd(value as int)),
    )
}

/// Clearing the flags of the alarm and the timer leaves the other bits of the status alone, and
/// so do the other changes but for the bits they are for: the alarm's interrupt (`0x02`) and flag
/// (`0x08`), the timer's interrupt (`0x01`) and flag (`0x04`), and the pulse mode (`0x10`).
pub proof fn law_status_bits(status: u8)
    ensures
        ((status & 0xf3) | 0) & (ALARM_FLAG | TIMER_FLAG) == 0,
        ((status & 0xf3) | 0) & 0xf3 == status & 0xf3,
        ((status & 0xe5) | 0) & 0x1a == 0,
        ((status & 0xe5) | 0) & 0xe5 == status & 0xe5,
        ((status & 0xea) | 0) & 0x15 == 0,
        ((status & 0xea) | 0) & 0xea == status & 0xea,
        ((status & 0xea) | 0x01) & 0x15 == 0x01,
        ((status & 0xea) | 0x01) & 0xea == status & 0xea,
        ((status & 0xe7) | 0x02) & 0x1a == 0x02,
        ((status & 0xe7) | 0x02) & 0xe5 == status & 0xe5,
{
    assert({
        &&& ((status & 0xf3) | 0) & (0x08u8 | 0x04u8) == 0
        &&& ((status & 0xf3) | 0) & 0xf3 == status & 0xf3
        &&& ((status & 0xe5) | 0) & 0x1a == 0
        &&& ((status & 0xe5) | 0) & 0xe5 == status & 0xe5
        &&& ((status & 0xea) | 0) & 0x15 == 0
        &&& ((status & 0xea) | 0) & 0xea == status & 0xea
        &&& ((status & 0xea) | 0x01) & 0x15 == 0x01
        &&& ((status & 0xea) | 0x01) & 0xea == status & 0xea
        &&& ((status & 0xe7) | 0x02) & 0x1a == 0x02
        &&& ((status & 0xe7) | 0x02) & 0xe5 == status & 0xe5
    }) by (bit_vector);
}

/// What is read behind the time that was written is that time, where the device does what it is
/// told.
pub proof fn law_written_time_reads_back(
    before: FakeI2cDevice,
    time: DateTime,
    written: FakeI2cDevice,
    bytes: Seq<u8>,
    after: FakeI2cDevice,
)
    requires
        time.valid(),
        storable(time),
        ran(before, write_script(time_writes(time)), written, None),
        bytes.len() == 7,
        ran(written, read_script(TIME_START, bytes), after, None),
    ensures
        read_time(bytes) == Ok::<DateTime, RtcTimeError>(time),
{
    let writes = write_script::<()>(time_writes(time));
    let reads = read_script::<()>(TIME_START, bytes);
    law_fake_records(before, writes, written);
    law_fake_records(written, reads, after);
    lemma_written(before@, time, 7);
    assert(writes.take(7) =~= writes);
    assert forall|i: int| 0 <= i < 7 implies bytes[i] == registers_of(time)[i] by {
        lemma_pointed(written@, bytes, i);
        assert(written@.after_all(reads.take(i + 1)).allows(reads[i + 1]));
    }
    assert(bytes =~= registers_of(time));
    law_time_round_trip(time);
}

/// The first `n` time registers after as many writes.
proof fn lemma_written(before: FakeState, time: DateTime, n: int)
    requires
        0 <= n <= 7,
    ensures
        forall|i: int|
            #![trigger registers_of(time)[i]]
            0 <= i < n ==> before.after_all(write_script(time_writes(time)).take(n)).register(
                (TIME_START + i) as u8,
            ) == registers_of(time)[i],
    decreases n,
{
    if n > 0 {
        let writes = write_script::<()>(time_writes(time));
        lemma_written(before, time, n - 1);
        assert(writes.take(n).drop_last() =~= writes.take(n - 1));
    }
}

/// The registers and the pointer once the pointer was set and `n` bytes were read.
proof fn lemma_pointed(before: FakeState, bytes: Seq<u8>, n: int)
    requires
        bytes.len() == 7,
        0 <= n <= 7,
    ensures
        ({
            let state = before.after_all(read_script(TIME_START, bytes).take(n + 1));
            state.registers == before.registers && state.pointer == TIME_START + n
        }),
    decreases n,
{
    let reads = read_script::<()>(TIME_START, bytes);
    if n > 0 {
        lemma_pointed(before, bytes, n - 1);
        assert(reads.take(n + 1).drop_last() =~= reads.take(n));
    } else {
        assert(reads.take(1).drop_last() =~= Seq::empty());
        assert(before.after_all(Seq::empty()) == before);
    }
}

/// The clock.
pub struct Pcf8563<D> {
    device: D,
}

impl<D> Pcf8563<D> {
    /// The device that the clock is reached through.
    pub closed spec fn device(self) -> D {
        self.device
    }
}

impl<D: I2cDevice> Pcf8563<D> {
    pub fn new(device: D) -> (r: Self)
        ensures
            r.device() == device,
    {
        Pcf8563 { device }
    }

    /// Writes registers until one fails.
    fn write_registers(&mut self, writes: &[(u8, u8)]) -> (r: Result<(), D::Error>)
        ensures
            ran(old(self).device(), write_script(writes@), final(self).device(), failure(r)),
    {
        let ghost start = self.device();
        let ghost script: Seq<Event<D::Error>> = write_script(writes@);
        let mut i: usize = 0;
        assert(script.take(0) =~= Seq::empty());
        while i < writes.len()
            invariant
                start == old(self).device(),
                script == write_script::<D::Error>(writes@),
                i <= writes@.len(),
                ran(start, script.take(i as int), self.device(), None),
            decreases writes@.len() - i,
        {
            let ghost middle = self.device();
            let (register, value) = writes[i];
            let result = self.device.write_byte_data(register, value);
            proof {
                let done = script.take(i as int);
                let event = script[i as int];
                lemma_ran_push(start, done, middle, event, self.device(), failure(result));
                assert(done.push(event) =~= script.take(i + 1));
            }
            match result {
                Ok(()) => {},
                Err(error) => {
                    proof {
                        let (sent, rest) = (script.take(i + 1), script.skip(i + 1));
                        lemma_ran_cut(start, sent, error, self.device(), rest);
                        assert(sent + rest =~= script);
                    }
                    return Err(error);
                },
            }
            i += 1;
        }
        assert(script.take(i as int) =~= script);
        Ok(())
    }

    /// Reads the status and writes it back changed.
    fn change_status(&mut self, keep: u8, set: u8) -> (r: Result<(), D::Error>)
        ensures
            exists|status: u8|
                #[trigger] ran(
                    old(self).device(),
                    status_script(status, keep, set),
                    final(self).device(),
                    failure(r),
                ),
    {
        let ghost start = self.device();
        match self.device.read_byte_data(CONTROL_STATUS_2) {
            Ok(status) => {
                let ghost middle = self.device();
                let ghost read = Event::ReadByteData {
                    register: CONTROL_STATUS_2,
                    reply: Ok(status),
                };
                let changed = (status & keep) | set;
                let result = self.device.write_byte_data(CONTROL_STATUS_2, changed);
                proof {
                    let write = write_event(CONTROL_STATUS_2, changed);
                    lemma_ran_one(start, read, middle, None);
                    let first = seq![read];
                    lemma_ran_push(start, first, middle, write, self.device(), failure(result));
                    assert(first.push(write) =~= status_script(status, keep, set));
                    assert(ran(
                        start,
                        status_script(status, keep, set),
                        self.device(),
                        failure(result),
                    ));
                }
                result
            },
            Err(error) => {
                proof {
                    let script: Seq<Event<D::Error>> = status_script(0, keep, set);
                    lemma_ran_one(start, script[0], self.device(), Some(error));
                    lemma_ran_cut(start, seq![script[0]], error, self.device(), seq![script[1]]);
                    assert(seq![script[0]] + seq![script[1]] =~= script);
                }
                Err(error)
            },
        }
    }

    /// Reads the time.
    pub fn read_utc(&mut self) -> (r: Result<DateTime, RtcError<D::Error>>)
        ensures
            exists|bytes: Seq<u8>|
                {
                    &&& bytes.len() == 7
                    &&& #[trigger] ran(
                        old(self).device(),
                        read_script(TIME_START, bytes),
                        final(self).device(),
                        bus_failure(r),
                    )
                    &&& bus_failure(r) is None ==> r == (match read_time(bytes) {
                        Ok(time) => Ok::<DateTime, RtcError<D::Error>>(time),
                        Err(error) => Err(RtcError::Time(error)),
                    })
                },
    {
        let ghost start = self.device();
        let read = read_sequential(&mut self.device, TIME_START, 7);
        let ghost bytes = choose|bytes: Seq<u8>|
            {
                &&& bytes.len() == 7
                &&& #[trigger] ran(
                    start,
                    read_script(TIME_START, bytes),
                    self.device(),
                    failure(read),
                )
                &&& read matches Ok(got) ==> got@ == bytes
            };
        let result = match read {
            Ok(bytes) => {
                let registers: [u8; 7] = [
                    bytes[0],
                    bytes[1],
                    bytes[2],
                    bytes[3],
                    bytes[4],
                    bytes[5],
                    bytes[6],
                ];
                assert(registers@ =~= bytes@);
                match decode_time(registers) {
                    Ok(time) => Ok(time),
                    Err(error) => Err(RtcError::Time(error)),
                }
            },
            Err(error) => Err(RtcError::Bus(error)),
        };
        assert(ran(start, read_script(TIME_START, bytes), self.device(), bus_failure(result)));
        result
    }

    /// Sets the time.
    pub fn write_utc(&mut self, time: DateTime) -> (r: Result<(), RtcError<D::Error>>)
        requires
            time.valid(),
        ensures
            !storable(time) ==> r == Err::<(), RtcError<D::Error>>(
                RtcError::Time(RtcTimeError::YearOutOfRange { year: time.year }),
            ) && *final(self) == *old(self),
            storable(time) ==> (r is Err ==> r->Err_0 is Bus) && ran(
                old(self).device(),
                write_script(time_writes(time)),
                final(self).device(),
                bus_failure(r),
            ),
    {
        match encode_time(time) {
            Ok(registers) => {
                let writes: [(u8, u8); 7] = [
                    (TIME_START, registers[0]),
                    (TIME_START + 1, registers[1]),
                    (TIME_START + 2, registers[2]),
                    (TIME_START + 3, registers[3]),
                    (TIME_START + 4, registers[4]),
                    (TIME_START + 5, registers[5]),
                    (TIME_START + 6, registers[6]),
                ];
                assert(writes@ =~= time_writes(time));
                match self.write_registers(writes.as_slice()) {
                    Ok(()) => Ok(()),
                    Err(error) => Err(RtcError::Bus(error)),
                }
            },
            Err(error) => Err(RtcError::Time(error)),
        }
    }

    /// Clears the flags that the alarm and the timer have left.
    pub fn clear_event_flags(&mut self) -> (r: Result<(), D::Error>)
        ensures
            exists|status: u8|
                #[trigger] ran(
                    old(self).device(),
                    flags_script(status),
                    final(self).device(),
                    failure(r),
                ),
    {
        let ghost start = self.device();
        let result = self.change_status(0xf3, 0);
        proof {
            let status = choose|status: u8|
                #[trigger] ran(start, status_script(status, 0xf3, 0), self.device(), failure(result));
            assert(ran(start, flags_script(status), self.device(), failure(result)));
        }
        result
    }

    /// Switches the alarm off.
    pub fn clear_alarm(&mut self) -> (r: Result<(), D::Error>)
        ensures
            exists|status: u8|
                #[trigger] ran(
                    old(self).device(),
                    no_alarm_script(status),
                    final(self).device(),
                    failure(r),
                ),
    {
        let writes: [(u8, u8); 4] = [
            (ALARM_MINUTE, 0x80),
            (ALARM_HOUR, 0x80),
            (ALARM_DAY, 0x80),
            (ALARM_WEEKDAY, 0x80),
        ];
        assert(writes@ =~= no_alarm_writes());
        let ghost start = self.device();
        let result = self.write_and_change_status(writes.as_slice(), 0xe5, 0);
        proof {
            let status = choose|status: u8|
                #[trigger] ran(start, write_script(no_alarm_writes()) + status_script(status, 0xe5, 0), self.device(), failure(result));
            assert(ran(start, no_alarm_script(status), self.device(), failure(result)));
        }
        result
    }

    /// Writes registers and changes the status.
    fn write_and_change_status(&mut self, writes: &[(u8, u8)], keep: u8, set: u8) -> (r: Result<
        (),
        D::Error,
    >)
        ensures
            exists|status: u8|
                #[trigger] ran(
                    old(self).device(),
                    write_script(writes@) + status_script(status, keep, set),
                    final(self).device(),
                    failure(r),
                ),
    {
        let ghost start = self.device();
        let ghost first: Seq<Event<D::Error>> = write_script(writes@);
        match self.write_registers(writes) {
            Ok(()) => {},
            Err(error) => {
                proof {
                    lemma_ran_cut(start, first, error, self.device(), status_script(0, keep, set));
                }
                return Err(error);
            },
        }
        let ghost middle = self.device();
        let result = self.change_status(keep, set);
        proof {
            let status = choose|status: u8|
                #[trigger] ran(
                    middle,
                    status_script(status, keep, set),
                    self.device(),
                    failure(result),
                );
            let second = status_script(status, keep, set);
            lemma_ran_join(start, first, middle, second, self.device(), failure(result));
        }
        result
    }

    /// Changes the status and writes registers.
    fn change_status_and_write(&mut self, keep: u8, set: u8, writes: &[(u8, u8)]) -> (r: Result<
        (),
        D::Error,
    >)
        ensures
            exists|status: u8|
                #[trigger] ran(
                    old(self).device(),
                    status_script(status, keep, set) + write_script(writes@),
                    final(self).device(),
                    failure(r),
                ),
    {
        let ghost start = self.device();
        let ghost second: Seq<Event<D::Error>> = write_script(writes@);
        let changed = self.change_status(keep, set);
        let ghost middle = self.device();
        let ghost status = choose|status: u8|
            #[trigger] ran(start, status_script(status, keep, set), middle, failure(changed));
        let ghost first = status_script(status, keep, set);
        match changed {
            Ok(()) => {},
            Err(error) => {
                proof {
                    lemma_ran_cut(start, first, error, middle, second);
                }
                return Err(error);
            },
        }
        let result = self.write_registers(writes);
        proof {
            lemma_ran_join(start, first, middle, second, self.device(), failure(result));
        }
        result
    }

    /// Switches the timer off.
    pub fn clear_timer(&mut self) -> (r: Result<(), D::Error>)
        ensures
            exists|status: u8|
                #[trigger] ran(
                    old(self).device(),
                    no_timer_script(status),
                    final(self).device(),
                    failure(r),
                ),
    {
        let writes: [(u8, u8); 2] = [(TIMER_CONTROL, 0x03), (TIMER_VALUE, 0x00)];
        assert(writes@ =~= timer_writes(0x03, 0));
        let ghost start = self.device();
        let result = self.change_status_and_write(0xea, 0, writes.as_slice());
        proof {
            let status = choose|status: u8|
                #[trigger] ran(start, status_script(status, 0xea, 0) + write_script(timer_writes(0x03, 0)), self.device(), failure(result));
            assert(ran(start, no_timer_script(status), self.device(), failure(result)));
        }
        result
    }

    /// Starts the timer, in seconds or in minutes. The clock is given the decimal digits of the
    /// value, also above 99.
    pub fn set_timer_interval(&mut self, value: u8, seconds: bool) -> (r: Result<
        (),
        RtcError<D::Error>,
    >)
        ensures
            value == 0 ==> r == Err::<(), RtcError<D::Error>>(RtcError::ZeroInterval)
                && *final(self) == *old(self),
            value != 0 ==> (r is Err ==> r->Err_0 is Bus) && exists|status: u8|
                #[trigger] ran(
                    old(self).device(),
                    timer_script(value, seconds, status),
                    final(self).device(),
                    bus_failure(r),
                ),
    {
        if value == 0 {
            return Err(RtcError::ZeroInterval);
        }
        let control: u8 = if seconds {
            0x82
        } else {
            0x83
        };
        assert(control == timer_source(seconds));
        let digits = decimal_to_bcd(value);
        let writes: [(u8, u8); 2] = [(TIMER_CONTROL, control), (TIMER_VALUE, digits)];
        assert(writes@ =~= timer_writes(control, digits));
        let ghost start = self.device();
        let changed = self.change_status_and_write(0xea, 0x01, writes.as_slice());
        let ghost second: Seq<Event<D::Error>> = write_script(timer_writes(control, digits));
        let ghost status = choose|status: u8|
            #[trigger] ran(
                start,
                status_script(status, 0xea, 0x01) + second,
                self.device(),
                failure(changed),
            );
        let result = match changed {
            Ok(()) => Ok(()),
            Err(error) => Err(RtcError::Bus(error)),
        };
        assert(ran(
            start,
            timer_script(value, seconds, status),
            self.device(),
            bus_failure(result),
        ));
        result
    }

    /// Sets the alarm to the hour and the minute of `time`, and to its day of the month or of the
    /// week where they count.
    pub fn set_alarm_utc(
        &mut self,
        time: DateTime,
        include_day: bool,
        include_weekday: bool,
    ) -> (r: Result<(), D::Error>)
        requires
            time.valid(),
        ensures
            exists|status: u8|
                #[trigger] ran(
                    old(self).device(),
                    alarm_script(time, include_day, include_weekday, status),
                    final(self).device(),
                    failure(r),
                ),
    {
        let weekday = time.weekday_from_sunday() as u8;
        let writes: [(u8, u8); 4] = [
            (ALARM_MINUTE, decimal_to_bcd(time.minute as u8)),
            (ALARM_HOUR, decimal_to_bcd(time.hour as u8)),
            (
                ALARM_DAY,
                if include_day {
                    decimal_to_bcd(time.day as u8)
                } else {
                    0x80
                },
            ),
            (
                ALARM_WEEKDAY,
                if include_weekday {
                    decimal_to_bcd(weekday)
                } else {
                    0x80
                },
            ),
        ];
        assert(writes@ =~= alarm_writes(time, include_day, include_weekday));
        let ghost start = self.device();
        let result = self.write_and_change_status(writes.as_slice(), 0xe7, 0x02);
        proof {
            let status = choose|status: u8|
                #[trigger] ran(start, write_script(writes@) + status_script(status, 0xe7, 0x02), self.device(), failure(result));
            assert(ran(start, alarm_script(time, include_day, include_weekday, status), self.device(), failure(result)));
        }
        result
    }

    pub fn into_inner(self) -> (r: D)
        ensures
            r == self.device(),
    {
        self.device
    }
}

/// Each part of a time stands in its register as two decimal digits: the tens in the upper half of
/// the byte, the ones in the lower half.
pub proof fn law_registers_hold_the_digits(time: DateTime)
    requires
        time.valid(),
        storable(time),
    ensures
        ({
            let registers = registers_of(time);
            &&& registers.len() == 7
            &&& registers[0] / 16 == time.second / 10 && registers[0] % 16 == time.second % 10
            &&& registers[1] / 16 == time.minute / 10 && registers[1] % 16 == time.minute % 10
            &&& registers[2] / 16 == time.hour / 10 && registers[2] % 16 == time.hour % 10
            &&& registers[3] / 16 == time.day / 10 && registers[3] % 16 == time.day % 10
            &&& registers[4] == time.weekday()
            &&& registers[5] / 16 == time.month / 10 && registers[5] % 16 == time.month % 10
            &&& registers[6] / 16 == (time.year - 2000) / 10
            &&& registers[6] % 16 == (time.year - 2000) % 10
        }),
{
    law_digits(time.second as int);
    law_digits(time.minute as int);
    law_digits(time.hour as int);
    law_digits(time.day as int);
    law_digits(time.weekday());
    law_digits(time.month as int);
    law_digits(time.year - 2000);
    assert(0 <= time.weekday() < 7);
}

/// A number below 100 stands as its tens in the upper half of the byte and its ones in the lower.
pub proof fn law_digits(value: int)
    requires
        0 <= value < 100,
    ensures
        to_bcd(value) / 16 == value / 10,
        to_bcd(value) % 16 == value % 10,
        to_bcd(value) == 16 * (value / 10) + value % 10,
        from_bcd(to_bcd(value)) == value,
{
}

/// The time registers are read by their digits; the bits that they have beside them do not count.
pub proof fn law_registers_are_read_by_their_digits(registers: Seq<u8>)
    requires
        registers.len() == 7,
    ensures
        ({
            let time = registered(registers);
            &&& time.second == registers[0] % 128 / 16 * 10 + registers[0] % 16
            &&& time.minute == registers[1] % 128 / 16 * 10 + registers[1] % 16
            &&& time.hour == registers[2] % 64 / 16 * 10 + registers[2] % 16
            &&& time.day == registers[3] % 64 / 16 * 10 + registers[3] % 16
            &&& time.month == registers[5] % 32 / 16 * 10 + registers[5] % 16
            &&& time.year == 2000 + registers[6] / 16 * 10 + registers[6] % 16
            &&& match read_time(registers) {
                Ok(read) => read == time && time.valid(),
                Err(RtcTimeError::InvalidDate { year, month, day }) => year == time.year && month
                    == time.month && day == time.day && !valid_date(
                    year as int,
                    month as int,
                    day as int,
                ),
                Err(RtcTimeError::InvalidTime { hour, minute, second }) => hour == time.hour
                    && minute == time.minute && second == time.second && !valid_time(
                    hour as int,
                    minute as int,
                    second as int,
                ),
                Err(RtcTimeError::YearOutOfRange { .. }) => false,
            }
        }),
{
    lemma_masks(registers[0]);
    lemma_masks(registers[1]);
    lemma_masks(registers[2]);
    lemma_masks(registers[3]);
    lemma_masks(registers[5]);
}

proof fn lemma_masks(byte: u8)
    ensures
        byte & 0x7f == byte % 128,
        byte & 0x3f == byte % 64,
        byte & 0x1f == byte % 32,
        byte % 128 % 16 == byte % 16,
        byte % 64 % 16 == byte % 16,
        byte % 32 % 16 == byte % 16,
{
    assert(byte & 0x7f == byte % 128 && byte & 0x3f == byte % 64 && byte & 0x1f == byte % 32 && byte
        % 128 % 16 == byte % 16 && byte % 64 % 16 == byte % 16 && byte % 32 % 16 == byte % 16)
        by (bit_vector);
}

/// One more transaction with the fake.
proof fn lemma_after_push(before: FakeState, events: Seq<Event<()>>, event: Event<()>)
    ensures
        before.after_all(events.push(event)) == before.after_all(events).after(event),
{
    assert(events.push(event).drop_last() =~= events);
}

/// What registers hold once they were written, one after the other.
proof fn lemma_after_writes(before: FakeState, writes: Seq<(u8, u8)>, register: u8)
    ensures
        ({
            let after = before.after_all(write_script(writes));
            &&& (forall|i: int| 0 <= i < writes.len() ==> (#[trigger] writes[i]).0 != register)
                ==> after.register(register) == before.register(register)
            &&& forall|i: int|
                0 <= i < writes.len() && (#[trigger] writes[i]).0 == register && (forall|k: int|
                    i < k < writes.len() ==> (#[trigger] writes[k]).0 != register)
                    ==> after.register(register) == writes[i].1
        }),
    decreases writes.len(),
{
    let script = write_script::<()>(writes);
    if writes.len() > 0 {
        let head = writes.drop_last();
        let (at, value) = writes.last();
        lemma_after_writes(before, head, register);
        assert(script =~= write_script::<()>(head).push(write_event(at, value)));
        lemma_after_push(before, write_script(head), write_event(at, value));
        assert(writes[writes.len() - 1] == writes.last());
        assert forall|i: int|
            0 <= i < writes.len() && (#[trigger] writes[i]).0 == register && (forall|k: int|
                i < k < writes.len() ==> (#[trigger] writes[k]).0 != register) implies
            before.after_all(script).register(register) == writes[i].1 by {
            if i < head.len() {
                assert(head[i] == writes[i]);
                assert forall|k: int| i < k < head.len() implies (#[trigger] head[k]).0
                    != register by {
                    assert(head[k] == writes[k]);
                }
                assert(writes[writes.len() - 1].0 != register);
            }
        }
        if forall|i: int| 0 <= i < writes.len() ==> (#[trigger] writes[i]).0 != register {
            assert forall|i: int| 0 <= i < head.len() implies (#[trigger] head[i]).0
                != register by {
                assert(head[i] == writes[i]);
            }
            assert(writes[writes.len() - 1].0 != register);
        }
    }
}

/// What the registers hold once the status was changed.
proof fn lemma_after_status(before: FakeState, status: u8, keep: u8, set: u8, register: u8)
    ensures
        before.after_all(status_script(status, keep, set)).register(register) == (if register
            == CONTROL_STATUS_2 {
            (status & keep) | set
        } else {
            before.register(register)
        }),
{
    let script = status_script::<()>(status, keep, set);
    let read = Event::<()>::ReadByteData { register: CONTROL_STATUS_2, reply: Ok(status) };
    let write = write_event::<()>(CONTROL_STATUS_2, (status & keep) | set);
    assert(script =~= seq![].push(read).push(write));
    lemma_after_push(before, seq![], read);
    lemma_after_push(before, seq![].push(read), write);
    assert(before.after_all(seq![]) == before);
}

/// The events of one script and of the next.
proof fn lemma_after_both(before: FakeState, first: Seq<Event<()>>, second: Seq<Event<()>>)
    ensures
        before.after_all(first + second) == before.after_all(first).after_all(second),
    decreases second.len(),
{
    if second.len() == 0 {
        assert(first + second =~= first);
    } else {
        lemma_after_both(before, first, second.drop_last());
        assert((first + second).drop_last() =~= first + second.drop_last());
    }
}

/// The status that a script finds is the one that the fake holds.
proof fn lemma_status_is_read(
    before: FakeI2cDevice,
    first: Seq<Event<()>>,
    status: u8,
    keep: u8,
    set: u8,
    second: Seq<Event<()>>,
    after: FakeI2cDevice,
)
    requires
        ran(before, first + status_script(status, keep, set) + second, after, None),
    ensures
        before@.after_all(first).register(CONTROL_STATUS_2) == status,
        after@ == before@.after_all(first).after_all(status_script(status, keep, set)).after_all(
            second,
        ),
{
    let middle = status_script::<()>(status, keep, set);
    let all = first + middle + second;
    law_fake_records(before, all, after);
    let n = first.len() as int;
    assert(all[n] == middle[0]);
    assert(all.take(n) =~= first);
    lemma_after_both(before@, first + middle, second);
    lemma_after_both(before@, first, middle);
}

/// Where the device does what it is told, its alarm registers hold the time that the alarm was set
/// to: the decimal digits of the minute and of the hour, from 0 to 23, and those of the day and of
/// the weekday where they count; a register that does not count has its highest bit set. The
/// alarm's interrupt is on and its flag is cleared, and nothing else changes but the pulse mode of
/// the timer, which is off.
pub proof fn law_alarm_reads_back(
    before: FakeI2cDevice,
    time: DateTime,
    include_day: bool,
    include_weekday: bool,
    status: u8,
    after: FakeI2cDevice,
    register: u8,
)
    requires
        time.valid(),
        ran(before, alarm_script(time, include_day, include_weekday, status), after, None),
    ensures
        ({
            let minute = after@.register(9);
            let hour = after@.register(10);
            let day = after@.register(11);
            let weekday = after@.register(12);
            &&& minute / 16 * 10 + minute % 16 == time.minute && minute < 0x80
            &&& hour / 16 * 10 + hour % 16 == time.hour && hour < 0x80
            &&& include_day ==> day / 16 * 10 + day % 16 == time.day && day < 0x80
            &&& !include_day ==> day == 0x80
            &&& include_weekday ==> weekday == time.weekday()
            &&& !include_weekday ==> weekday == 0x80
        }),
        after@.register(1) & 0x1a == 0x02,
        after@.register(1) & 0xe5 == before@.register(1) & 0xe5,
        register != 1 && !(9 <= register <= 12) ==> after@.register(register) == before@.register(
            register,
        ),
{
    let writes = alarm_writes(time, include_day, include_weekday);
    let first = write_script::<()>(writes);
    let script = first + status_script::<()>(status, 0xe7, 0x02);
    assert(script + Seq::<Event<()>>::empty() =~= script);
    lemma_status_is_read(before, first, status, 0xe7, 0x02, seq![], after);
    let middle = before@.after_all(first);
    assert(middle.after_all(status_script(status, 0xe7, 0x02)).after_all(seq![])
        == middle.after_all(status_script(status, 0xe7, 0x02)));
    assert(writes.len() == 4 && writes[0].0 == 9 && writes[1].0 == 10 && writes[2].0 == 11
        && writes[3].0 == 12);
    lemma_after_writes(before@, writes, 9);
    lemma_after_writes(before@, writes, 10);
    lemma_after_writes(before@, writes, 11);
    lemma_after_writes(before@, writes, 12);
    lemma_after_writes(before@, writes, 1);
    lemma_after_writes(before@, writes, register);
    lemma_after_status(middle, status, 0xe7, 0x02, 9);
    lemma_after_status(middle, status, 0xe7, 0x02, 10);
    lemma_after_status(middle, status, 0xe7, 0x02, 11);
    lemma_after_status(middle, status, 0xe7, 0x02, 12);
    lemma_after_status(middle, status, 0xe7, 0x02, 1);
    lemma_after_status(middle, status, 0xe7, 0x02, register);
    law_digits(time.minute as int);
    law_digits(time.hour as int);
    law_digits(time.day as int);
    assert(0 <= time.weekday() < 7);
    law_digits(time.weekday());
    law_status_bits(status);
}

/// Where the device does what it is told, an alarm that is switched off wakes nothing: all its
/// registers have their highest bit set, and its interrupt and its flag are off.
pub proof fn law_alarm_is_off(
    before: FakeI2cDevice,
    status: u8,
    after: FakeI2cDevice,
    register: u8,
)
    requires
        ran(before, no_alarm_script(status), after, None),
    ensures
        9 <= register <= 12 ==> after@.register(register) == 0x80,
        after@.register(1) & 0x1a == 0,
        after@.register(1) & 0xe5 == before@.register(1) & 0xe5,
        register != 1 && !(9 <= register <= 12) ==> after@.register(register) == before@.register(
            register,
        ),
{
    let writes = no_alarm_writes();
    let first = write_script::<()>(writes);
    let script = first + status_script::<()>(status, 0xe5, 0);
    assert(script + Seq::<Event<()>>::empty() =~= script);
    lemma_status_is_read(before, first, status, 0xe5, 0, seq![], after);
    let middle = before@.after_all(first);
    assert(middle.after_all(status_script(status, 0xe5, 0)).after_all(seq![]) == middle.after_all(
        status_script(status, 0xe5, 0),
    ));
    assert(writes.len() == 4 && writes[0] == (9u8, 0x80u8) && writes[1] == (10u8, 0x80u8)
        && writes[2] == (11u8, 0x80u8) && writes[3] == (12u8, 0x80u8));
    lemma_after_writes(before@, writes, 1);
    lemma_after_writes(before@, writes, register);
    lemma_after_status(middle, status, 0xe5, 0, 1);
    lemma_after_status(middle, status, 0xe5, 0, register);
    law_status_bits(status);
}

/// Where the device does what it is told, a timer that was started counts what it was started
/// with: the decimal digits of the value, in seconds or in minutes; its interrupt is on and its
/// flag is cleared.
pub proof fn law_timer_reads_back(
    before: FakeI2cDevice,
    value: u8,
    seconds: bool,
    status: u8,
    after: FakeI2cDevice,
    register: u8,
)
    requires
        ran(before, timer_script(value, seconds, status), after, None),
    ensures
        value < 100 ==> after@.register(15) / 16 * 10 + after@.register(15) % 16 == value,
        after@.register(14) == (if seconds {
            0x82u8
        } else {
            0x83u8
        }),
        after@.register(1) & 0x15 == 0x01,
        after@.register(1) & 0xea == before@.register(1) & 0xea,
        register != 1 && register != 14 && register != 15 ==> after@.register(register)
            == before@.register(register),
{
    let writes = timer_writes(timer_source(seconds), to_bcd(value as int));
    let second = write_script::<()>(writes);
    let first = Seq::<Event<()>>::empty();
    let script = status_script::<()>(status, 0xea, 0x01) + second;
    assert(first + status_script::<()>(status, 0xea, 0x01) + second =~= script);
    lemma_status_is_read(before, first, status, 0xea, 0x01, second, after);
    assert(before@.after_all(first) == before@);
    let middle = before@.after_all(status_script(status, 0xea, 0x01));
    assert(writes.len() == 2 && writes[0].0 == 14 && writes[1].0 == 15);
    lemma_after_status(before@, status, 0xea, 0x01, 1);
    lemma_after_status(before@, status, 0xea, 0x01, register);
    lemma_after_writes(middle, writes, 1);
    lemma_after_writes(middle, writes, 14);
    lemma_after_writes(middle, writes, 15);
    lemma_after_writes(middle, writes, register);
    if value < 100 {
        law_digits(value as int);
    }
    law_status_bits(status);
}

/// Where the device does what it is told, a timer that is switched off does not count, and its
/// interrupt and its flag are off.
pub proof fn law_timer_is_off(
    before: FakeI2cDevice,
    status: u8,
    after: FakeI2cDevice,
    register: u8,
)
    requires
        ran(before, no_timer_script(status), after, None),
    ensures
        after@.register(14) == 0x03,
        after@.register(15) == 0,
        after@.register(1) & 0x15 == 0,
        after@.register(1) & 0xea == before@.register(1) & 0xea,
        register != 1 && register != 14 && register != 15 ==> after@.register(register)
            == before@.register(register),
{
    let writes = timer_writes(0x03, 0);
    let second = write_script::<()>(writes);
    let first = Seq::<Event<()>>::empty();
    let script = status_script::<()>(status, 0xea, 0) + second;
    assert(first + status_script::<()>(status, 0xea, 0) + second =~= script);
    lemma_status_is_read(before, first, status, 0xea, 0, second, after);
    assert(before@.after_all(first) == before@);
    let middle = before@.after_all(status_script(status, 0xea, 0));
    assert(writes.len() == 2 && writes[0] == (14u8, 3u8) && writes[1] == (15u8, 0u8));
    lemma_after_status(before@, status, 0xea, 0, 1);
    lemma_after_status(before@, status, 0xea, 0, register);
    lemma_after_writes(middle, writes, 1);
    lemma_after_writes(middle, writes, 14);
    lemma_after_writes(middle, writes, 15);
    lemma_after_writes(middle, writes, register);
    law_status_bits(status);
}

/// Where the device does what it is told, clearing the flags clears those of the alarm and of the
/// timer, and leaves every other bit of every register.
pub proof fn law_flags_are_cleared(
    before: FakeI2cDevice,
    status: u8,
    after: FakeI2cDevice,
    register: u8,
)
    requires
        ran(before, flags_script(status), after, None),
    ensures
        after@.register(1) & 0x0c == 0,
        after@.register(1) & 0xf3 == before@.register(1) & 0xf3,
        register != 1 ==> after@.register(register) == before@.register(register),
{
    let first = Seq::<Event<()>>::empty();
    let script = status_script::<()>(status, 0xf3, 0);
    assert(first + script + first =~= script);
    lemma_status_is_read(before, first, status, 0xf3, 0, first, after);
    assert(before@.after_all(first) == before@);
    let middle = before@.after_all(script);
    assert(middle.after_all(first) == middle);
    lemma_after_status(before@, status, 0xf3, 0, 1);
    lemma_after_status(before@, status, 0xf3, 0, register);
    law_status_bits(status);
    assert(ALARM_FLAG | TIMER_FLAG == 0x0c) by (bit_vector);
}

/// Where the device does what it is told, its time registers hold the time that was set, digit by
/// digit, and no other register changes.
pub proof fn law_time_registers_hold_the_time(
    before: FakeI2cDevice,
    time: DateTime,
    after: FakeI2cDevice,
    register: u8,
)
    requires
        time.valid(),
        storable(time),
        ran(before, write_script(time_writes(time)), after, None),
    ensures
        ({
            let digits = |at: u8|
                after@.register(at) / 16 * 10 + after@.register(at) % 16;
            &&& digits(2) == time.second
            &&& digits(3) == time.minute
            &&& digits(4) == time.hour
            &&& digits(5) == time.day
            &&& digits(6) == time.weekday()
            &&& digits(7) == time.month
            &&& digits(8) == time.year - 2000
        }),
        !(2 <= register <= 8) ==> after@.register(register) == before@.register(register),
{
    let writes = time_writes(time);
    law_fake_records(before, write_script(writes), after);
    law_registers_hold_the_digits(time);
    assert(writes.len() == 7);
    assert(forall|i: int| 0 <= i < 7 ==> (#[trigger] writes[i]).0 == 2 + i && writes[i].1
        == registers_of(time)[i]);
    lemma_after_writes(before@, writes, 2);
    lemma_after_writes(before@, writes, 3);
    lemma_after_writes(before@, writes, 4);
    lemma_after_writes(before@, writes, 5);
    lemma_after_writes(before@, writes, 6);
    lemma_after_writes(before@, writes, 7);
    lemma_after_writes(before@, writes, 8);
    lemma_after_writes(before@, writes, register);
    assert(writes[0].0 == 2 && writes[1].0 == 3 && writes[2].0 == 4 && writes[3].0 == 5
        && writes[4].0 == 6 && writes[5].0 == 7 && writes[6].0 == 8);
    assert(0 <= time.weekday() < 7);
}

/// The clock keeps the years of this century, and no others are written to it.
pub proof fn law_years_of_the_clock(time: DateTime)
    ensures
        storable(time) <==> 2000 <= time.year && time.year < 2100,
{
}

/// The error of a transaction with the clock is told as it came; what the clock holds or what was
/// refused has none.
pub proof fn law_errors_of_the_clock<E>(error: E, fault: RtcTimeError)
    ensures
        bus_failure(Err::<DateTime, RtcError<E>>(RtcError::Bus(error))) == Some(error),
        bus_failure(Err::<DateTime, RtcError<E>>(RtcError::Time(fault))) is None,
        bus_failure(Err::<DateTime, RtcError<E>>(RtcError::ZeroInterval)) is None,
{
}

} // verus!
