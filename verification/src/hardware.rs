//! The devices on the I2C bus: the case controller and the OLED, and the edges of the GPIO lines.
//!
//! A device is known by what is asked of it. [`I2cDevice::step`] says which state one SMBus
//! transaction can lead to; the contracts of the drivers say which transactions they carry out,
//! in which order, and what happens when one fails.
use crate::clock::Duration;
use crate::fan::FanOutput;
use crate::oled::{Framebuffer, HEIGHT, WIDTH};
use crate::outcome::failure;
use std::collections::BTreeMap;
use vstd::prelude::*;
use vstd::slice::slice_subrange;

verus! {

/// How many bytes a block can have.
pub const MAX_BLOCK_SIZE: usize = 32;

/// One SMBus transaction and its outcome: the error of a write that failed, and the byte that a
/// read gave or its error.
pub enum Event<E> {
    WriteByte { value: u8, error: Option<E> },
    ReadByte { reply: Result<u8, E> },
    WriteByteData { register: u8, value: u8, error: Option<E> },
    ReadByteData { register: u8, reply: Result<u8, E> },
    WriteBlockData { command: u8, data: Seq<u8>, error: Option<E> },
}

/// A device at one address of the bus.
pub trait I2cDevice: Sized {
    type Error;

    /// Whether the transaction can take the device from one state to the other; any, where an
    /// implementation does not say.
    open spec fn step(before: Self, event: Event<Self::Error>, after: Self) -> bool {
        true
    }

    fn write_byte(&mut self, value: u8) -> (r: Result<(), Self::Error>)
        ensures
            Self::step(*old(self), Event::WriteByte { value, error: failure(r) }, *final(self)),
    ;

    fn read_byte(&mut self) -> (r: Result<u8, Self::Error>)
        ensures
            Self::step(*old(self), Event::ReadByte { reply: r }, *final(self)),
    ;

    fn write_byte_data(&mut self, register: u8, value: u8) -> (r: Result<(), Self::Error>)
        ensures
            Self::step(
                *old(self),
                Event::WriteByteData { register, value, error: failure(r) },
                *final(self),
            ),
    ;

    fn read_byte_data(&mut self, register: u8) -> (r: Result<u8, Self::Error>)
        ensures
            Self::step(
                *old(self),
                Event::ReadByteData { register, reply: r },
                *final(self),
            ),
    ;

    fn write_block_data(&mut self, command: u8, data: &[u8]) -> (r: Result<(), Self::Error>)
        ensures
            Self::step(
                *old(self),
                Event::WriteBlockData { command, data: data@, error: failure(r) },
                *final(self),
            ),
    ;
}

/// Whether the transactions, one after the other, can take the device from one state to the
/// other.
pub open spec fn steps<D: I2cDevice>(before: D, events: Seq<Event<D::Error>>, after: D) -> bool
    decreases events.len(),
{
    if events.len() == 0 {
        before == after
    } else {
        exists|middle: D|
            steps(before, events.drop_last(), middle) && #[trigger] D::step(
                middle,
                events.last(),
                after,
            )
    }
}

/// The transaction with a failure as its outcome.
pub open spec fn failed<E>(event: Event<E>, error: E) -> Event<E> {
    match event {
        Event::WriteByte { value, .. } => Event::WriteByte { value, error: Some(error) },
        Event::ReadByte { .. } => Event::ReadByte { reply: Err(error) },
        Event::WriteByteData { register, value, .. } => Event::WriteByteData {
            register,
            value,
            error: Some(error),
        },
        Event::ReadByteData { register, .. } => Event::ReadByteData { register, reply: Err(error) },
        Event::WriteBlockData { command, data, .. } => Event::WriteBlockData {
            command,
            data,
            error: Some(error),
        },
    }
}

/// The transaction as it ended: as it was to, or with the error.
pub open spec fn ended<E>(event: Event<E>, error: Option<E>) -> Event<E> {
    match error {
        Some(error) => failed(event, error),
        None => event,
    }
}

/// Whether `script` was carried out: all of it where there is no error; otherwise up to the
/// transaction that failed with this error, and nothing behind it.
pub open spec fn ran<D: I2cDevice>(
    before: D,
    script: Seq<Event<D::Error>>,
    after: D,
    error: Option<D::Error>,
) -> bool {
    match error {
        None => steps(before, script, after),
        Some(error) => exists|n: int|
            0 <= n < script.len() && #[trigger] steps(
                before,
                script.take(n).push(failed(script[n], error)),
                after,
            ),
    }
}

/// Setting the register pointer, then reading `bytes`.
pub open spec fn read_script<E>(start_register: u8, bytes: Seq<u8>) -> Seq<Event<E>> {
    Seq::new(
        bytes.len() + 1,
        |i: int|
            if i == 0 {
                Event::WriteByte { value: start_register, error: None }
            } else {
                Event::ReadByte { reply: Ok(bytes[i - 1]) }
            },
    )
}

pub proof fn lemma_one_step<D: I2cDevice>(before: D, event: Event<D::Error>, after: D)
    requires
        D::step(before, event, after),
    ensures
        steps(before, seq![event], after),
{
    lemma_more_steps(before, Seq::empty(), before, event, after);
    assert(Seq::<Event<D::Error>>::empty().push(event) =~= seq![event]);
}

pub proof fn lemma_more_steps<D: I2cDevice>(
    before: D,
    events: Seq<Event<D::Error>>,
    middle: D,
    event: Event<D::Error>,
    after: D,
)
    requires
        steps(before, events, middle),
        D::step(middle, event, after),
    ensures
        steps(before, events.push(event), after),
{
    assert(events.push(event).drop_last() =~= events);
    assert(events.push(event).last() == event);
}

pub proof fn lemma_steps_join<D: I2cDevice>(
    before: D,
    first: Seq<Event<D::Error>>,
    middle: D,
    second: Seq<Event<D::Error>>,
    after: D,
)
    requires
        steps(before, first, middle),
        steps(middle, second, after),
    ensures
        steps(before, first + second, after),
    decreases second.len(),
{
    if second.len() == 0 {
        assert(first + second =~= first);
    } else {
        let last = choose|last: D|
            steps(middle, second.drop_last(), last) && #[trigger] D::step(
                last,
                second.last(),
                after,
            );
        lemma_steps_join(before, first, middle, second.drop_last(), last);
        lemma_more_steps(before, first + second.drop_last(), last, second.last(), after);
        assert((first + second.drop_last()).push(second.last()) =~= first + second);
    }
}

pub proof fn lemma_completed<D: I2cDevice>(before: D, script: Seq<Event<D::Error>>, after: D)
    requires
        steps(before, script, after),
    ensures
        ran(before, script, after, None),
{
}

pub proof fn lemma_failed_at<D: I2cDevice>(
    before: D,
    script: Seq<Event<D::Error>>,
    n: int,
    error: D::Error,
    after: D,
)
    requires
        0 <= n < script.len(),
        steps(before, script.take(n).push(failed(script[n], error)), after),
    ensures
        ran(before, script, after, Some(error)),
{
}

/// One transaction, as a script.
pub proof fn lemma_ran_one<D: I2cDevice>(
    before: D,
    event: Event<D::Error>,
    after: D,
    error: Option<D::Error>,
)
    requires
        D::step(before, ended(event, error), after),
    ensures
        ran(before, seq![event], after, error),
{
    lemma_one_step(before, ended(event, error), after);
    if let Some(error) = error {
        assert(seq![event].take(0).push(failed(event, error)) =~= seq![failed(event, error)]);
        lemma_failed_at(before, seq![event], 0, error, after);
    }
}

/// A script that was carried out, and the one behind it.
pub proof fn lemma_ran_join<D: I2cDevice>(
    before: D,
    first: Seq<Event<D::Error>>,
    middle: D,
    second: Seq<Event<D::Error>>,
    after: D,
    error: Option<D::Error>,
)
    requires
        ran(before, first, middle, None),
        ran(middle, second, after, error),
    ensures
        ran(before, first + second, after, error),
{
    match error {
        None => {
            lemma_steps_join(before, first, middle, second, after);
        },
        Some(error) => {
            let n = choose|n: int|
                0 <= n < second.len() && #[trigger] steps(
                    middle,
                    second.take(n).push(failed(second[n], error)),
                    after,
                );
            let part = second.take(n).push(failed(second[n], error));
            lemma_steps_join(before, first, middle, part, after);
            let all = first + second;
            let at = first.len() + n;
            assert(all[at] == second[n]);
            assert(first + part =~= all.take(at).push(failed(all[at], error)));
            lemma_failed_at(before, all, at, error, after);
        },
    }
}

/// A script that failed, and the one that was to follow.
pub proof fn lemma_ran_cut<D: I2cDevice>(
    before: D,
    first: Seq<Event<D::Error>>,
    error: D::Error,
    after: D,
    second: Seq<Event<D::Error>>,
)
    requires
        ran(before, first, after, Some(error)),
    ensures
        ran(before, first + second, after, Some(error)),
{
    let n = choose|n: int|
        0 <= n < first.len() && #[trigger] steps(
            before,
            first.take(n).push(failed(first[n], error)),
            after,
        );
    let all = first + second;
    assert(all[n] == first[n]);
    assert(all.take(n) =~= first.take(n));
    lemma_failed_at(before, all, n, error, after);
}

/// A script that was carried out, and one more transaction, whatever its outcome.
pub proof fn lemma_ran_push<D: I2cDevice>(
    before: D,
    script: Seq<Event<D::Error>>,
    middle: D,
    event: Event<D::Error>,
    after: D,
    error: Option<D::Error>,
)
    requires
        ran(before, script, middle, None),
        D::step(middle, ended(event, error), after),
    ensures
        ran(before, script.push(event), after, error),
{
    lemma_ran_one(middle, event, after, error);
    lemma_ran_join(before, script, middle, seq![event], after, error);
    assert(script + seq![event] =~= script.push(event));
}

/// Sets the register pointer and reads the bytes from there on, one by one.
pub fn read_sequential<D: I2cDevice>(device: &mut D, start_register: u8, length: usize) -> (r: Result<
    Vec<u8>,
    D::Error,
>)
    ensures
        exists|bytes: Seq<u8>|
            {
                &&& bytes.len() == length
                &&& #[trigger] ran(
                    *old(device),
                    read_script(start_register, bytes),
                    *final(device),
                    failure(r),
                )
                &&& r matches Ok(read) ==> read@ == bytes
            },
{
    let ghost start = *device;
    let pointed = device.write_byte(start_register);
    proof {
        let event = Event::WriteByte { value: start_register, error: failure(pointed) };
        lemma_one_step(start, event, *device);
    }
    match pointed {
        Ok(()) => {},
        Err(error) => {
            proof {
                let bytes = Seq::new(length as nat, |i: int| 0u8);
                let script = read_script(start_register, bytes);
                let event = failed(script[0], error);
                assert(script.take(0).push(event) =~= seq![event]);
                lemma_failed_at(start, script, 0, error, *device);
            }
            return Err(error);
        },
    }
    let mut read: Vec<u8> = Vec::new();
    assert(read_script::<D::Error>(start_register, read@) =~= seq![
        Event::WriteByte { value: start_register, error: None },
    ]);
    while read.len() < length
        invariant
            start == *old(device),
            read@.len() <= length,
            steps(start, read_script(start_register, read@), *device),
        decreases length - read@.len(),
    {
        let ghost before = *device;
        let ghost bytes = read@;
        let result = device.read_byte();
        proof {
            lemma_more_steps(
                start,
                read_script(start_register, bytes),
                before,
                Event::ReadByte { reply: result },
                *device,
            );
        }
        match result {
            Ok(byte) => {
                read.push(byte);
                assert(read_script::<D::Error>(start_register, read@) =~= read_script(
                    start_register,
                    bytes,
                ).push(Event::ReadByte { reply: Ok(byte) }));
            },
            Err(error) => {
                proof {
                    let all = Seq::new(
                        length as nat,
                        |i: int|
                            if i < bytes.len() {
                                bytes[i]
                            } else {
                                0u8
                            },
                    );
                    let script = read_script(start_register, all);
                    let n = bytes.len() as int + 1;
                    assert(script.take(n) =~= read_script(start_register, bytes));
                    lemma_failed_at(start, script, n, error, *device);
                }
                return Err(error);
            },
        }
    }
    proof {
        lemma_completed(start, read_script(start_register, read@), *device);
    }
    let ghost bytes = read@;
    let result: Result<Vec<u8>, D::Error> = Ok(read);
    assert(bytes.len() == length);
    assert(ran(*old(device), read_script(start_register, bytes), *device, failure(result)));
    result
}

/// A device that accepts everything, keeps its registers in memory and records what is written.
#[derive(Debug, Clone)]
pub struct FakeI2cDevice {
    pub registers: BTreeMap<u8, u8>,
    pub pointer: u8,
    pub byte_writes: Vec<u8>,
    pub block_writes: Vec<(u8, Vec<u8>)>,
}

/// What a [`FakeI2cDevice`] holds.
pub struct FakeState {
    pub registers: Map<u8, u8>,
    pub pointer: u8,
    pub byte_writes: Seq<u8>,
    pub block_writes: Seq<(u8, Seq<u8>)>,
}

impl FakeState {
    /// A register; those that were never written hold zero.
    pub open spec fn register(self, register: u8) -> u8 {
        if self.registers.dom().contains(register) {
            self.registers[register]
        } else {
            0
        }
    }

    /// The state after a transaction.
    pub open spec fn after(self, event: Event<()>) -> FakeState {
        match event {
            Event::WriteByte { value, .. } => FakeState {
                pointer: value,
                byte_writes: self.byte_writes.push(value),
                ..self
            },
            Event::ReadByte { .. } => FakeState {
                pointer: if self.pointer == 255 {
                    0
                } else {
                    (self.pointer + 1) as u8
                },
                ..self
            },
            Event::WriteByteData { register, value, .. } => FakeState {
                registers: self.registers.insert(register, value),
                ..self
            },
            Event::ReadByteData { .. } => self,
            Event::WriteBlockData { command, data, .. } => FakeState {
                block_writes: self.block_writes.push((command, data)),
                ..self
            },
        }
    }

    /// Whether the outcome of a transaction is the one it has in this state: it succeeds, and a
    /// read gives the register.
    pub open spec fn allows(self, event: Event<()>) -> bool {
        match event {
            Event::WriteByte { error, .. } => error is None,
            Event::ReadByte { reply } => reply == Ok::<u8, ()>(self.register(self.pointer)),
            Event::WriteByteData { error, .. } => error is None,
            Event::ReadByteData { register, reply } => reply == Ok::<u8, ()>(
                self.register(register),
            ),
            Event::WriteBlockData { error, .. } => error is None,
        }
    }

    /// The state after transactions, one after the other.
    pub open spec fn after_all(self, events: Seq<Event<()>>) -> FakeState
        decreases events.len(),
    {
        if events.len() == 0 {
            self
        } else {
            self.after_all(events.drop_last()).after(events.last())
        }
    }
}

impl View for FakeI2cDevice {
    type V = FakeState;

    open spec fn view(&self) -> FakeState {
        FakeState {
            registers: self.registers@,
            pointer: self.pointer,
            byte_writes: self.byte_writes@,
            block_writes: Seq::new(
                self.block_writes@.len(),
                |i: int| (self.block_writes@[i].0, self.block_writes@[i].1@),
            ),
        }
    }
}

impl Default for FakeI2cDevice {
    fn default() -> (r: Self)
        ensures
            r@ == (FakeState {
                registers: Map::empty(),
                pointer: 0,
                byte_writes: Seq::empty(),
                block_writes: Seq::empty(),
            }),
    {
        let r = FakeI2cDevice {
            registers: BTreeMap::new(),
            pointer: 0,
            byte_writes: Vec::new(),
            block_writes: Vec::new(),
        };
        assert(r@.block_writes =~= Seq::empty());
        r
    }
}

impl FakeI2cDevice {
    /// The device with one register set.
    pub fn with_register(self, register: u8, value: u8) -> (r: Self)
        ensures
            r@ == (FakeState { registers: self@.registers.insert(register, value), ..self@ }),
    {
        let mut device = self;
        device.registers.insert(register, value);
        device
    }

    /// A register; those that were never written hold zero.
    pub fn register(&self, register: u8) -> (r: u8)
        ensures
            r == self@.register(register),
    {
        match self.registers.get(&register) {
            Some(value) => *value,
            None => 0,
        }
    }
}

impl I2cDevice for FakeI2cDevice {
    type Error = ();

    open spec fn step(before: Self, event: Event<Self::Error>, after: Self) -> bool {
        before@.allows(event) && after@ == before@.after(event)
    }

    fn write_byte(&mut self, value: u8) -> (r: Result<(), ()>)
        ensures
            r is Ok,
    {
        self.byte_writes.push(value);
        self.pointer = value;
        Ok(())
    }

    fn read_byte(&mut self) -> (r: Result<u8, ()>)
        ensures
            r is Ok,
    {
        let value = self.register(self.pointer);
        self.pointer = self.pointer.wrapping_add(1);
        Ok(value)
    }

    fn write_byte_data(&mut self, register: u8, value: u8) -> (r: Result<(), ()>)
        ensures
            r is Ok,
    {
        self.registers.insert(register, value);
        Ok(())
    }

    fn read_byte_data(&mut self, register: u8) -> (r: Result<u8, ()>)
        ensures
            r is Ok,
    {
        Ok(self.register(register))
    }

    fn write_block_data(&mut self, command: u8, data: &[u8]) -> (r: Result<(), ()>)
        ensures
            r is Ok,
    {
        let ghost before = self@.block_writes;
        self.block_writes.push((command, vstd::slice::slice_to_vec(data)));
        assert(self@.block_writes =~= before.push((command, data@)));
        Ok(())
    }
}

/// What the fake holds after transactions follows from what it held before, its bytes and blocks
/// are those that were written to it, in order, and each transaction had the outcome that the
/// state before it calls for.
pub proof fn law_fake_records(before: FakeI2cDevice, events: Seq<Event<()>>, after: FakeI2cDevice)
    requires
        steps(before, events, after),
    ensures
        after@ == before@.after_all(events),
        forall|i: int|
            0 <= i < events.len() ==> before@.after_all(events.take(i)).allows(#[trigger] events[i]),
    decreases events.len(),
{
    if events.len() > 0 {
        let head = events.drop_last();
        let middle = choose|middle: FakeI2cDevice|
            steps(before, head, middle) && #[trigger] FakeI2cDevice::step(
                middle,
                events.last(),
                after,
            );
        law_fake_records(before, head, middle);
        assert forall|i: int| 0 <= i < events.len() implies before@.after_all(
            events.take(i),
        ).allows(#[trigger] events[i]) by {
            if i < head.len() {
                assert(head.take(i) =~= events.take(i));
                assert(head[i] == events[i]);
            } else {
                assert(events.take(i) =~= head);
            }
        }
    }
}

/// Whatever a driver asks of the fake succeeds.
pub proof fn law_fake_never_fails(
    before: FakeI2cDevice,
    script: Seq<Event<()>>,
    after: FakeI2cDevice,
    error: Option<()>,
)
    requires
        ran(before, script, after, error),
    ensures
        error is None,
        after@ == before@.after_all(script),
{
    if let Some(error) = error {
        let n = choose|n: int|
            0 <= n < script.len() && #[trigger] steps(
                before,
                script.take(n).push(failed(script[n], error)),
                after,
            );
        let events = script.take(n).push(failed(script[n], error));
        law_fake_records(before, events, after);
        assert(!before@.after_all(events.take(n)).allows(events[n]));
    }
    law_fake_records(before, script, after);
}

/// Why the case controller was not told something.
#[derive(Debug)]
pub enum McuError<E> {
    /// A fan speed above 100 percent; nothing was sent.
    OutOfRange { percent: u8 },
    /// The transaction failed.
    Bus(E),
}

/// The error of the transaction, where that is what went wrong.
pub open spec fn mcu_failure<T, E>(r: Result<T, McuError<E>>) -> Option<E> {
    match r {
        Err(McuError::Bus(error)) => Some(error),
        _ => None,
    }
}

/// The case controller.
pub struct Mcu<D> {
    device: D,
}

impl<D> Mcu<D> {
    /// The device that the controller is reached through.
    pub closed spec fn device(self) -> D {
        self.device
    }
}

impl<D: I2cDevice> Mcu<D> {
    pub fn new(device: D) -> (r: Self)
        ensures
            r.device() == device,
    {
        Mcu { device }
    }

    /// Sets the fan speed: the byte is the percentage.
    pub fn set_fan(&mut self, percent: u8) -> (r: Result<(), McuError<D::Error>>)
        ensures
            percent > 100 ==> r == Err::<(), McuError<D::Error>>(McuError::OutOfRange { percent })
                && *final(self) == *old(self),
            percent <= 100 ==> (r is Err ==> r->Err_0 is Bus) && D::step(
                old(self).device(),
                Event::WriteByte { value: percent, error: mcu_failure(r) },
                final(self).device(),
            ),
    {
        if percent > 100 {
            return Err(McuError::OutOfRange { percent });
        }
        match self.device.write_byte(percent) {
            Ok(()) => Ok(()),
            Err(error) => Err(McuError::Bus(error)),
        }
    }

    /// Asks the controller to cut the power once the host is down.
    pub fn request_power_cut(&mut self) -> (r: Result<(), D::Error>)
        ensures
            D::step(
                old(self).device(),
                Event::WriteByte { value: 0xff, error: failure(r) },
                final(self).device(),
            ),
    {
        self.device.write_byte(0xff)
    }

    /// Asks the controller to wait for new firmware.
    pub fn enter_firmware_update(&mut self) -> (r: Result<(), D::Error>)
        ensures
            D::step(
                old(self).device(),
                Event::WriteByte { value: 0xbb, error: failure(r) },
                final(self).device(),
            ),
    {
        self.device.write_byte(0xbb)
    }

    /// Teaches the controller the code of the power button of a remote control.
    pub fn program_ir_power_code(&mut self, code: [u8; 4]) -> (r: Result<(), D::Error>)
        ensures
            D::step(
                old(self).device(),
                Event::WriteBlockData { command: 0xaa, data: code@, error: failure(r) },
                final(self).device(),
            ),
    {
        self.device.write_block_data(0xaa, code.as_slice())
    }

    pub fn into_inner(self) -> (r: D)
        ensures
            r == self.device(),
    {
        self.device
    }
}

impl<D: I2cDevice> FanOutput for Mcu<D> {
    type Error = McuError<D::Error>;

    open spec fn applied(
        before: Self,
        percent: u8,
        after: Self,
        error: Option<McuError<D::Error>>,
    ) -> bool {
        if percent > 100 {
            error == Some(McuError::<D::Error>::OutOfRange { percent }) && after == before
        } else {
            match error {
                None => D::step(
                    before.device(),
                    Event::WriteByte { value: percent, error: None },
                    after.device(),
                ),
                Some(McuError::Bus(error)) => D::step(
                    before.device(),
                    Event::WriteByte { value: percent, error: Some(error) },
                    after.device(),
                ),
                Some(McuError::OutOfRange { .. }) => false,
            }
        }
    }

    fn set_percent(&mut self, percent: u8) -> (r: Result<(), McuError<D::Error>>) {
        self.set_fan(percent)
    }
}

/// The OLED.
pub struct OledDevice<D> {
    device: D,
}

impl<D> OledDevice<D> {
    /// The device that the OLED is reached through.
    pub closed spec fn device(self) -> D {
        self.device
    }
}

/// Why a block of the display was not transferred.
#[derive(Debug)]
pub enum BlockError<E> {
    /// No block begins there; nothing was sent.
    InvalidOrigin { x: usize, y: usize },
    /// A transaction failed.
    Bus(E),
}

/// The error of the transaction, where that is what went wrong.
pub open spec fn block_failure<E>(r: Result<(), BlockError<E>>) -> Option<E> {
    match r {
        Err(BlockError::Bus(error)) => Some(error),
        _ => None,
    }
}

/// One command to the OLED.
pub open spec fn command_event<E>(command: u8) -> Event<E> {
    Event::WriteByteData { register: 0, value: command, error: None }
}

/// Switching the OLED on or off.
pub open spec fn power_command(enabled: bool) -> u8 {
    if enabled {
        0xaf
    } else {
        0xae
    }
}

/// Showing the image inverted, or as it is.
pub open spec fn inverse_command(enabled: bool) -> u8 {
    if enabled {
        0xa7
    } else {
        0xa6
    }
}

/// Lighting every pixel, or showing the image.
pub open spec fn all_white_command(enabled: bool) -> u8 {
    if enabled {
        0xa5
    } else {
        0xa4
    }
}

/// Commands to the OLED.
pub open spec fn command_script<E>(commands: Seq<u8>) -> Seq<Event<E>> {
    Seq::new(commands.len(), |i: int| command_event(commands[i]))
}

/// The commands that give the OLED its addressing mode back.
pub open spec fn addressing_commands() -> Seq<u8> {
    seq![0x20, 0x01, 0x21, 0, 127, 0x22, 0, 7, 0x20, 0x02, 0xb0, 0x40]
}

/// The commands before a block of 32 columns in one band.
pub open spec fn block_commands(x: u8, band: u8) -> Seq<u8> {
    seq![0x20, 0x01, 0x21, x, (x + 31) as u8, 0x22, band, band, 0x40]
}

/// The transfer of the block whose upper left corner is at column `x` and row `y`.
pub open spec fn block_script<E>(image: Seq<u8>, x: int, y: int) -> Seq<Event<E>> {
    let start = WIDTH * (y / 8) + x;
    command_script(block_commands(x as u8, (y / 8) as u8)).push(
        Event::WriteBlockData {
            command: 0x6a,
            data: image.subrange(start, start + 32),
            error: None,
        },
    )
}

/// The transfer of the first `n` blocks: downwards first, then to the right.
pub open spec fn blocks_script<E>(image: Seq<u8>, n: int) -> Seq<Event<E>>
    decreases n,
{
    if n <= 0 {
        seq![]
    } else {
        blocks_script(image, n - 1) + block_script(image, (n - 1) / 8 * 32, (n - 1) % 8 * 8)
    }
}

/// The transfer of the whole display, with the OLED dark meanwhile if `hide`.
pub open spec fn flush_script<E>(image: Seq<u8>, hide: bool) -> Seq<Event<E>> {
    if hide {
        seq![command_event(0xae)] + blocks_script(image, 32) + seq![command_event(0xaf)]
    } else {
        blocks_script(image, 32)
    }
}

impl<D: I2cDevice> OledDevice<D> {
    pub fn new(device: D) -> (r: Self)
        ensures
            r.device() == device,
    {
        OledDevice { device }
    }

    fn command(&mut self, command: u8) -> (r: Result<(), D::Error>)
        ensures
            D::step(
                old(self).device(),
                Event::WriteByteData { register: 0, value: command, error: failure(r) },
                final(self).device(),
            ),
    {
        self.device.write_byte_data(0, command)
    }

    /// Sends commands until one fails.
    fn commands(&mut self, commands: &[u8]) -> (r: Result<(), D::Error>)
        ensures
            ran(old(self).device(), command_script(commands@), final(self).device(), failure(r)),
    {
        let ghost start = self.device();
        let ghost script: Seq<Event<D::Error>> = command_script(commands@);
        let mut i: usize = 0;
        assert(script.take(0) =~= Seq::empty());
        while i < commands.len()
            invariant
                start == old(self).device(),
                script == command_script::<D::Error>(commands@),
                i <= commands@.len(),
                ran(start, script.take(i as int), self.device(), None),
            decreases commands@.len() - i,
        {
            let ghost middle = self.device();
            let result = self.command(commands[i]);
            proof {
                lemma_ran_push(
                    start,
                    script.take(i as int),
                    middle,
                    script[i as int],
                    self.device(),
                    failure(result),
                );
                assert(script.take(i as int).push(script[i as int]) =~= script.take(i + 1));
            }
            match result {
                Ok(()) => {},
                Err(error) => {
                    proof {
                        let (sent, rest) = (script.take(i + 1), script.skip(i + 1));
                        lemma_ran_cut(start, sent, error, self.device(), rest);
                        assert(sent + rest =~= script);
                    }
                    return Err(error);
                },
            }
            i += 1;
        }
        assert(script.take(i as int) =~= script);
        Ok(())
    }

    /// Switches the OLED on or off.
    pub fn power(&mut self, enabled: bool) -> (r: Result<(), D::Error>)
        ensures
            D::step(
                old(self).device(),
                Event::WriteByteData {
                    register: 0,
                    value: if enabled {
                        0xaf
                    } else {
                        0xae
                    },
                    error: failure(r),
                },
                final(self).device(),
            ),
            D::step(
                old(self).device(),
                ended(command_event(power_command(enabled)), failure(r)),
                final(self).device(),
            ),
    {
        self.command(if enabled { 0xaf } else { 0xae })
    }

    /// Shows the image inverted, or as it is.
    pub fn inverse(&mut self, enabled: bool) -> (r: Result<(), D::Error>)
        ensures
            D::step(
                old(self).device(),
                Event::WriteByteData {
                    register: 0,
                    value: if enabled {
                        0xa7
                    } else {
                        0xa6
                    },
                    error: failure(r),
                },
                final(self).device(),
            ),
            D::step(
                old(self).device(),
                ended(command_event(inverse_command(enabled)), failure(r)),
                final(self).device(),
            ),
    {
        self.command(if enabled { 0xa7 } else { 0xa6 })
    }

    /// Lights every pixel whatever the image, or shows the image.
    pub fn all_white(&mut self, enabled: bool) -> (r: Result<(), D::Error>)
        ensures
            D::step(
                old(self).device(),
                Event::WriteByteData {
                    register: 0,
                    value: if enabled {
                        0xa5
                    } else {
                        0xa4
                    },
                    error: failure(r),
                },
                final(self).device(),
            ),
            D::step(
                old(self).device(),
                ended(command_event(all_white_command(enabled)), failure(r)),
                final(self).device(),
            ),
    {
        self.command(if enabled { 0xa5 } else { 0xa4 })
    }

    /// Gives the OLED its addressing mode back after transfers.
    pub fn reset_addressing(&mut self) -> (r: Result<(), D::Error>)
        ensures
            ran(
                old(self).device(),
                command_script(addressing_commands()),
                final(self).device(),
                failure(r),
            ),
    {
        let commands: [u8; 12] = [
            0x20,
            0x01,
            0x21,
            0,
            (WIDTH - 1) as u8,
            0x22,
            0,
            (HEIGHT / 8 - 1) as u8,
            0x20,
            0x02,
            0xb0,
            0x40,
        ];
        assert(commands@ =~= addressing_commands());
        self.commands(commands.as_slice())
    }

    /// Transfers a block that begins at a place where blocks begin.
    fn send_block(&mut self, framebuffer: &Framebuffer, x: usize, y: usize) -> (r: Result<
        (),
        D::Error,
    >)
        requires
            x < WIDTH,
            y < HEIGHT,
            x % 32 == 0,
            y % 8 == 0,
        ensures
            ran(
                old(self).device(),
                block_script(framebuffer@, x as int, y as int),
                final(self).device(),
                failure(r),
            ),
    {
        let ghost start = self.device();
        let page = y / 8;
        let commands: [u8; 9] = [
            0x20,
            0x01,
            0x21,
            x as u8,
            (x + 31) as u8,
            0x22,
            page as u8,
            page as u8,
            0x40,
        ];
        let ghost script: Seq<Event<D::Error>> = command_script(
            block_commands(x as u8, page as u8),
        );
        assert(commands@ =~= block_commands(x as u8, page as u8));
        let offset = WIDTH * page + x;
        let ghost data = framebuffer@.subrange(offset as int, offset + 32);
        let ghost transfer = Event::WriteBlockData { command: 0x6a, data, error: None };
        match self.commands(commands.as_slice()) {
            Ok(()) => {},
            Err(error) => {
                proof {
                    lemma_ran_cut(start, script, error, self.device(), seq![transfer]);
                    assert(script + seq![transfer] =~= script.push(transfer));
                }
                return Err(error);
            },
        }
        let ghost middle = self.device();
        let bytes = framebuffer.bytes();
        let result = self.device.write_block_data(
            0x6a,
            slice_subrange(bytes.as_slice(), offset, offset + 32),
        );
        proof {
            lemma_ran_push(start, script, middle, transfer, self.device(), failure(result));
        }
        result
    }

    /// Transfers the block of 32 columns and eight rows whose upper left corner is given.
    pub fn flush_block(&mut self, framebuffer: &Framebuffer, x: usize, y: usize) -> (r: Result<
        (),
        BlockError<D::Error>,
    >)
        ensures
            ({
                let begins = x < WIDTH && y < HEIGHT && x % 32 == 0 && y % 8 == 0;
                &&& !begins ==> r == Err::<(), BlockError<D::Error>>(
                    BlockError::InvalidOrigin { x, y },
                ) && *final(self) == *old(self)
                &&& begins ==> (r is Err ==> r->Err_0 is Bus) && ran(
                    old(self).device(),
                    block_script(framebuffer@, x as int, y as int),
                    final(self).device(),
                    block_failure(r),
                )
            }),
    {
        if x >= WIDTH || y >= HEIGHT || x % 32 != 0 || y % 8 != 0 {
            return Err(BlockError::InvalidOrigin { x, y });
        }
        match self.send_block(framebuffer, x, y) {
            Ok(()) => Ok(()),
            Err(error) => Err(BlockError::Bus(error)),
        }
    }

    /// Transfers the whole display.
    pub fn flush(&mut self, framebuffer: &Framebuffer, hide_during_transfer: bool) -> (r: Result<
        (),
        D::Error,
    >)
        ensures
            ran(
                old(self).device(),
                flush_script(framebuffer@, hide_during_transfer),
                final(self).device(),
                failure(r),
            ),
    {
        let ghost start = self.device();
        let ghost image = framebuffer@;
        let ghost all: Seq<Event<D::Error>> = blocks_script(image, 32);
        let ghost off: Event<D::Error> = command_event(0xae);
        let ghost on: Event<D::Error> = command_event(0xaf);
        let ghost head = if hide_during_transfer {
            seq![off]
        } else {
            seq![]
        };
        let ghost tail = if hide_during_transfer {
            seq![on]
        } else {
            seq![]
        };
        let ghost script: Seq<Event<D::Error>> = flush_script(image, hide_during_transfer);
        assert(script =~= head + all + tail);
        if hide_during_transfer {
            let result = self.power(false);
            proof {
                lemma_ran_one(start, off, self.device(), failure(result));
            }
            match result {
                Ok(()) => {},
                Err(error) => {
                    proof {
                        lemma_ran_cut(start, head, error, self.device(), all + tail);
                        assert(head + (all + tail) =~= script);
                    }
                    return Err(error);
                },
            }
        }
        let mut n: usize = 0;
        assert(head + blocks_script(image, 0) =~= head);
        while n < 32
            invariant
                start == old(self).device(),
                image == framebuffer@,
                all == blocks_script::<D::Error>(image, 32),
                script == head + all + tail,
                script == flush_script::<D::Error>(image, hide_during_transfer),
                n <= 32,
                ran(start, head + blocks_script(image, n as int), self.device(), None),
            decreases 32 - n,
        {
            let ghost middle = self.device();
            let x = n / 8 * 32;
            let y = n % 8 * 8;
            let result = self.send_block(framebuffer, x, y);
            let ghost done = head + blocks_script(image, n as int);
            let ghost block = block_script(image, x as int, y as int);
            proof {
                lemma_ran_join(start, done, middle, block, self.device(), failure(result));
                assert(done + block =~= head + blocks_script::<D::Error>(image, n + 1));
            }
            match result {
                Ok(()) => {},
                Err(error) => {
                    proof {
                        lemma_blocks_prefix::<D::Error>(image, n + 1, 32);
                        let sent = blocks_script::<D::Error>(image, n + 1);
                        let rest = all.skip(sent.len() as int) + tail;
                        lemma_ran_cut(
                            start,
                            head + sent,
                            error,
                            self.device(),
                            rest,
                        );
                        assert(head + sent + rest =~= script);
                    }
                    return Err(error);
                },
            }
            n += 1;
        }
        if hide_during_transfer {
            let ghost middle = self.device();
            let result = self.power(true);
            proof {
                lemma_ran_push(start, head + all, middle, on, self.device(), failure(result));
                assert((head + all).push(on) =~= script);
            }
            return result;
        }
        assert(head + all =~= script);
        Ok(())
    }

    pub fn into_inner(self) -> (r: D)
        ensures
            r == self.device(),
    {
        self.device
    }
}

/// The transfer of some blocks begins the transfer of more.
proof fn lemma_blocks_prefix<E>(image: Seq<u8>, n: int, m: int)
    requires
        0 <= n <= m,
    ensures
        ({
            let part = blocks_script::<E>(image, n);
            let all = blocks_script::<E>(image, m);
            part.len() <= all.len() && all.take(part.len() as int) == part
        }),
    decreases m,
{
    let part = blocks_script::<E>(image, n);
    if n < m {
        lemma_blocks_prefix::<E>(image, n, m - 1);
        let before = blocks_script::<E>(image, m - 1);
        let all = blocks_script::<E>(image, m);
        assert(all.take(part.len() as int) =~= before.take(part.len() as int));
    } else {
        assert(blocks_script::<E>(image, m).take(part.len() as int) =~= part);
    }
}

/// Where the transfer of a block stands in the transfer of all of them.
proof fn lemma_blocks_in_place<E>(image: Seq<u8>, n: int, k: int, j: int)
    requires
        0 <= k < n,
        0 <= j < 10,
    ensures
        blocks_script::<E>(image, n).len() == 10 * n,
        blocks_script::<E>(image, n)[10 * k + j] == block_script::<E>(
            image,
            k / 8 * 32,
            k % 8 * 8,
        )[j],
    decreases n,
{
    if k < n - 1 {
        lemma_blocks_in_place::<E>(image, n - 1, k, j);
    } else if n > 1 {
        lemma_blocks_in_place::<E>(image, n - 1, 0, 0);
    } else {
        assert(blocks_script::<E>(image, 0).len() == 0);
    }
}

/// The transfer of the display sends every byte of it, to the place where it belongs: the byte of
/// column `x` in a band goes into the block for its 32 columns and its band, whose commands name
/// just those columns and that band.
pub proof fn law_transfer_is_complete<E>(image: Seq<u8>, x: int, band: int)
    requires
        image.len() == WIDTH * (HEIGHT / 8),
        0 <= x < WIDTH,
        0 <= band < HEIGHT / 8,
    ensures
        ({
            let script = blocks_script::<E>(image, 32);
            let block = 10 * (x / 32 * 8 + band);
            let first = x / 32 * 32;
            &&& script.len() == 320
            &&& script[block + 3] == command_event::<E>(first as u8)
            &&& script[block + 4] == command_event::<E>((first + 31) as u8)
            &&& script[block + 6] == command_event::<E>(band as u8)
            &&& script[block + 7] == command_event::<E>(band as u8)
            &&& script[block + 9] matches Event::WriteBlockData { command, data, error } && command
                == 0x6a && data.len() == 32 && error is None && data[x % 32] == image[WIDTH * band
                + x]
        }),
{
    let k = x / 32 * 8 + band;
    assert(k / 8 * 32 == x / 32 * 32 && k % 8 * 8 == band * 8);
    lemma_blocks_in_place::<E>(image, 32, k, 3);
    lemma_blocks_in_place::<E>(image, 32, k, 4);
    lemma_blocks_in_place::<E>(image, 32, k, 6);
    lemma_blocks_in_place::<E>(image, 32, k, 7);
    lemma_blocks_in_place::<E>(image, 32, k, 9);
}

/// A pulse on a GPIO line.
#[derive(Debug, Clone, Copy)]
pub struct GpioPulse {
    pub rising_ns: u64,
    pub falling_ns: u64,
}

impl GpioPulse {
    /// The nanoseconds from the rising edge to the falling one.
    pub open spec fn length(self) -> int {
        if self.falling_ns > self.rising_ns {
            self.falling_ns - self.rising_ns
        } else {
            0
        }
    }

    /// How long the pulse took.
    pub fn duration(&self) -> (r: Duration)
        ensures
            r.nanos == (if self.falling_ns > self.rising_ns {
                self.falling_ns - self.rising_ns
            } else {
                0
            }),
            r.nanos == self.length(),
    {
        Duration::from_nanos(self.falling_ns.saturating_sub(self.rising_ns))
    }
}

/// An edge on a GPIO line.
#[derive(Debug, Clone, Copy, PartialEq, Eq, Structural)]
pub struct GpioEdge {
    pub rising: bool,
    pub timestamp_ns: u64,
}

/// The time of the last rising edge that no falling edge has followed, and the pulse that ends,
/// once an edge came.
pub open spec fn tracked_edge(rising: Option<u64>, edge: GpioEdge) -> (
    Option<u64>,
    Option<GpioPulse>,
) {
    if edge.rising {
        (Some(edge.timestamp_ns), None)
    } else {
        (
            None,
            match rising {
                Some(rising_ns) => Some(GpioPulse { rising_ns, falling_ns: edge.timestamp_ns }),
                None => None,
            },
        )
    }
}

/// Puts pulses together from edges.
#[derive(Debug, Clone, Copy)]
pub struct PulseTracker {
    rising_ns: Option<u64>,
}

impl PulseTracker {
    /// The time of the last rising edge that no falling edge has followed.
    pub closed spec fn rising(self) -> Option<u64> {
        self.rising_ns
    }

    pub fn new() -> (r: PulseTracker)
        ensures
            r.rising() is None,
    {
        PulseTracker { rising_ns: None }
    }

    /// Takes the next edge. A falling edge behind a rising one ends a pulse; without one it says
    /// nothing. Of several rising edges the last one counts.
    pub fn edge(&mut self, edge: GpioEdge) -> (r: Option<GpioPulse>)
        ensures
            edge.rising ==> r is None && final(self).rising() == Some(edge.timestamp_ns),
            !edge.rising ==> final(self).rising() is None && r == (match old(self).rising() {
                Some(rising_ns) => Some(GpioPulse { rising_ns, falling_ns: edge.timestamp_ns }),
                None => None,
            }),
            (final(self).rising(), r) == tracked_edge(old(self).rising(), edge),
    {
        if edge.rising {
            self.rising_ns = Some(edge.timestamp_ns);
            None
        } else {
            match self.rising_ns.take() {
                Some(rising_ns) => Some(GpioPulse { rising_ns, falling_ns: edge.timestamp_ns }),
                None => None,
            }
        }
    }
}

/// Reading from a register on sets the pointer once and reads the bytes one by one, in their
/// order.
pub proof fn law_reading_in_order<E>(start_register: u8, bytes: Seq<u8>, i: int)
    ensures
        read_script::<E>(start_register, bytes).len() == bytes.len() + 1,
        read_script::<E>(start_register, bytes)[0] == (Event::<E>::WriteByte {
            value: start_register,
            error: None,
        }),
        0 <= i < bytes.len() ==> read_script::<E>(start_register, bytes)[i + 1] == (
        Event::<E>::ReadByte { reply: Ok(bytes[i]) }),
{
}

/// A transfer behind a dark display is the transfer itself between switching the display off and
/// on.
pub proof fn law_hidden_transfer<E>(image: Seq<u8>)
    ensures
        flush_script::<E>(image, false).len() == 320,
        flush_script::<E>(image, true).len() == 322,
        flush_script::<E>(image, true).subrange(1, 321) == flush_script::<E>(image, false),
        flush_script::<E>(image, true)[0] == (Event::<E>::WriteByteData {
            register: 0,
            value: 0xae,
            error: None,
        }),
        flush_script::<E>(image, true)[321] == (Event::<E>::WriteByteData {
            register: 0,
            value: 0xaf,
            error: None,
        }),
{
    lemma_blocks_in_place::<E>(image, 32, 0, 0);
    assert(flush_script::<E>(image, true).subrange(1, 321) =~= blocks_script::<E>(image, 32));
}

/// A script that failed did what stands before the transaction that failed, and that one with its
/// error; one that did not fail did all of it.
pub proof fn law_script_stops_at_a_failure<D: I2cDevice>(
    before: D,
    script: Seq<Event<D::Error>>,
    after: D,
    error: Option<D::Error>,
)
    requires
        ran(before, script, after, error),
    ensures
        error is None ==> steps(before, script, after),
        error matches Some(error) ==> exists|n: int, middle: D|
            {
                &&& 0 <= n < script.len()
                &&& steps(before, script.take(n), middle)
                &&& #[trigger] D::step(middle, failed(script[n], error), after)
            },
{
    if let Some(error) = error {
        let n = choose|n: int|
            0 <= n < script.len() && #[trigger] steps(
                before,
                script.take(n).push(failed(script[n], error)),
                after,
            );
        let events = script.take(n).push(failed(script[n], error));
        assert(events.drop_last() =~= script.take(n));
        assert(events.last() == failed(script[n], error));
        let middle = choose|middle: D|
            steps(before, events.drop_last(), middle) && #[trigger] D::step(
                middle,
                events.last(),
                after,
            );
        assert(D::step(middle, failed(script[n], error), after));
    }
}

/// A speed that the controller took was sent to it as one byte, the percentage itself; what it
/// cannot mean is not sent.
pub proof fn law_speed_is_one_byte<D: I2cDevice>(
    before: Mcu<D>,
    percent: u8,
    after: Mcu<D>,
    error: Option<McuError<D::Error>>,
)
    requires
        <Mcu<D> as FanOutput>::applied(before, percent, after, error),
    ensures
        percent > 100 ==> after == before && error is Some,
        percent <= 100 && error is None ==> D::step(
            before.device(),
            Event::WriteByte { value: percent, error: None },
            after.device(),
        ),
{
}

/// The commands of the display: odd to do something, and the even number before it to undo it.
pub proof fn law_display_commands(enabled: bool)
    ensures
        power_command(true) == 0xaf && power_command(false) == 0xae,
        inverse_command(true) == 0xa7 && inverse_command(false) == 0xa6,
        all_white_command(true) == 0xa5 && all_white_command(false) == 0xa4,
        addressing_commands().len() == 12,
        addressing_commands().subrange(2, 8) == seq![0x21u8, 0, 127, 0x22, 0, 7],
        addressing_commands().subrange(8, 12) == seq![0x20u8, 0x02, 0xb0, 0x40],
        addressing_commands().take(2) == seq![0x20u8, 0x01],
{
    assert(addressing_commands().subrange(2, 8) =~= seq![0x21u8, 0, 127, 0x22, 0, 7]);
    assert(addressing_commands().subrange(8, 12) =~= seq![0x20u8, 0x02, 0xb0, 0x40]);
    assert(addressing_commands().take(2) =~= seq![0x20u8, 0x01]);
}

/// A pulse lies between a rising edge and the next falling one; of several rising edges the last
/// one counts, and a falling edge without one ends nothing.
pub proof fn law_pulses_from_edges(known: Option<u64>, first: u64, second: u64, end: u64)
    ensures
        ({
            let up = |at: u64| GpioEdge { rising: true, timestamp_ns: at };
            let down = GpioEdge { rising: false, timestamp_ns: end };
            let (after, pulse) = tracked_edge(known, up(first));
            let (again, other) = tracked_edge(after, up(second));
            let (left, done) = tracked_edge(again, down);
            &&& pulse is None && other is None
            &&& done == Some(GpioPulse { rising_ns: second, falling_ns: end })
            &&& left is None
            &&& tracked_edge(left, down) == (None::<u64>, None::<GpioPulse>)
        }),
{
}

/// A pulse is as long as it is from its rising edge to its falling one.
pub proof fn law_pulse_makes_up_the_time(pulse: GpioPulse)
    ensures
        pulse.rising_ns <= pulse.falling_ns ==> pulse.rising_ns + pulse.length()
            == pulse.falling_ns,
        pulse.rising_ns > pulse.falling_ns ==> pulse.length() == 0,
{
}

/// A transaction that failed asked for the same as it would have done with success.
pub proof fn law_failure_changes_the_outcome_alone<E>(event: Event<E>, error: E)
    ensures
        match (event, failed(event, error)) {
            (
                Event::WriteByte { value, .. },
                Event::WriteByte { value: asked, error: Some(told) },
            ) => asked == value && told == error,
            (Event::ReadByte { .. }, Event::ReadByte { reply: Err(told) }) => told == error,
            (
                Event::WriteByteData { register, value, .. },
                Event::WriteByteData { register: at, value: asked, error: Some(told) },
            ) => at == register && asked == value && told == error,
            (
                Event::ReadByteData { register, .. },
                Event::ReadByteData { register: at, reply: Err(told) },
            ) => at == register && told == error,
            (
                Event::WriteBlockData { command, data, .. },
                Event::WriteBlockData { command: at, data: asked, error: Some(told) },
            ) => at == command && asked == data && told == error,
            _ => false,
        },
        ended(event, None) == event,
        ended(event, Some(error)) == failed(event, error),
{
}

/// The fake holds what was written to a register until something else is, gives it back when the
/// register is read, and reads on from register to register.
pub proof fn law_fake_keeps_registers(state: FakeState, register: u8, value: u8, other: u8)
    ensures
        ({
            let after = state.after(Event::WriteByteData { register, value, error: None });
            &&& after.register(register) == value
            &&& other != register ==> after.register(other) == state.register(other)
            &&& after.allows(Event::ReadByteData { register, reply: Ok(value) })
            &&& !after.allows(Event::ReadByteData { register, reply: Err(()) })
        }),
        ({
            let pointed = state.after(Event::WriteByte { value: register, error: None });
            let read = pointed.after(Event::ReadByte { reply: Ok(state.register(register)) });
            &&& pointed.allows(Event::ReadByte { reply: Ok(state.register(register)) })
            &&& pointed.byte_writes == state.byte_writes.push(register)
            &&& register < 255 ==> read.allows(
                Event::ReadByte { reply: Ok(state.register((register + 1) as u8)) },
            )
            &&& read.registers == state.registers
        }),
{
}

/// The error of a transaction is told as it came; what was refused without one has none.
pub proof fn law_errors_of_transactions<E>(error: E, percent: u8, x: usize, y: usize)
    ensures
        mcu_failure(Err::<(), McuError<E>>(McuError::Bus(error))) == Some(error),
        mcu_failure(Err::<(), McuError<E>>(McuError::OutOfRange { percent })) is None,
        mcu_failure(Ok::<(), McuError<E>>(())) is None,
        block_failure(Err::<(), BlockError<E>>(BlockError::Bus(error))) == Some(error),
        block_failure(Err::<(), BlockError<E>>(BlockError::InvalidOrigin { x, y })) is None,
        block_failure(Ok::<(), BlockError<E>>(())) is None,
{
}

/// A block is sent in the mode that goes on with the next band: each value stands behind the
/// command it belongs to, and the data follow.
pub proof fn law_block_commands(x: u8, band: u8)
    requires
        x <= 96,
    ensures
        ({
            let commands = block_commands(x, band);
            &&& commands.len() == 9
            &&& commands[0] == 0x20 && commands[1] == 0x01
            &&& commands[2] == 0x21 && commands[3] == x && commands[4] == x + 31
            &&& commands[5] == 0x22 && commands[6] == band && commands[7] == band
            &&& commands[8] == 0x40
        }),
{
}

} // verus!
