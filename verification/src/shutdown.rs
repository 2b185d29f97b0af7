//! The last step of a shutdown: what the case is told when the host is about to stop.
use crate::hardware::{
    command_event, flush_script, lemma_more_steps, lemma_one_step, lemma_ran_cut, lemma_ran_push,
    mcu_failure, ran, steps, Event, I2cDevice, Mcu, McuError, OledDevice,
};
use crate::oled::{Framebuffer, BUFFER_SIZE};
use crate::outcome::failure;
use crate::rtc::{flags_script, Pcf8563};
use crate::text;
use vstd::prelude::*;

verus! {

/// The devices of the case. The display and the clock may be missing.
pub struct CaseDevices<D> {
    pub mcu: Mcu<D>,
    pub oled: Option<OledDevice<D>>,
    pub rtc: Option<Pcf8563<D>>,
}

/// The fan was stopped.
#[derive(Debug)]
pub struct FanStopped {
    granted: (),
}

/// The fan was stopped, and the display was darkened as far as that could be done.
#[derive(Debug)]
pub struct DisplayDark {
    granted: (),
}

/// Everything was done that comes before cutting the power, and the power is to be cut.
#[derive(Debug)]
pub struct CutDue {
    granted: (),
}

/// Whether the power is cut behind the action: behind a halt and a poweroff, not behind a reboot.
pub open spec fn ends_power(action: Seq<char>) -> bool {
    action == "poweroff"@ || action == "halt"@
}

/// Whether the power is cut behind the action.
pub fn cuts_power(action: &str) -> (r: bool)
    ensures
        r == ends_power(action@),
{
    let chars = text::to_chars(action);
    text::reads(chars.as_slice(), "poweroff") || text::reads(chars.as_slice(), "halt")
}

/// Darkening the display and switching it off.
pub open spec fn blank_script<E>() -> Seq<Event<E>> {
    flush_script(Seq::new(BUFFER_SIZE as nat, |i: int| 0u8), false).push(command_event(0xae))
}

/// Telling the case controller to stop the fan, with the given outcome.
pub open spec fn fan_stop<E>(error: Option<E>) -> Event<E> {
    Event::WriteByte { value: 0, error }
}

/// Telling the case controller to cut the power, with the given outcome.
pub open spec fn power_cut<E>(error: Option<E>) -> Event<E> {
    Event::WriteByte { value: 0xff, error }
}

/// Whether the display was darkened and switched off, if there is one.
pub open spec fn display_blanked<D: I2cDevice>(
    before: Option<OledDevice<D>>,
    after: Option<OledDevice<D>>,
    error: Option<D::Error>,
) -> bool {
    match (before, after) {
        (Some(old_display), Some(new_display)) => ran(
            old_display.device(),
            blank_script(),
            new_display.device(),
            error,
        ),
        (None, None) => error is None,
        _ => false,
    }
}

/// Whether the flags of the clock were cleared, if there is one.
pub open spec fn flags_cleared<D: I2cDevice>(
    before: Option<Pcf8563<D>>,
    after: Option<Pcf8563<D>>,
    error: Option<D::Error>,
) -> bool {
    match (before, after) {
        (Some(old_clock), Some(new_clock)) => exists|status: u8|
            ran(
                old_clock.device(),
                #[trigger] flags_script(status),
                new_clock.device(),
                error,
            ),
        (None, None) => error is None,
        _ => false,
    }
}

/// Darkens the display and switches it off.
fn blank<D: I2cDevice>(oled: &mut OledDevice<D>) -> (r: Result<(), D::Error>)
    ensures
        ran(old(oled).device(), blank_script(), final(oled).device(), failure(r)),
{
    let dark = Framebuffer::new();
    let ghost start = oled.device();
    let ghost transfer: Seq<Event<D::Error>> = flush_script(dark@, false);
    let ghost off: Event<D::Error> = command_event(0xae);
    match oled.flush(&dark, false) {
        Ok(()) => {},
        Err(error) => {
            proof {
                lemma_ran_cut(start, transfer, error, oled.device(), seq![off]);
                assert(transfer + seq![off] =~= transfer.push(off));
            }
            return Err(error);
        },
    }
    let ghost middle = oled.device();
    let result = oled.power(false);
    proof {
        lemma_ran_push(start, transfer, middle, off, oled.device(), failure(result));
    }
    result
}

/// Clears the flags of the clock, if there is one, and tells what went wrong.
fn clear_flags<D: I2cDevice>(rtc: &mut Option<Pcf8563<D>>) -> (r: Option<D::Error>)
    ensures
        flags_cleared(*old(rtc), *final(rtc), r),
{
    match rtc {
        Some(clock) => {
            let ghost start = clock.device();
            let result = clock.clear_event_flags();
            let ghost status = choose|status: u8|
                #[trigger] ran(
                    start,
                    flags_script(status),
                    clock.device(),
                    failure(result),
                );
            let error = match result {
                Ok(()) => None,
                Err(error) => Some(error),
            };
            assert(ran(start, flags_script(status), clock.device(), error));
            error
        },
        None => None,
    }
}

/// Whether the case controller was told to stop the fan, and nothing else was done.
pub open spec fn fan_told<D: I2cDevice>(
    before: CaseDevices<D>,
    after: CaseDevices<D>,
    error: Option<D::Error>,
) -> bool {
    &&& D::step(before.mcu.device(), fan_stop(error), after.mcu.device())
    &&& after.oled == before.oled
    &&& after.rtc == before.rtc
}

/// Whether the display was darkened, if there is one, and nothing else was done.
pub open spec fn darkened<D: I2cDevice>(
    before: CaseDevices<D>,
    after: CaseDevices<D>,
    error: Option<D::Error>,
) -> bool {
    &&& display_blanked(before.oled, after.oled, error)
    &&& after.mcu == before.mcu
    &&& after.rtc == before.rtc
}

/// Whether the flags of the clock were cleared, if there is one and the power is to be cut behind
/// the action, and nothing else was done.
pub open spec fn quieted<D: I2cDevice>(
    before: CaseDevices<D>,
    action: Seq<char>,
    after: CaseDevices<D>,
    error: Option<D::Error>,
) -> bool {
    &&& if ends_power(action) {
        flags_cleared(before.rtc, after.rtc, error)
    } else {
        after.rtc == before.rtc && error is None
    }
    &&& after.mcu == before.mcu
    &&& after.oled == before.oled
}

/// Whether the case controller was asked once to cut the power, and nothing else was done.
pub open spec fn cut_off<D: I2cDevice>(
    before: CaseDevices<D>,
    after: CaseDevices<D>,
    error: Option<D::Error>,
) -> bool {
    &&& D::step(before.mcu.device(), power_cut(error), after.mcu.device())
    &&& after.oled == before.oled
    &&& after.rtc == before.rtc
}

impl<D: I2cDevice> CaseDevices<D> {
    /// Stops the fan. Without that nothing else is done.
    pub fn stop_fan(&mut self) -> (r: Result<FanStopped, McuError<D::Error>>)
        ensures
            r is Err ==> r->Err_0 is Bus,
            fan_told(*old(self), *final(self), mcu_failure(r)),
    {
        match self.mcu.set_fan(0) {
            Ok(()) => Ok(FanStopped { granted: () }),
            Err(error) => Err(error),
        }
    }

    /// Darkens the display and switches it off. Tells what went wrong with it, which keeps nothing
    /// from going on.
    pub fn darken(&mut self, _stopped: FanStopped) -> (r: (DisplayDark, Option<D::Error>))
        ensures
            darkened(*old(self), *final(self), r.1),
    {
        let error = match &mut self.oled {
            Some(oled) => match blank(oled) {
                Ok(()) => None,
                Err(error) => Some(error),
            },
            None => None,
        };
        (DisplayDark { granted: () }, error)
    }

    /// Behind a halt and a poweroff it clears the flags of the clock, so that they wake nothing,
    /// and gives leave to cut the power. Tells what went wrong with the clock, which keeps nothing
    /// from going on.
    pub fn quiet_clock(&mut self, _dark: DisplayDark, action: &str) -> (r: (
        Option<CutDue>,
        Option<D::Error>,
    ))
        ensures
            r.0 is Some <==> ends_power(action@),
            quieted(*old(self), action@, *final(self), r.1),
    {
        if !cuts_power(action) {
            return (None, None);
        }
        let error = clear_flags(&mut self.rtc);
        (Some(CutDue { granted: () }), error)
    }

    /// Asks for the power to be cut, which uses up the leave to do so.
    pub fn cut_power(&mut self, _due: CutDue) -> (r: Result<(), D::Error>)
        ensures
            cut_off(*old(self), *final(self), failure(r)),
    {
        self.mcu.request_power_cut()
    }
}

/// A reboot never gives leave to cut the power, and no other action but a halt and a poweroff
/// does. Until then the case controller is told nothing but to stop the fan; cutting the power is
/// the last thing that it is told, and finds the display dark and the clock quiet.
pub proof fn law_reboot_keeps_power<D: I2cDevice>(
    before: CaseDevices<D>,
    still: CaseDevices<D>,
    dark: CaseDevices<D>,
    oled_error: Option<D::Error>,
    action: Seq<char>,
    quiet: CaseDevices<D>,
    rtc_error: Option<D::Error>,
)
    requires
        fan_told(before, still, None),
        darkened(still, dark, oled_error),
        quieted(dark, action, quiet, rtc_error),
    ensures
        action == "reboot"@ ==> !ends_power(action),
        steps(before.mcu.device(), seq![fan_stop(None)], quiet.mcu.device()),
        display_blanked(before.oled, quiet.oled, oled_error),
        if ends_power(action) {
            flags_cleared(before.rtc, quiet.rtc, rtc_error)
        } else {
            quiet.rtc == before.rtc
        },
        forall|after: CaseDevices<D>, error: Option<D::Error>| #[trigger]
            cut_off(quiet, after, error) ==> {
                &&& after.oled == quiet.oled
                &&& after.rtc == quiet.rtc
                &&& steps(
                    before.mcu.device(),
                    seq![fan_stop(None), power_cut(error)],
                    after.mcu.device(),
                )
            },
{
    reveal_strlit("reboot");
    reveal_strlit("poweroff");
    reveal_strlit("halt");
    assert("reboot"@.len() == 6 && "poweroff"@.len() == 8 && "halt"@.len() == 4);
    let stop = fan_stop::<D::Error>(None);
    lemma_one_step(before.mcu.device(), stop, quiet.mcu.device());
    assert forall|after: CaseDevices<D>, error: Option<D::Error>| #[trigger]
        cut_off(quiet, after, error) implies steps(
        before.mcu.device(),
        seq![stop, power_cut(error)],
        after.mcu.device(),
    ) by {
        let event = power_cut(error);
        lemma_more_steps(
            before.mcu.device(),
            seq![stop],
            quiet.mcu.device(),
            event,
            after.mcu.device(),
        );
        assert(seq![stop].push(event) =~= seq![stop, event]);
    }
}

/// The display ends dark and off: every byte that is sent to it is zero, and the last thing that
/// it is told is to switch off.
pub proof fn law_display_ends_dark<E>(x: int, band: int)
    requires
        0 <= x < 128,
        0 <= band < 8,
    ensures
        ({
            let script = blank_script::<E>();
            &&& script.len() == 321
            &&& script.last() == (Event::<E>::WriteByteData {
                register: 0,
                value: 0xae,
                error: None,
            })
            &&& script[10 * (x / 32 * 8 + band) + 9] matches Event::WriteBlockData { data, .. }
                && data.len() == 32 && data[x % 32] == 0
        }),
{
    let dark = Seq::new(BUFFER_SIZE as nat, |i: int| 0u8);
    crate::hardware::law_transfer_is_complete::<E>(dark, x, band);
}

/// The power is cut behind a poweroff and a halt, and the controller is told so with one byte;
/// stopping the fan is another.
pub proof fn law_what_the_controller_is_told<E>(action: Seq<char>, error: Option<E>)
    ensures
        ends_power(action) <==> action == "poweroff"@ || action == "halt"@,
        fan_stop(error) == (Event::WriteByte { value: 0, error }),
        power_cut(error) == (Event::WriteByte { value: 0xff, error }),
{
}

} // verus!
