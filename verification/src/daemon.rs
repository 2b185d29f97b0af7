//! The service: one step of each of its loops.
//!
//! The loops themselves wait, read the clock and the sensors, and report; each step decides.
use crate::calendar::DateTime;
use crate::clock::{elapsed, Duration, Instant};
use crate::config::{OledConfig, OledPage};
use crate::fan::{
    apply_decision, carried_out, sleeps_behind_kick, speed_at, FanCurve, FanDecision, FanOutput,
    FanPolicy, PolicyState,
};
use crate::schedule::{
    earliest_startup, law_earliest_startup, next_startup_schedule, views, Schedule, ScheduleCommand,
    ScheduleView,
};
use crate::single::Single;
use vstd::prelude::*;

verus! {

/// How long a slower fan speed is waited for.
pub const DOWNSHIFT_DELAY_SECONDS: u64 = 30;

/// What came of a step of the fan loop.
#[derive(Debug)]
pub enum FanReport<E> {
    /// The temperature is not known; the fan keeps its speed.
    Preserved { percent: u8 },
    Unchanged,
    /// A slower speed is waited for.
    Pending { percent: u8, remaining: Duration },
    Applied { percent: u8 },
    /// The speed could not be set; it is tried again.
    Failed(E),
}

/// The temperature that counts: that of the processor or of the hottest drive, whichever is
/// higher.
pub open spec fn governing(cpu: Single, drive: Option<Single>) -> Single {
    match drive {
        Some(drive) => drive.larger(cpu),
        None => cpu,
    }
}

/// The temperature that counts.
pub fn governing_temperature(cpu: Single, drive: Option<Single>) -> (r: Single)
    ensures
        r == governing(cpu, drive),
{
    match drive {
        Some(drive) => drive.maximum(cpu),
        None => cpu,
    }
}

/// The error of a speed that could not be set.
pub open spec fn report_failure<E>(r: FanReport<E>) -> Option<E> {
    match r {
        FanReport::Failed(error) => Some(error),
        _ => None,
    }
}

/// Whether the report says that the fan keeps its speed.
pub open spec fn preserves<E>(r: FanReport<E>, speed: u8) -> bool {
    r matches FanReport::Preserved { percent } && percent == speed
}

/// Whether the report is one on the decision.
pub open spec fn reports<E>(r: FanReport<E>, decision: FanDecision) -> bool {
    match decision {
        FanDecision::Apply { percent: speed, .. } => match r {
            FanReport::Applied { percent } => percent == speed,
            FanReport::Failed(_) => true,
            _ => false,
        },
        FanDecision::DownshiftPending { percent: speed, remaining: time } => match r {
            FanReport::Pending { percent, remaining } => percent == speed && remaining == time,
            _ => false,
        },
        FanDecision::Unchanged => r is Unchanged,
    }
}

/// What the policy knows once the decision was carried out.
pub open spec fn recorded(state: PolicyState, decision: FanDecision, failed: bool) -> PolicyState {
    match decision {
        FanDecision::Apply { percent, .. } => if failed {
            state
        } else {
            state.committed(percent)
        },
        _ => state,
    }
}

/// Sets the fan by the temperatures. A speed is recorded once it was set, and only then. `sleep`
/// is the wait of a kick.
pub fn fan_step<O, S>(
    curve: &FanCurve,
    policy: &mut FanPolicy,
    output: &mut O,
    cpu: Option<Single>,
    drive: Option<Single>,
    now: Instant,
    sleep: S,
) -> (r: FanReport<O::Error>) where O: FanOutput, S: FnOnce(Duration, &O)
    requires
        cpu matches Some(cpu) ==> sleeps_behind_kick(
            *old(output),
            old(policy)@.decision(speed_at(curve@, governing(cpu, drive)), now),
            sleep,
        ),
    ensures
        cpu is None ==> preserves(r, old(policy)@.current),
        cpu is None ==> final(policy)@ == old(policy)@,
        cpu is None ==> *final(output) == *old(output),
        cpu matches Some(cpu) ==> {
            let desired = speed_at(curve@, governing(cpu, drive));
            let decision = old(policy)@.decision(desired, now);
            &&& reports(r, decision)
            &&& carried_out(*old(output), decision, sleep, *final(output), report_failure(r))
            &&& final(policy)@ == recorded(old(policy)@.asked(desired, now), decision, r is Failed)
        },
{
    let cpu = match cpu {
        Some(cpu) => cpu,
        None => {
            return FanReport::Preserved { percent: policy.current_percent() };
        },
    };
    let desired = curve.speed_for(governing_temperature(cpu, drive));
    let decision = policy.evaluate(desired, now);
    match decision {
        FanDecision::Apply { percent, .. } => match apply_decision(output, decision, sleep) {
            Ok(()) => {
                policy.commit(percent);
                FanReport::Applied { percent }
            },
            Err(error) => FanReport::Failed(error),
        },
        FanDecision::DownshiftPending { percent, remaining } => FanReport::Pending {
            percent,
            remaining,
        },
        FanDecision::Unchanged => FanReport::Unchanged,
    }
}

/// How long a page stays before it is drawn anew.
pub const REFRESH_SECONDS: u64 = 60;

/// What the OLED loop is to do.
#[derive(Debug, Clone, Copy, PartialEq, Eq, Structural)]
pub enum OledAction {
    Nothing,
    /// Switch the OLED off.
    Blank,
    /// Draw the page.
    Render(OledPage),
}

/// Which page the OLED shows, and when it was switched, used and drawn last.
#[derive(Debug)]
pub struct OledScreen {
    pages: Vec<OledPage>,
    switch_seconds: u64,
    screensaver_seconds: Option<u64>,
    index: usize,
    last_switch: Instant,
    last_activity: Instant,
    last_render: Instant,
    render_needed: bool,
    sleeping: bool,
}

/// What an [`OledScreen`] knows.
pub struct ScreenState {
    pub pages: Seq<OledPage>,
    pub switch_seconds: u64,
    pub screensaver_seconds: Option<u64>,
    pub index: int,
    pub last_switch: Instant,
    pub last_activity: Instant,
    pub last_render: Instant,
    pub render_needed: bool,
    pub sleeping: bool,
}

impl View for OledScreen {
    type V = ScreenState;

    closed spec fn view(&self) -> ScreenState {
        ScreenState {
            pages: self.pages@,
            switch_seconds: self.switch_seconds,
            screensaver_seconds: self.screensaver_seconds,
            index: self.index as int,
            last_switch: self.last_switch,
            last_activity: self.last_activity,
            last_render: self.last_render,
            render_needed: self.render_needed,
            sleeping: self.sleeping,
        }
    }
}

/// Whether so many seconds have passed.
pub open spec fn passed(since: Instant, now: Instant, seconds: u64) -> bool {
    elapsed(since, now) >= seconds * 1_000_000_000
}

impl ScreenState {
    /// What is known at the start: the first page is to be drawn.
    pub open spec fn started(
        pages: Seq<OledPage>,
        switch_seconds: u64,
        screensaver_seconds: Option<u64>,
        now: Instant,
    ) -> ScreenState {
        ScreenState {
            pages,
            switch_seconds,
            screensaver_seconds,
            index: 0,
            last_switch: now,
            last_activity: now,
            last_render: now,
            render_needed: true,
            sleeping: false,
        }
    }

    /// There is a page to show.
    pub open spec fn valid(self) -> bool {
        0 <= self.index < self.pages.len()
    }

    /// Whether the next page is due: it was asked for, or the time of this one is over.
    pub open spec fn switches(self, requested: bool, now: Instant) -> bool {
        requested || (self.switch_seconds > 0 && passed(
            self.last_switch,
            now,
            self.switch_seconds,
        ))
    }

    /// What is known once the next page was turned to if it was due.
    pub open spec fn turned(self, requested: bool, now: Instant) -> ScreenState {
        if self.switches(requested, now) {
            ScreenState {
                index: (self.index + 1) % (self.pages.len() as int),
                last_switch: now,
                last_activity: now,
                sleeping: false,
                render_needed: true,
                ..self
            }
        } else {
            self
        }
    }

    /// Whether the display has been left alone for so long that it is switched off.
    pub open spec fn idle(self, now: Instant) -> bool {
        self.screensaver_seconds matches Some(seconds) && passed(self.last_activity, now, seconds)
    }

    /// What is done once the page was turned.
    pub open spec fn action(self, now: Instant) -> OledAction {
        if self.idle(now) {
            if self.sleeping {
                OledAction::Nothing
            } else {
                OledAction::Blank
            }
        } else if !self.sleeping && (self.render_needed || passed(
            self.last_render,
            now,
            REFRESH_SECONDS,
        )) {
            OledAction::Render(self.pages[self.index])
        } else {
            OledAction::Nothing
        }
    }

    /// What is known after that.
    pub open spec fn rested(self, now: Instant) -> ScreenState {
        ScreenState { sleeping: self.sleeping || self.idle(now), ..self }
    }

    /// What is known once a page was drawn, with or without success.
    pub open spec fn drawn(self, now: Instant) -> ScreenState {
        ScreenState { render_needed: false, last_render: now, ..self }
    }
}

/// Whether so many seconds have passed.
fn has_passed(since: Instant, now: Instant, seconds: u64) -> (r: bool)
    ensures
        r == passed(since, now, seconds),
{
    now.saturating_duration_since(since).nanos >= Duration::from_secs(seconds).nanos
}

impl OledScreen {
    /// Begins with the first page; with nothing where the OLED is not used or has no pages.
    pub fn new(config: OledConfig, now: Instant) -> (r: Option<OledScreen>)
        ensures
            r is Some <==> config.enabled && config.pages@.len() > 0,
            r matches Some(screen) ==> screen@.valid() && screen@ == (ScreenState {
                pages: config.pages@,
                switch_seconds: config.switch_seconds,
                screensaver_seconds: config.screensaver_seconds,
                index: 0,
                last_switch: now,
                last_activity: now,
                last_render: now,
                render_needed: true,
                sleeping: false,
            }),
            r matches Some(screen) ==> screen@ == ScreenState::started(
                config.pages@,
                config.switch_seconds,
                config.screensaver_seconds,
                now,
            ),
    {
        if !config.enabled || config.pages.len() == 0 {
            return None;
        }
        Some(
            OledScreen {
                pages: config.pages,
                switch_seconds: config.switch_seconds,
                screensaver_seconds: config.screensaver_seconds,
                index: 0,
                last_switch: now,
                last_activity: now,
                last_render: now,
                render_needed: true,
                sleeping: false,
            },
        )
    }

    /// Decides what to do now. `requested` tells whether the next page was asked for.
    pub fn tick(&mut self, requested: bool, now: Instant) -> (r: OledAction)
        requires
            old(self)@.valid(),
        ensures
            r == old(self)@.turned(requested, now).action(now),
            final(self)@ == old(self)@.turned(requested, now).rested(now),
            final(self)@.valid(),
    {
        let automatic = self.switch_seconds > 0 && has_passed(
            self.last_switch,
            now,
            self.switch_seconds,
        );
        if requested || automatic {
            assert(self.index < self.pages.len());
            self.index = (self.index + 1) % self.pages.len();
            self.last_switch = now;
            self.last_activity = now;
            self.sleeping = false;
            self.render_needed = true;
        }
        let idle = match self.screensaver_seconds {
            Some(seconds) => has_passed(self.last_activity, now, seconds),
            None => false,
        };
        if idle {
            if self.sleeping {
                return OledAction::Nothing;
            }
            self.sleeping = true;
            return OledAction::Blank;
        }
        if !self.sleeping && (self.render_needed || has_passed(
            self.last_render,
            now,
            REFRESH_SECONDS,
        )) {
            return OledAction::Render(self.pages[self.index]);
        }
        OledAction::Nothing
    }

    /// Records that a page was drawn. What failed is tried again with the next refresh.
    pub fn rendered(&mut self, now: Instant)
        requires
            old(self)@.valid(),
        ensures
            final(self)@ == old(self)@.drawn(now),
            final(self)@.valid(),
    {
        self.render_needed = false;
        self.last_render = now;
    }
}

/// Without a screensaver the display is never switched off.
pub proof fn law_no_screensaver_no_blank(state: ScreenState, requested: bool, now: Instant)
    requires
        state.screensaver_seconds is None,
    ensures
        !(state.turned(requested, now).action(now) is Blank),
        !state.sleeping ==> !state.turned(requested, now).rested(now).sleeping,
{
}

/// A dark display stays dark until the next page is due, and then it shows that page.
pub proof fn law_dark_until_next_page(state: ScreenState, requested: bool, now: Instant)
    requires
        state.valid(),
        state.sleeping,
    ensures
        !state.switches(requested, now) ==> state.turned(requested, now).action(now)
            == OledAction::Nothing && state.turned(requested, now).rested(now).sleeping,
        state.switches(requested, now) && state.screensaver_seconds != Some(0u64)
            ==> state.turned(requested, now).action(now) == OledAction::Render(
            state.pages[(state.index + 1) % (state.pages.len() as int)],
        ),
{
    if state.switches(requested, now) {
        assert(elapsed(now, now) == 0);
    }
}

/// Asking for the next page as often as there are pages comes back to the page.
pub proof fn law_pages_go_round(state: ScreenState, times: nat, now: Instant)
    requires
        state.valid(),
    ensures
        turned_often(state, times, now).pages == state.pages,
        turned_often(state, times, now).index == (state.index + times) % (state.pages.len() as int),
        times == state.pages.len() ==> turned_often(state, times, now).index == state.index,
    decreases times,
{
    let count = state.pages.len() as int;
    if times > 0 {
        law_pages_go_round(state, (times - 1) as nat, now);
        vstd::arithmetic::div_mod::lemma_add_mod_noop(state.index + times - 1, 1, count);
        if count == 1 {
            vstd::arithmetic::div_mod::lemma_mod_is_mod_recursive(1, 1);
        } else {
            vstd::arithmetic::div_mod::lemma_small_mod(1, count as nat);
        }
    } else {
        vstd::arithmetic::div_mod::lemma_small_mod(state.index as nat, count as nat);
    }
    if times == count {
        vstd::arithmetic::div_mod::lemma_mod_add_multiples_vanish(state.index, count);
        vstd::arithmetic::div_mod::lemma_small_mod(state.index as nat, count as nat);
    }
}

/// What is known once the next page was asked for so often.
pub open spec fn turned_often(state: ScreenState, times: nat, now: Instant) -> ScreenState
    decreases times,
{
    if times == 0 {
        state
    } else {
        turned_often(state, (times - 1) as nat, now).turned(true, now)
    }
}

/// What the RTC loop is to do about the alarm.
#[derive(Debug, Clone, Copy, PartialEq, Eq, Structural)]
pub enum AlarmAction {
    /// The alarm is as it should be.
    Keep,
    /// Set the alarm to a local time, on a day of the month or of the week where they count.
    Program { local: DateTime, include_day: bool, include_weekday: bool },
    /// There is nothing to wake up for.
    Clear,
}

/// The time of the next startup.
pub open spec fn startup_time(schedules: Seq<ScheduleView>, now: DateTime) -> Option<DateTime> {
    match earliest_startup(schedules, now) {
        Some((_, time)) => Some(time),
        None => None,
    }
}

/// What is to be done about an alarm that is set to `programmed`.
pub open spec fn alarm_plan(
    schedules: Seq<ScheduleView>,
    now: DateTime,
    programmed: Option<DateTime>,
) -> AlarmAction {
    if startup_time(schedules, now) == programmed {
        AlarmAction::Keep
    } else {
        match earliest_startup(schedules, now) {
            Some((index, local)) => AlarmAction::Program {
                local,
                include_day: !(schedules[index].day is Any),
                include_weekday: !(schedules[index].weekday is Any),
            },
            None => AlarmAction::Clear,
        }
    }
}

/// Decides about the alarm, which is set to `programmed`.
pub fn plan_alarm(schedules: &[Schedule], now: DateTime, programmed: Option<DateTime>) -> (r:
    AlarmAction)
    requires
        now.valid(),
    ensures
        r == alarm_plan(views(schedules@), now, programmed),
{
    proof {
        law_earliest_startup(views(schedules@), now);
    }
    match next_startup_schedule(schedules, now) {
        Some((schedule, local)) => {
            let kept = match programmed {
                Some(time) => time == local,
                None => false,
            };
            if kept {
                AlarmAction::Keep
            } else {
                AlarmAction::Program {
                    local,
                    include_day: !schedule.day.is_any(),
                    include_weekday: !schedule.weekday.is_any(),
                }
            }
        },
        None => if programmed.is_none() {
            AlarmAction::Keep
        } else {
            AlarmAction::Clear
        },
    }
}

/// What the alarm is set to once the action was tried: what was asked for, and what it was set to
/// before where that failed.
pub open spec fn alarm_after(
    action: AlarmAction,
    ok: bool,
    programmed: Option<DateTime>,
) -> Option<DateTime> {
    if !ok {
        programmed
    } else {
        match action {
            AlarmAction::Keep => programmed,
            AlarmAction::Program { local, .. } => Some(local),
            AlarmAction::Clear => None,
        }
    }
}

/// What the alarm is set to once the action was tried, with or without success.
pub fn settled(action: AlarmAction, ok: bool, programmed: Option<DateTime>) -> (r: Option<DateTime>)
    ensures
        r == alarm_after(action, ok, programmed),
{
    if !ok {
        return programmed;
    }
    match action {
        AlarmAction::Keep => programmed,
        AlarmAction::Program { local, .. } => Some(local),
        AlarmAction::Clear => None,
    }
}

/// An alarm that could not be set or cleared is tried again; one that was is left alone.
pub proof fn law_failed_alarm_is_tried_again(
    schedules: Seq<ScheduleView>,
    now: DateTime,
    programmed: Option<DateTime>,
)
    ensures
        alarm_plan(
            schedules,
            now,
            alarm_after(alarm_plan(schedules, now, programmed), false, programmed),
        ) == alarm_plan(schedules, now, programmed),
        alarm_after(alarm_plan(schedules, now, programmed), true, programmed) == startup_time(
            schedules,
            now,
        ),
        alarm_plan(
            schedules,
            now,
            alarm_after(alarm_plan(schedules, now, programmed), true, programmed),
        ) == AlarmAction::Keep,
{
}

/// Whether a schedule asks for the host to be switched off now.
pub open spec fn shutdown_at(schedules: Seq<ScheduleView>, now: DateTime) -> bool {
    exists|i: int|
        0 <= i < schedules.len() && (#[trigger] schedules[i]).command == ScheduleCommand::Off
            && schedules[i].at(now)
}

/// Whether a schedule asks for the host to be switched off now.
pub fn shutdown_due(schedules: &[Schedule], now: DateTime) -> (r: bool)
    requires
        now.valid(),
    ensures
        r == shutdown_at(views(schedules@), now),
{
    let mut i: usize = 0;
    while i < schedules.len()
        invariant
            now.valid(),
            i <= schedules@.len(),
            forall|k: int|
                0 <= k < i ==> !((#[trigger] views(schedules@)[k]).command == ScheduleCommand::Off
                    && views(schedules@)[k].at(now)),
        decreases schedules@.len() - i,
    {
        assert(views(schedules@)[i as int] == schedules@[i as int]@);
        if schedules[i].command == ScheduleCommand::Off && schedules[i].matches(now) {
            return true;
        }
        i += 1;
    }
    false
}

/// Once the alarm is as planned, it is left alone until the next startup changes; a startup
/// entry never switches the host off, and a shutdown entry never sets the alarm.
pub proof fn law_alarm_settles(schedules: Seq<ScheduleView>, now: DateTime)
    ensures
        alarm_plan(schedules, now, startup_time(schedules, now)) == AlarmAction::Keep,
        (forall|i: int|
            0 <= i < schedules.len() ==> (#[trigger] schedules[i]).command == ScheduleCommand::On)
            ==> !shutdown_at(schedules, now),
        (forall|i: int|
            0 <= i < schedules.len() ==> (#[trigger] schedules[i]).command == ScheduleCommand::Off)
            ==> startup_time(schedules, now) is None,
{
    if forall|i: int|
        0 <= i < schedules.len() ==> (#[trigger] schedules[i]).command == ScheduleCommand::Off {
        lemma_no_startup(schedules, now);
    }
}

proof fn lemma_no_startup(schedules: Seq<ScheduleView>, now: DateTime)
    requires
        forall|i: int|
            0 <= i < schedules.len() ==> (#[trigger] schedules[i]).command == ScheduleCommand::Off,
    ensures
        earliest_startup(schedules, now) is None,
    decreases schedules.len(),
{
    if schedules.len() > 0 {
        let head = schedules.drop_last();
        assert forall|i: int| 0 <= i < head.len() implies (#[trigger] head[i]).command
            == ScheduleCommand::Off by {
            assert(head[i] == schedules[i]);
        }
        lemma_no_startup(head, now);
        assert(schedules.last() == schedules[schedules.len() - 1]);
    }
}

/// The temperature that counts is one of the two and not below either of them; a drive that gives
/// no number does not count.
pub proof fn law_hotter_one_counts(cpu: Single, drive: Single)
    ensures
        governing(cpu, None) == cpu,
        governing(cpu, Some(drive)) == cpu || governing(cpu, Some(drive)) == drive,
        !cpu.nan() && !drive.nan() ==> governing(cpu, Some(drive)).reaches(cpu) && governing(
            cpu,
            Some(drive),
        ).reaches(drive),
        drive.nan() ==> governing(cpu, Some(drive)) == cpu,
        cpu.nan() && !drive.nan() ==> governing(cpu, Some(drive)) == drive,
{
}

/// A step records the speed it set, and none that it did not set: behind a success the speed that
/// was asked for is known, behind a failure and a wait the old one.
pub proof fn law_step_records_what_was_set(state: PolicyState, desired: u8, now: Instant)
    ensures
        ({
            let decision = state.decision(desired, now);
            let asked = state.asked(desired, now);
            &&& decision is Apply ==> recorded(asked, decision, false).current == desired
            &&& decision is Apply ==> recorded(asked, decision, true).current == state.current
            &&& !(decision is Apply) ==> recorded(asked, decision, false).current == state.current
            &&& recorded(asked, decision, false).delay == state.delay
            &&& recorded(asked, decision, true).delay == state.delay
        }),
        desired == state.current ==> state.decision(desired, now) is Unchanged,
        desired > state.current ==> state.decision(desired, now) is Apply,
{
}

/// What is reported is what happened: a speed is reported as set only if it was set.
pub proof fn law_reports_are_true<E>(r: FanReport<E>, decision: FanDecision)
    requires
        reports(r, decision),
    ensures
        r matches FanReport::Applied { percent } ==> (decision matches FanDecision::Apply {
            percent: asked,
            ..
        } && asked == percent),
        r matches FanReport::Pending { percent, remaining } ==> decision == (
        FanDecision::DownshiftPending { percent, remaining }),
        r is Unchanged ==> decision is Unchanged,
        r is Failed ==> decision is Apply,
        !(r is Preserved),
        report_failure(r) is Some <==> r is Failed,
{
}

/// The next page is turned to when it is asked for, and by itself when the page has stood for its
/// time, if it has one; then, and only then, the page changes, to the next one of the list or from
/// the last to the first.
pub proof fn law_page_is_turned(state: ScreenState, requested: bool, now: Instant)
    requires
        state.valid(),
        state.last_switch.nanos <= now.nanos,
    ensures
        ({
            let over = state.switch_seconds > 0 && now.nanos - state.last_switch.nanos
                >= state.switch_seconds * 1_000_000_000;
            let after = state.turned(requested, now);
            &&& requested || over ==> after.index == (if state.index + 1 == state.pages.len() {
                0
            } else {
                state.index + 1
            }) && after.last_switch == now && after.last_activity == now && !after.sleeping
                && after.render_needed
            &&& !requested && !over ==> after == state
            &&& after.pages == state.pages
            &&& after.switch_seconds == state.switch_seconds
            &&& after.screensaver_seconds == state.screensaver_seconds
            &&& after.last_render == state.last_render
        }),
{
    let count = state.pages.len() as int;
    if state.index + 1 < count {
        vstd::arithmetic::div_mod::lemma_small_mod((state.index + 1) as nat, count as nat);
    } else {
        vstd::arithmetic::div_mod::lemma_mod_self_0(count);
    }
}

/// The display is switched off once, when it has been left alone for the time of the screensaver,
/// and sleeps from then on. While it is awake, its page is drawn if it is new or was drawn a
/// minute ago.
pub proof fn law_display_is_kept(state: ScreenState, now: Instant)
    requires
        state.valid(),
        state.last_activity.nanos <= now.nanos,
        state.last_render.nanos <= now.nanos,
    ensures
        ({
            let left_alone = state.screensaver_seconds matches Some(seconds) && now.nanos
                - state.last_activity.nanos >= seconds * 1_000_000_000;
            let old_picture = now.nanos - state.last_render.nanos >= 60_000_000_000;
            &&& state.action(now) == OledAction::Blank <==> left_alone && !state.sleeping
            &&& state.action(now) is Render <==> !left_alone && !state.sleeping && (
            state.render_needed || old_picture)
            &&& state.action(now) matches OledAction::Render(page) ==> page
                == state.pages[state.index]
            &&& state.rested(now).sleeping <==> state.sleeping || left_alone
            &&& state.rested(now).index == state.index
            &&& state.rested(now).pages == state.pages
            &&& state.rested(now).last_activity == state.last_activity
            &&& state.rested(now).last_switch == state.last_switch
            &&& state.rested(now).last_render == state.last_render
            &&& state.rested(now).render_needed == state.render_needed
        }),
{
}

/// A page that was drawn is drawn again a minute later and not before, unless the page changes.
pub proof fn law_drawn_page_stays(state: ScreenState, drawn: Instant, now: Instant)
    requires
        state.valid(),
        drawn.nanos <= now.nanos,
    ensures
        now.nanos - drawn.nanos < 60_000_000_000 ==> !(state.drawn(drawn).action(now) is Render),
        now.nanos - drawn.nanos >= 60_000_000_000 && !state.sleeping && state.screensaver_seconds
            is None ==> state.drawn(drawn).action(now) == OledAction::Render(
            state.pages[state.index],
        ),
        state.drawn(drawn).index == state.index,
        state.drawn(drawn).pages == state.pages,
        state.drawn(drawn).last_activity == state.last_activity,
        state.drawn(drawn).last_switch == state.last_switch,
        state.drawn(drawn).sleeping == state.sleeping,
{
}

/// The alarm that is planned is that of a startup entry, and no startup entry has an earlier
/// time; the day and the weekday count if the entry names them. Without a startup there is
/// nothing to set, and an alarm that is already so is left alone.
pub proof fn law_alarm_is_the_earliest_startup(
    schedules: Seq<ScheduleView>,
    now: DateTime,
    programmed: Option<DateTime>,
)
    ensures
        match alarm_plan(schedules, now, programmed) {
            AlarmAction::Program { local, include_day, include_weekday } => {
                &&& programmed != Some(local)
                &&& exists|i: int|
                    {
                        &&& 0 <= i < schedules.len()
                        &&& (#[trigger] schedules[i]).command == ScheduleCommand::On
                        &&& schedules[i].next_time(now) == Some(local)
                        &&& include_day <==> schedules[i].day is Values
                        &&& include_weekday <==> schedules[i].weekday is Values
                    }
                &&& forall|i: int|
                    0 <= i < schedules.len() && (#[trigger] schedules[i]).command
                        == ScheduleCommand::On ==> (schedules[i].next_time(now) matches Some(other)
                        ==> local.second_number() <= other.second_number())
            },
            AlarmAction::Clear => programmed is Some && forall|i: int|
                0 <= i < schedules.len() && (#[trigger] schedules[i]).command
                    == ScheduleCommand::On ==> schedules[i].next_time(now) is None,
            AlarmAction::Keep => match programmed {
                Some(local) => exists|i: int|
                    0 <= i < schedules.len() && (#[trigger] schedules[i]).command
                        == ScheduleCommand::On && schedules[i].next_time(now) == Some(local),
                None => forall|i: int|
                    0 <= i < schedules.len() && (#[trigger] schedules[i]).command
                        == ScheduleCommand::On ==> schedules[i].next_time(now) is None,
            },
        },
{
    law_earliest_startup(schedules, now);
    if let Some((index, local)) = earliest_startup(schedules, now) {
        assert(schedules[index].next_time(now) == Some(local));
    }
}

/// The host is switched off if any shutdown entry matches: one more entry adds its own times and
/// takes none away, and without entries it is never switched off.
pub proof fn law_shutdown_entries_add_up(
    schedules: Seq<ScheduleView>,
    more: ScheduleView,
    now: DateTime,
)
    ensures
        !shutdown_at(seq![], now),
        shutdown_at(schedules.push(more), now) <==> shutdown_at(schedules, now) || (more.command
            == ScheduleCommand::Off && more.at(now)),
{
    let all = schedules.push(more);
    if shutdown_at(schedules, now) {
        let i = choose|i: int|
            0 <= i < schedules.len() && (#[trigger] schedules[i]).command == ScheduleCommand::Off
                && schedules[i].at(now);
        assert(all[i] == schedules[i]);
    }
    if more.command == ScheduleCommand::Off && more.at(now) {
        assert(all[schedules.len() as int] == more);
    }
    if shutdown_at(all, now) {
        let i = choose|i: int|
            0 <= i < all.len() && (#[trigger] all[i]).command == ScheduleCommand::Off && all[i].at(
                now,
            );
        if i < schedules.len() {
            assert(schedules[i] == all[i]);
        }
    }
}

/// The display begins with its first page, which is drawn at once unless it is to sleep at once.
pub proof fn law_display_begins_with_its_first_page(
    pages: Seq<OledPage>,
    switch_seconds: u64,
    screensaver_seconds: Option<u64>,
    now: Instant,
)
    requires
        pages.len() > 0,
        screensaver_seconds != Some(0u64),
    ensures
        ({
            let state = ScreenState::started(pages, switch_seconds, screensaver_seconds, now);
            &&& state.valid()
            &&& state.turned(false, now) == state
            &&& state.action(now) == OledAction::Render(pages[0])
            &&& state.pages == pages
            &&& state.switch_seconds == switch_seconds
            &&& state.screensaver_seconds == screensaver_seconds
        }),
{
    assert(elapsed(now, now) == 0);
}

} // verus!
