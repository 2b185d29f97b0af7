//! The coded pulses by which the case reports gestures on its power button.
use crate::clock::Duration;
use crate::outcome::failure;
use vstd::prelude::*;

verus! {

/// What a gesture asks for.
#[derive(Debug, Clone, Copy, PartialEq, Eq, Structural)]
pub enum ButtonAction {
    Reboot,
    Shutdown,
    OledNext,
    Ignore,
}

/// What a pulse of so many full milliseconds asks for.
pub open spec fn action_for(millis: int) -> ButtonAction {
    if 20 <= millis <= 30 {
        ButtonAction::Reboot
    } else if 40 <= millis <= 50 {
        ButtonAction::Shutdown
    } else if 60 <= millis <= 70 {
        ButtonAction::OledNext
    } else {
        ButtonAction::Ignore
    }
}

/// What a pulse asks for.
pub fn classify_pulse(duration: Duration) -> (r: ButtonAction)
    ensures
        r == action_for(duration.nanos as int / 1_000_000),
{
    let millis = duration.as_millis();
    if 20 <= millis && millis <= 30 {
        ButtonAction::Reboot
    } else if 40 <= millis && millis <= 50 {
        ButtonAction::Shutdown
    } else if 60 <= millis && millis <= 70 {
        ButtonAction::OledNext
    } else {
        ButtonAction::Ignore
    }
}

/// What can be asked of the host.
pub enum PowerRequest {
    Reboot,
    Poweroff,
}

/// Restarts the host, or switches it off.
pub trait HostPower: Sized {
    type Error;

    /// Whether asking the host once can take it from one state to the other, with this error where
    /// it fails; any, where an implementation does not say.
    open spec fn step(
        before: Self,
        request: PowerRequest,
        error: Option<Self::Error>,
        after: Self,
    ) -> bool {
        true
    }

    fn reboot(&mut self) -> (r: Result<(), Self::Error>)
        ensures
            Self::step(*old(self), PowerRequest::Reboot, failure(r), *final(self)),
    ;

    fn poweroff(&mut self) -> (r: Result<(), Self::Error>)
        ensures
            Self::step(*old(self), PowerRequest::Poweroff, failure(r), *final(self)),
    ;
}

/// What came of a gesture.
#[derive(Debug)]
pub enum Reaction<E> {
    Nothing,
    /// The next page was asked for.
    NextPage,
    /// The host was asked to restart.
    Reboot(Result<(), E>),
    /// The host was asked to switch off.
    Poweroff(Result<(), E>),
}

/// What is asked of the host behind a gesture; nothing where gestures are only watched.
pub open spec fn request_for(action: ButtonAction, diagnostic: bool) -> Option<PowerRequest> {
    if diagnostic {
        None
    } else {
        match action {
            ButtonAction::Reboot => Some(PowerRequest::Reboot),
            ButtonAction::Shutdown => Some(PowerRequest::Poweroff),
            _ => None,
        }
    }
}

/// Whether asking the host once, with or without success, can take it from one state to the other.
pub open spec fn asked<P: HostPower>(before: P, request: PowerRequest, after: P) -> bool {
    exists|error: Option<P::Error>| #[trigger] P::step(before, request, error, after)
}

/// Whether a gesture can take the host from one state to the other: it is asked once where the
/// gesture asks for something of it, and otherwise left alone.
pub open spec fn reacted<P: HostPower>(
    before: P,
    action: ButtonAction,
    diagnostic: bool,
    after: P,
) -> bool {
    match request_for(action, diagnostic) {
        Some(request) => asked(before, request, after),
        None => after == before,
    }
}

/// Does what a gesture asks for; nothing where gestures are only watched.
pub fn react<P: HostPower>(power: &mut P, action: ButtonAction, diagnostic: bool) -> (r: Reaction<
    P::Error,
>)
    ensures
        diagnostic || action == ButtonAction::Ignore <==> r is Nothing,
        !diagnostic && action == ButtonAction::OledNext <==> r is NextPage,
        !diagnostic && action == ButtonAction::Reboot <==> r is Reboot,
        !diagnostic && action == ButtonAction::Shutdown <==> r is Poweroff,
        r is Nothing || r is NextPage ==> *final(power) == *old(power),
        r matches Reaction::Reboot(result) ==> P::step(
            *old(power),
            PowerRequest::Reboot,
            failure(result),
            *final(power),
        ),
        r matches Reaction::Poweroff(result) ==> P::step(
            *old(power),
            PowerRequest::Poweroff,
            failure(result),
            *final(power),
        ),
        reacted(*old(power), action, diagnostic, *final(power)),
{
    if diagnostic {
        return Reaction::Nothing;
    }
    match action {
        ButtonAction::Reboot => {
            let result = power.reboot();
            assert(P::step(*old(power), PowerRequest::Reboot, failure(result), *power));
            Reaction::Reboot(result)
        },
        ButtonAction::Shutdown => {
            let result = power.poweroff();
            assert(P::step(*old(power), PowerRequest::Poweroff, failure(result), *power));
            Reaction::Poweroff(result)
        },
        ButtonAction::OledNext => Reaction::NextPage,
        ButtonAction::Ignore => Reaction::Nothing,
    }
}

/// Whether gestures, one after the other, can take the host from one state to the other.
pub open spec fn all_reacted<P: HostPower>(
    before: P,
    actions: Seq<ButtonAction>,
    diagnostic: bool,
    after: P,
) -> bool
    decreases actions.len(),
{
    if actions.len() == 0 {
        after == before
    } else {
        exists|middle: P|
            all_reacted(before, actions.drop_last(), diagnostic, middle) && #[trigger] reacted(
                middle,
                actions.last(),
                diagnostic,
                after,
            )
    }
}

/// What gestures ask of the host, in their order.
pub open spec fn requests_for(actions: Seq<ButtonAction>, diagnostic: bool) -> Seq<PowerRequest>
    decreases actions.len(),
{
    if actions.len() == 0 {
        seq![]
    } else {
        let earlier = requests_for(actions.drop_last(), diagnostic);
        match request_for(actions.last(), diagnostic) {
            Some(request) => earlier.push(request),
            None => earlier,
        }
    }
}

/// Whether the requests, each made once, can take the host from one state to the other.
pub open spec fn all_asked<P: HostPower>(before: P, requests: Seq<PowerRequest>, after: P) -> bool
    decreases requests.len(),
{
    if requests.len() == 0 {
        after == before
    } else {
        exists|middle: P|
            all_asked(before, requests.drop_last(), middle) && #[trigger] asked(
                middle,
                requests.last(),
                after,
            )
    }
}

/// However many gestures there are, the host is asked once for each that asks for a restart or for
/// switching off, in their order, and for nothing else.
pub proof fn law_each_gesture_asks_once<P: HostPower>(
    before: P,
    actions: Seq<ButtonAction>,
    diagnostic: bool,
    after: P,
)
    requires
        all_reacted(before, actions, diagnostic, after),
    ensures
        all_asked(before, requests_for(actions, diagnostic), after),
    decreases actions.len(),
{
    if actions.len() > 0 {
        let middle = choose|middle: P|
            all_reacted(before, actions.drop_last(), diagnostic, middle) && #[trigger] reacted(
                middle,
                actions.last(),
                diagnostic,
                after,
            );
        law_each_gesture_asks_once(before, actions.drop_last(), diagnostic, middle);
        if let Some(request) = request_for(actions.last(), diagnostic) {
            let earlier = requests_for(actions.drop_last(), diagnostic);
            assert(earlier.push(request).drop_last() =~= earlier);
            assert(asked(middle, earlier.push(request).last(), after));
        }
    }
}

/// Where gestures are only watched, the host is never asked for anything, whatever the gestures.
pub proof fn law_watching_asks_nothing<P: HostPower>(
    before: P,
    actions: Seq<ButtonAction>,
    after: P,
)
    requires
        all_reacted(before, actions, true, after),
    ensures
        requests_for(actions, true).len() == 0,
        after == before,
    decreases actions.len(),
{
    if actions.len() > 0 {
        let middle = choose|middle: P|
            all_reacted(before, actions.drop_last(), true, middle) && #[trigger] reacted(
                middle,
                actions.last(),
                true,
                after,
            );
        law_watching_asks_nothing(before, actions.drop_last(), middle);
    }
}

/// The pulses of different gestures are at least nine milliseconds apart, so that a pulse measured
/// up to four milliseconds too long or too short is never taken for another gesture.
pub proof fn law_gestures_are_apart(a: int, b: int)
    requires
        action_for(a) != ButtonAction::Ignore,
        action_for(b) != ButtonAction::Ignore,
        action_for(a) != action_for(b),
    ensures
        a - b > 8 || b - a > 8,
{
}

/// A pulse of 20 to 30 milliseconds asks for a restart, one of 40 to 50 for switching off, one of
/// 60 to 70 for the next page, and no other for anything.
pub proof fn law_gestures_by_their_length(millis: int)
    ensures
        action_for(millis) == ButtonAction::Reboot <==> 20 <= millis <= 30,
        action_for(millis) == ButtonAction::Shutdown <==> 40 <= millis <= 50,
        action_for(millis) == ButtonAction::OledNext <==> 60 <= millis <= 70,
        action_for(millis) == ButtonAction::Ignore <==> millis < 20 || 30 < millis < 40 || 50
            < millis < 60 || 70 < millis,
{
}

/// The host is asked to restart by the gesture for it, and to switch off by the one for that; by
/// no other, and by none where gestures are only watched.
pub proof fn law_gestures_ask_for_what_they_mean(action: ButtonAction)
    ensures
        request_for(action, true) is None,
        request_for(action, false) matches Some(request) && request is Reboot <==> action
            == ButtonAction::Reboot,
        request_for(action, false) matches Some(request) && request is Poweroff <==> action
            == ButtonAction::Shutdown,
        request_for(action, false) is None <==> action == ButtonAction::OledNext || action
            == ButtonAction::Ignore,
{
}

} // verus!
