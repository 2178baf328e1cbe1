use crate::Driver;
use std::time::Instant;
use vstd::prelude::*;
use vstd::std_specs::convert::FromSpecImpl;

verus! {

/// Supervises one driver: keeps it connected, and holds it while nobody listens to it.
pub struct SupervisorForSingle<D>(Option<Box<D>>);

/// What happens while one driver is supervised.
pub enum SupervisorEventForSingle<'a, D: Driver> {
    /// A driver was opened.
    Connected(<D as Driver>::Key, &'a mut D),
    /// The driver sent an event, or an idle tick.
    Event(&'a mut D, Option<(Instant, D::Event)>),
    /// The driver broke down.
    Disconnected,
    /// No driver could be opened.
    ConnectFailed,
}

impl<D> View for SupervisorForSingle<D> {
    type V = Option<Box<D>>;

    /// The driver that the supervisor holds, if any.
    closed spec fn view(&self) -> Option<Box<D>> {
        self.0
    }
}

impl<D> Default for SupervisorForSingle<D> {
    /// A supervisor that holds no driver.
    fn default() -> (supervisor: Self)
        ensures
            supervisor@ is None,
    {
        Self(None)
    }
}

impl<D> From<Box<D>> for SupervisorForSingle<D> {
    /// A supervisor that holds the driver `d`.
    fn from(d: Box<D>) -> (supervisor: Self)
        ensures
            supervisor@ == Some(d),
    {
        Self(Some(d))
    }
}

impl<D> FromSpecImpl<Box<D>> for SupervisorForSingle<D> {
    open spec fn obeys_from_spec() -> bool {
        true
    }

    closed spec fn from_spec(d: Box<D>) -> Self {
        SupervisorForSingle(Some(d))
    }
}

impl<D: Driver> SupervisorForSingle<D> {
    /// Hands out the driver that the supervisor holds, and leaves the supervisor empty.
    pub fn take(&mut self) -> (driver: Option<Box<D>>)
        ensures
            driver == old(self)@,
            final(self)@ is None,
    {
        self.0.take()
    }
}

/// What the supervisor reports to its user, besides the events of the driver itself.
#[derive(Clone, Copy, Debug, PartialEq, Eq, Structural)]
pub enum SingleNotice {
    /// A driver was opened.
    Connected,
    /// The driver broke down.
    Disconnected,
    /// No driver could be opened.
    ConnectFailed,
}

/// Where the supervision of one driver stands.
#[derive(Clone, Copy, Debug, PartialEq, Eq, Structural)]
pub enum SinglePhase {
    /// Supervision has not begun.
    Idle,
    /// The driver is listened to.
    Listening,
    /// Candidates are probed for one driver.
    Probing,
    /// The user is deciding on a notice.
    Asking(SingleNotice),
    /// Supervision has ended.
    Finished,
}

/// What has just happened.
#[derive(Clone, Copy, Debug, PartialEq, Eq, Structural)]
pub enum SingleSignal {
    /// Supervision begins; `saved` tells whether the supervisor holds a driver.
    Begin { saved: bool },
    /// The driver has left, of its own accord (`healthy`) or broken.
    Left { healthy: bool },
    /// The probe has ended, with a driver or without.
    Probed { found: bool },
    /// The user has answered a notice: go on, or stop.
    Answered { proceed: bool },
}

/// What is to be done next.
#[derive(Clone, Copy, Debug, PartialEq, Eq, Structural)]
pub enum SingleOrder {
    /// Listen to the driver.
    Listen,
    /// Probe the candidates for one driver.
    Probe,
    /// Report to the user.
    Notify(SingleNotice),
    /// Stop. A driver that left of its own accord, or one that was just opened, is kept.
    Finish,
}

/// The phase and the order that follow when `signal` arrives in `phase`.
///
/// A signal that cannot arrive in a phase ends the supervision.
pub open spec fn single_step(phase: SinglePhase, signal: SingleSignal) -> (SinglePhase, SingleOrder) {
    match (phase, signal) {
        (SinglePhase::Idle, SingleSignal::Begin { saved: true }) => (
            SinglePhase::Listening,
            SingleOrder::Listen,
        ),
        (SinglePhase::Idle, SingleSignal::Begin { saved: false }) => (
            SinglePhase::Probing,
            SingleOrder::Probe,
        ),
        (SinglePhase::Listening, SingleSignal::Left { healthy: false }) => (
            SinglePhase::Asking(SingleNotice::Disconnected),
            SingleOrder::Notify(SingleNotice::Disconnected),
        ),
        (SinglePhase::Probing, SingleSignal::Probed { found: true }) => (
            SinglePhase::Asking(SingleNotice::Connected),
            SingleOrder::Notify(SingleNotice::Connected),
        ),
        (SinglePhase::Probing, SingleSignal::Probed { found: false }) => (
            SinglePhase::Asking(SingleNotice::ConnectFailed),
            SingleOrder::Notify(SingleNotice::ConnectFailed),
        ),
        (SinglePhase::Asking(SingleNotice::Connected), SingleSignal::Answered { proceed: true }) => (
            SinglePhase::Listening,
            SingleOrder::Listen,
        ),
        (
            SinglePhase::Asking(SingleNotice::Disconnected),
            SingleSignal::Answered { proceed: true },
        ) => (SinglePhase::Probing, SingleOrder::Probe),
        (
            SinglePhase::Asking(SingleNotice::ConnectFailed),
            SingleSignal::Answered { proceed: true },
        ) => (SinglePhase::Probing, SingleOrder::Probe),
        _ => (SinglePhase::Finished, SingleOrder::Finish),
    }
}

impl SinglePhase {
    /// Takes in `signal` and returns the next phase with what is to be done.
    pub fn step(self, signal: SingleSignal) -> (next: (SinglePhase, SingleOrder))
        ensures
            next == single_step(self, signal),
    {
        match (self, signal) {
            (SinglePhase::Idle, SingleSignal::Begin { saved }) => if saved {
                (SinglePhase::Listening, SingleOrder::Listen)
            } else {
                (SinglePhase::Probing, SingleOrder::Probe)
            },
            (SinglePhase::Listening, SingleSignal::Left { healthy: false }) => (
                SinglePhase::Asking(SingleNotice::Disconnected),
                SingleOrder::Notify(SingleNotice::Disconnected),
            ),
            (SinglePhase::Probing, SingleSignal::Probed { found }) => {
                let notice = if found {
                    SingleNotice::Connected
                } else {
                    SingleNotice::ConnectFailed
                };
                (SinglePhase::Asking(notice), SingleOrder::Notify(notice))
            },
            (SinglePhase::Asking(notice), SingleSignal::Answered { proceed: true }) => match notice {
                SingleNotice::Connected => (SinglePhase::Listening, SingleOrder::Listen),
                _ => (SinglePhase::Probing, SingleOrder::Probe),
            },
            _ => (SinglePhase::Finished, SingleOrder::Finish),
        }
    }
}

/// After the driver has broken down and the user has chosen to go on, the candidates are probed
/// again, and the next thing that the user hears is `Connected` or `ConnectFailed`.
pub proof fn law_reconnects_after_fault(found: bool)
    ensures
        single_step(SinglePhase::Listening, SingleSignal::Left { healthy: false }) == (
            SinglePhase::Asking(SingleNotice::Disconnected),
            SingleOrder::Notify(SingleNotice::Disconnected),
        ),
        single_step(
            SinglePhase::Asking(SingleNotice::Disconnected),
            SingleSignal::Answered { proceed: true },
        ) == (SinglePhase::Probing, SingleOrder::Probe),
        single_step(SinglePhase::Probing, SingleSignal::Probed { found }).1 == SingleOrder::Notify(
            if found {
                SingleNotice::Connected
            } else {
                SingleNotice::ConnectFailed
            },
        ),
{
}

} // verus!
