pub mod context;
pub mod laws;

use crate::Driver;
use std::sync::mpsc;
use std::time::Instant;
use vstd::prelude::*;

verus! {

/// `mpsc::Sender` of std, the sending half of a channel, through which the user gives a driver
/// its commands. Nothing is known of what is inside.
#[verifier::external_type_specification]
#[verifier::external_body]
#[verifier::reject_recursive_types(T)]
pub struct ExSender<T>(mpsc::Sender<T>);

/// A driver that takes commands while it is listened to.
pub trait MultipleDeviceDriver: Driver {
    type Command;

    /// Hands a command to the device.
    fn send(&mut self, command: Self::Command);
}

/// Supervises several drivers at once, and holds those that nobody listens to.
pub struct SupervisorForMultiple<D: Driver>(Vec<(D::Key, Box<D>)>);

/// What happens while several drivers are supervised.
pub enum SupervisorEventForMultiple<'a, D: MultipleDeviceDriver> {
    /// A driver was opened.
    Connected(&'a D::Key, &'a mut D),
    /// No driver could be opened; the user may set the moment of the next attempt.
    ConnectFailed { current: usize, target: usize, next_try: &'a mut Instant },
    /// A driver sent an event, or an idle tick; commands for it go into the sender.
    Event(D::Key, Option<(Instant, D::Event)>, &'a mpsc::Sender<D::Command>),
    /// A driver broke down.
    Disconnected(D::Key),
}

impl<D: Driver> View for SupervisorForMultiple<D> {
    type V = Seq<(D::Key, Box<D>)>;

    /// The drivers that the supervisor holds, with their keys, in the order in which they were
    /// saved.
    closed spec fn view(&self) -> Seq<(D::Key, Box<D>)> {
        self.0@
    }
}

impl<D: Driver> SupervisorForMultiple<D> {
    /// A supervisor that holds no driver.
    pub fn new() -> (supervisor: Self)
        ensures
            supervisor@.len() == 0,
    {
        Self(Vec::new())
    }

    /// Hands out the drivers that the supervisor holds, and leaves the supervisor empty.
    pub fn take(&mut self) -> (saved: Vec<(D::Key, Box<D>)>)
        ensures
            saved@ == old(self)@,
            final(self)@.len() == 0,
    {
        let mut saved: Vec<(D::Key, Box<D>)> = Vec::new();
        std::mem::swap(&mut self.0, &mut saved);
        saved
    }

    /// Saves a driver behind those that the supervisor holds already.
    pub fn save(&mut self, key: D::Key, driver: Box<D>)
        ensures
            final(self)@ == old(self)@.push((key, driver)),
    {
        self.0.push((key, driver));
    }
}

} // verus!
