pub mod default;
pub mod flags;
pub mod indexer;
pub mod order;
pub mod probe;
pub mod supervisor_multiple;
pub mod supervisor_single;

pub use default::DefaultPacemaker;
pub use indexer::Indexer;
pub use supervisor_multiple::{
    MultipleDeviceDriver, SupervisorEventForMultiple, SupervisorForMultiple,
};
pub use supervisor_single::{SupervisorEventForSingle, SupervisorForSingle};

use std::time::{Duration, Instant};
use vstd::prelude::*;

verus! {

/// `Instant` of std, the moment at which an event was received. Nothing is known of what is
/// inside.
#[verifier::external_type_specification]
#[verifier::external_body]
pub struct ExInstant(Instant);

/// The span of time that `Duration::new` of std makes of whole seconds and further nanoseconds.
pub uninterp spec fn span_of(secs: u64, nanos: u32) -> Duration;

/// The longest span of time that a `Duration` holds, which std calls `Duration::MAX`.
pub open spec fn longest_span() -> Duration {
    span_of(u64::MAX, 999_999_999)
}

/// `Duration::new` of std. Its result depends on the two numbers alone, and the contract gives
/// it a name. With less than a second of nanoseconds nothing is carried over into the seconds, so
/// the call cannot overflow.
#[verifier::external_body]
pub(crate) fn new_span(secs: u64, nanos: u32) -> (span: Duration)
    requires
        nanos < 1_000_000_000,
    ensures
        span == span_of(secs, nanos),
{
    Duration::new(secs, nanos)
}

/// A pacemaker fires at a fixed period to keep its driver alive.
pub trait DriverPacemaker {
    /// The time between two triggers.
    fn period() -> Duration;

    /// Sends one trigger, and tells whether another one is wanted.
    fn send(&mut self) -> bool;
}

/// The pacemaker of a driver that needs none.
impl DriverPacemaker for () {
    fn period() -> (period: Duration)
        ensures
            period == longest_span(),
    {
        new_span(u64::MAX, 999_999_999)
    }

    fn send(&mut self) -> (again: bool)
        ensures
            !again,
    {
        false
    }
}

/// An opened device.
///
/// A driver is made from a key, together with its pacemaker. Listening to it blocks and is
/// exclusive; the callback handed to `join` gets the driver back for as long as it runs.
pub trait Driver: 'static + Send + Sized {
    type Pacemaker: DriverPacemaker + Send;

    type Key;

    type Event;

    /// The keys of the devices that may be there.
    fn keys() -> Vec<Self::Key>;

    /// How long a newly opened device has to show that it works.
    fn open_timeout() -> Duration;

    /// Opens the device of key `t`, if it can be opened.
    fn new(t: &Self::Key) -> Option<(Self::Pacemaker, Self)>;

    /// Listens to the device until it leaves.
    ///
    /// Every event, and every idle tick, is handed to `f`; when `f` returns `false` the driver
    /// leaves of its own accord and `join` returns `true`. `join` returns `false` when the driver
    /// broke down.
    fn join<F>(&mut self, f: F) -> bool where
        F: FnMut(&mut Self, Option<(Instant, Self::Event)>) -> bool,
    ;
}

} // verus!
