use crate::{longest_span, new_span, DriverPacemaker};
use std::time::Duration;
use vstd::prelude::*;

verus! {

/// A pacemaker for drivers that need none: it never fires.
pub struct DefaultPacemaker;

impl DriverPacemaker for DefaultPacemaker {
    fn period() -> (period: Duration)
        ensures
            period == longest_span(),
    {
        new_span(u64::MAX, 999_999_999)
    }

    fn send(&mut self) -> (again: bool)
        ensures
            !again,
    {
        false
    }
}

} // verus!
