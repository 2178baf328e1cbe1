use driver::supervisor_single::{SingleNotice, SingleOrder, SinglePhase, SingleSignal};
use driver::{Driver, SupervisorForSingle};
use std::time::{Duration, Instant};

struct Probe(u8);

impl Driver for Probe {
    type Pacemaker = ();
    type Key = u8;
    type Event = ();

    fn keys() -> Vec<u8> {
        vec![1, 2]
    }

    fn open_timeout() -> Duration {
        Duration::from_millis(1)
    }

    fn new(t: &u8) -> Option<((), Self)> {
        Some(((), Probe(*t)))
    }

    fn join<F>(&mut self, mut f: F) -> bool
    where
        F: FnMut(&mut Self, Option<(Instant, ())>) -> bool,
    {
        while f(self, None) {}
        true
    }
}

#[test]
fn default_supervisor_holds_nothing() {
    let mut supervisor = SupervisorForSingle::<Probe>::default();
    assert!(supervisor.take().is_none());
}

#[test]
fn supervisor_hands_out_its_driver_once() {
    let mut supervisor = SupervisorForSingle::from(Box::new(Probe(7)));
    let driver = supervisor.take();
    assert_eq!(driver.map(|d| d.0), Some(7));
    assert!(supervisor.take().is_none());
}

#[test]
fn supervision_begins_with_the_saved_driver_or_a_probe() {
    assert_eq!(
        SinglePhase::Idle.step(SingleSignal::Begin { saved: true }),
        (SinglePhase::Listening, SingleOrder::Listen)
    );
    assert_eq!(
        SinglePhase::Idle.step(SingleSignal::Begin { saved: false }),
        (SinglePhase::Probing, SingleOrder::Probe)
    );
}

#[test]
fn a_driver_that_leaves_of_its_own_accord_ends_the_supervision() {
    assert_eq!(
        SinglePhase::Listening.step(SingleSignal::Left { healthy: true }),
        (SinglePhase::Finished, SingleOrder::Finish)
    );
}

#[test]
fn a_broken_driver_is_reported_and_replaced_if_the_user_goes_on() {
    let (phase, order) = SinglePhase::Listening.step(SingleSignal::Left { healthy: false });
    assert_eq!(order, SingleOrder::Notify(SingleNotice::Disconnected));
    let (phase, order) = phase.step(SingleSignal::Answered { proceed: true });
    assert_eq!(phase, SinglePhase::Probing);
    assert_eq!(order, SingleOrder::Probe);
    let (found, told) = phase.step(SingleSignal::Probed { found: true });
    assert_eq!(told, SingleOrder::Notify(SingleNotice::Connected));
    assert_eq!(found, SinglePhase::Asking(SingleNotice::Connected));
    let (missed, told) = phase.step(SingleSignal::Probed { found: false });
    assert_eq!(told, SingleOrder::Notify(SingleNotice::ConnectFailed));
    assert_eq!(missed, SinglePhase::Asking(SingleNotice::ConnectFailed));
}

#[test]
fn the_user_ends_the_supervision_by_answering_no() {
    for notice in [
        SingleNotice::Connected,
        SingleNotice::Disconnected,
        SingleNotice::ConnectFailed,
    ] {
        assert_eq!(
            SinglePhase::Asking(notice).step(SingleSignal::Answered { proceed: false }),
            (SinglePhase::Finished, SingleOrder::Finish)
        );
    }
}

#[test]
fn the_user_goes_on_after_each_notice() {
    assert_eq!(
        SinglePhase::Asking(SingleNotice::Connected).step(SingleSignal::Answered { proceed: true }),
        (SinglePhase::Listening, SingleOrder::Listen)
    );
    assert_eq!(
        SinglePhase::Asking(SingleNotice::ConnectFailed)
            .step(SingleSignal::Answered { proceed: true }),
        (SinglePhase::Probing, SingleOrder::Probe)
    );
    assert_eq!(
        SinglePhase::Asking(SingleNotice::Disconnected)
            .step(SingleSignal::Answered { proceed: true }),
        (SinglePhase::Probing, SingleOrder::Probe)
    );
}

#[test]
fn a_signal_out_of_place_ends_the_supervision() {
    assert_eq!(
        SinglePhase::Idle.step(SingleSignal::Left { healthy: false }),
        (SinglePhase::Finished, SingleOrder::Finish)
    );
    assert_eq!(
        SinglePhase::Probing.step(SingleSignal::Answered { proceed: true }),
        (SinglePhase::Finished, SingleOrder::Finish)
    );
    assert_eq!(
        SinglePhase::Finished.step(SingleSignal::Begin { saved: true }),
        (SinglePhase::Finished, SingleOrder::Finish)
    );
    assert_eq!(
        SinglePhase::Listening.step(SingleSignal::Probed { found: true }),
        (SinglePhase::Finished, SingleOrder::Finish)
    );
}

#[test]
fn a_mock_driver_listens_until_told_to_stop() {
    let mut driver = Probe(3);
    let mut ticks = 0;
    let healthy = driver.join(|d, e| {
        assert_eq!(d.0, 3);
        assert!(e.is_none());
        ticks += 1;
        ticks < 4
    });
    assert!(healthy);
    assert_eq!(ticks, 4);
    assert_eq!(Probe::keys(), vec![1, 2]);
    assert!(Probe::new(&1).is_some());
    assert_eq!(Probe::open_timeout(), Duration::from_millis(1));
}
