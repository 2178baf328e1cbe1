use driver::supervisor_multiple::context::{
    event_room, JoinContextForMultiple, Order, Phase, Signal,
};
use driver::{Driver, MultipleDeviceDriver, SupervisorForMultiple};
use std::time::{Duration, Instant};

struct Lamp {
    id: u32,
    level: u8,
}

impl Driver for Lamp {
    type Pacemaker = ();
    type Key = u32;
    type Event = u8;

    fn keys() -> Vec<u32> {
        vec![]
    }

    fn open_timeout() -> Duration {
        Duration::ZERO
    }

    fn new(t: &u32) -> Option<((), Self)> {
        Some(((), Lamp { id: *t, level: 0 }))
    }

    fn join<F>(&mut self, mut f: F) -> bool
    where
        F: FnMut(&mut Self, Option<(Instant, u8)>) -> bool,
    {
        let level = self.level;
        f(self, Some((Instant::now(), level)));
        false
    }
}

impl MultipleDeviceDriver for Lamp {
    type Command = u8;

    fn send(&mut self, command: u8) {
        self.level = command;
    }
}

#[test]
fn new_supervisor_for_many_holds_nothing() {
    let mut supervisor = SupervisorForMultiple::<Lamp>::new();
    assert!(supervisor.take().is_empty());
}

#[test]
fn saved_drivers_come_back_in_the_order_they_were_saved() {
    let mut supervisor = SupervisorForMultiple::<Lamp>::new();
    supervisor.save(5, Box::new(Lamp { id: 5, level: 1 }));
    supervisor.save(2, Box::new(Lamp { id: 2, level: 2 }));
    supervisor.save(9, Box::new(Lamp { id: 9, level: 3 }));
    let saved = supervisor.take();
    let keys: Vec<u32> = saved.iter().map(|(k, _)| *k).collect();
    assert_eq!(keys, vec![5, 2, 9]);
    assert_eq!(saved[1].1.id, 2);
    assert!(supervisor.take().is_empty());
}

#[test]
fn a_lamp_takes_commands() {
    let mut lamp = Lamp { id: 1, level: 0 };
    lamp.send(40);
    let mut seen = None;
    let healthy = lamp.join(|_, e| {
        seen = e.map(|(_, level)| level);
        true
    });
    assert!(!healthy);
    assert_eq!(seen, Some(40));
}

#[test]
fn channel_holds_two_events_for_each_driver_wanted() {
    assert_eq!(event_room(0), 1);
    assert_eq!(event_room(1), 2);
    assert_eq!(event_room(8), 16);
    assert_eq!(event_room(usize::MAX / 2), usize::MAX - 1);
    assert_eq!(event_room(usize::MAX / 2 + 1), usize::MAX);
    assert_eq!(event_room(usize::MAX), usize::MAX);
}

#[test]
fn context_starts_with_the_saved_keys_each_once() {
    let context = JoinContextForMultiple::new(vec![4u32, 7, 4, 1], 3, 50);
    assert_eq!(context.current(), 3);
    assert_eq!(context.target(), 3);
    assert_eq!(context.next_try(), 50);
    assert_eq!(context.phase(), Phase::Idle);
    assert!(context.is_live(&4));
    assert!(context.is_live(&7));
    assert!(context.is_live(&1));
    assert!(!context.is_live(&2));
}

#[test]
fn an_empty_context_sleeps_until_drivers_may_be_opened() {
    let mut context = JoinContextForMultiple::<u32>::new(vec![], 2, 100);
    assert_eq!(context.step(Signal::Begin, 40), Order::Sleep(60));
    assert_eq!(context.phase(), Phase::Sleeping);
    assert_eq!(context.step(Signal::Awake, 100), Order::Probe(2));
    assert_eq!(context.phase(), Phase::Probing);
    let mut late = JoinContextForMultiple::<u32>::new(vec![], 2, 100);
    assert_eq!(late.step(Signal::Begin, 99), Order::Sleep(1));
}

#[test]
fn an_empty_context_polls_once_drivers_may_be_opened() {
    let mut context = JoinContextForMultiple::<u32>::new(vec![], 2, 100);
    assert_eq!(context.step(Signal::Begin, 100), Order::Poll);
    assert_eq!(context.phase(), Phase::Polling);
    assert_eq!(context.step(Signal::Empty, 101), Order::Probe(2));
    let mut later = JoinContextForMultiple::<u32>::new(vec![], 2, 100);
    assert_eq!(later.step(Signal::Begin, 500), Order::Poll);
}

#[test]
fn a_context_with_enough_drivers_waits_for_events() {
    let mut context = JoinContextForMultiple::new(vec![1u32, 2], 2, 0);
    assert_eq!(context.step(Signal::Begin, 0), Order::Receive);
    assert_eq!(context.phase(), Phase::Taking);
    assert_eq!(context.step(Signal::Event, 5), Order::TellEvent);
    assert_eq!(context.phase(), Phase::Hearing);
    assert_eq!(context.step(Signal::Answered(2), 6), Order::Receive);
    let mut more = JoinContextForMultiple::new(vec![1u32, 2, 3], 2, 1000);
    assert_eq!(more.step(Signal::Begin, 5), Order::Receive);
}

#[test]
fn a_context_short_of_drivers_waits_only_during_the_cooldown() {
    let mut context = JoinContextForMultiple::new(vec![1u32], 3, 100);
    assert_eq!(context.step(Signal::Begin, 99), Order::Receive);
    assert_eq!(context.step(Signal::Event, 99), Order::TellEvent);
    assert_eq!(context.step(Signal::Answered(3), 100), Order::Poll);
    assert_eq!(context.step(Signal::Event, 100), Order::TellEvent);
    assert_eq!(context.step(Signal::Answered(3), 100), Order::Poll);
    assert_eq!(context.step(Signal::Empty, 100), Order::Probe(2));
}

#[test]
fn a_context_that_wants_nothing_finishes() {
    let mut context = JoinContextForMultiple::new(vec![1u32], 0, 100);
    assert_eq!(context.step(Signal::Begin, 0), Order::Finish);
    assert_eq!(context.phase(), Phase::Ended);
    assert_eq!(context.step(Signal::Begin, 0), Order::Finish);
    assert_eq!(context.step(Signal::Event, 0), Order::Finish);
    assert_eq!(context.current(), 1);
}

#[test]
fn target_drivers_are_connected_before_any_event_is_awaited() {
    let mut context = JoinContextForMultiple::<u32>::new(vec![], 3, 0);
    let mut orders = vec![
        context.step(Signal::Begin, 0),
        context.step(Signal::Empty, 0),
        context.step(Signal::Probed(3), 1),
    ];
    for (n, key) in [10u32, 20, 30].into_iter().enumerate() {
        assert_eq!(context.current(), n);
        assert_eq!(context.phase(), Phase::Greeting);
        orders.push(context.step(Signal::Connected(key, 3), 2));
        orders.push(context.step(Signal::Done, 2));
    }
    assert_eq!(
        orders,
        vec![
            Order::Poll,
            Order::Probe(3),
            Order::TellConnected,
            Order::Spawn,
            Order::TellConnected,
            Order::Spawn,
            Order::TellConnected,
            Order::Spawn,
            Order::Receive,
        ]
    );
    assert_eq!(context.current(), 3);
    assert!(context.is_live(&10) && context.is_live(&20) && context.is_live(&30));
    assert_eq!(context.phase(), Phase::Taking);
}

#[test]
fn a_probe_that_opens_fewer_drivers_is_followed_by_another() {
    let mut context = JoinContextForMultiple::<u32>::new(vec![], 3, 0);
    assert_eq!(context.step(Signal::Begin, 0), Order::Poll);
    assert_eq!(context.step(Signal::Empty, 0), Order::Probe(3));
    assert_eq!(context.step(Signal::Probed(1), 1), Order::TellConnected);
    assert_eq!(context.step(Signal::Connected(7, 3), 1), Order::Spawn);
    assert_eq!(context.step(Signal::Done, 1), Order::Poll);
    assert_eq!(context.step(Signal::Empty, 1), Order::Probe(2));
}

#[test]
fn answering_an_event_with_zero_ends_the_supervision() {
    let mut context = JoinContextForMultiple::new(vec![1u32, 2], 2, 0);
    assert_eq!(context.step(Signal::Begin, 0), Order::Receive);
    assert_eq!(context.step(Signal::Event, 0), Order::TellEvent);
    assert_eq!(context.step(Signal::Answered(0), 0), Order::Finish);
    assert_eq!(context.phase(), Phase::Ended);
    assert_eq!(context.target(), 0);
    assert_eq!(context.current(), 2);
    assert_eq!(context.step(Signal::Event, 0), Order::Finish);
    assert_eq!(context.step(Signal::Begin, 0), Order::Finish);
}

#[test]
fn answering_an_announcement_with_zero_saves_the_opened_drivers() {
    let mut context = JoinContextForMultiple::<u32>::new(vec![], 3, 0);
    context.step(Signal::Begin, 0);
    context.step(Signal::Empty, 0);
    assert_eq!(context.step(Signal::Probed(3), 0), Order::TellConnected);
    assert_eq!(context.step(Signal::Connected(5, 3), 0), Order::Spawn);
    assert_eq!(context.step(Signal::Done, 0), Order::TellConnected);
    assert_eq!(context.step(Signal::Connected(6, 0), 0), Order::Save);
    assert!(!context.is_live(&6));
    assert_eq!(context.step(Signal::Done, 0), Order::Save);
    assert_eq!(context.step(Signal::Done, 0), Order::Finish);
    assert_eq!(context.current(), 1);
    assert_eq!(context.phase(), Phase::Ended);
}

#[test]
fn answering_a_failed_probe_with_zero_ends_the_supervision() {
    let mut context = JoinContextForMultiple::<u32>::new(vec![], 2, 0);
    context.step(Signal::Begin, 0);
    context.step(Signal::Empty, 0);
    assert_eq!(
        context.step(Signal::Probed(0), 0),
        Order::TellFailed { current: 0, target: 2 }
    );
    assert_eq!(context.step(Signal::Postponed(0, 900), 10), Order::Finish);
}

#[test]
fn a_failed_probe_sets_target_and_next_attempt() {
    let mut context = JoinContextForMultiple::new(vec![3u32], 2, 0);
    assert_eq!(context.step(Signal::Begin, 0), Order::Poll);
    assert_eq!(context.step(Signal::Empty, 0), Order::Probe(1));
    assert_eq!(
        context.step(Signal::Probed(0), 50),
        Order::TellFailed { current: 1, target: 2 }
    );
    assert_eq!(context.phase(), Phase::Failing);
    assert_eq!(context.step(Signal::Postponed(4, 900), 100), Order::Receive);
    assert_eq!(context.target(), 4);
    assert_eq!(context.next_try(), 900);
    assert_eq!(context.step(Signal::Broke(3), 200), Order::TellBroke);
    assert_eq!(context.step(Signal::Answered(4), 300), Order::Sleep(600));
    assert_eq!(context.step(Signal::Awake, 900), Order::Probe(4));
}

#[test]
fn a_broken_driver_is_struck_from_the_workers() {
    let mut context = JoinContextForMultiple::new(vec![8u32, 9], 2, 0);
    assert_eq!(context.step(Signal::Begin, 0), Order::Receive);
    assert_eq!(context.step(Signal::Broke(8), 1), Order::TellBroke);
    assert!(!context.is_live(&8));
    assert!(context.is_live(&9));
    assert_eq!(context.current(), 1);
    assert_eq!(context.step(Signal::Answered(2), 2), Order::Poll);
    assert_eq!(context.step(Signal::Broke(8), 3), Order::TellBroke);
    assert_eq!(context.current(), 1);
    assert_eq!(context.step(Signal::Answered(2), 4), Order::Poll);
    assert_eq!(context.step(Signal::Empty, 5), Order::Probe(1));
}

#[test]
fn a_key_connected_twice_is_listed_once() {
    let mut context = JoinContextForMultiple::new(vec![8u32], 3, 0);
    context.step(Signal::Begin, 0);
    context.step(Signal::Empty, 0);
    assert_eq!(context.step(Signal::Probed(1), 0), Order::TellConnected);
    assert_eq!(context.step(Signal::Connected(8, 3), 0), Order::Spawn);
    assert_eq!(context.current(), 1);
}

#[test]
fn the_user_may_change_the_target_with_every_answer() {
    let mut context = JoinContextForMultiple::new(vec![1u32, 2], 2, 0);
    assert_eq!(context.step(Signal::Begin, 0), Order::Receive);
    assert_eq!(context.step(Signal::Event, 0), Order::TellEvent);
    assert_eq!(context.step(Signal::Answered(5), 0), Order::Poll);
    assert_eq!(context.target(), 5);
    assert_eq!(context.step(Signal::Empty, 0), Order::Probe(3));
    assert_eq!(context.step(Signal::Probed(2), 0), Order::TellConnected);
    assert_eq!(context.step(Signal::Connected(3, 1), 0), Order::Spawn);
    assert_eq!(context.target(), 1);
    assert_eq!(context.step(Signal::Done, 0), Order::TellConnected);
    assert_eq!(context.step(Signal::Connected(4, 1), 0), Order::Spawn);
    assert_eq!(context.step(Signal::Done, 0), Order::Receive);
    assert_eq!(context.current(), 4);
}

#[test]
fn a_signal_out_of_place_ends_the_supervision_of_many() {
    let mut context = JoinContextForMultiple::new(vec![1u32], 1, 0);
    assert_eq!(context.step(Signal::Begin, 0), Order::Receive);
    assert_eq!(context.step(Signal::Empty, 0), Order::Finish);
    assert_eq!(context.phase(), Phase::Ended);
    let mut idle = JoinContextForMultiple::new(vec![1u32], 1, 0);
    assert_eq!(idle.step(Signal::Done, 0), Order::Finish);
    let mut probing = JoinContextForMultiple::<u32>::new(vec![], 1, 0);
    probing.step(Signal::Begin, 0);
    probing.step(Signal::Empty, 0);
    assert_eq!(probing.step(Signal::Answered(1), 0), Order::Finish);
}

#[test]
fn every_disconnected_follows_a_connected_of_its_key() {
    let mut context = JoinContextForMultiple::<u32>::new(vec![], 2, 0);
    let mut connected = Vec::new();
    let mut told = Vec::new();
    context.step(Signal::Begin, 0);
    context.step(Signal::Empty, 0);
    context.step(Signal::Probed(2), 0);
    for key in [1u32, 2] {
        told.push((true, key));
        connected.push(key);
        context.step(Signal::Connected(key, 2), 0);
        context.step(Signal::Done, 0);
    }
    for key in [2u32, 1] {
        assert!(context.is_live(&key));
        assert_eq!(context.step(Signal::Broke(key), 1), Order::TellBroke);
        told.push((false, key));
        assert!(!context.is_live(&key));
        context.step(Signal::Answered(2), 1);
    }
    for (j, (is_connected, key)) in told.iter().enumerate() {
        if !is_connected {
            let before = &told[..j];
            let last = before.iter().rposition(|n| n.1 == *key);
            assert_eq!(last.map(|i| before[i].0), Some(true));
        }
    }
}
