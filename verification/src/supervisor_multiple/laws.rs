use crate::supervisor_multiple::context::{
    lemma_remove_value, lemma_step_valid, ContextView, Order, Phase, Signal,
};
use vstd::prelude::*;

verus! {

/// The supervisor after a run of signals, each with the moment at which it arrives, and the
/// orders that it gave in reply, in turn.
pub open spec fn run<K>(view: ContextView<K>, script: Seq<(Signal<K>, u64)>) -> (
    ContextView<K>,
    Seq<Order>,
)
    decreases script.len(),
{
    if script.len() == 0 {
        (view, Seq::empty())
    } else {
        let (before, orders) = run(view, script.drop_last());
        let (after, order) = before.step(script.last().0, script.last().1);
        (after, orders.push(order))
    }
}

/// A run of signals leaves a valid supervisor valid, and draws one order for each signal.
pub proof fn lemma_run<K>(view: ContextView<K>, script: Seq<(Signal<K>, u64)>)
    requires
        view.valid(),
    ensures
        run(view, script).0.valid(),
        run(view, script).1.len() == script.len(),
    decreases script.len(),
{
    if script.len() > 0 {
        lemma_run(view, script.drop_last());
        lemma_step_valid(run(view, script.drop_last()).0, script.last().0, script.last().1);
    }
}

/// The signals by which the drivers of `keys` are announced one after another, the user answers
/// each announcement with `answer`, and each driver is then given its place.
pub open spec fn greetings<K>(keys: Seq<K>, answer: usize, now: u64) -> Seq<(Signal<K>, u64)>
    decreases keys.len(),
{
    if keys.len() == 0 {
        Seq::empty()
    } else {
        greetings(keys.drop_last(), answer, now).push(
            (Signal::Connected(keys.last(), answer), now),
        ).push((Signal::Done, now))
    }
}

/// The signals by which a supervisor begins, finds that no worker has sent anything, and has its
/// probe open `opened` drivers.
pub open spec fn opening<K>(opened: usize, now: u64) -> Seq<(Signal<K>, u64)> {
    Seq::empty().push((Signal::Begin, now)).push((Signal::Empty, now)).push(
        (Signal::Probed(opened), now),
    )
}

/// The signals that a supervisor gets which starts without drivers and finds its probe to open
/// the drivers of `keys`, while the user goes on wanting `target` drivers.
pub open spec fn filling<K>(keys: Seq<K>, target: usize, now: u64) -> Seq<(Signal<K>, u64)> {
    opening(keys.len() as usize, now) + greetings(keys, target, now)
}

proof fn lemma_filling<K>(target: usize, start: u64, keys: Seq<K>, now: u64, n: int)
    requires
        target > 0,
        keys.len() == target,
        keys.no_duplicates(),
        now >= start,
        0 <= n <= keys.len(),
    ensures
        ({
            let begin = ContextView::<K>::start(Seq::empty(), target, start);
            let head = opening::<K>(target, now);
            let (end, orders) = run(begin, head + greetings(keys.take(n), target, now));
            &&& orders.len() == 3 + 2 * n
            &&& orders[0] == Order::Poll
            &&& orders[1] == Order::Probe(target)
            &&& forall|i: int| 0 <= i < n ==> #[trigger] orders[2 + 2 * i] == Order::TellConnected
            &&& forall|i: int| 0 <= i < n ==> #[trigger] orders[3 + 2 * i] == Order::Spawn
            &&& orders[2 + 2 * n] == if n < target {
                Order::TellConnected
            } else {
                Order::Receive
            }
            &&& end.live == keys.take(n)
            &&& end.target == target
            &&& end.next_try == start
            &&& end.pending == target - n
            &&& end.phase == if n < target {
                Phase::Greeting
            } else {
                Phase::Taking
            }
        }),
    decreases n,
{
    let begin = ContextView::<K>::start(Seq::empty(), target, start);
    let head = opening::<K>(target, now);
    if n == 0 {
        assert(head + greetings(keys.take(0), target, now) =~= head);
        let none = Seq::<(Signal<K>, u64)>::empty();
        let one = none.push((Signal::Begin, now));
        let two = one.push((Signal::Empty, now));
        assert(one.drop_last() =~= none);
        assert(two.drop_last() =~= one);
        assert(head.drop_last() =~= two);
        assert(run(begin, none) == (begin, Seq::<Order>::empty()));
        assert(run(begin, one).1 =~= seq![Order::Poll]);
        assert(run(begin, two).1 =~= seq![Order::Poll, Order::Probe(target)]);
        assert(begin.live.len() == 0);
        assert(keys.take(0) =~= begin.live);
    } else {
        lemma_filling(target, start, keys, now, n - 1);
        let some = keys.take(n);
        assert(some.drop_last() =~= keys.take(n - 1));
        assert(some.last() == keys[n - 1]);
        let earlier = head + greetings(keys.take(n - 1), target, now);
        let asked = earlier.push((Signal::Connected(keys[n - 1], target), now));
        let script = asked.push((Signal::Done, now));
        assert(head + greetings(some, target, now) =~= script);
        assert(script.drop_last() =~= asked);
        assert(asked.drop_last() =~= earlier);
        let (before, told) = run(begin, earlier);
        let (greeted, more) = run(begin, asked);
        let (end, orders) = run(begin, script);
        assert(!before.live.contains(keys[n - 1])) by {
            if before.live.contains(keys[n - 1]) {
                let i = choose|i: int| 0 <= i < before.live.len() && before.live[i] == keys[n - 1];
                assert(keys[i] == keys[n - 1]);
            }
        }
        assert(greeted.live =~= keys.take(n));
        assert forall|i: int| 0 <= i < n implies #[trigger] orders[2 + 2 * i]
            == Order::TellConnected by {
            if i < n - 1 {
                assert(told[2 + 2 * i] == Order::TellConnected);
            }
        }
        assert forall|i: int| 0 <= i < n implies #[trigger] orders[3 + 2 * i] == Order::Spawn by {
            if i < n - 1 {
                assert(told[3 + 2 * i] == Order::Spawn);
            }
        }
    }
}

/// A supervisor that starts without drivers, wants `target` of them and finds its probe to open
/// as many first takes what its workers have sent, which is nothing, and probes for `target`
/// drivers. It then announces each of them and gives it a worker, and only when `target` drivers
/// are at work does it wait for their events.
pub proof fn law_fills_to_target<K>(target: usize, start: u64, keys: Seq<K>, now: u64)
    requires
        target > 0,
        keys.len() == target,
        keys.no_duplicates(),
        now >= start,
    ensures
        ({
            let begin = ContextView::<K>::start(Seq::empty(), target, start);
            let (end, orders) = run(begin, filling(keys, target, now));
            &&& orders.len() == 3 + 2 * target
            &&& orders[0] == Order::Poll
            &&& orders[1] == Order::Probe(target)
            &&& forall|i: int|
                0 <= i < target ==> #[trigger] orders[2 + 2 * i] == Order::TellConnected
            &&& forall|i: int| 0 <= i < target ==> #[trigger] orders[3 + 2 * i] == Order::Spawn
            &&& orders[2 + 2 * target] == Order::Receive
            &&& end.live == keys
            &&& end.live.len() == target
            &&& end.phase == Phase::Taking
        }),
{
    lemma_filling(target, start, keys, now, keys.len() as int);
    assert(keys.take(keys.len() as int) =~= keys);
}

/// When the user answers with zero, the supervision ends: on an event, a breakdown or a failed
/// probe at once, and on an announcement after the driver that was announced has been saved.
pub proof fn law_zero_ends<K>(view: ContextView<K>, key: K, next_try: u64, now: u64)
    requires
        view.valid(),
    ensures
        view.phase == Phase::Hearing ==> view.step(Signal::Answered(0), now) == ((
            ContextView { target: 0, phase: Phase::Ended, ..view }
        ), Order::Finish),
        view.phase == Phase::Failing ==> view.step(Signal::Postponed(0, next_try), now) == ((
            ContextView { target: 0, next_try, phase: Phase::Ended, ..view }
        ), Order::Finish),
        view.phase == Phase::Greeting ==> view.step(Signal::Connected(key, 0), now) == ((
            ContextView {
                target: 0,
                pending: (view.pending - 1) as usize,
                phase: Phase::Placing,
                ..view
            }
        ), Order::Save),
{
}

/// Once the user wants no drivers, the supervisor tells the user nothing more, waits for no
/// worker and opens no driver: it saves the drivers that were opened and not yet announced, and
/// finishes.
pub proof fn law_silent_after_zero<K>(view: ContextView<K>, script: Seq<(Signal<K>, u64)>)
    requires
        view.valid(),
        view.target == 0,
    ensures
        run(view, script).0.target == 0,
        run(view, script).0.live == view.live,
        forall|i: int|
            0 <= i < run(view, script).1.len() ==> #[trigger] run(view, script).1[i] == Order::Save
                || run(view, script).1[i] == Order::Finish,
    decreases script.len(),
{
    if script.len() > 0 {
        law_silent_after_zero(view, script.drop_last());
        lemma_run(view, script.drop_last());
        let (before, orders) = run(view, script.drop_last());
        let (after, all) = run(view, script);
        assert forall|i: int| 0 <= i < all.len() implies #[trigger] all[i] == Order::Save || all[i]
            == Order::Finish by {
            if i < orders.len() {
                assert(all[i] == orders[i]);
            }
        }
    }
}

/// What the user is told about a key.
pub enum Notice<K> {
    Connected(K),
    Disconnected(K),
}

/// What the user is told about a key when `signal` arrives, if anything.
pub open spec fn told<K>(view: ContextView<K>, signal: Signal<K>) -> Option<Notice<K>> {
    match (view.phase, signal) {
        (Phase::Greeting, Signal::Connected(key, _)) => Some(Notice::Connected(key)),
        (Phase::Taking, Signal::Broke(key)) | (Phase::Polling, Signal::Broke(key)) => Some(
            Notice::Disconnected(key),
        ),
        _ => None,
    }
}

/// All that the user is told about keys in a run of signals.
pub open spec fn notices<K>(view: ContextView<K>, script: Seq<(Signal<K>, u64)>) -> Seq<Notice<K>>
    decreases script.len(),
{
    if script.len() == 0 {
        Seq::empty()
    } else {
        let before = run(view, script.drop_last()).0;
        let earlier = notices(view, script.drop_last());
        match told(before, script.last().0) {
            Some(notice) => earlier.push(notice),
            None => earlier,
        }
    }
}

/// Only workers that exist report: whenever the supervisor hears that a driver broke down, that
/// driver has a worker.
pub open spec fn workers_exist<K>(view: ContextView<K>, script: Seq<(Signal<K>, u64)>) -> bool
    decreases script.len(),
{
    script.len() == 0 || {
        &&& workers_exist(view, script.drop_last())
        &&& match told(run(view, script.drop_last()).0, script.last().0) {
            Some(Notice::Disconnected(key)) => run(view, script.drop_last()).0.live.contains(key),
            _ => true,
        }
    }
}

/// Before notice `j`, the user was told that the driver of `key` was connected, and not since
/// then that it broke down.
pub open spec fn follows_connected<K>(said: Seq<Notice<K>>, key: K, j: int) -> bool {
    exists|i: int|
        0 <= i < j && #[trigger] said[i] == Notice::Connected(key) && forall|m: int|
            i < m < j ==> #[trigger] said[m] != Notice::Disconnected(key)
}

/// Every `Disconnected` follows a `Connected` of its key, with no other `Disconnected` of that
/// key between the two.
pub open spec fn paired<K>(said: Seq<Notice<K>>) -> bool {
    forall|j: int|
        0 <= j < said.len() ==> match #[trigger] said[j] {
            Notice::Disconnected(key) => follows_connected(said, key, j),
            Notice::Connected(_) => true,
        }
}

proof fn lemma_follows_on<K>(said: Seq<Notice<K>>, key: K, j: int, notice: Notice<K>)
    requires
        0 <= j <= said.len(),
        follows_connected(said, key, j),
    ensures
        follows_connected(said.push(notice), key, j),
        j == said.len() && notice != Notice::Disconnected(key) ==> follows_connected(
            said.push(notice),
            key,
            j + 1,
        ),
{
    let more = said.push(notice);
    let i = choose|i: int|
        0 <= i < j && #[trigger] said[i] == Notice::Connected(key) && forall|m: int|
            i < m < j ==> #[trigger] said[m] != Notice::Disconnected(key);
    assert(more[i] == Notice::Connected(key));
    assert forall|m: int| i < m < j implies #[trigger] more[m] != Notice::Disconnected(key) by {
        assert(said[m] != Notice::Disconnected(key));
    }
    if j == said.len() && notice != Notice::Disconnected(key) {
        assert forall|m: int| i < m < j + 1 implies #[trigger] more[m] != Notice::Disconnected(
            key,
        ) by {
            if m < j {
                assert(said[m] != Notice::Disconnected(key));
            }
        }
    }
}

proof fn lemma_notices<K>(view: ContextView<K>, script: Seq<(Signal<K>, u64)>)
    requires
        view.valid(),
        view.live.len() == 0,
        workers_exist(view, script),
    ensures
        run(view, script).0.valid(),
        paired(notices(view, script)),
        forall|key: K| #[trigger]
            run(view, script).0.live.contains(key) ==> follows_connected(
                notices(view, script),
                key,
                notices(view, script).len() as int,
            ),
    decreases script.len(),
{
    if script.len() > 0 {
        lemma_notices(view, script.drop_last());
        let before = run(view, script.drop_last()).0;
        let earlier = notices(view, script.drop_last());
        let signal = script.last().0;
        let after = run(view, script).0;
        let said = notices(view, script);
        lemma_step_valid(before, signal, script.last().1);
        match told(before, signal) {
            Some(notice) => {
                assert(said == earlier.push(notice));
                assert forall|j: int| 0 <= j < said.len() implies match #[trigger] said[j] {
                    Notice::Disconnected(key) => follows_connected(said, key, j),
                    Notice::Connected(_) => true,
                } by {
                    if j < earlier.len() {
                        assert(said[j] == earlier[j]);
                        match earlier[j] {
                            Notice::Disconnected(key) => {
                                lemma_follows_on(earlier, key, j, notice);
                            },
                            Notice::Connected(_) => {},
                        }
                    } else {
                        match notice {
                            Notice::Disconnected(key) => {
                                assert(before.live.contains(key));
                                lemma_follows_on(earlier, key, earlier.len() as int, notice);
                            },
                            Notice::Connected(_) => {},
                        }
                    }
                }
                assert forall|key: K| #[trigger] after.live.contains(key) implies follows_connected(
                    said,
                    key,
                    said.len() as int,
                ) by {
                    match notice {
                        Notice::Connected(opened) => {
                            if before.live.contains(key) {
                                lemma_follows_on(earlier, key, earlier.len() as int, notice);
                            } else {
                                let j = choose|j: int|
                                    0 <= j < after.live.len() && after.live[j] == key;
                                if j < before.live.len() {
                                    assert(before.live[j] == key);
                                }
                                assert(key == opened);
                                assert(said[earlier.len() as int] == Notice::Connected(key));
                            }
                        },
                        Notice::Disconnected(broken) => {
                            lemma_remove_value(before.live, broken);
                            assert(key != broken);
                            assert(before.live.contains(key));
                            lemma_follows_on(earlier, key, earlier.len() as int, notice);
                        },
                    }
                }
            },
            None => {
                assert(said == earlier);
                assert forall|key: K| #[trigger] after.live.contains(key) implies before.live.contains(
                    key,
                ) by {
                    match signal {
                        Signal::Broke(broken) => {
                            lemma_remove_value(before.live, broken);
                        },
                        _ => {},
                    }
                }
            },
        }
    }
}

/// A supervisor that starts without drivers tells its user that a driver broke down only after
/// it has told that this driver was connected, and once for each such connection, provided that
/// only workers that exist report.
pub proof fn law_disconnected_follows_connected<K>(
    target: usize,
    start: u64,
    script: Seq<(Signal<K>, u64)>,
)
    requires
        workers_exist(ContextView::<K>::start(Seq::empty(), target, start), script),
    ensures
        paired(notices(ContextView::<K>::start(Seq::empty(), target, start), script)),
{
    lemma_notices(ContextView::<K>::start(Seq::empty(), target, start), script);
}

} // verus!
