use vstd::prelude::*;
use vstd::std_specs::cmp::PartialEqSpec;

verus! {

/// Equality of keys, as the program tests it, is equality of their values.
pub open spec fn plain_equality<K: PartialEq>() -> bool {
    &&& K::obeys_eq_spec()
    &&& forall|a: K, b: K| #[trigger] a.eq_spec(&b) <==> a == b
}

/// How many events the channel between the workers and the supervisor holds: two for each driver
/// wanted, and never none.
pub fn event_room(target: usize) -> (room: usize)
    ensures
        room == if target == 0 {
            1
        } else if 2 * target <= usize::MAX {
            2 * target
        } else {
            usize::MAX as int
        },
{
    if target == 0 {
        1
    } else if target <= usize::MAX / 2 {
        2 * target
    } else {
        usize::MAX
    }
}

/// What has just happened to the supervisor.
pub enum Signal<K> {
    /// The supervision begins.
    Begin,
    /// A worker has sent an event of its driver.
    Event,
    /// The worker of this key has reported that its driver broke down.
    Broke(K),
    /// The workers had sent nothing.
    Empty,
    /// The sleep is over.
    Awake,
    /// The probe has opened so many drivers.
    Probed(usize),
    /// The user has answered an event, or the notice of a breakdown, with the number of drivers
    /// wanted.
    Answered(usize),
    /// The user has answered the announcement of the driver of this key with the number of
    /// drivers wanted.
    Connected(K, usize),
    /// The user has answered the notice that no driver could be opened with the number of
    /// drivers wanted and the moment before which none is to be opened.
    Postponed(usize, u64),
    /// The opened driver has got its worker, or was saved.
    Done,
}

/// What the supervisor is to do next.
#[derive(Clone, Copy, Debug, PartialEq, Eq, Structural)]
pub enum Order {
    /// Wait until a worker sends something.
    Receive,
    /// Take what a worker has sent, if anything.
    Poll,
    /// Sleep for so long.
    Sleep(u64),
    /// Probe the candidates for so many drivers.
    Probe(usize),
    /// Hand the event to the user.
    TellEvent,
    /// Tell the user that the driver broke down, and forget its worker.
    TellBroke,
    /// Announce the next opened driver to the user.
    TellConnected,
    /// Tell the user that no driver could be opened, with the numbers of drivers at work and
    /// wanted.
    TellFailed { current: usize, target: usize },
    /// Give the driver that was just announced a worker.
    Spawn,
    /// Save the driver that was just announced or, if none was, the next opened driver.
    Save,
    /// Stop the workers, save the drivers that left of their own accord, and return.
    Finish,
}

/// What the supervisor is waiting for.
#[derive(Clone, Copy, Debug, PartialEq, Eq, Structural)]
pub enum Phase {
    /// For the supervision to begin.
    Idle,
    /// For a worker to send something.
    Taking,
    /// For what the workers have sent, if anything.
    Polling,
    /// For the sleep to end.
    Sleeping,
    /// For the probe to end.
    Probing,
    /// For the user's answer to an event or to the notice of a breakdown.
    Hearing,
    /// For the user's answer to the announcement of a driver.
    Greeting,
    /// For the user's answer to the notice that no driver could be opened.
    Failing,
    /// For an opened driver to get its worker or to be saved.
    Placing,
    /// For nothing: the supervision has ended.
    Ended,
}

/// What the supervisor of many drivers goes by, as plain values.
pub struct ContextView<K> {
    /// The keys of the drivers that have a worker.
    pub live: Seq<K>,
    /// How many drivers the user wants.
    pub target: usize,
    /// The moment before which no driver is opened.
    pub next_try: u64,
    /// How many opened drivers have neither a worker nor been saved.
    pub pending: usize,
    /// What the supervisor is waiting for.
    pub phase: Phase,
}

/// The keys of `saved`, each once.
pub open spec fn gather<K>(saved: Seq<K>) -> Seq<K>
    decreases saved.len(),
{
    if saved.len() == 0 {
        Seq::empty()
    } else {
        let rest = gather(saved.drop_first());
        if rest.contains(saved.first()) {
            rest
        } else {
            rest.push(saved.first())
        }
    }
}

impl<K> ContextView<K> {
    /// No key is listed twice; a driver is announced only while drivers are wanted and one is
    /// there to announce; and once the user wants none, nothing is awaited from workers, probes
    /// or the user.
    pub open spec fn valid(self) -> bool {
        &&& self.live.no_duplicates()
        &&& self.phase == Phase::Greeting ==> self.pending > 0
        &&& self.target == 0 ==> self.phase == Phase::Idle || self.phase == Phase::Placing
            || self.phase == Phase::Ended
    }

    /// The supervisor at the start: the saved drivers get workers, `target` drivers are wanted,
    /// and drivers may be opened from `now` on.
    pub open spec fn start(saved: Seq<K>, target: usize, now: u64) -> Self {
        ContextView {
            live: gather(saved),
            target,
            next_try: now,
            pending: 0,
            phase: Phase::Idle,
        }
    }

    /// How the supervisor takes in what its workers send.
    ///
    /// While enough drivers are at work, or none may be opened yet, it waits for its workers; with
    /// no worker to wait for, it sleeps until drivers may be opened. Otherwise it takes what has
    /// been sent already. When the user wants no drivers, it finishes.
    pub open spec fn intake(self, now: u64) -> (Self, Order) {
        if self.target == 0 {
            (ContextView { phase: Phase::Ended, ..self }, Order::Finish)
        } else if self.live.len() >= self.target {
            (ContextView { phase: Phase::Taking, ..self }, Order::Receive)
        } else if now < self.next_try {
            if self.live.len() > 0 {
                (ContextView { phase: Phase::Taking, ..self }, Order::Receive)
            } else {
                (
                    ContextView { phase: Phase::Sleeping, ..self },
                    Order::Sleep((self.next_try - now) as u64),
                )
            }
        } else {
            (ContextView { phase: Phase::Polling, ..self }, Order::Poll)
        }
    }

    /// What follows when nothing more is to be taken in: the drivers that are missing are probed
    /// for.
    pub open spec fn refill(self, now: u64) -> (Self, Order) {
        if self.live.len() < self.target {
            (
                ContextView { phase: Phase::Probing, ..self },
                Order::Probe((self.target - self.live.len()) as usize),
            )
        } else {
            self.intake(now)
        }
    }

    /// What is done about the next opened driver: it is announced while the user wants drivers,
    /// and saved otherwise. When none is left, the supervisor turns to its workers again.
    pub open spec fn place_next(self, now: u64) -> (Self, Order) {
        if self.pending == 0 {
            self.intake(now)
        } else if self.target > 0 {
            (ContextView { phase: Phase::Greeting, ..self }, Order::TellConnected)
        } else {
            (
                ContextView {
                    phase: Phase::Placing,
                    pending: (self.pending - 1) as usize,
                    ..self
                },
                Order::Save,
            )
        }
    }

    /// The supervisor after `signal` has arrived at the moment `now`, and what it is to do next.
    ///
    /// A signal that the supervisor is not waiting for ends the supervision.
    pub open spec fn step(self, signal: Signal<K>, now: u64) -> (Self, Order) {
        match (self.phase, signal) {
            (Phase::Idle, Signal::Begin) => self.intake(now),
            (Phase::Taking, Signal::Event) | (Phase::Polling, Signal::Event) => (
                ContextView { phase: Phase::Hearing, ..self },
                Order::TellEvent,
            ),
            (Phase::Taking, Signal::Broke(key)) | (Phase::Polling, Signal::Broke(key)) => (
                ContextView { live: self.live.remove_value(key), phase: Phase::Hearing, ..self },
                Order::TellBroke,
            ),
            (Phase::Polling, Signal::Empty) => self.refill(now),
            (Phase::Sleeping, Signal::Awake) => self.refill(now),
            (Phase::Hearing, Signal::Answered(answer)) => ContextView {
                target: answer,
                ..self
            }.intake(now),
            (Phase::Probing, Signal::Probed(opened)) => {
                if opened == 0 {
                    (
                        ContextView { phase: Phase::Failing, ..self },
                        Order::TellFailed {
                            current: self.live.len() as usize,
                            target: self.target,
                        },
                    )
                } else {
                    ContextView { pending: opened, ..self }.place_next(now)
                }
            },
            (Phase::Greeting, Signal::Connected(key, answer)) => (
                ContextView {
                    live: if answer > 0 && !self.live.contains(key) {
                        self.live.push(key)
                    } else {
                        self.live
                    },
                    target: answer,
                    pending: (self.pending - 1) as usize,
                    phase: Phase::Placing,
                    ..self
                },
                if answer > 0 {
                    Order::Spawn
                } else {
                    Order::Save
                },
            ),
            (Phase::Placing, Signal::Done) => self.place_next(now),
            (Phase::Failing, Signal::Postponed(answer, next_try)) => ContextView {
                target: answer,
                next_try,
                ..self
            }.intake(now),
            _ => (ContextView { phase: Phase::Ended, ..self }, Order::Finish),
        }
    }
}

/// What the supervisor of many drivers goes by while it runs: which drivers have a worker, how
/// many the user wants, when drivers may next be opened, and what it is waiting for.
pub struct JoinContextForMultiple<K> {
    live: Vec<K>,
    target_len: usize,
    next_try: u64,
    pending: usize,
    phase: Phase,
}

impl<K> View for JoinContextForMultiple<K> {
    type V = ContextView<K>;

    closed spec fn view(&self) -> ContextView<K> {
        ContextView {
            live: self.live@,
            target: self.target_len,
            next_try: self.next_try,
            pending: self.pending,
            phase: self.phase,
        }
    }
}

/// Removing a key from a list without duplicates leaves it without duplicates, and without the
/// key.
pub proof fn lemma_remove_value<K>(live: Seq<K>, key: K)
    requires
        live.no_duplicates(),
    ensures
        live.remove_value(key).no_duplicates(),
        !live.remove_value(key).contains(key),
        forall|k: K| k != key ==> (live.remove_value(key).contains(k) <==> live.contains(k)),
        live.remove_value(key).len() == if live.contains(key) {
            live.len() - 1
        } else {
            live.len() as int
        },
{
    live.index_of_first_ensures(key);
    let after = live.remove_value(key);
    match live.index_of_first(key) {
        Some(at) => {
            assert forall|i: int| 0 <= i < after.len() implies #[trigger] after[i] == live[if i
                < at {
                i
            } else {
                i + 1
            }] by {}
            assert forall|k: K| k != key implies (after.contains(k) <==> live.contains(k)) by {
                if live.contains(k) {
                    let i = choose|i: int| 0 <= i < live.len() && live[i] == k;
                    let to = if i < at {
                        i
                    } else {
                        i - 1
                    };
                    assert(after[to] == k);
                }
            }
        },
        None => {},
    }
}

/// Gathering keys lists each of them once.
pub proof fn lemma_gather<K>(saved: Seq<K>)
    ensures
        gather(saved).no_duplicates(),
        forall|k: K| gather(saved).contains(k) <==> saved.contains(k),
    decreases saved.len(),
{
    if saved.len() > 0 {
        lemma_gather(saved.drop_first());
        let rest = gather(saved.drop_first());
        assert forall|k: K| gather(saved).contains(k) <==> saved.contains(k) by {
            if saved.contains(k) {
                let i = choose|i: int| 0 <= i < saved.len() && saved[i] == k;
                if i > 0 {
                    assert(saved.drop_first()[i - 1] == k);
                    assert(saved.drop_first().contains(k));
                    assert(rest.contains(k));
                    let j = choose|j: int| 0 <= j < rest.len() && rest[j] == k;
                    assert(gather(saved)[j] == k);
                } else if !rest.contains(k) {
                    assert(gather(saved)[rest.len() as int] == k);
                } else {
                    let j = choose|j: int| 0 <= j < rest.len() && rest[j] == k;
                    assert(gather(saved)[j] == k);
                }
            }
            if gather(saved).contains(k) {
                let j = choose|j: int| 0 <= j < gather(saved).len() && gather(saved)[j] == k;
                if j < rest.len() {
                    assert(rest[j] == k);
                    assert(rest.contains(k));
                    assert(saved.drop_first().contains(k));
                    let i = choose|i: int|
                        0 <= i < saved.drop_first().len() && saved.drop_first()[i] == k;
                    assert(saved[i + 1] == k);
                } else {
                    assert(saved[0] == k);
                }
            }
        }
    }
}

/// A step leaves a valid supervisor valid.
pub proof fn lemma_step_valid<K>(view: ContextView<K>, signal: Signal<K>, now: u64)
    requires
        view.valid(),
    ensures
        view.step(signal, now).0.valid(),
{
    match signal {
        Signal::Broke(key) => {
            lemma_remove_value(view.live, key);
        },
        Signal::Connected(key, answer) => {
            let after = view.step(signal, now).0;
            if view.phase == Phase::Greeting && answer > 0 && !view.live.contains(key) {
                assert forall|i: int, j: int|
                    0 <= i < after.live.len() && 0 <= j < after.live.len() && i
                        != j implies after.live[i] != after.live[j] by {
                    if i < view.live.len() && j < view.live.len() {
                        assert(view.live[i] != view.live[j]);
                    } else if i < view.live.len() {
                        assert(view.live.contains(view.live[i]));
                    } else {
                        assert(view.live.contains(view.live[j]));
                    }
                }
            }
        },
        _ => {},
    }
}

impl<K: PartialEq> JoinContextForMultiple<K> {
    /// Keys compare by value, and the supervisor is valid.
    pub open spec fn wf(&self) -> bool {
        &&& plain_equality::<K>()
        &&& self@.valid()
    }

    /// The supervisor at the start: the drivers of the keys `saved` get workers, `len` drivers
    /// are wanted, and drivers may be opened from `now` on.
    pub fn new(saved: Vec<K>, len: usize, now: u64) -> (context: Self)
        requires
            plain_equality::<K>(),
        ensures
            context.wf(),
            context@ == ContextView::start(saved@, len, now),
    {
        let ghost all = saved@;
        let mut rest = saved;
        let mut context = JoinContextForMultiple {
            live: Vec::new(),
            target_len: len,
            next_try: now,
            pending: 0,
            phase: Phase::Idle,
        };
        while rest.len() > 0
            invariant
                plain_equality::<K>(),
                rest@.len() <= all.len(),
                rest@ == all.take(rest@.len() as int),
                context.live@ == gather(all.skip(rest@.len() as int)),
                context.target_len == len,
                context.next_try == now,
                context.pending == 0,
                context.phase == Phase::Idle,
            decreases rest@.len(),
        {
            let ghost n = rest@.len() as int;
            let key = rest.pop().unwrap();
            proof {
                assert(rest@ =~= all.take(n - 1));
                assert(all.skip(n - 1).drop_first() =~= all.skip(n));
                assert(all.skip(n - 1).first() == key);
            }
            if !context.is_live(&key) {
                context.live.push(key);
            }
        }
        proof {
            assert(all.skip(0) =~= all);
            lemma_gather(all);
        }
        context
    }

    /// Whether the driver of `key` has a worker.
    pub fn is_live(&self, key: &K) -> (live: bool)
        requires
            plain_equality::<K>(),
        ensures
            live == self@.live.contains(*key),
    {
        self.position(key).is_some()
    }

    /// How many drivers have a worker.
    pub fn current(&self) -> (current: usize)
        ensures
            current == self@.live.len(),
    {
        self.live.len()
    }

    /// How many drivers the user wants.
    pub fn target(&self) -> (target: usize)
        ensures
            target == self@.target,
    {
        self.target_len
    }

    /// The moment before which no driver is opened.
    pub fn next_try(&self) -> (next_try: u64)
        ensures
            next_try == self@.next_try,
    {
        self.next_try
    }

    /// What the supervisor is waiting for.
    pub fn phase(&self) -> (phase: Phase)
        ensures
            phase == self@.phase,
    {
        self.phase
    }

    /// Takes in `signal`, which arrived at the moment `now`, and returns what is to be done next.
    pub fn step(&mut self, signal: Signal<K>, now: u64) -> (order: Order)
        requires
            old(self).wf(),
        ensures
            final(self).wf(),
            (final(self)@, order) == old(self)@.step(signal, now),
    {
        proof {
            lemma_step_valid(self@, signal, now);
        }
        match (self.phase, signal) {
            (Phase::Idle, Signal::Begin) => self.intake(now),
            (Phase::Taking, Signal::Event) | (Phase::Polling, Signal::Event) => {
                self.phase = Phase::Hearing;
                Order::TellEvent
            },
            (Phase::Taking, Signal::Broke(key)) | (Phase::Polling, Signal::Broke(key)) => {
                proof {
                    self.live@.index_of_first_ensures(key);
                }
                match self.position(&key) {
                    Some(at) => {
                        self.live.remove(at);
                    },
                    None => {},
                }
                self.phase = Phase::Hearing;
                Order::TellBroke
            },
            (Phase::Polling, Signal::Empty) | (Phase::Sleeping, Signal::Awake) => self.refill(now),
            (Phase::Hearing, Signal::Answered(answer)) => {
                self.target_len = answer;
                self.intake(now)
            },
            (Phase::Probing, Signal::Probed(opened)) => {
                if opened == 0 {
                    self.phase = Phase::Failing;
                    Order::TellFailed { current: self.live.len(), target: self.target_len }
                } else {
                    self.pending = opened;
                    self.place_next(now)
                }
            },
            (Phase::Greeting, Signal::Connected(key, answer)) => {
                self.target_len = answer;
                self.pending = self.pending - 1;
                self.phase = Phase::Placing;
                if answer > 0 {
                    if !self.is_live(&key) {
                        self.live.push(key);
                    }
                    Order::Spawn
                } else {
                    Order::Save
                }
            },
            (Phase::Placing, Signal::Done) => self.place_next(now),
            (Phase::Failing, Signal::Postponed(answer, next_try)) => {
                self.target_len = answer;
                self.next_try = next_try;
                self.intake(now)
            },
            _ => {
                self.phase = Phase::Ended;
                Order::Finish
            },
        }
    }

    /// Decides how to take in what the workers send.
    fn intake(&mut self, now: u64) -> (order: Order)
        ensures
            (final(self)@, order) == old(self)@.intake(now),
    {
        if self.target_len == 0 {
            self.phase = Phase::Ended;
            Order::Finish
        } else if self.live.len() >= self.target_len {
            self.phase = Phase::Taking;
            Order::Receive
        } else if now < self.next_try {
            if self.live.len() > 0 {
                self.phase = Phase::Taking;
                Order::Receive
            } else {
                self.phase = Phase::Sleeping;
                Order::Sleep(self.next_try - now)
            }
        } else {
            self.phase = Phase::Polling;
            Order::Poll
        }
    }

    /// Decides whether drivers are to be opened.
    fn refill(&mut self, now: u64) -> (order: Order)
        ensures
            (final(self)@, order) == old(self)@.refill(now),
    {
        if self.live.len() < self.target_len {
            self.phase = Phase::Probing;
            Order::Probe(self.target_len - self.live.len())
        } else {
            self.intake(now)
        }
    }

    /// Decides what is done about the next opened driver.
    fn place_next(&mut self, now: u64) -> (order: Order)
        ensures
            (final(self)@, order) == old(self)@.place_next(now),
    {
        if self.pending == 0 {
            self.intake(now)
        } else if self.target_len > 0 {
            self.phase = Phase::Greeting;
            Order::TellConnected
        } else {
            self.phase = Phase::Placing;
            self.pending = self.pending - 1;
            Order::Save
        }
    }

    /// Where `key` is listed first, if it is listed.
    fn position(&self, key: &K) -> (at: Option<usize>)
        requires
            plain_equality::<K>(),
        ensures
            match at {
                Some(i) => self.live@.index_of_first(*key) == Some(i as int),
                None => self.live@.index_of_first(*key) is None,
            },
            at is Some <==> self.live@.contains(*key),
    {
        proof {
            self.live@.index_of_first_ensures(*key);
        }
        let mut i: usize = 0;
        while i < self.live.len()
            invariant
                plain_equality::<K>(),
                i <= self.live@.len(),
                forall|j: int| 0 <= j < i ==> self.live@[j] != *key,
            decreases self.live@.len() - i,
        {
            if self.live[i] == *key {
                proof {
                    self.live@.index_of_first_ensures(*key);
                }
                return Some(i);
            }
            i += 1;
        }
        None
    }
}

} // verus!
