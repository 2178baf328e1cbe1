pub mod laws;
pub mod lemmas;
pub mod model;

use crate::flags::FlagVec;
use crate::indexer::lemmas::{
    lemma_add_valid, lemma_find_is, lemma_find_none, lemma_hole_before,
    lemma_hole_from_is, lemma_last_above_is, lemma_occupied_bound, lemma_occupied_update,
    lemma_rank_is, lemma_remove_valid,
};
use crate::indexer::model::{
    enqueue, full, hole_before, mark, occupied, place, settle, IndexerView,
};
use crate::order::{compare, less, total_order, Rank};
use vstd::prelude::*;

verus! {

/// Keeps the highest keys it has seen in numbered slots, and the rest in a waiting pile.
///
/// A key keeps its slot until it is removed or, on a full indexer, pushed out by a higher one;
/// when a key has to move to a neighbouring slot, that slot is flagged as modified.
pub struct Indexer<T> {
    pinned: Vec<Option<T>>,
    modified: FlagVec,
    waiting: Vec<T>,
    len: usize,
}

impl<T> View for Indexer<T> {
    type V = IndexerView<T>;

    closed spec fn view(&self) -> IndexerView<T> {
        IndexerView {
            slots: self.pinned@,
            modified: self.modified@.take(self.pinned@.len() as int),
            waiting: self.waiting@,
        }
    }
}

impl<T: Ord> Indexer<T> {
    /// The fields fit each other.
    pub closed spec fn inv(&self) -> bool {
        &&& self.pinned@.len() <= self.modified@.len()
        &&& self.len == occupied(self.pinned@)
    }

    /// The indexer is in order: its keys compare lawfully and its contents are valid.
    pub open spec fn wf(&self) -> bool {
        &&& total_order::<T>()
        &&& self.inv()
        &&& self@.valid()
    }

    /// An indexer of `capacity` empty slots.
    pub fn new(capacity: usize) -> (indexer: Self)
        requires
            total_order::<T>(),
            capacity >= 2,
        ensures
            indexer.wf(),
            indexer@ == IndexerView::<T>::empty(capacity as nat),
    {
        let mut pinned: Vec<Option<T>> = Vec::with_capacity(capacity);
        let mut i: usize = 0;
        while i < capacity
            invariant
                i <= capacity,
                pinned@.len() == i,
                occupied(pinned@) == 0,
                forall|j: int| 0 <= j < i ==> (#[trigger] pinned@[j]) is None,
            decreases capacity - i,
        {
            let ghost before = pinned@;
            pinned.push(None);
            assert(pinned@.drop_last() =~= before);
            i += 1;
        }
        let indexer = Indexer {
            pinned,
            modified: FlagVec::with_capacity(capacity),
            waiting: Vec::new(),
            len: 0,
        };
        assert(indexer@.slots =~= IndexerView::<T>::empty(capacity as nat).slots);
        assert(indexer@.modified =~= IndexerView::<T>::empty(capacity as nat).modified);
        assert(indexer@.waiting =~= IndexerView::<T>::empty(capacity as nat).waiting);
        indexer
    }

    /// Whether every slot holds a key.
    pub fn is_full(&self) -> (full: bool)
        requires
            self.wf(),
        ensures
            full == self@.is_full(),
    {
        proof {
            lemma_occupied_bound(self.pinned@);
        }
        self.len == self.pinned.len()
    }

    /// The number of keys that have a slot.
    pub fn len(&self) -> (len: usize)
        requires
            self.wf(),
        ensures
            len == self@.len(),
    {
        self.len
    }

    /// The slot of `t`, if it has one.
    pub fn find(&self, t: &T) -> (slot: Option<usize>)
        requires
            self.wf(),
        ensures
            match slot {
                Some(i) => self@.find(*t) == Some(i as int),
                None => self@.find(*t) is None,
            },
    {
        let mut i: usize = self.pinned.len();
        while i > 0
            invariant
                self.wf(),
                i <= self.pinned@.len(),
                forall|j: int|
                    i <= j < self.pinned@.len() && (#[trigger] self.pinned@[j]) is Some ==> less(
                        self.pinned@[j].unwrap(),
                        *t,
                    ),
            decreases i,
        {
            i -= 1;
            if let Some(item) = &self.pinned[i] {
                match compare(t, item) {
                    Rank::Less => {
                        proof {
                            assert forall|j: int|
                                0 <= j < self@.slots.len() implies self@.slots[j] != Some(*t) by {
                                if j < i && self@.slots[j] is Some {
                                    assert(self@.slots[i as int] is Some);
                                }
                            }
                            lemma_find_none(self@, *t);
                        }
                        return None;
                    },
                    Rank::Equal => {
                        proof {
                            lemma_find_is(self@, *t, i as int);
                        }
                        return Some(i);
                    },
                    Rank::Greater => {},
                }
            }
        }
        proof {
            lemma_find_none(self@, *t);
        }
        None
    }

    /// Whether the indexer holds `t`, in a slot or among the waiting keys.
    pub fn holds(&self, t: &T) -> (held: bool)
        requires
            self.wf(),
        ensures
            held == self@.holds(*t),
    {
        proof {
            self@.slots.index_of_first_ensures(Some(*t));
        }
        self.find(t).is_some() || self.waiting_position(t).is_some()
    }

    /// Whether the key of slot `i` has changed since this was last asked; the flag is lowered.
    pub fn update(&mut self, i: usize) -> (changed: bool)
        requires
            old(self).wf(),
        ensures
            final(self).wf(),
            final(self)@ == old(self)@.update(i as int).0,
            changed == old(self)@.update(i as int).1,
    {
        if i < self.pinned.len() {
            let changed = self.modified.clear(i);
            assert(self@.modified =~= old(self)@.modified.update(i as int, false));
            changed
        } else {
            false
        }
    }

    /// Adds the key `t`, which the indexer must not hold yet, and returns the slot it got.
    ///
    /// On a full indexer a key below all others goes to the waiting pile and gets no slot; a
    /// higher one sends the lowest key there in its stead.
    pub fn add(&mut self, t: T) -> (slot: Option<usize>)
        requires
            old(self).wf(),
            !old(self)@.holds(t),
        ensures
            final(self).wf(),
            final(self)@ == old(self)@.add(t).0,
            match slot {
                Some(i) => old(self)@.add(t).1 == Some(i as int),
                None => old(self)@.add(t).1 is None,
            },
    {
        let tail: usize = self.pinned.len() - 1;
        let mut hole: usize = tail;
        if self.is_full() {
            proof {
                lemma_add_valid(self@, t);
            }
            assert(self.pinned@[tail as int] is Some);
            assert(self.pinned@.contains(self.pinned@[tail as int]));
            match compare(&t, self.get_value(tail)) {
                Rank::Less => {
                    self.push_waiting(t);
                    return None;
                },
                _ => {
                    proof {
                        lemma_occupied_update(self.pinned@, tail as int, None);
                    }
                    let lowest = self.pinned[tail].take().unwrap();
                    self.waiting.push(lowest);
                    self.len -= 1;
                },
            }
        } else {
            let ghost gap = choose|z: int|
                0 <= z < self.pinned@.len() && !((#[trigger] self.pinned@[z]) is Some);
            let mut i: usize = tail;
            loop
                invariant_except_break
                    i <= tail,
                    forall|x: int|
                        i < x <= tail ==> (#[trigger] self.pinned@[x]) is Some && less(
                            self.pinned@[x].unwrap(),
                            t,
                        ),
                invariant
                    self.wf(),
                    *self == *old(self),
                    !self@.is_full(),
                    !self@.holds(t),
                    tail == self.pinned@.len() - 1,
                    0 <= gap <= tail,
                    self.pinned@[gap] is None,
                ensures
                    hole <= tail,
                    self.pinned@[hole as int] is None,
                    forall|x: int|
                        hole < x <= tail ==> (#[trigger] self.pinned@[x]) is Some && less(
                            self.pinned@[x].unwrap(),
                            t,
                        ),
                decreases i,
            {
                match self.rank_against(&t, i) {
                    Some(Rank::Less) => {
                        proof {
                            let slots = self.pinned@;
                            lemma_add_valid(self@, t);
                            lemma_last_above_is(slots, t, i as int);
                            lemma_hole_from_is(slots, i + 1, slots.len() as int);
                            lemma_hole_before(slots, i as int);
                            assert(hole_before(slots, i as int) >= gap) by {
                                if hole_before(slots, i as int) < gap {
                                    assert(slots[gap] is Some);
                                }
                            }
                        }
                        self.put_somewhere_forward(i, t);
                        return Some(i);
                    },
                    Some(_) => {
                        assert(self.pinned@.contains(self.pinned@[i as int]));
                        assert(i > 0) by {
                            if i == 0 {
                                assert(self.pinned@[gap] is Some);
                            }
                        }
                        i -= 1;
                    },
                    None => {
                        hole = i;
                        break ;
                    },
                }
            }
        }
        let ghost slots = self.pinned@;
        let mut at: usize = hole;
        let mut scanning = true;
        while scanning && at > 0
            invariant
                total_order::<T>(),
                self.inv(),
                self.pinned@ == slots,
                !slots.contains(Some(t)),
                at <= hole <= tail,
                tail == slots.len() - 1,
                slots[hole as int] is None,
                forall|x: int| at <= x < hole ==> (#[trigger] slots[x]) is Some,
                forall|x: int|
                    at <= x <= tail && (#[trigger] slots[x]) is Some ==> less(slots[x].unwrap(), t),
                !scanning ==> at > 0 && slots[at - 1] is Some && less(t, slots[at - 1].unwrap()),
            decreases at + if scanning { 1int } else { 0int },
        {
            match self.rank_against(&t, at - 1) {
                Some(Rank::Less) => {
                    scanning = false;
                },
                Some(_) => {
                    assert(slots.contains(slots[at - 1]));
                    at -= 1;
                },
                None => {
                    at -= 1;
                    hole = at;
                },
            }
        }
        proof {
            lemma_add_valid(old(self)@, t);
            lemma_last_above_is(slots, t, at - 1);
            lemma_hole_from_is(slots, at as int, hole as int);
            assert(place(slots, t) == (at as int, hole as int));
        }
        self.put_backward(at, hole, t);
        Some(at)
    }

    /// Removes the key `t`.
    ///
    /// Where `t` had a slot and keys are waiting, the highest of them gets the slot at the tail,
    /// and no slot falls empty. Where none is waiting, the slot of `t` falls empty and is
    /// returned.
    pub fn remove(&mut self, t: &T) -> (slot: Option<usize>)
        requires
            old(self).wf(),
        ensures
            final(self).wf(),
            final(self)@ == old(self)@.remove(*t).0,
            match slot {
                Some(i) => old(self)@.remove(*t).1 == Some(i as int),
                None => old(self)@.remove(*t).1 is None,
            },
    {
        let mut i: usize = self.pinned.len();
        while i > 0
            invariant
                self.wf(),
                *self == *old(self),
                i <= self.pinned@.len(),
                forall|x: int|
                    i <= x < self.pinned@.len() && (#[trigger] self.pinned@[x]) is Some ==> less(
                        self.pinned@[x].unwrap(),
                        *t,
                    ),
            decreases i,
        {
            i -= 1;
            match self.rank_against(t, i) {
                Some(Rank::Equal) => {
                    proof {
                        lemma_remove_valid(self@, *t);
                        lemma_find_is(self@, *t, i as int);
                    }
                    let ghost keys = self.waiting@;
                    match self.waiting.pop() {
                        Some(top) => {
                            assert(top == keys.last());
                            assert(self.waiting@ == keys.drop_last());
                            self.put_forward(i, top);
                            return None;
                        },
                        None => {
                            self.remove_at(i);
                            return Some(i);
                        },
                    }
                },
                Some(Rank::Less) => {
                    proof {
                        assert forall|x: int| 0 <= x < self@.slots.len() implies self@.slots[x]
                            != Some(*t) by {
                            if x < i && self@.slots[x] is Some {
                                assert(self@.slots[i as int] is Some);
                            }
                        }
                        lemma_find_none(self@, *t);
                        lemma_remove_valid(self@, *t);
                    }
                    self.drop_waiting(t);
                    return None;
                },
                _ => {},
            }
        }
        proof {
            lemma_remove_valid(self@, *t);
            lemma_find_none(self@, *t);
            let keys = self.waiting@;
            keys.index_of_first_ensures(*t);
            if keys.contains(*t) {
                let w = choose|w: int| 0 <= w < keys.len() && keys[w] == *t;
                assert(self@.is_full());
                assert(self@.slots[0] is Some);
                assert(less(keys[w], self@.slots[0].unwrap()));
            }
        }
        None
    }

    /// The key of slot `i`, if the slot holds one.
    pub fn get(&self, i: usize) -> (key: &Option<T>)
        requires
            self.wf(),
            i < self@.capacity(),
        ensures
            *key == self@.slots[i as int],
    {
        &self.pinned[i]
    }

    /// Whether the key of slot `i` has changed since `update` was last called on it.
    pub fn is_modified(&self, i: usize) -> (changed: bool)
        requires
            self.wf(),
        ensures
            changed == (i < self@.capacity() && self@.modified[i as int]),
    {
        i < self.pinned.len() && self.modified.get(i)
    }

    /// The keys that wait for a slot, lowest first.
    pub fn waiting(&self) -> (keys: &Vec<T>)
        requires
            self.wf(),
        ensures
            keys@ == self@.waiting,
    {
        &self.waiting
    }

    /// The key of slot `i`, which holds one.
    fn get_value(&self, i: usize) -> (key: &T)
        requires
            i < self@.slots.len(),
            self@.slots[i as int] is Some,
        ensures
            Some(*key) == self@.slots[i as int],
    {
        self.pinned[i].as_ref().unwrap()
    }

    /// How `t` stands against the key of slot `i`, if the slot holds one.
    fn rank_against(&self, t: &T, i: usize) -> (rank: Option<Rank>)
        requires
            total_order::<T>(),
            i < self@.slots.len(),
        ensures
            match rank {
                Some(Rank::Less) => self@.slots[i as int] is Some && less(
                    *t,
                    self@.slots[i as int].unwrap(),
                ),
                Some(Rank::Equal) => self@.slots[i as int] == Some(*t),
                Some(Rank::Greater) => self@.slots[i as int] is Some && less(
                    self@.slots[i as int].unwrap(),
                    *t,
                ),
                None => self@.slots[i as int] is None,
            },
    {
        match &self.pinned[i] {
            Some(item) => Some(compare(t, item)),
            None => None,
        }
    }

    /// Puts `t` in its place among the waiting keys.
    fn push_waiting(&mut self, t: T)
        requires
            total_order::<T>(),
            old(self).inv(),
        ensures
            final(self).inv(),
            final(self)@.slots == old(self)@.slots,
            final(self)@.modified == old(self)@.modified,
            final(self)@.waiting == enqueue(old(self)@.waiting, t),
    {
        let mut at: usize = self.waiting.len();
        let mut scanning = true;
        while scanning && at > 0
            invariant
                total_order::<T>(),
                *self == *old(self),
                at <= self.waiting@.len(),
                forall|x: int| at <= x < self.waiting@.len() ==> !less(#[trigger] self.waiting@[x], t),
                !scanning ==> at > 0 && less(self.waiting@[at - 1], t),
            decreases at + if scanning { 1int } else { 0int },
        {
            match compare(&self.waiting[at - 1], &t) {
                Rank::Less => {
                    scanning = false;
                },
                _ => {
                    at -= 1;
                },
            }
        }
        proof {
            lemma_rank_is(self.waiting@, t, at as int);
        }
        self.waiting.insert(at, t);
    }

    /// Takes `t` from the waiting keys, if it is among them.
    fn drop_waiting(&mut self, t: &T)
        requires
            total_order::<T>(),
            old(self).inv(),
        ensures
            final(self).inv(),
            final(self)@.slots == old(self)@.slots,
            final(self)@.modified == old(self)@.modified,
            final(self)@.waiting == old(self)@.waiting.remove_value(*t),
    {
        match self.waiting_position(t) {
            Some(at) => {
                self.waiting.remove(at);
            },
            None => {},
        }
    }

    /// Where `t` stands among the waiting keys, if it is among them.
    fn waiting_position(&self, t: &T) -> (at: Option<usize>)
        requires
            total_order::<T>(),
        ensures
            match at {
                Some(i) => i < self@.waiting.len() && self@.waiting.index_of_first(*t) == Some(
                    i as int,
                ),
                None => self@.waiting.index_of_first(*t) is None,
            },
            at is Some <==> self@.waiting.contains(*t),
    {
        let ghost keys = self.waiting@;
        proof {
            keys.index_of_first_ensures(*t);
        }
        let mut at: usize = 0;
        while at < self.waiting.len()
            invariant
                total_order::<T>(),
                keys == self.waiting@,
                at <= keys.len(),
                forall|x: int| 0 <= x < at ==> #[trigger] keys[x] != *t,
            decreases keys.len() - at,
        {
            match compare(t, &self.waiting[at]) {
                Rank::Equal => {
                    proof {
                        keys.index_of_first_ensures(*t);
                    }
                    return Some(at);
                },
                _ => {
                    at += 1;
                },
            }
        }
        None
    }

    /// Empties slot `i`.
    fn remove_at(&mut self, i: usize)
        requires
            old(self).inv(),
            i < old(self)@.slots.len(),
            old(self)@.slots[i as int] is Some,
        ensures
            final(self).inv(),
            final(self)@.slots == old(self)@.slots.update(i as int, None),
            final(self)@.modified == old(self)@.modified.update(i as int, false),
            final(self)@.waiting == old(self)@.waiting,
    {
        proof {
            lemma_occupied_update(self.pinned@, i as int, None);
        }
        self.pinned[i] = None;
        self.modified.clear(i);
        self.len -= 1;
        assert(self@.modified =~= old(self)@.modified.update(i as int, false));
    }

    /// Puts `t` into slot `at`, whose key and those before it move one slot toward the head, up to
    /// the nearest empty slot.
    fn put_somewhere_forward(&mut self, at: usize, t: T)
        requires
            old(self).inv(),
            at < old(self)@.slots.len(),
            old(self)@.slots[at as int] is Some,
            hole_before(old(self)@.slots, at as int) >= 0,
        ensures
            final(self).inv(),
            final(self)@.slots == settle(
                old(self)@.slots,
                at as int,
                hole_before(old(self)@.slots, at as int),
                t,
            ),
            final(self)@.modified == mark(
                old(self)@.modified,
                at as int,
                hole_before(old(self)@.slots, at as int),
            ),
            final(self)@.waiting == old(self)@.waiting,
            final(self).len == old(self).len + 1,
    {
        let ghost slots = self.pinned@;
        let ghost flags = self.modified@;
        let ghost hole = hole_before(slots, at as int);
        let capacity: usize = self.pinned.len();
        proof {
            lemma_hole_before(slots, at as int);
            lemma_occupied_bound(slots);
            assert(slots[hole] is None);
            assert(!full(slots));
            lemma_occupied_update(slots, at as int, Some(t));
        }
        let mut carry: T = self.pinned[at].take().unwrap();
        self.pinned[at] = Some(t);
        self.modified.clear(at);
        assert(self.pinned@ =~= slots.update(at as int, Some(t)));
        let mut j: usize = at;
        loop
            invariant_except_break
                hole < j <= at,
                slots[j as int] == Some(carry),
                occupied(self.pinned@) == occupied(slots),
                forall|x: int|
                    0 <= x < slots.len() ==> #[trigger] self.pinned@[x] == if x == at {
                        Some(t)
                    } else if j <= x < at {
                        slots[x + 1]
                    } else {
                        slots[x]
                    },
                forall|x: int|
                    0 <= x < flags.len() ==> #[trigger] self.modified@[x] == if x == at {
                        false
                    } else if j <= x < at {
                        true
                    } else {
                        flags[x]
                    },
            invariant
                at < slots.len() <= flags.len(),
                slots.len() == capacity,
                self.pinned@.len() == slots.len(),
                self.modified@.len() == flags.len(),
                self.waiting == old(self).waiting,
                self.len == old(self).len,
                self.len == occupied(slots),
                occupied(slots) < slots.len(),
                0 <= hole,
                slots[hole] is None,
                forall|x: int| hole < x < at ==> (#[trigger] slots[x]) is Some,
            ensures
                occupied(self.pinned@) == occupied(slots) + 1,
                forall|x: int|
                    0 <= x < slots.len() ==> #[trigger] self.pinned@[x] == if x == at {
                        Some(t)
                    } else if hole <= x < at {
                        slots[x + 1]
                    } else {
                        slots[x]
                    },
                forall|x: int|
                    0 <= x < flags.len() ==> #[trigger] self.modified@[x] == if x == at {
                        false
                    } else if hole <= x < at {
                        true
                    } else {
                        flags[x]
                    },
            decreases j,
        {
            j -= 1;
            self.modified.set(j);
            let ghost before = self.pinned@;
            match self.pinned[j].take() {
                Some(next) => {
                    self.pinned[j] = Some(carry);
                    carry = next;
                    proof {
                        assert(self.pinned@ =~= before.update(j as int, slots[j + 1]));
                        lemma_occupied_update(before, j as int, slots[j + 1]);
                    }
                },
                None => {
                    self.pinned[j] = Some(carry);
                    proof {
                        assert(self.pinned@ =~= before.update(j as int, slots[j + 1]));
                        lemma_occupied_update(before, j as int, slots[j + 1]);
                    }
                    break ;
                },
            }
        }
        self.len += 1;
        proof {
            assert(self@.slots =~= settle(slots, at as int, hole, t));
            assert(self@.modified =~= mark(old(self)@.modified, at as int, hole));
        }
    }

    /// Puts `t` into slot `at`; the keys from there up to the empty slot `hole` move one slot
    /// toward the tail.
    fn put_backward(&mut self, at: usize, hole: usize, t: T)
        requires
            old(self).inv(),
            at <= hole < old(self)@.slots.len(),
            old(self)@.slots[hole as int] is None,
            forall|x: int| at <= x < hole ==> (#[trigger] old(self)@.slots[x]) is Some,
        ensures
            final(self).inv(),
            final(self)@.slots == settle(old(self)@.slots, at as int, hole as int, t),
            final(self)@.modified == mark(old(self)@.modified, at as int, hole as int),
            final(self)@.waiting == old(self)@.waiting,
            final(self).len == old(self).len + 1,
    {
        let ghost slots = self.pinned@;
        let ghost flags = self.modified@;
        proof {
            lemma_occupied_bound(slots);
            assert(slots[hole as int] is None);
            assert(!full(slots));
        }
        let capacity: usize = self.pinned.len();
        let mut j: usize = hole;
        while j > at
            invariant
                at <= j <= hole < slots.len() <= flags.len(),
                slots.len() == capacity,
                self.pinned@.len() == slots.len(),
                self.modified@.len() == flags.len(),
                self.waiting == old(self).waiting,
                self.len == old(self).len,
                self.len == occupied(slots),
                occupied(slots) < slots.len(),
                occupied(self.pinned@) == occupied(slots),
                forall|x: int| at <= x < hole ==> (#[trigger] slots[x]) is Some,
                forall|x: int|
                    0 <= x < slots.len() ==> #[trigger] self.pinned@[x] == if x == j {
                        None
                    } else if j < x <= hole {
                        slots[x - 1]
                    } else {
                        slots[x]
                    },
                forall|x: int|
                    0 <= x < flags.len() ==> #[trigger] self.modified@[x] == if j < x <= hole {
                        true
                    } else {
                        flags[x]
                    },
            decreases j,
        {
            let ghost before = self.pinned@;
            let moved = self.pinned[j - 1].take();
            self.pinned[j] = moved;
            self.modified.set(j);
            proof {
                let middle = before.update(j - 1, None);
                assert(self.pinned@ =~= middle.update(j as int, slots[j - 1]));
                lemma_occupied_update(before, j - 1, None);
                lemma_occupied_update(middle, j as int, slots[j - 1]);
            }
            j -= 1;
        }
        proof {
            lemma_occupied_update(self.pinned@, at as int, Some(t));
        }
        self.pinned[at] = Some(t);
        self.modified.clear(at);
        self.len += 1;
        proof {
            assert(self@.slots =~= settle(slots, at as int, hole as int, t));
            assert(self@.modified =~= mark(old(self)@.modified, at as int, hole as int));
        }
    }

    /// Replaces the key of slot `from` by `t` at the tail; the keys behind `from` move one slot
    /// toward the head.
    fn put_forward(&mut self, from: usize, t: T)
        requires
            old(self).inv(),
            from < old(self)@.slots.len(),
            full(old(self)@.slots),
        ensures
            final(self).inv(),
            final(self)@.slots == settle(
                old(self)@.slots.update(from as int, None),
                old(self)@.slots.len() - 1,
                from as int,
                t,
            ),
            final(self)@.modified == mark(
                old(self)@.modified,
                old(self)@.slots.len() - 1,
                from as int,
            ),
            final(self)@.waiting == old(self)@.waiting,
            final(self).len == old(self).len,
    {
        let ghost slots = self.pinned@;
        let ghost flags = self.modified@;
        let tail: usize = self.pinned.len() - 1;
        proof {
            lemma_occupied_bound(slots);
            lemma_occupied_update(slots, from as int, None);
        }
        self.pinned[from] = None;
        let mut j: usize = from;
        while j < tail
            invariant
                from <= j <= tail,
                tail == slots.len() - 1,
                slots.len() <= flags.len(),
                self.pinned@.len() == slots.len(),
                self.modified@.len() == flags.len(),
                self.waiting == old(self).waiting,
                self.len == old(self).len,
                self.len == occupied(slots),
                occupied(self.pinned@) + 1 == occupied(slots),
                full(slots),
                forall|x: int|
                    0 <= x < slots.len() ==> #[trigger] self.pinned@[x] == if x == j {
                        None
                    } else if from <= x < j {
                        slots[x + 1]
                    } else {
                        slots[x]
                    },
                forall|x: int|
                    0 <= x < flags.len() ==> #[trigger] self.modified@[x] == if from <= x < j {
                        true
                    } else {
                        flags[x]
                    },
            decreases tail - j,
        {
            let ghost before = self.pinned@;
            let moved = self.pinned[j + 1].take();
            self.pinned[j] = moved;
            self.modified.set(j);
            proof {
                let middle = before.update(j + 1, None);
                assert(slots[j + 1] is Some);
                assert(self.pinned@ =~= middle.update(j as int, slots[j + 1]));
                lemma_occupied_update(before, j + 1, None);
                lemma_occupied_update(middle, j as int, slots[j + 1]);
            }
            j += 1;
        }
        proof {
            lemma_occupied_update(self.pinned@, tail as int, Some(t));
        }
        self.pinned[tail] = Some(t);
        self.modified.clear(tail);
        proof {
            assert(self@.slots =~= settle(slots.update(from as int, None), tail as int, from as int, t));
            assert(self@.modified =~= mark(old(self)@.modified, tail as int, from as int));
        }
    }
}

} // verus!
