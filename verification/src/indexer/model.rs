use crate::order::less;
use vstd::prelude::*;

verus! {

/// What an indexer holds, as plain values.
pub struct IndexerView<T> {
    /// The slots in index order; an empty slot is `None`.
    pub slots: Seq<Option<T>>,
    /// For each slot, whether its key has changed since the slot was last consulted.
    pub modified: Seq<bool>,
    /// The keys that found no slot, lowest first.
    pub waiting: Seq<T>,
}

/// The number of slots that hold a key.
pub open spec fn occupied<T>(slots: Seq<Option<T>>) -> nat
    decreases slots.len(),
{
    if slots.len() == 0 {
        0
    } else {
        occupied(slots.drop_last()) + if slots.last() is Some {
            1nat
        } else {
            0nat
        }
    }
}

/// Every slot holds a key.
pub open spec fn full<T>(slots: Seq<Option<T>>) -> bool {
    forall|i: int| 0 <= i < slots.len() ==> (#[trigger] slots[i]) is Some
}

/// The keys fall as the index rises; empty slots may lie anywhere between them.
pub open spec fn descending<T: Ord>(slots: Seq<Option<T>>) -> bool {
    forall|i: int, j: int|
        0 <= i < j < slots.len() && (#[trigger] slots[i]) is Some && (#[trigger] slots[j]) is Some
            ==> less(slots[j].unwrap(), slots[i].unwrap())
}

/// The keys rise with the index.
pub open spec fn ascending<T: Ord>(keys: Seq<T>) -> bool {
    forall|i: int, j: int| 0 <= i < j < keys.len() ==> less(#[trigger] keys[i], #[trigger] keys[j])
}

/// The index of the last slot whose key is above `k`, or -1 where no slot holds such a key.
pub open spec fn last_above<T: Ord>(slots: Seq<Option<T>>, k: T) -> int
    decreases slots.len(),
{
    if slots.len() == 0 {
        -1
    } else if slots.last() is Some && less(k, slots.last().unwrap()) {
        slots.len() - 1
    } else {
        last_above(slots.drop_last(), k)
    }
}

/// The index of the first empty slot at or after `from`, or the number of slots where there is
/// none.
pub open spec fn hole_from<T>(slots: Seq<Option<T>>, from: int) -> int
    decreases slots.len() - from,
{
    if from < 0 || from >= slots.len() {
        slots.len() as int
    } else if slots[from] is None {
        from
    } else {
        hole_from(slots, from + 1)
    }
}

/// The index of the last empty slot before `before`, or -1 where there is none.
pub open spec fn hole_before<T>(slots: Seq<Option<T>>, before: int) -> int
    decreases before,
{
    if before <= 0 || before > slots.len() {
        -1
    } else if slots[before - 1] is None {
        before - 1
    } else {
        hole_before(slots, before - 1)
    }
}

/// Where a new key `k` comes to stand, and which empty slot makes room for it.
///
/// The key belongs directly behind the last key above it. The nearest empty slot from there on
/// takes up the keys in between, which move one slot toward the tail. Where no slot is empty
/// from there on, the new key takes the slot of the last key above it, and the keys from that
/// slot back to the nearest empty slot before it move one slot toward the head.
pub open spec fn place<T: Ord>(slots: Seq<Option<T>>, k: T) -> (int, int) {
    let above = last_above(slots, k);
    let hole = hole_from(slots, above + 1);
    if hole < slots.len() {
        (above + 1, hole)
    } else {
        (above, hole_before(slots, above))
    }
}

/// The slots after `k` has been put at `at` and the keys between `at` and the empty slot `hole`
/// have each moved one slot toward `hole`.
pub open spec fn settle<T>(slots: Seq<Option<T>>, at: int, hole: int, k: T) -> Seq<Option<T>> {
    Seq::new(
        slots.len(),
        |j: int|
            if j == at {
                Some(k)
            } else if hole <= j < at {
                slots[j + 1]
            } else if at < j <= hole {
                slots[j - 1]
            } else {
                slots[j]
            },
    )
}

/// The flags after a key has been put at `at` and the keys between `at` and `hole` have moved:
/// lowered at `at`, raised for every slot that received a key from its neighbour.
pub open spec fn mark(modified: Seq<bool>, at: int, hole: int) -> Seq<bool> {
    Seq::new(
        modified.len(),
        |j: int|
            if j == at {
                false
            } else if hole <= j < at || at < j <= hole {
                true
            } else {
                modified[j]
            },
    )
}

/// The number of leading keys of `keys` up to and including the last one below `k`.
pub open spec fn rank<T: Ord>(keys: Seq<T>, k: T) -> int
    decreases keys.len(),
{
    if keys.len() == 0 {
        0
    } else if less(keys.last(), k) {
        keys.len() as int
    } else {
        rank(keys.drop_last(), k)
    }
}

/// The rising keys with `k` put in its place among them.
pub open spec fn enqueue<T: Ord>(keys: Seq<T>, k: T) -> Seq<T> {
    keys.insert(rank(keys, k), k)
}

impl<T: Ord> IndexerView<T> {
    /// The number of slots.
    pub open spec fn capacity(self) -> nat {
        self.slots.len()
    }

    /// The number of keys that have a slot.
    pub open spec fn len(self) -> nat {
        occupied(self.slots)
    }

    /// Every slot holds a key.
    pub open spec fn is_full(self) -> bool {
        full(self.slots)
    }

    /// `k` has a slot.
    pub open spec fn pinned(self, k: T) -> bool {
        self.slots.contains(Some(k))
    }

    /// `k` has a slot or waits for one.
    pub open spec fn holds(self, k: T) -> bool {
        self.pinned(k) || self.waiting.contains(k)
    }

    /// The slot of `k`, if it has one.
    pub open spec fn find(self, k: T) -> Option<int> {
        self.slots.index_of_first(Some(k))
    }

    /// What holds of an indexer at all times.
    pub open spec fn valid(self) -> bool {
        &&& self.slots.len() >= 2
        &&& self.modified.len() == self.slots.len()
        &&& descending(self.slots)
        &&& ascending(self.waiting)
        &&& forall|i: int, j: int|
            0 <= i < self.waiting.len() && 0 <= j < self.slots.len() && (
            #[trigger] self.slots[j]) is Some ==> less(
                #[trigger] self.waiting[i],
                self.slots[j].unwrap(),
            )
        &&& self.waiting.len() > 0 ==> self.is_full()
        &&& forall|i: int|
            0 <= i < self.slots.len() && #[trigger] self.modified[i] ==> self.slots[i] is Some
    }

    /// An indexer of `capacity` empty slots.
    pub open spec fn empty(capacity: nat) -> Self {
        IndexerView {
            slots: Seq::new(capacity, |i: int| None),
            modified: Seq::new(capacity, |i: int| false),
            waiting: Seq::empty(),
        }
    }

    /// The indexer after `k` has been added, and the slot that `k` got, if any.
    pub open spec fn add(self, k: T) -> (Self, Option<int>) {
        let tail = self.slots.len() - 1;
        if self.is_full() {
            let lowest = self.slots[tail].unwrap();
            if less(k, lowest) {
                (IndexerView { waiting: enqueue(self.waiting, k), ..self }, None)
            } else {
                let freed = self.slots.update(tail, None);
                let (at, hole) = place(freed, k);
                (
                    IndexerView {
                        slots: settle(freed, at, hole, k),
                        modified: mark(self.modified, at, hole),
                        waiting: self.waiting.push(lowest),
                    },
                    Some(at),
                )
            }
        } else {
            let (at, hole) = place(self.slots, k);
            (
                IndexerView {
                    slots: settle(self.slots, at, hole, k),
                    modified: mark(self.modified, at, hole),
                    waiting: self.waiting,
                },
                Some(at),
            )
        }
    }

    /// The indexer after `k` has been removed, and the slot that fell empty, if any.
    pub open spec fn remove(self, k: T) -> (Self, Option<int>) {
        let tail = self.slots.len() - 1;
        match self.find(k) {
            Some(i) => {
                if self.waiting.len() > 0 {
                    (
                        IndexerView {
                            slots: settle(self.slots.update(i, None), tail, i, self.waiting.last()),
                            modified: mark(self.modified, tail, i),
                            waiting: self.waiting.drop_last(),
                        },
                        None,
                    )
                } else {
                    (
                        IndexerView {
                            slots: self.slots.update(i, None),
                            modified: self.modified.update(i, false),
                            waiting: self.waiting,
                        },
                        Some(i),
                    )
                }
            },
            None => (IndexerView { waiting: self.waiting.remove_value(k), ..self }, None),
        }
    }

    /// The indexer after slot `i` has been consulted, and whether its key had changed.
    pub open spec fn update(self, i: int) -> (Self, bool) {
        if 0 <= i < self.modified.len() {
            (IndexerView { modified: self.modified.update(i, false), ..self }, self.modified[i])
        } else {
            (self, false)
        }
    }
}

} // verus!
