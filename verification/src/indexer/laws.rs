use crate::indexer::lemmas::{
    lemma_add_valid, lemma_occupied_bound, lemma_place, lemma_remove_valid,
};
use crate::indexer::model::{descending, full, mark, place, settle, IndexerView};
use crate::order::{less, total_order};
use vstd::prelude::*;

verus! {

/// One change to an indexer.
pub enum Change<T> {
    Add(T),
    Remove(T),
}

/// The change can be made: a key that is added is not held yet.
pub open spec fn admissible<T: Ord>(view: IndexerView<T>, change: Change<T>) -> bool {
    match change {
        Change::Add(k) => !view.holds(k),
        Change::Remove(_) => true,
    }
}

/// The indexer after one change.
pub open spec fn apply<T: Ord>(view: IndexerView<T>, change: Change<T>) -> IndexerView<T> {
    match change {
        Change::Add(k) => view.add(k).0,
        Change::Remove(k) => view.remove(k).0,
    }
}

/// The indexer after a run of changes, the first of them applied first.
pub open spec fn replay<T: Ord>(view: IndexerView<T>, changes: Seq<Change<T>>) -> IndexerView<T>
    decreases changes.len(),
{
    if changes.len() == 0 {
        view
    } else {
        apply(replay(view, changes.drop_last()), changes.last())
    }
}

/// No change of the run adds a key that the indexer holds at that moment.
pub open spec fn without_duplicates<T: Ord>(
    view: IndexerView<T>,
    changes: Seq<Change<T>>,
) -> bool
    decreases changes.len(),
{
    changes.len() == 0 || {
        &&& without_duplicates(view, changes.drop_last())
        &&& admissible(replay(view, changes.drop_last()), changes.last())
    }
}

/// Whatever keys are added and removed, as long as none is added while the indexer holds it, the
/// indexer stays valid: read by rising index, the keys in its slots fall strictly.
pub proof fn law_keys_descend<T: Ord>(capacity: nat, changes: Seq<Change<T>>)
    requires
        total_order::<T>(),
        capacity >= 2,
        without_duplicates(IndexerView::<T>::empty(capacity), changes),
    ensures
        replay(IndexerView::<T>::empty(capacity), changes).valid(),
        descending(replay(IndexerView::<T>::empty(capacity), changes).slots),
    decreases changes.len(),
{
    let start = IndexerView::<T>::empty(capacity);
    if changes.len() == 0 {
        assert(!start.is_full()) by {
            assert(start.slots[0] is None);
        }
    } else {
        law_keys_descend::<T>(capacity, changes.drop_last());
        let before = replay(start, changes.drop_last());
        match changes.last() {
            Change::Add(k) => lemma_add_valid(before, k),
            Change::Remove(k) => lemma_remove_valid(before, k),
        }
    }
}

/// A valid indexer holds no key twice: not in two slots, not twice among the waiting keys, and
/// not both in a slot and waiting.
pub proof fn law_keys_are_unique<T: Ord>(view: IndexerView<T>)
    requires
        total_order::<T>(),
        view.valid(),
    ensures
        forall|i: int, j: int|
            0 <= i < j < view.slots.len() && (#[trigger] view.slots[i]) is Some
                ==> view.slots[i] != #[trigger] view.slots[j],
        view.waiting.no_duplicates(),
        forall|k: T| !(view.pinned(k) && view.waiting.contains(k)),
{
    assert forall|i: int, j: int|
        0 <= i < j < view.slots.len() && (#[trigger] view.slots[i]) is Some implies view.slots[i]
        != #[trigger] view.slots[j] by {
        if view.slots[i] == view.slots[j] {
            assert(view.slots[j] is Some);
            assert(less(view.slots[i].unwrap(), view.slots[i].unwrap()));
        }
    }
    assert forall|i: int, j: int|
        0 <= i < view.waiting.len() && 0 <= j < view.waiting.len() && i != j implies view.waiting[i]
        != view.waiting[j] by {
        if i < j {
            assert(less(view.waiting[i], view.waiting[j]));
        } else {
            assert(less(view.waiting[j], view.waiting[i]));
        }
    }
    assert forall|k: T| !(view.pinned(k) && view.waiting.contains(k)) by {
        if view.pinned(k) && view.waiting.contains(k) {
            let i = choose|i: int| 0 <= i < view.slots.len() && view.slots[i] == Some(k);
            let w = choose|w: int| 0 <= w < view.waiting.len() && view.waiting[w] == k;
            assert(view.slots[i] is Some);
            assert(less(view.waiting[w], view.slots[i].unwrap()));
        }
    }
}

/// `find` returns slot `i` for a key exactly when slot `i` holds that key, and no slot exactly
/// when none holds it.
pub proof fn law_find<T: Ord>(view: IndexerView<T>, k: T, i: int)
    requires
        total_order::<T>(),
        view.valid(),
    ensures
        view.find(k) == Some(i) <==> 0 <= i < view.capacity() && view.slots[i] == Some(k),
        view.find(k) is None <==> !view.pinned(k),
{
    view.slots.index_of_first_ensures(Some(k));
    if 0 <= i < view.capacity() && view.slots[i] == Some(k) {
        let found = view.find(k).unwrap();
        if found < i {
            assert(view.slots[found] is Some && view.slots[i] is Some);
            assert(less(k, k));
        }
    }
}

/// Removing a key that has a slot while keys are waiting leaves the number of keys in slots
/// unchanged: the highest waiting key gets a slot, every other key that had one keeps one, and
/// the rest go on waiting.
pub proof fn law_remove_promotes<T: Ord>(view: IndexerView<T>, k: T)
    requires
        total_order::<T>(),
        view.valid(),
        view.pinned(k),
        view.waiting.len() > 0,
    ensures
        view.remove(k).1 is None,
        view.remove(k).0.len() == view.len(),
        view.remove(k).0.waiting == view.waiting.drop_last(),
        forall|w: int|
            0 <= w < view.waiting.len() - 1 ==> less(
                #[trigger] view.waiting[w],
                view.waiting.last(),
            ),
        forall|x: T|
            view.remove(k).0.pinned(x) <==> (view.pinned(x) && x != k) || x
                == view.waiting.last(),
        forall|x: T|
            view.remove(k).0.pinned(x) && x != k && view.holds(x) ==> forall|y: T|
                view.holds(y) && y != k && !view.remove(k).0.pinned(y) ==> less(y, x),
{
    let after = view.remove(k).0;
    let tail = view.slots.len() - 1;
    let top = view.waiting.last();
    view.slots.index_of_first_ensures(Some(k));
    lemma_remove_valid(view, k);
    let at = view.find(k).unwrap();
    lemma_occupied_bound(view.slots);
    lemma_occupied_bound(after.slots);
    assert(after.slots[tail] == Some(top));
    assert forall|x: T| after.pinned(x) <==> (view.pinned(x) && x != k) || x == top by {
        if after.pinned(x) {
            let j = choose|j: int| 0 <= j < after.slots.len() && after.slots[j] == Some(x);
            if j != tail {
                let from = if at <= j {
                    j + 1
                } else {
                    j
                };
                assert(view.slots[from] == Some(x));
                if x == k {
                    assert(view.slots[from] is Some && view.slots[at] is Some);
                    assert(less(k, k));
                }
            }
        }
        if view.pinned(x) && x != k {
            let j = choose|j: int| 0 <= j < view.slots.len() && view.slots[j] == Some(x);
            let to = if at < j {
                j - 1
            } else {
                j
            };
            assert(after.slots[to] == Some(x));
        }
    }
    assert forall|x: T| after.pinned(x) && x != k && view.holds(x) implies forall|y: T|
        view.holds(y) && y != k && !after.pinned(y) ==> less(y, x) by {
        assert forall|y: T| view.holds(y) && y != k && !after.pinned(y) implies less(y, x) by {
            let w = choose|w: int| 0 <= w < view.waiting.len() && view.waiting[w] == y;
            assert(w < view.waiting.len() - 1);
            if x != top {
                let j = choose|j: int| 0 <= j < view.slots.len() && view.slots[j] == Some(x);
                assert(view.slots[j] is Some);
                assert(less(view.waiting[w], view.slots[j].unwrap()));
            }
        }
    }
}

/// Asking twice whether a slot was modified gives `false` the second time: a modification is
/// reported once.
pub proof fn law_update_once<T: Ord>(view: IndexerView<T>, i: int)
    ensures
        !view.update(i).0.update(i).1,
        view.update(i).0.slots == view.slots,
        view.update(i).0.waiting == view.waiting,
        forall|j: int|
            0 <= j < view.modified.len() && j != i ==> view.update(i).0.modified[j]
                == view.modified[j],
{
}

/// The slots among which `add` places a key: those of the indexer, the last of them emptied
/// where all were occupied.
pub open spec fn room<T: Ord>(view: IndexerView<T>) -> Seq<Option<T>> {
    if view.is_full() {
        view.slots.update(view.slots.len() - 1, None)
    } else {
        view.slots
    }
}

/// `add` gives `k` a slot, which happens unless all slots hold higher keys.
pub open spec fn finds_room<T: Ord>(view: IndexerView<T>, k: T) -> bool {
    !(view.is_full() && less(k, view.slots[view.slots.len() - 1].unwrap()))
}

proof fn lemma_room<T: Ord>(view: IndexerView<T>, k: T)
    requires
        total_order::<T>(),
        view.valid(),
        !view.holds(k),
        finds_room(view, k),
    ensures
        ({
            let (at, hole) = place(room(view), k);
            &&& 0 <= at < view.slots.len()
            &&& 0 <= hole < view.slots.len()
            &&& room(view)[hole] is None
            &&& forall|x: int| at <= x < hole ==> (#[trigger] room(view)[x]) is Some
            &&& forall|x: int| hole < x <= at ==> (#[trigger] room(view)[x]) is Some
            &&& forall|x: int|
                0 <= x < view.slots.len() && x != hole ==> #[trigger] room(view)[x]
                    == view.slots[x]
            &&& view.add(k).0.slots == settle(room(view), at, hole, k)
            &&& view.add(k).0.modified == mark(view.modified, at, hole)
            &&& view.add(k).1 == Some(at)
        }),
{
    let tail = view.slots.len() - 1;
    let base = room(view);
    if view.is_full() {
        assert(view.slots[tail] is Some);
        assert(base[tail] is None);
        assert forall|a: int, b: int|
            0 <= a < b < base.len() && (#[trigger] base[a]) is Some && (
            #[trigger] base[b]) is Some implies less(base[b].unwrap(), base[a].unwrap()) by {
            assert(view.slots[a] is Some && view.slots[b] is Some);
        }
        if base.contains(Some(k)) {
            let z = choose|z: int| 0 <= z < base.len() && base[z] == Some(k);
            assert(view.slots[z] == Some(k));
        }
        assert(!full(base));
        lemma_place(base, k);
        let (at, hole) = place(base, k);
        if hole != tail {
            assert(view.slots[hole] is Some);
        }
    } else {
        lemma_place(base, k);
    }
}

/// A slot whose flag a change raises holds another key than before.
pub proof fn law_flagged_slot_has_changed<T: Ord>(view: IndexerView<T>, change: Change<T>, i: int)
    requires
        total_order::<T>(),
        view.valid(),
        admissible(view, change),
        0 <= i < view.capacity(),
        !view.modified[i],
        apply(view, change).modified[i],
    ensures
        apply(view, change).slots[i] is Some,
        apply(view, change).slots[i] != view.slots[i],
{
    let after = apply(view, change);
    match change {
        Change::Add(k) => {
            lemma_room(view, k);
            let (at, hole) = place(room(view), k);
            let from = if i < at {
                i + 1
            } else {
                i - 1
            };
            assert(after.slots[i] == room(view)[from]);
            assert(room(view)[from] is Some);
            assert(view.slots[from] == room(view)[from]);
            if view.slots[i] is Some && view.slots[i] == view.slots[from] {
                assert(view.slots[from] is Some);
                assert(less(view.slots[i].unwrap(), view.slots[i].unwrap()));
            }
        },
        Change::Remove(k) => {
            let tail = view.slots.len() - 1;
            view.slots.index_of_first_ensures(Some(k));
            let at = view.find(k).unwrap();
            assert(at <= i < tail);
            assert(after.slots[i] == view.slots[i + 1]);
            assert(view.slots[i] is Some && view.slots[i + 1] is Some);
            if view.slots[i + 1] == view.slots[i] {
                assert(less(view.slots[i].unwrap(), view.slots[i].unwrap()));
            }
        },
    }
}

/// A key that a change moves to another slot finds the flag of its new slot raised.
pub proof fn law_moved_key_is_flagged<T: Ord>(
    view: IndexerView<T>,
    change: Change<T>,
    x: T,
    i: int,
    j: int,
)
    requires
        total_order::<T>(),
        view.valid(),
        admissible(view, change),
        0 <= i < view.capacity(),
        0 <= j < view.capacity(),
        i != j,
        view.slots[i] == Some(x),
        apply(view, change).slots[j] == Some(x),
    ensures
        apply(view, change).modified[j],
{
    let after = apply(view, change);
    let tail = view.slots.len() - 1;
    assert(view.slots[i] is Some);
    match change {
        Change::Add(k) => {
            assert(view.slots.contains(Some(x)));
            if finds_room(view, k) {
                lemma_room(view, k);
                let (at, hole) = place(room(view), k);
                if !after.modified[j] {
                    assert(j != at);
                    assert(after.slots[j] == room(view)[j]);
                    assert(view.slots[j] == Some(x));
                    assert(view.slots[j] is Some);
                    assert(less(x, x));
                }
            } else {
                assert(view.slots[j] is Some);
                assert(less(x, x));
            }
        },
        Change::Remove(k) => {
            view.slots.index_of_first_ensures(Some(k));
            match view.find(k) {
                Some(at) => {
                    if view.waiting.len() > 0 {
                        if j == tail {
                            assert(less(view.waiting[view.waiting.len() - 1], x));
                        } else if j < at {
                            assert(view.slots[j] is Some);
                            assert(less(x, x));
                        }
                    } else {
                        assert(view.slots[j] is Some);
                        assert(less(x, x));
                    }
                },
                None => {
                    assert(view.slots[j] is Some);
                    assert(less(x, x));
                },
            }
        },
    }
}

/// A slot that holds the same key as before a change, or none as before, keeps its flag.
pub proof fn law_unchanged_slot_keeps_flag<T: Ord>(
    view: IndexerView<T>,
    change: Change<T>,
    j: int,
)
    requires
        total_order::<T>(),
        view.valid(),
        admissible(view, change),
        0 <= j < view.capacity(),
        apply(view, change).slots[j] == view.slots[j],
    ensures
        apply(view, change).modified[j] == view.modified[j],
{
    let after = apply(view, change);
    let tail = view.slots.len() - 1;
    match change {
        Change::Add(k) => {
            if finds_room(view, k) {
                lemma_room(view, k);
                let (at, hole) = place(room(view), k);
                if j == at {
                    assert(view.slots.contains(Some(k)));
                } else if hole <= j < at || at < j <= hole {
                    let from = if j < at {
                        j + 1
                    } else {
                        j - 1
                    };
                    assert(after.slots[j] == room(view)[from]);
                    assert(room(view)[from] is Some);
                    assert(view.slots[from] == room(view)[from]);
                    assert(view.slots[j] is Some && view.slots[from] is Some);
                    assert(less(view.slots[j].unwrap(), view.slots[j].unwrap()));
                }
            }
        },
        Change::Remove(k) => {
            view.slots.index_of_first_ensures(Some(k));
            match view.find(k) {
                Some(at) => {
                    if view.waiting.len() > 0 {
                        if j == tail {
                            assert(view.slots[tail] is Some);
                            assert(less(view.waiting[view.waiting.len() - 1], view.slots[tail].unwrap()));
                        } else if at <= j {
                            assert(after.slots[j] == view.slots[j + 1]);
                            assert(view.slots[j] is Some && view.slots[j + 1] is Some);
                            assert(less(view.slots[j].unwrap(), view.slots[j].unwrap()));
                        }
                    }
                },
                None => {},
            }
        },
    }
}

/// After a slot was asked about, it is reported as modified again only once an `add` or a
/// `remove` has given it another key.
pub proof fn law_update_after_change<T: Ord>(view: IndexerView<T>, i: int, change: Change<T>)
    requires
        total_order::<T>(),
        view.valid(),
        admissible(view, change),
        0 <= i < view.capacity(),
    ensures
        apply(view.update(i).0, change).update(i).1 ==> apply(view.update(i).0, change).slots[i]
            != view.slots[i],
{
    let asked = view.update(i).0;
    assert(asked.valid());
    assert(asked.slots == view.slots);
    if apply(asked, change).update(i).1 {
        law_flagged_slot_has_changed(asked, change, i);
    }
}

} // verus!
