use crate::indexer::model::{
    ascending, descending, enqueue, full, hole_before, hole_from, last_above, occupied, place,
    rank, settle, IndexerView,
};
use crate::order::{less, total_order};
use vstd::prelude::*;

verus! {

/// No more slots are occupied than there are, and all of them exactly when the slots are full.
pub proof fn lemma_occupied_bound<T>(slots: Seq<Option<T>>)
    ensures
        occupied(slots) <= slots.len(),
        occupied(slots) == slots.len() <==> full(slots),
    decreases slots.len(),
{
    if slots.len() > 0 {
        let front = slots.drop_last();
        lemma_occupied_bound(front);
        if full(slots) {
            assert forall|i: int| 0 <= i < front.len() implies (#[trigger] front[i]) is Some by {
                assert(slots[i] is Some);
            }
            assert(slots.last() is Some);
        }
        if occupied(slots) == slots.len() {
            assert forall|i: int| 0 <= i < slots.len() implies (#[trigger] slots[i]) is Some by {
                if i < front.len() {
                    assert(front[i] is Some);
                }
            }
        }
    }
}

/// Writing one slot changes the count by what was there and what is there now.
pub proof fn lemma_occupied_update<T>(slots: Seq<Option<T>>, i: int, v: Option<T>)
    requires
        0 <= i < slots.len(),
    ensures
        occupied(slots.update(i, v)) + (if slots[i] is Some {
            1nat
        } else {
            0nat
        }) == occupied(slots) + (if v is Some {
            1nat
        } else {
            0nat
        }),
    decreases slots.len(),
{
    let after = slots.update(i, v);
    if i == slots.len() - 1 {
        assert(after.drop_last() =~= slots.drop_last());
    } else {
        lemma_occupied_update(slots.drop_last(), i, v);
        assert(after.drop_last() =~= slots.drop_last().update(i, v));
    }
}

/// What `last_above` returns.
pub proof fn lemma_last_above<T: Ord>(slots: Seq<Option<T>>, k: T)
    ensures
        -1 <= last_above(slots, k) < slots.len(),
        last_above(slots, k) >= 0 ==> slots[last_above(slots, k)] is Some && less(
            k,
            slots[last_above(slots, k)].unwrap(),
        ),
        forall|j: int|
            last_above(slots, k) < j < slots.len() && (#[trigger] slots[j]) is Some ==> !less(
                k,
                slots[j].unwrap(),
            ),
    decreases slots.len(),
{
    if slots.len() > 0 && !(slots.last() is Some && less(k, slots.last().unwrap())) {
        let front = slots.drop_last();
        lemma_last_above(front, k);
        assert forall|j: int|
            last_above(slots, k) < j < slots.len() && (#[trigger] slots[j]) is Some implies !less(
            k,
            slots[j].unwrap(),
        ) by {
            if j < front.len() {
                assert(front[j] is Some);
            }
        }
    }
}

/// `above` is what `last_above` returns where it has these properties.
pub proof fn lemma_last_above_is<T: Ord>(slots: Seq<Option<T>>, k: T, above: int)
    requires
        -1 <= above < slots.len(),
        above >= 0 ==> slots[above] is Some && less(k, slots[above].unwrap()),
        forall|j: int|
            above < j < slots.len() && (#[trigger] slots[j]) is Some ==> !less(
                k,
                slots[j].unwrap(),
            ),
    ensures
        last_above(slots, k) == above,
{
    lemma_last_above(slots, k);
}

/// What `hole_from` returns.
pub proof fn lemma_hole_from<T>(slots: Seq<Option<T>>, from: int)
    requires
        0 <= from <= slots.len(),
    ensures
        from <= hole_from(slots, from) <= slots.len(),
        hole_from(slots, from) < slots.len() ==> slots[hole_from(slots, from)] is None,
        forall|j: int| from <= j < hole_from(slots, from) ==> (#[trigger] slots[j]) is Some,
    decreases slots.len() - from,
{
    if from < slots.len() && slots[from] is Some {
        lemma_hole_from(slots, from + 1);
    }
}

/// `hole` is what `hole_from` returns where it has these properties.
pub proof fn lemma_hole_from_is<T>(slots: Seq<Option<T>>, from: int, hole: int)
    requires
        0 <= from <= hole <= slots.len(),
        hole < slots.len() ==> slots[hole] is None,
        forall|j: int| from <= j < hole ==> (#[trigger] slots[j]) is Some,
    ensures
        hole_from(slots, from) == hole,
{
    lemma_hole_from(slots, from);
}

/// What `hole_before` returns.
pub proof fn lemma_hole_before<T>(slots: Seq<Option<T>>, before: int)
    requires
        0 <= before <= slots.len(),
    ensures
        -1 <= hole_before(slots, before) < before,
        hole_before(slots, before) >= 0 ==> slots[hole_before(slots, before)] is None,
        forall|j: int| hole_before(slots, before) < j < before ==> (#[trigger] slots[j]) is Some,
    decreases before,
{
    if before > 0 && slots[before - 1] is Some {
        lemma_hole_before(slots, before - 1);
    }
}

/// What `rank` returns.
pub proof fn lemma_rank<T: Ord>(keys: Seq<T>, k: T)
    ensures
        0 <= rank(keys, k) <= keys.len(),
        rank(keys, k) > 0 ==> less(keys[rank(keys, k) - 1], k),
        forall|j: int| rank(keys, k) <= j < keys.len() ==> !less(#[trigger] keys[j], k),
    decreases keys.len(),
{
    if keys.len() > 0 && !less(keys.last(), k) {
        let front = keys.drop_last();
        lemma_rank(front, k);
        assert forall|j: int| rank(keys, k) <= j < keys.len() implies !less(
            #[trigger] keys[j],
            k,
        ) by {
            if j < front.len() {
                assert(!less(front[j], k));
            }
        }
    }
}

/// `at` is what `rank` returns where it has these properties.
pub proof fn lemma_rank_is<T: Ord>(keys: Seq<T>, k: T, at: int)
    requires
        0 <= at <= keys.len(),
        at > 0 ==> less(keys[at - 1], k),
        forall|j: int| at <= j < keys.len() ==> !less(#[trigger] keys[j], k),
    ensures
        rank(keys, k) == at,
{
    lemma_rank(keys, k);
}


/// A key stands in at most one slot, and `find` names that slot.
pub proof fn lemma_find_is<T: Ord>(view: IndexerView<T>, k: T, i: int)
    requires
        total_order::<T>(),
        descending(view.slots),
        0 <= i < view.slots.len(),
        view.slots[i] == Some(k),
    ensures
        view.find(k) == Some(i),
{
    view.slots.index_of_first_ensures(Some(k));
    let found = view.slots.index_of_first(Some(k));
    assert(view.slots.contains(Some(k)));
    let j = found.unwrap();
    if j < i {
        assert(view.slots[j] is Some && view.slots[i] is Some);
        assert(less(k, k));
    }
}

/// `find` names no slot for a key that stands in none.
pub proof fn lemma_find_none<T: Ord>(view: IndexerView<T>, k: T)
    requires
        forall|j: int| 0 <= j < view.slots.len() ==> view.slots[j] != Some(k),
    ensures
        view.find(k) is None,
        !view.pinned(k),
{
    view.slots.index_of_first_ensures(Some(k));
}

/// A key put in its place among rising keys leaves them rising, and adds nothing else.
pub proof fn lemma_enqueue<T: Ord>(keys: Seq<T>, k: T)
    requires
        total_order::<T>(),
        ascending(keys),
        !keys.contains(k),
    ensures
        ascending(enqueue(keys, k)),
        enqueue(keys, k).len() == keys.len() + 1,
        forall|i: int|
            0 <= i < enqueue(keys, k).len() ==> #[trigger] enqueue(keys, k)[i] == k
                || keys.contains(enqueue(keys, k)[i]),
{
    lemma_rank(keys, k);
    let at = rank(keys, k);
    let after = enqueue(keys, k);
    assert forall|i: int| 0 <= i < after.len() implies #[trigger] after[i] == k || keys.contains(
        after[i],
    ) by {
        if i < at {
            assert(after[i] == keys[i]);
        } else if i > at {
            assert(after[i] == keys[i - 1]);
        }
    }
    assert forall|i: int, j: int| 0 <= i < j < after.len() implies less(
        #[trigger] after[i],
        #[trigger] after[j],
    ) by {
        if j < at {
            assert(after[i] == keys[i] && after[j] == keys[j]);
        } else if j == at {
            assert(after[i] == keys[i]);
            if i < at - 1 {
                assert(less(keys[i], keys[at - 1]));
            }
        } else if i == at {
            assert(after[j] == keys[j - 1]);
            assert(!less(keys[j - 1], k));
            assert(keys.contains(keys[j - 1]));
        } else if i < at {
            assert(after[i] == keys[i] && after[j] == keys[j - 1]);
        } else {
            assert(after[i] == keys[i - 1] && after[j] == keys[j - 1]);
        }
    }
}

/// Where a new key is placed, the slots stay in falling order and gain exactly that key.
pub proof fn lemma_place<T: Ord>(slots: Seq<Option<T>>, k: T)
    requires
        total_order::<T>(),
        descending(slots),
        !full(slots),
        !slots.contains(Some(k)),
    ensures
        ({
            let (at, hole) = place(slots, k);
            &&& 0 <= at < slots.len()
            &&& 0 <= hole < slots.len()
            &&& slots[hole] is None
            &&& forall|x: int| at <= x < hole ==> (#[trigger] slots[x]) is Some
            &&& forall|x: int| hole < x <= at ==> (#[trigger] slots[x]) is Some
            &&& descending(settle(slots, at, hole, k))
        }),
{
    lemma_last_above(slots, k);
    let above = last_above(slots, k);
    lemma_hole_from(slots, above + 1);
    let (at, hole) = place(slots, k);
    let after = settle(slots, at, hole, k);
    let gap = choose|z: int| 0 <= z < slots.len() && !((#[trigger] slots[z]) is Some);
    if hole_from(slots, above + 1) >= slots.len() {
        assert(gap <= above) by {
            if gap > above {
                assert(slots[gap] is Some);
            }
        }
        lemma_hole_before(slots, above);
        assert(hole >= gap) by {
            if hole < gap {
                assert(slots[gap] is Some);
            }
        }
    }
    assert forall|x: int| 0 <= x < slots.len() && (#[trigger] slots[x]) is Some implies if x
        <= above {
        less(k, slots[x].unwrap())
    } else {
        less(slots[x].unwrap(), k)
    } by {
        if x < above {
            assert(slots[above] is Some);
        } else if x > above {
            assert(slots.contains(slots[x]));
        }
    }
    assert forall|i: int, j: int|
        0 <= i < j < after.len() && (#[trigger] after[i]) is Some && (
        #[trigger] after[j]) is Some implies less(after[j].unwrap(), after[i].unwrap()) by {
        let from_i = if i == at {
            -1
        } else if hole <= i < at {
            i + 1
        } else if at < i <= hole {
            i - 1
        } else {
            i
        };
        let from_j = if j == at {
            -1
        } else if hole <= j < at {
            j + 1
        } else if at < j <= hole {
            j - 1
        } else {
            j
        };
        if from_i >= 0 {
            assert(slots[from_i] is Some);
        }
        if from_j >= 0 {
            assert(slots[from_j] is Some);
        }
    }
}

/// Adding a key that the indexer does not hold leaves it valid.
pub proof fn lemma_add_valid<T: Ord>(view: IndexerView<T>, k: T)
    requires
        total_order::<T>(),
        view.valid(),
        !view.holds(k),
    ensures
        view.add(k).0.valid(),
{
    let tail = view.slots.len() - 1;
    let after = view.add(k).0;
    if view.is_full() {
        let lowest = view.slots[tail].unwrap();
        assert(view.slots[tail] is Some);
        assert(view.slots.contains(Some(lowest)));
        if less(k, lowest) {
            lemma_enqueue(view.waiting, k);
            assert forall|i: int, j: int|
                0 <= i < after.waiting.len() && 0 <= j < after.slots.len() && (
                #[trigger] after.slots[j]) is Some implies less(
                #[trigger] after.waiting[i],
                after.slots[j].unwrap(),
            ) by {
                if after.waiting[i] == k {
                    if j < tail {
                        assert(less(lowest, view.slots[j].unwrap()));
                    }
                } else {
                    let w = choose|w: int|
                        0 <= w < view.waiting.len() && view.waiting[w] == after.waiting[i];
                    assert(less(view.waiting[w], view.slots[j].unwrap()));
                }
            }
        } else {
            let freed = view.slots.update(tail, None);
            assert(freed[tail] is None);
            assert(!full(freed));
            assert(descending(freed)) by {
                assert forall|i: int, j: int|
                    0 <= i < j < freed.len() && (#[trigger] freed[i]) is Some && (
                    #[trigger] freed[j]) is Some implies less(
                    freed[j].unwrap(),
                    freed[i].unwrap(),
                ) by {
                    assert(view.slots[i] is Some && view.slots[j] is Some);
                }
            }
            assert(!freed.contains(Some(k))) by {
                if freed.contains(Some(k)) {
                    let z = choose|z: int| 0 <= z < freed.len() && freed[z] == Some(k);
                    assert(view.slots[z] == Some(k));
                }
            }
            lemma_place(freed, k);
            let (at, hole) = place(freed, k);
            assert(hole == tail) by {
                if hole != tail {
                    assert(view.slots[hole] is Some);
                }
            }
            assert(less(lowest, k));
            assert(full(after.slots)) by {
                assert forall|x: int| 0 <= x < after.slots.len() implies (
                #[trigger] after.slots[x]) is Some by {
                    if x != at {
                        if at < x {
                            assert(freed[x - 1] is Some);
                        }
                    }
                }
            }
            assert forall|i: int, j: int| 0 <= i < j < after.waiting.len() implies less(
                #[trigger] after.waiting[i],
                #[trigger] after.waiting[j],
            ) by {
                if j == view.waiting.len() {
                    assert(less(view.waiting[i], view.slots[tail].unwrap()));
                }
            }
            assert forall|i: int, j: int|
                0 <= i < after.waiting.len() && 0 <= j < after.slots.len() && (
                #[trigger] after.slots[j]) is Some implies less(
                #[trigger] after.waiting[i],
                after.slots[j].unwrap(),
            ) by {
                let key = after.slots[j].unwrap();
                assert(less(lowest, key)) by {
                    if j != at {
                        let from = if at < j {
                            j - 1
                        } else {
                            j
                        };
                        assert(view.slots[from] is Some);
                        assert(freed[from] == view.slots[from]);
                    }
                }
                if i < view.waiting.len() {
                    assert(less(view.waiting[i], view.slots[tail].unwrap()));
                }
            }
        }
    } else {
        assert(view.waiting.len() == 0);
        lemma_place(view.slots, k);
    }
}

/// Taking a key out of rising keys leaves them rising, and adds nothing.
pub proof fn lemma_remove_value<T: Ord>(keys: Seq<T>, k: T)
    requires
        ascending(keys),
    ensures
        ascending(keys.remove_value(k)),
        keys.remove_value(k).len() <= keys.len(),
        forall|i: int|
            0 <= i < keys.remove_value(k).len() ==> keys.contains(
                #[trigger] keys.remove_value(k)[i],
            ),
{
    keys.index_of_first_ensures(k);
    let after = keys.remove_value(k);
    match keys.index_of_first(k) {
        Some(at) => {
            assert forall|i: int| 0 <= i < after.len() implies keys.contains(
                #[trigger] after[i],
            ) by {
                if i < at {
                    assert(after[i] == keys[i]);
                } else {
                    assert(after[i] == keys[i + 1]);
                }
            }
            assert forall|i: int, j: int| 0 <= i < j < after.len() implies less(
                #[trigger] after[i],
                #[trigger] after[j],
            ) by {
                let from_i = if i < at {
                    i
                } else {
                    i + 1
                };
                let from_j = if j < at {
                    j
                } else {
                    j + 1
                };
                assert(after[i] == keys[from_i] && after[j] == keys[from_j]);
            }
        },
        None => {
            assert forall|i: int| 0 <= i < after.len() implies keys.contains(
                #[trigger] after[i],
            ) by {
                assert(after[i] == keys[i]);
            }
        },
    }
}

/// Removing a key leaves the indexer valid.
pub proof fn lemma_remove_valid<T: Ord>(view: IndexerView<T>, k: T)
    requires
        total_order::<T>(),
        view.valid(),
    ensures
        view.remove(k).0.valid(),
{
    let tail = view.slots.len() - 1;
    let after = view.remove(k).0;
    view.slots.index_of_first_ensures(Some(k));
    match view.find(k) {
        Some(at) => {
            if view.waiting.len() > 0 {
                let top = view.waiting.last();
                let freed = view.slots.update(at, None);
                assert forall|x: int| 0 <= x < after.slots.len() implies (
                #[trigger] after.slots[x]) is Some by {
                    if x != tail {
                        let from = if at <= x {
                            x + 1
                        } else {
                            x
                        };
                        assert(view.slots[from] is Some);
                    }
                }
                assert forall|i: int, j: int|
                    0 <= i < j < after.slots.len() && (#[trigger] after.slots[i]) is Some && (
                    #[trigger] after.slots[j]) is Some implies less(
                    after.slots[j].unwrap(),
                    after.slots[i].unwrap(),
                ) by {
                    let from_i = if at <= i {
                        i + 1
                    } else {
                        i
                    };
                    assert(view.slots[from_i] is Some);
                    assert(after.slots[i] == view.slots[from_i]);
                    if j == tail {
                        assert(less(view.waiting[view.waiting.len() - 1], view.slots[from_i].unwrap()));
                    } else {
                        let from_j = if at <= j {
                            j + 1
                        } else {
                            j
                        };
                        assert(view.slots[from_j] is Some);
                        assert(after.slots[j] == view.slots[from_j]);
                    }
                }
                assert forall|i: int, j: int|
                    0 <= i < after.waiting.len() && 0 <= j < after.slots.len() && (
                    #[trigger] after.slots[j]) is Some implies less(
                    #[trigger] after.waiting[i],
                    after.slots[j].unwrap(),
                ) by {
                    assert(after.waiting[i] == view.waiting[i]);
                    if j == tail {
                        assert(less(view.waiting[i], view.waiting[view.waiting.len() - 1]));
                    } else {
                        let from_j = if at <= j {
                            j + 1
                        } else {
                            j
                        };
                        assert(view.slots[from_j] is Some);
                        assert(after.slots[j] == view.slots[from_j]);
                    }
                }
                assert forall|i: int, j: int| 0 <= i < j < after.waiting.len() implies less(
                    #[trigger] after.waiting[i],
                    #[trigger] after.waiting[j],
                ) by {
                    assert(after.waiting[i] == view.waiting[i]);
                    assert(after.waiting[j] == view.waiting[j]);
                }
            } else {
                assert forall|i: int, j: int|
                    0 <= i < j < after.slots.len() && (#[trigger] after.slots[i]) is Some && (
                    #[trigger] after.slots[j]) is Some implies less(
                    after.slots[j].unwrap(),
                    after.slots[i].unwrap(),
                ) by {
                    assert(view.slots[i] is Some && view.slots[j] is Some);
                }
            }
        },
        None => {
            lemma_remove_value(view.waiting, k);
            assert forall|i: int, j: int|
                0 <= i < after.waiting.len() && 0 <= j < after.slots.len() && (
                #[trigger] after.slots[j]) is Some implies less(
                #[trigger] after.waiting[i],
                after.slots[j].unwrap(),
            ) by {
                let w = choose|w: int|
                    0 <= w < view.waiting.len() && view.waiting[w] == after.waiting[i];
                assert(less(view.waiting[w], view.slots[j].unwrap()));
            }
        },
    }
}

} // verus!
