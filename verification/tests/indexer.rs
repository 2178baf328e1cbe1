use driver::Indexer;

fn pinned(indexer: &Indexer<i32>, capacity: usize) -> Vec<Option<i32>> {
    (0..capacity).map(|i| *indexer.get(i)).collect()
}

fn vec_modified(indexer: &Indexer<i32>, capacity: usize) -> Vec<bool> {
    (0..capacity).map(|i| indexer.is_modified(i)).collect()
}

fn vec_waiting(indexer: &Indexer<i32>) -> Vec<i32> {
    let mut x = indexer.waiting().clone();
    x.sort();
    x
}

#[test]
fn test() {
    let mut indexer = Indexer::<i32>::new(5);
    assert_eq!(pinned(&indexer, 5), vec![None, None, None, None, None]);
    assert_eq!(indexer.len(), 0);
    assert_eq!(indexer.add(6), Some(0));
    assert_eq!(pinned(&indexer, 5), vec![Some(6), None, None, None, None]);
    assert_eq!(
        vec_modified(&indexer, 5),
        vec![false, false, false, false, false]
    );
    assert_eq!(indexer.len(), 1);
    assert!(!indexer.is_full());
    assert_eq!(indexer.add(3), Some(1));
    assert_eq!(indexer.add(2), Some(2));
    assert_eq!(indexer.add(7), Some(0));
    assert_eq!(indexer.add(4), Some(2));
    assert_eq!(
        pinned(&indexer, 5),
        vec![Some(7), Some(6), Some(4), Some(3), Some(2)]
    );
    assert_eq!(
        vec_modified(&indexer, 5),
        vec![false, true, false, true, true]
    );
    assert_eq!(indexer.len(), 5);
    assert!(indexer.is_full());
    indexer.remove(&7);
    indexer.remove(&3);
    assert_eq!(
        pinned(&indexer, 5),
        vec![None, Some(6), Some(4), None, Some(2)]
    );
    assert_eq!(
        vec_modified(&indexer, 5),
        vec![false, true, false, false, true]
    );
    indexer.add(5);
    assert_eq!(
        pinned(&indexer, 5),
        vec![None, Some(6), Some(5), Some(4), Some(2)]
    );
    assert_eq!(
        vec_modified(&indexer, 5),
        vec![false, true, false, true, true]
    );
    indexer.add(1);
    assert_eq!(
        pinned(&indexer, 5),
        vec![Some(6), Some(5), Some(4), Some(2), Some(1)]
    );
    assert_eq!(
        vec_modified(&indexer, 5),
        vec![true, true, true, true, false]
    );
    assert!(indexer.update(0));
    assert!(indexer.update(1));
    assert!(indexer.update(3));
    assert!(!indexer.update(3));
    assert_eq!(
        vec_modified(&indexer, 5),
        vec![false, false, true, false, false]
    );
    assert_eq!(indexer.add(0), None);
    assert_eq!(
        pinned(&indexer, 5),
        vec![Some(6), Some(5), Some(4), Some(2), Some(1)]
    );
    assert_eq!(vec_waiting(&indexer), vec![0]);
    assert_eq!(
        vec_modified(&indexer, 5),
        vec![false, false, true, false, false]
    );
    assert_eq!(indexer.add(3), Some(3));
    assert_eq!(
        pinned(&indexer, 5),
        vec![Some(6), Some(5), Some(4), Some(3), Some(2)]
    );
    assert_eq!(vec_waiting(&indexer), vec![0, 1]);
    assert_eq!(
        vec_modified(&indexer, 5),
        vec![false, false, true, false, true]
    );
    indexer.remove(&5);
    assert_eq!(
        pinned(&indexer, 5),
        vec![Some(6), Some(4), Some(3), Some(2), Some(1)]
    );
    assert_eq!(vec_waiting(&indexer), vec![0]);
    assert_eq!(
        vec_modified(&indexer, 5),
        vec![false, true, true, true, false]
    );
    assert_eq!(indexer.find(&7), None);
    assert_eq!(indexer.find(&6), Some(0));
    assert_eq!(indexer.find(&4), Some(1));
    assert_eq!(indexer.find(&3), Some(2));
    assert_eq!(indexer.find(&2), Some(3));
    assert_eq!(indexer.find(&1), Some(4));
    assert_eq!(indexer.find(&0), None);
}

fn filled(keys: &[i32], capacity: usize) -> Indexer<i32> {
    let mut indexer = Indexer::<i32>::new(capacity);
    for k in keys {
        indexer.add(*k);
    }
    indexer
}

fn descends(indexer: &Indexer<i32>, capacity: usize) -> bool {
    let keys: Vec<i32> = pinned(indexer, capacity).into_iter().flatten().collect();
    keys.windows(2).all(|w| w[0] > w[1])
}

#[test]
fn new_indexer_is_empty() {
    let indexer = Indexer::<i32>::new(2);
    assert_eq!(pinned(&indexer, 2), vec![None, None]);
    assert_eq!(vec_modified(&indexer, 2), vec![false, false]);
    assert_eq!(indexer.len(), 0);
    assert!(!indexer.is_full());
    assert!(indexer.waiting().is_empty());
}

#[test]
fn add_to_empty_takes_slot_zero() {
    let mut indexer = Indexer::<i32>::new(4);
    assert_eq!(indexer.add(10), Some(0));
    assert_eq!(pinned(&indexer, 4), vec![Some(10), None, None, None]);
    assert_eq!(indexer.len(), 1);
}

#[test]
fn add_lower_key_goes_behind() {
    let mut indexer = filled(&[10], 4);
    assert_eq!(indexer.add(5), Some(1));
    assert_eq!(pinned(&indexer, 4), vec![Some(10), Some(5), None, None]);
    assert_eq!(vec_modified(&indexer, 4), vec![false, false, false, false]);
}

#[test]
fn add_higher_key_moves_the_others_toward_the_tail() {
    let mut indexer = filled(&[10, 5], 4);
    assert_eq!(indexer.add(20), Some(0));
    assert_eq!(pinned(&indexer, 4), vec![Some(20), Some(10), Some(5), None]);
    assert_eq!(vec_modified(&indexer, 4), vec![false, true, true, false]);
    assert_eq!(indexer.len(), 3);
}

#[test]
fn add_uses_the_nearest_hole_behind() {
    // [9, 7, _, 3, _] and a key between 9 and 7
    let mut indexer = filled(&[9, 7, 5, 3], 5);
    assert_eq!(indexer.remove(&5), Some(2));
    assert_eq!(indexer.add(8), Some(1));
    assert_eq!(
        pinned(&indexer, 5),
        vec![Some(9), Some(8), Some(7), Some(3), None]
    );
    assert_eq!(
        vec_modified(&indexer, 5),
        vec![false, false, true, false, false]
    );
}

#[test]
fn add_moves_keys_toward_the_head_when_no_hole_is_behind() {
    // [_, 9, 7, 5] and the lowest key of all
    let mut indexer = filled(&[10, 9, 7, 5], 4);
    assert_eq!(indexer.remove(&10), Some(0));
    assert_eq!(indexer.add(1), Some(3));
    assert_eq!(pinned(&indexer, 4), vec![Some(9), Some(7), Some(5), Some(1)]);
    assert_eq!(vec_modified(&indexer, 4), vec![true, true, true, false]);
    assert!(indexer.is_full());
}

#[test]
fn add_below_all_on_full_indexer_waits() {
    let mut indexer = filled(&[3, 2], 2);
    assert_eq!(indexer.add(1), None);
    assert_eq!(pinned(&indexer, 2), vec![Some(3), Some(2)]);
    assert_eq!(vec_waiting(&indexer), vec![1]);
    assert_eq!(indexer.len(), 2);
    assert_eq!(indexer.find(&1), None);
}

#[test]
fn add_above_lowest_on_full_indexer_sends_the_lowest_waiting() {
    let mut indexer = filled(&[3, 2], 2);
    assert_eq!(indexer.add(5), Some(0));
    assert_eq!(pinned(&indexer, 2), vec![Some(5), Some(3)]);
    assert_eq!(vec_waiting(&indexer), vec![2]);
    assert_eq!(vec_modified(&indexer, 2), vec![false, true]);
    assert_eq!(indexer.len(), 2);
    assert!(indexer.is_full());
}

#[test]
fn waiting_keys_are_kept_in_rising_order() {
    let mut indexer = filled(&[9, 8], 2);
    assert_eq!(indexer.add(3), None);
    assert_eq!(indexer.add(1), None);
    assert_eq!(indexer.add(2), None);
    assert_eq!(indexer.waiting().clone(), vec![1, 2, 3]);
}

#[test]
fn remove_without_waiting_keys_empties_the_slot() {
    let mut indexer = filled(&[9, 8, 7], 3);
    assert_eq!(indexer.remove(&8), Some(1));
    assert_eq!(pinned(&indexer, 3), vec![Some(9), None, Some(7)]);
    assert_eq!(indexer.len(), 2);
    assert!(!indexer.is_modified(1));
}

#[test]
fn remove_promotes_the_highest_waiting_key() {
    let mut indexer = filled(&[9, 8, 7], 3);
    indexer.add(2);
    indexer.add(4);
    indexer.add(3);
    assert_eq!(vec_waiting(&indexer), vec![2, 3, 4]);
    assert_eq!(indexer.remove(&9), None);
    assert_eq!(pinned(&indexer, 3), vec![Some(8), Some(7), Some(4)]);
    assert_eq!(vec_waiting(&indexer), vec![2, 3]);
    assert_eq!(indexer.len(), 3);
    assert_eq!(vec_modified(&indexer, 3), vec![true, true, false]);
}

#[test]
fn remove_of_the_tail_key_puts_the_promoted_key_there() {
    let mut indexer = filled(&[9, 8, 7, 1], 3);
    assert_eq!(indexer.remove(&7), None);
    assert_eq!(pinned(&indexer, 3), vec![Some(9), Some(8), Some(1)]);
    assert_eq!(vec_modified(&indexer, 3), vec![false, false, false]);
    assert!(indexer.waiting().is_empty());
}

#[test]
fn remove_of_a_waiting_key_leaves_the_slots() {
    let mut indexer = filled(&[9, 8, 3, 1, 2], 2);
    assert_eq!(indexer.remove(&2), None);
    assert_eq!(pinned(&indexer, 2), vec![Some(9), Some(8)]);
    assert_eq!(vec_waiting(&indexer), vec![1, 3]);
    assert_eq!(indexer.len(), 2);
}

#[test]
fn remove_of_an_unknown_key_changes_nothing() {
    let mut indexer = filled(&[9, 8, 3], 2);
    assert_eq!(indexer.remove(&100), None);
    assert_eq!(indexer.remove(&5), None);
    assert_eq!(indexer.remove(&0), None);
    assert_eq!(pinned(&indexer, 2), vec![Some(9), Some(8)]);
    assert_eq!(vec_waiting(&indexer), vec![3]);
    let mut empty = Indexer::<i32>::new(2);
    assert_eq!(empty.remove(&1), None);
    assert_eq!(empty.len(), 0);
}

#[test]
fn find_names_the_slot_of_each_pinned_key_and_no_other() {
    let mut indexer = filled(&[6, 3, 2, 7, 4], 5);
    indexer.remove(&3);
    let slots = pinned(&indexer, 5);
    for k in -1..10 {
        match indexer.find(&k) {
            Some(i) => assert_eq!(slots[i], Some(k)),
            None => assert!(!slots.contains(&Some(k))),
        }
    }
}

#[test]
fn update_reports_a_modification_once() {
    let mut indexer = filled(&[5, 9], 3);
    assert!(indexer.is_modified(1));
    assert!(indexer.update(1));
    assert!(!indexer.update(1));
    assert!(!indexer.update(1));
    indexer.add(10);
    assert!(indexer.update(1));
    assert!(!indexer.update(1));
    assert!(!indexer.update(0));
}

#[test]
fn update_beyond_the_slots_is_false() {
    let mut indexer = filled(&[5, 9], 3);
    assert!(!indexer.update(3));
    assert!(!indexer.update(7));
    assert!(!indexer.update(1000));
    assert!(!indexer.is_modified(3));
    assert!(indexer.is_modified(1));
}

#[test]
fn slots_stay_descending_through_many_changes() {
    let mut indexer = Indexer::<i32>::new(4);
    let adds = [50, 10, 30, 70, 20, 60, 40, 80, 5];
    for (n, k) in adds.iter().enumerate() {
        indexer.add(*k);
        assert!(descends(&indexer, 4));
        if n % 3 == 2 {
            indexer.remove(&adds[n - 1]);
            assert!(descends(&indexer, 4));
        }
    }
    let count = pinned(&indexer, 4).iter().filter(|s| s.is_some()).count();
    assert_eq!(indexer.len(), count);
    for w in indexer.waiting() {
        for p in pinned(&indexer, 4).into_iter().flatten() {
            assert!(*w < p);
        }
    }
}

#[test]
fn len_counts_only_pinned_keys() {
    let mut indexer = filled(&[4, 3, 2, 1, 0], 3);
    assert_eq!(indexer.len(), 3);
    assert_eq!(vec_waiting(&indexer), vec![0, 1]);
    indexer.remove(&0);
    assert_eq!(indexer.len(), 3);
    indexer.remove(&4);
    assert_eq!(indexer.len(), 3);
    indexer.remove(&3);
    assert_eq!(indexer.len(), 2);
    assert_eq!(pinned(&indexer, 3), vec![None, Some(2), Some(1)]);
}

#[test]
fn tuple_keys_are_ranked_by_their_first_part_first() {
    let mut indexer = Indexer::<(u8, u8)>::new(2);
    assert_eq!(indexer.add((1, 9)), Some(0));
    assert_eq!(indexer.add((2, 0)), Some(0));
    assert_eq!(indexer.add((1, 10)), Some(1));
    assert_eq!(*indexer.get(0), Some((2, 0)));
    assert_eq!(*indexer.get(1), Some((1, 10)));
    assert_eq!(indexer.waiting().clone(), vec![(1, 9)]);
}

#[test]
fn holds_tells_pinned_and_waiting_keys_from_others() {
    let indexer = filled(&[9, 8, 3, 1], 2);
    assert!(indexer.holds(&9));
    assert!(indexer.holds(&8));
    assert!(indexer.holds(&3));
    assert!(indexer.holds(&1));
    assert!(!indexer.holds(&2));
    assert!(!indexer.holds(&10));
    assert_eq!(indexer.find(&3), None);
}
