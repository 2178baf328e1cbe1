use driver::probe::{deadline, keeps_probing, survivors};

#[test]
fn deadline_is_timeout_after_now() {
    assert_eq!(deadline(0, 0), 0);
    assert_eq!(deadline(100, 250), 350);
    assert_eq!(deadline(7, 0), 7);
}

#[test]
fn deadline_stops_at_the_last_moment() {
    assert_eq!(deadline(u64::MAX, 1), u64::MAX);
    assert_eq!(deadline(u64::MAX - 5, 5), u64::MAX);
    assert_eq!(deadline(u64::MAX - 5, 6), u64::MAX);
    assert_eq!(deadline(1, u64::MAX), u64::MAX);
}

#[test]
fn candidates_compete_while_too_many_remain_and_time_is_left() {
    assert!(keeps_probing(3, 2, 10, 20));
    assert!(!keeps_probing(2, 2, 10, 20));
    assert!(!keeps_probing(1, 2, 10, 20));
    assert!(!keeps_probing(3, 2, 20, 20));
    assert!(!keeps_probing(3, 2, 21, 20));
    assert!(keeps_probing(1, 0, 19, 20));
    assert!(!keeps_probing(0, 0, 0, 20));
}

#[test]
fn all_candidates_pass() {
    assert_eq!(survivors(&vec![true, true, true], 2), vec![0, 1]);
    assert_eq!(survivors(&vec![true, true, true], 3), vec![0, 1, 2]);
    assert_eq!(survivors(&vec![true, true, true], 5), vec![0, 1, 2]);
    assert_eq!(survivors(&vec![true], 1), vec![0]);
}

#[test]
fn fewer_candidates_pass_than_are_wanted() {
    assert_eq!(survivors(&vec![false, true, false, true, false], 3), vec![1, 3]);
    assert_eq!(survivors(&vec![false, false], 1), Vec::<usize>::new());
}

#[test]
fn the_first_that_passed_are_chosen() {
    assert_eq!(survivors(&vec![false, true, true, false, true], 2), vec![1, 2]);
    assert_eq!(survivors(&vec![true, false, true], 1), vec![0]);
}

#[test]
fn nobody_is_chosen_without_candidates_or_quota() {
    assert_eq!(survivors(&vec![], 4), Vec::<usize>::new());
    assert_eq!(survivors(&vec![true, true], 0), Vec::<usize>::new());
}
