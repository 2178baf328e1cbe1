use driver::flags::FlagVec;

#[test]
fn flags_start_lowered() {
    let flags = FlagVec::with_capacity(20);
    for i in 0..20 {
        assert!(!flags.get(i));
    }
}

#[test]
fn flags_hold_whole_bytes() {
    // nine flags need two bytes, which hold sixteen
    let mut flags = FlagVec::with_capacity(9);
    flags.set(15);
    assert!(flags.get(15));
    let mut exact = FlagVec::with_capacity(8);
    exact.set(7);
    assert!(exact.get(7));
}

#[test]
fn set_raises_one_flag_only() {
    let mut flags = FlagVec::with_capacity(16);
    flags.set(3);
    flags.set(8);
    for i in 0..16 {
        assert_eq!(flags.get(i), i == 3 || i == 8);
    }
    flags.set(3);
    assert!(flags.get(3));
}

#[test]
fn clear_lowers_the_flag_and_tells_what_it_was() {
    let mut flags = FlagVec::with_capacity(16);
    flags.set(9);
    flags.set(10);
    assert!(flags.clear(9));
    assert!(!flags.clear(9));
    assert!(!flags.clear(0));
    assert!(flags.get(10));
    assert!(!flags.get(9));
}
