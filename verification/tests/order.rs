use driver::order::{compare, Rank};

#[test]
fn compare_integers() {
    assert_eq!(compare(&1, &2), Rank::Less);
    assert_eq!(compare(&2, &2), Rank::Equal);
    assert_eq!(compare(&3, &2), Rank::Greater);
    assert_eq!(compare(&-5i64, &0i64), Rank::Less);
}

#[test]
fn compare_is_antisymmetric_on_samples() {
    let samples = [0u8, 1, 7, 200, 255];
    for a in samples {
        for b in samples {
            let there = compare(&a, &b);
            let back = compare(&b, &a);
            match there {
                Rank::Less => assert_eq!(back, Rank::Greater),
                Rank::Equal => assert_eq!(back, Rank::Equal),
                Rank::Greater => assert_eq!(back, Rank::Less),
            }
            assert_eq!(there == Rank::Equal, a == b);
        }
    }
}
