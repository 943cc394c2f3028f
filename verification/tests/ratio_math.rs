use optimacore::ratio::Ratio;

#[test]
fn ratio_one_saves_nothing() {
    let r = Ratio::one();
    assert!(r.is_one());
    assert_eq!(r.saving_ppm(), 0);
}

#[test]
fn savings_are_exact_parts_per_million() {
    let half = Ratio { emitted: 1, total: 2 };
    assert_eq!(half.saving_ppm(), 500_000);
    let third = Ratio { emitted: 2, total: 3 };
    assert_eq!(third.saving_ppm(), 333_333);
    let full = Ratio { emitted: 7, total: 7 };
    assert_eq!(full.saving_ppm(), 0);
    assert!(!half.is_one());
}
