use binomial_bounds::BinomialBoundsN;
use binomial_bounds::BoundsError;
use binomial_bounds::TAIL_SCALE;

#[test]
fn test_new_table_values() {
    let bounds = BinomialBoundsN::new();
    assert_eq!(
        bounds.delta_of_num_sdev,
        vec![
            5_000_000_000_000_000_000u64,
            1_586_553_191_586_026_479u64,
            227_502_618_904_135_701u64,
            13_498_126_861_731_796u64,
        ]
    );
}

#[test]
fn test_tail_probability_levels() {
    let bounds = BinomialBoundsN::new();
    assert_eq!(bounds.tail_probability(0), Ok(5_000_000_000_000_000_000u64));
    assert_eq!(bounds.tail_probability(1), Ok(1_586_553_191_586_026_479u64));
    assert_eq!(bounds.tail_probability(2), Ok(227_502_618_904_135_701u64));
    assert_eq!(bounds.tail_probability(3), Ok(13_498_126_861_731_796u64));
}

#[test]
fn test_tail_probability_unsupported_level() {
    let bounds = BinomialBoundsN::new();
    assert_eq!(bounds.tail_probability(4), Err(BoundsError::UnsupportedLevel));
    assert_eq!(bounds.tail_probability(100), Err(BoundsError::UnsupportedLevel));
}

#[test]
fn test_table_invariant() {
    let bounds = BinomialBoundsN::new();
    let table = &bounds.delta_of_num_sdev;
    assert_eq!(table[0] * 2, TAIL_SCALE);
    for i in 1..table.len() {
        assert!(table[i] < table[i - 1]);
    }
    for &v in table.iter() {
        assert!(0 < v && v <= TAIL_SCALE / 2);
    }
}
