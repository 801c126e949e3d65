use binomial_bounds::BinomialBoundsN;
use binomial_bounds::BoundsError;
use binomial_bounds::MAX_COUNT;
use binomial_bounds::MAX_NUM_SDEV;
use binomial_bounds::SCALE;

#[test]
fn test_cont_classic_lb() {
    let bounds = BinomialBoundsN::new();
    let num_samples = 500 * SCALE;
    let theta = SCALE / 1000;
    let num_sdev = 2 * SCALE;

    let lb = bounds.cont_classic_lb(num_samples, theta, num_sdev);
    let ub = bounds.cont_classic_ub(num_samples, theta, num_sdev);
    println!("bounds: [{},{}]", lb, ub);
}

#[test]
fn test_bounds_bracket_naive_estimate() {
    let bounds = BinomialBoundsN::new();
    // 500 observed samples at theta = 0.001, two standard deviations; the
    // naive estimate is 500 / 0.001 = 500000.
    let lb = bounds.cont_classic_lb(500 * SCALE, 1_000, 2 * SCALE);
    let ub = bounds.cont_classic_ub(500 * SCALE, 1_000, 2 * SCALE);
    assert_eq!(lb, 456_776_707_488);
    assert_eq!(ub, 547_263_946_923);
    let naive = 500_000i128 * SCALE as i128;
    assert!(lb < naive && naive < ub);

    // The same count at theta = 0.5: the interval is far narrower, both
    // absolutely and relative to the 1/theta-scaled center.
    let lb_half = bounds.cont_classic_lb(500 * SCALE, 500_000, 2 * SCALE);
    let ub_half = bounds.cont_classic_ub(500 * SCALE, 500_000, 2 * SCALE);
    assert_eq!(lb_half, 937_754_447);
    assert_eq!(ub_half, 1_066_308_767);
    let naive_half = 1_000i128 * SCALE as i128;
    assert!(lb_half < naive_half && naive_half < ub_half);
    let width = ub - lb;
    let width_half = ub_half - lb_half;
    assert!(width_half * 100 < width);
    assert!(width_half * naive < width * naive_half);
}

#[test]
fn test_zero_count_upper_bound_small_positive() {
    let bounds = BinomialBoundsN::new();
    // No samples at theta = 0.5, one standard deviation: the upper bound
    // is a small positive number (about 2.618 counts) ...
    let ub = bounds.cont_classic_ub(0, 500_000, SCALE);
    assert_eq!(ub, 2_618_033);
    assert!(0 < ub && ub < 10 * SCALE as i128);
    // ... while the lower-bound formula has a negative expression under
    // its square root on these inputs and is rejected.
    let lb = bounds.try_cont_classic_lb(0, 500_000, SCALE);
    assert_eq!(lb, Err(BoundsError::NegativeRadicand));
}

#[test]
fn test_zero_sdev_collapses_to_centers() {
    let bounds = BinomialBoundsN::new();
    // 500 observed samples at theta = 0.5, zero standard deviations: each
    // bound is its continuity-corrected center, (500 -+ 0.5) / 0.5.
    let lb = bounds.cont_classic_lb(500 * SCALE, 500_000, 0);
    let ub = bounds.cont_classic_ub(500 * SCALE, 500_000, 0);
    assert_eq!(lb, 999 * SCALE as i128);
    assert_eq!(ub, 1_001 * SCALE as i128);
    // The centers differ by exactly 1 / theta = 2.
    assert_eq!(ub - lb, 2 * SCALE as i128);
}

#[test]
fn test_full_sampling_pins_bounds() {
    let bounds = BinomialBoundsN::new();
    // theta = 1 means full sampling: the spread vanishes and the bounds
    // are the observed count shifted by the continuity correction alone.
    let lb = bounds.cont_classic_lb(7_500_000, SCALE, 2 * SCALE);
    let ub = bounds.cont_classic_ub(7_500_000, SCALE, 2 * SCALE);
    assert_eq!(lb, 7_000_000);
    assert_eq!(ub, 8_000_000);
}

#[test]
fn test_interval_widens_with_confidence() {
    let bounds = BinomialBoundsN::new();
    let lb_one = bounds.cont_classic_lb(500 * SCALE, 1_000, SCALE);
    let ub_one = bounds.cont_classic_ub(500 * SCALE, 1_000, SCALE);
    let lb_two = bounds.cont_classic_lb(500 * SCALE, 1_000, 2 * SCALE);
    let ub_two = bounds.cont_classic_ub(500 * SCALE, 1_000, 2 * SCALE);
    assert_eq!(lb_one, 477_655_597_023);
    assert_eq!(ub_one, 523_365_746_896);
    assert!(lb_two <= lb_one);
    assert!(ub_one <= ub_two);
}

#[test]
fn test_lower_bound_monotone_up_to_rounding() {
    let bounds = BinomialBoundsN::new();
    // On these inputs the floor roundings of the fixed-point formula make
    // the lower bound tick up by exactly one unit (one millionth of a
    // count) as the confidence level grows: the one-rounding-step slack
    // in the monotonicity law is real.
    let lb_low = bounds.cont_classic_lb(502_124, 287_410, 5_598_965);
    let lb_high = bounds.cont_classic_lb(502_124, 287_410, 6_083_291);
    assert_eq!(lb_low, 0);
    assert_eq!(lb_high, 1);
    assert!(lb_high <= lb_low + 1);
}

#[test]
fn test_upper_at_least_lower() {
    let bounds = BinomialBoundsN::new();
    let cases: [(u64, u64, u64); 4] = [
        (500 * SCALE, 1_000, 2 * SCALE),
        (500 * SCALE, 500_000, SCALE),
        (SCALE, SCALE, 0),
        (123_456_789, 250_000, 3 * SCALE),
    ];
    for &(c, t, k) in cases.iter() {
        let lb = bounds.cont_classic_lb(c, t, k);
        let ub = bounds.cont_classic_ub(c, t, k);
        assert!(lb <= ub);
    }
}

#[test]
fn test_bounds_reproducible() {
    let bounds = BinomialBoundsN::new();
    let lb_first = bounds.cont_classic_lb(500 * SCALE, 1_000, 2 * SCALE);
    let lb_second = bounds.cont_classic_lb(500 * SCALE, 1_000, 2 * SCALE);
    let ub_first = bounds.cont_classic_ub(500 * SCALE, 1_000, 2 * SCALE);
    let ub_second = bounds.cont_classic_ub(500 * SCALE, 1_000, 2 * SCALE);
    assert_eq!(lb_first, lb_second);
    assert_eq!(ub_first, ub_second);
}

#[test]
fn test_invalid_arguments_rejected() {
    let bounds = BinomialBoundsN::new();
    // theta = 0 would mean dividing by zero and is rejected, not computed.
    assert_eq!(bounds.try_cont_classic_lb(SCALE, 0, SCALE), Err(BoundsError::InvalidArgument));
    assert_eq!(bounds.try_cont_classic_ub(SCALE, 0, SCALE), Err(BoundsError::InvalidArgument));
    // theta beyond 1 is no probability.
    assert_eq!(
        bounds.try_cont_classic_lb(SCALE, SCALE + 1, SCALE),
        Err(BoundsError::InvalidArgument)
    );
    // Arguments beyond the supported fixed-point range.
    assert_eq!(
        bounds.try_cont_classic_lb(MAX_COUNT + 1, 500_000, SCALE),
        Err(BoundsError::InvalidArgument)
    );
    assert_eq!(
        bounds.try_cont_classic_ub(SCALE, 500_000, MAX_NUM_SDEV + 1),
        Err(BoundsError::InvalidArgument)
    );
    // In-range arguments are accepted.
    assert_eq!(bounds.try_cont_classic_lb(SCALE, SCALE, 0), Ok(500_000));
    assert_eq!(bounds.try_cont_classic_ub(SCALE, SCALE, 0), Ok(1_500_000));
}
