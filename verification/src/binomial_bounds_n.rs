//! Error-bound estimation for binomial sampling: given a sample count, the
//! sampling probability theta, and a number of standard deviations, compute
//! lower and upper bounds on the true population count with a
//! continuity-corrected normal approximation.
//!
//! Counts, theta and the standard-deviation level are fixed-point values in
//! units of `SCALE` (so `theta == SCALE` means full sampling and a count of
//! one is `SCALE`).  The tail-probability table is kept at the finer
//! `TAIL_SCALE` so that its entries carry nineteen decimal digits.

use vstd::prelude::*;
use crate::arith::isqrt;
use crate::arith::lemma_div_of_negated;
use crate::arith::spec_isqrt;
use vstd::arithmetic::div_mod::lemma_div_is_ordered;
use vstd::arithmetic::div_mod::lemma_div_is_ordered_by_denominator;
use vstd::arithmetic::div_mod::lemma_div_nonincreasing;
use vstd::arithmetic::div_mod::lemma_div_pos_is_pos;

verus! {

/// Fixed-point unit for counts, theta and the standard-deviation level.
pub const SCALE: u64 = 1_000_000;

/// Half of `SCALE`: the continuity correction of one half, in scale units.
pub const HALF_SCALE: u64 = 500_000;

/// Largest supported count, in scale units (one billion whole counts).
pub const MAX_COUNT: u64 = 1_000_000_000_000_000;

/// Largest supported standard-deviation level, in scale units (ten sigma).
pub const MAX_NUM_SDEV: u64 = 10_000_000;

/// Fixed-point unit for the tail-probability table.
pub const TAIL_SCALE: u64 = 10_000_000_000_000_000_000;

/// Upper tail mass of the standard normal beyond 0 standard deviations,
/// in units of `TAIL_SCALE`: exactly one half.
pub const DELTA_0_SDEV: u64 = 5_000_000_000_000_000_000;

/// Upper tail mass beyond 1 standard deviation, in units of `TAIL_SCALE`.
pub const DELTA_1_SDEV: u64 = 1_586_553_191_586_026_479;

/// Upper tail mass beyond 2 standard deviations, in units of `TAIL_SCALE`.
pub const DELTA_2_SDEV: u64 = 227_502_618_904_135_701;

/// Upper tail mass beyond 3 standard deviations, in units of `TAIL_SCALE`.
pub const DELTA_3_SDEV: u64 = 13_498_126_861_731_796;

/// How a call can be rejected; the estimator never returns a silently
/// wrong number.
#[derive(Clone, Copy, Debug, PartialEq, Eq, Structural)]
pub enum BoundsError {
    /// The tail-probability table has no entry for the requested level.
    UnsupportedLevel,
    /// Theta outside (0, 1], or a count or standard-deviation level beyond
    /// the supported fixed-point range.
    InvalidArgument,
    /// The expression under the square root of the lower bound is
    /// negative, so the formula has no real value for these inputs.
    NegativeRadicand,
}

/// The continuity-corrected estimate of the population count: the observed
/// count, shifted down by the correction of one half, rescaled by theta.
/// All arguments and the result are in scale units.
pub open spec fn nhat_lower(c: int, t: int) -> int {
    ((2 * c - SCALE) * (SCALE as int)) / (2 * t)
}

/// The continuity-corrected estimate with the correction of one half added
/// instead of subtracted.
pub open spec fn nhat_upper(c: int, t: int) -> int {
    ((2 * c + SCALE) * (SCALE as int)) / (2 * t)
}

/// The square of the spread factor `numStdDev * sqrt((1 - theta) / theta)`,
/// in scale units; it captures how sampling variance grows as theta
/// shrinks.
pub open spec fn spread_sq(t: int, k: int) -> int {
    (k * k * (SCALE - t)) / ((SCALE as int) * t)
}

/// Numerator (before division by theta) of the scaled expression under the
/// square root of the lower bound's half-width.
pub open spec fn radicand_num_lower(c: int, t: int, k: int) -> int {
    (k * k * (SCALE - t)) / (SCALE as int) + 4 * SCALE * c - 2 * (SCALE as int) * SCALE
}

/// Numerator of the scaled expression under the square root of the upper
/// bound's half-width; never negative for supported arguments.
pub open spec fn radicand_num_upper(c: int, t: int, k: int) -> int {
    (k * k * (SCALE - t)) / (SCALE as int) + 4 * SCALE * c + 2 * (SCALE as int) * SCALE
}

/// The lower-bound formula has a real value exactly when the expression
/// under its square root is non-negative.
pub open spec fn lower_defined(c: int, t: int, k: int) -> bool {
    radicand_num_lower(c, t, k) >= 0
}

/// The scaled expression under the square root of the lower bound.
pub open spec fn radicand_lower(c: int, t: int, k: int) -> int {
    radicand_num_lower(c, t, k) / t
}

/// The scaled expression under the square root of the upper bound.
pub open spec fn radicand_upper(c: int, t: int, k: int) -> int {
    radicand_num_upper(c, t, k) / t
}

/// Half-width `0.5 * b * sqrt(b*b + 4*nHat)` of the lower bound's
/// interval, in scale units.
pub open spec fn half_width_lower(c: int, t: int, k: int) -> int {
    spec_isqrt(spread_sq(t, k) * radicand_lower(c, t, k)) / 2
}

/// Half-width of the upper bound's interval, in scale units.
pub open spec fn half_width_upper(c: int, t: int, k: int) -> int {
    spec_isqrt(spread_sq(t, k) * radicand_upper(c, t, k)) / 2
}

/// The classic lower bound with continuity correction: the recentered
/// estimate `nHat + 0.5 * b * b` minus the half-width.
pub open spec fn cont_classic_lb_spec(c: int, t: int, k: int) -> int {
    nhat_lower(c, t) + spread_sq(t, k) / 2 - half_width_lower(c, t, k)
}

/// The classic upper bound with continuity correction: the recentered
/// estimate plus the half-width.
pub open spec fn cont_classic_ub_spec(c: int, t: int, k: int) -> int {
    nhat_upper(c, t) + spread_sq(t, k) / 2 + half_width_upper(c, t, k)
}

/// Estimator of error bounds for binomial sampling, carrying the
/// standard-normal tail-probability table.
pub struct BinomialBoundsN {
    /// Upper tail mass of the standard normal beyond 0, 1, 2 and 3
    /// standard deviations, in units of `TAIL_SCALE`.
    pub delta_of_num_sdev: Vec<u64>,
}

impl BinomialBoundsN {
    /// The table invariant: entries strictly decrease with the level, and
    /// every entry lies in (0, 1/2] of `TAIL_SCALE`.
    pub open spec fn wf(self) -> bool {
        &&& forall|i: int, j: int|
            0 <= i < j < self.delta_of_num_sdev@.len()
                ==> self.delta_of_num_sdev@[i] > self.delta_of_num_sdev@[j]
        &&& forall|i: int|
            0 <= i < self.delta_of_num_sdev@.len()
                ==> 0 < #[trigger] self.delta_of_num_sdev@[i] <= DELTA_0_SDEV
    }

    /// Build the estimator with the four canonical tail probabilities;
    /// construction takes no input and always succeeds.
    pub fn new() -> (r: Self)
        ensures
            r.delta_of_num_sdev@ =~= seq![
                DELTA_0_SDEV,
                DELTA_1_SDEV,
                DELTA_2_SDEV,
                DELTA_3_SDEV,
            ],
            r.delta_of_num_sdev@[0] * 2 == TAIL_SCALE,
            r.wf(),
    {
        let mut delta_of_num_sdev: Vec<u64> = Vec::new();
        delta_of_num_sdev.push(DELTA_0_SDEV);
        delta_of_num_sdev.push(DELTA_1_SDEV);
        delta_of_num_sdev.push(DELTA_2_SDEV);
        delta_of_num_sdev.push(DELTA_3_SDEV);
        BinomialBoundsN { delta_of_num_sdev }
    }

    /// Look up the upper tail probability for an integer number of
    /// standard deviations, in units of `TAIL_SCALE`; a level beyond the
    /// table is rejected rather than extrapolated.
    pub fn tail_probability(&self, num_sdev_level: usize) -> (r: Result<u64, BoundsError>)
        ensures
            num_sdev_level < self.delta_of_num_sdev@.len()
                ==> r == Ok::<u64, BoundsError>(self.delta_of_num_sdev@[num_sdev_level as int]),
            num_sdev_level >= self.delta_of_num_sdev@.len()
                ==> r == Err::<u64, BoundsError>(BoundsError::UnsupportedLevel),
    {
        if num_sdev_level < self.delta_of_num_sdev.len() {
            Ok(self.delta_of_num_sdev[num_sdev_level])
        } else {
            Err(BoundsError::UnsupportedLevel)
        }
    }

    /// The classic lower bound with continuity correction, in scale units.
    /// The result can be negative for very small counts; no clamping is
    /// performed here, the caller's domain logic decides.
    pub fn cont_classic_lb(&self, num_samples: u64, theta: u64, num_sdev: u64) -> (r: i128)
        requires
            1 <= theta <= SCALE,
            num_samples <= MAX_COUNT,
            num_sdev <= MAX_NUM_SDEV,
            lower_defined(num_samples as int, theta as int, num_sdev as int),
        ensures
            r == cont_classic_lb_spec(num_samples as int, theta as int, num_sdev as int),
    {
        let t: u128 = theta as u128;
        let k: u128 = num_sdev as u128;
        proof {
            assert((k as int) * (k as int) <= 100_000_000_000_000int) by (nonlinear_arith)
                requires
                    0 <= k as int <= 10_000_000int,
            ;
        }
        let kk: u128 = k * k;
        proof {
            assert((kk as int) * ((1_000_000 - t) as int) <= 100_000_000_000_000_000_000int)
                by (nonlinear_arith)
                requires
                    0 <= kk as int <= 100_000_000_000_000int,
                    0 <= (1_000_000 - t) as int <= 1_000_000int,
            ;
        }
        let spread_num: u128 = kk * (1_000_000 - t);
        let b2: u128 = spread_num / (1_000_000 * t);
        let a: u128 = spread_num / 1_000_000;
        proof {
            lemma_div_is_ordered_by_denominator(spread_num as int, 1_000_000int, 1_000_000 * t as int);
            lemma_div_is_ordered(spread_num as int, 100_000_000_000_000_000_000int, 1_000_000int);
            assert(b2 <= 100_000_000_000_000);
            assert(a <= 100_000_000_000_000);
        }
        let pos: u128 = a + 4_000_000 * (num_samples as u128);
        let neg: u128 = 2_000_000_000_000;
        proof {
            assert(pos as int - neg as int == radicand_num_lower(
                num_samples as int,
                theta as int,
                num_sdev as int,
            ));
        }
        let rad: u128 = (pos - neg) / t;
        proof {
            lemma_div_nonincreasing((pos - neg) as int, t as int);
            assert(rad <= 4_000_000_100_000_000_000_000);
            assert((b2 as int) * (rad as int) <= 100_000_000_000_000int
                * 4_000_000_100_000_000_000_000int) by (nonlinear_arith)
                requires
                    0 <= b2 as int <= 100_000_000_000_000int,
                    0 <= rad as int <= 4_000_000_100_000_000_000_000int,
            ;
        }
        let prod: u128 = b2 * rad;
        let d: u128 = isqrt(prod) / 2;
        let nhat: i128 = nhat_lower_exec(num_samples, theta);
        nhat + (b2 / 2) as i128 - d as i128
    }

    /// The classic upper bound with continuity correction, in scale units.
    pub fn cont_classic_ub(&self, num_samples: u64, theta: u64, num_sdev: u64) -> (r: i128)
        requires
            1 <= theta <= SCALE,
            num_samples <= MAX_COUNT,
            num_sdev <= MAX_NUM_SDEV,
        ensures
            r == cont_classic_ub_spec(num_samples as int, theta as int, num_sdev as int),
    {
        let t: u128 = theta as u128;
        let k: u128 = num_sdev as u128;
        proof {
            assert((k as int) * (k as int) <= 100_000_000_000_000int) by (nonlinear_arith)
                requires
                    0 <= k as int <= 10_000_000int,
            ;
        }
        let kk: u128 = k * k;
        proof {
            assert((kk as int) * ((1_000_000 - t) as int) <= 100_000_000_000_000_000_000int)
                by (nonlinear_arith)
                requires
                    0 <= kk as int <= 100_000_000_000_000int,
                    0 <= (1_000_000 - t) as int <= 1_000_000int,
            ;
        }
        let spread_num: u128 = kk * (1_000_000 - t);
        let b2: u128 = spread_num / (1_000_000 * t);
        let a: u128 = spread_num / 1_000_000;
        proof {
            lemma_div_is_ordered_by_denominator(spread_num as int, 1_000_000int, 1_000_000 * t as int);
            lemma_div_is_ordered(spread_num as int, 100_000_000_000_000_000_000int, 1_000_000int);
            assert(b2 <= 100_000_000_000_000);
            assert(a <= 100_000_000_000_000);
        }
        let num: u128 = a + 4_000_000 * (num_samples as u128) + 2_000_000_000_000;
        proof {
            assert(num as int == radicand_num_upper(
                num_samples as int,
                theta as int,
                num_sdev as int,
            ));
        }
        let rad: u128 = num / t;
        proof {
            lemma_div_nonincreasing(num as int, t as int);
            assert(rad <= 4_000_002_100_000_000_000_000);
            assert((b2 as int) * (rad as int) <= 100_000_000_000_000int
                * 4_000_002_100_000_000_000_000int) by (nonlinear_arith)
                requires
                    0 <= b2 as int <= 100_000_000_000_000int,
                    0 <= rad as int <= 4_000_002_100_000_000_000_000int,
            ;
        }
        let prod: u128 = b2 * rad;
        let d: u128 = isqrt(prod) / 2;
        let nhat: i128 = nhat_upper_exec(num_samples, theta);
        nhat + (b2 / 2) as i128 + d as i128
    }

    /// The lower bound behind a fail-fast check of every precondition:
    /// out-of-range arguments and inputs on which the formula has no real
    /// value are rejected instead of computed.
    pub fn try_cont_classic_lb(&self, num_samples: u64, theta: u64, num_sdev: u64) -> (r: Result<
        i128,
        BoundsError,
    >)
        ensures
            r is Ok <==> (1 <= theta <= SCALE && num_samples <= MAX_COUNT && num_sdev
                <= MAX_NUM_SDEV && lower_defined(num_samples as int, theta as int, num_sdev as int)),
            r is Ok ==> r->Ok_0 == cont_classic_lb_spec(
                num_samples as int,
                theta as int,
                num_sdev as int,
            ),
            !(1 <= theta <= SCALE && num_samples <= MAX_COUNT && num_sdev <= MAX_NUM_SDEV) ==> r
                == Err::<i128, BoundsError>(BoundsError::InvalidArgument),
            (1 <= theta <= SCALE && num_samples <= MAX_COUNT && num_sdev <= MAX_NUM_SDEV
                && !lower_defined(num_samples as int, theta as int, num_sdev as int)) ==> r == Err::<
                i128,
                BoundsError,
            >(BoundsError::NegativeRadicand),
    {
        if !(1 <= theta && theta <= SCALE && num_samples <= MAX_COUNT && num_sdev <= MAX_NUM_SDEV) {
            return Err(BoundsError::InvalidArgument);
        }
        let t: u128 = theta as u128;
        let k: u128 = num_sdev as u128;
        proof {
            assert((k as int) * (k as int) <= 100_000_000_000_000int) by (nonlinear_arith)
                requires
                    0 <= k as int <= 10_000_000int,
            ;
        }
        let kk: u128 = k * k;
        proof {
            assert((kk as int) * ((1_000_000 - t) as int) <= 100_000_000_000_000_000_000int)
                by (nonlinear_arith)
                requires
                    0 <= kk as int <= 100_000_000_000_000int,
                    0 <= (1_000_000 - t) as int <= 1_000_000int,
            ;
        }
        let spread_num: u128 = kk * (1_000_000 - t);
        let a: u128 = spread_num / 1_000_000;
        proof {
            lemma_div_is_ordered(spread_num as int, 100_000_000_000_000_000_000int, 1_000_000int);
            lemma_div_pos_is_pos(spread_num as int, 1_000_000int);
        }
        let pos: u128 = a + 4_000_000 * (num_samples as u128);
        let neg: u128 = 2_000_000_000_000;
        if pos < neg {
            return Err(BoundsError::NegativeRadicand);
        }
        Ok(self.cont_classic_lb(num_samples, theta, num_sdev))
    }

    /// The upper bound behind a fail-fast check of every precondition.
    pub fn try_cont_classic_ub(&self, num_samples: u64, theta: u64, num_sdev: u64) -> (r: Result<
        i128,
        BoundsError,
    >)
        ensures
            r is Ok <==> (1 <= theta <= SCALE && num_samples <= MAX_COUNT && num_sdev
                <= MAX_NUM_SDEV),
            r is Ok ==> r->Ok_0 == cont_classic_ub_spec(
                num_samples as int,
                theta as int,
                num_sdev as int,
            ),
            r is Err ==> r == Err::<i128, BoundsError>(BoundsError::InvalidArgument),
    {
        if !(1 <= theta && theta <= SCALE && num_samples <= MAX_COUNT && num_sdev <= MAX_NUM_SDEV) {
            return Err(BoundsError::InvalidArgument);
        }
        Ok(self.cont_classic_ub(num_samples, theta, num_sdev))
    }
}

/// The continuity-corrected, rescaled estimate `(observed - 0.5) / theta`
/// in scale units; negative when the observed count is below one half.
fn nhat_lower_exec(num_samples: u64, theta: u64) -> (r: i128)
    requires
        1 <= theta <= SCALE,
        num_samples <= MAX_COUNT,
    ensures
        r == nhat_lower(num_samples as int, theta as int),
        -1_000_000_000_000 <= r <= 2_000_000_000_000_000_000_000,
{
    let d: u128 = 2 * (theta as u128);
    let c2: u128 = 2 * (num_samples as u128);
    if c2 >= 1_000_000 {
        let num: u128 = (c2 - 1_000_000) * 1_000_000;
        proof {
            lemma_div_is_ordered(num as int, 2_000_000_000_000_000_000_000int, d as int);
            lemma_div_is_ordered_by_denominator(num as int, 2int, d as int);
            lemma_div_pos_is_pos(num as int, d as int);
        }
        let q: u128 = num / d;
        q as i128
    } else {
        let num: u128 = (1_000_000 - c2) * 1_000_000;
        proof {
            lemma_div_nonincreasing(num as int, d as int);
            lemma_div_pos_is_pos(num as int, d as int);
            lemma_div_of_negated(num as int, d as int);
        }
        let q: u128 = num / d;
        let rm: u128 = num % d;
        if rm == 0 {
            -(q as i128)
        } else {
            -(q as i128) - 1
        }
    }
}

/// The continuity-corrected, rescaled estimate `(observed + 0.5) / theta`
/// in scale units; never negative.
fn nhat_upper_exec(num_samples: u64, theta: u64) -> (r: i128)
    requires
        1 <= theta <= SCALE,
        num_samples <= MAX_COUNT,
    ensures
        r == nhat_upper(num_samples as int, theta as int),
        0 <= r <= 2_000_000_000_000_000_000_000,
{
    let d: u128 = 2 * (theta as u128);
    let num: u128 = (2 * (num_samples as u128) + 1_000_000) * 1_000_000;
    proof {
        lemma_div_is_ordered(num as int, 4_000_000_000_000_000_000_000int, d as int);
        lemma_div_is_ordered_by_denominator(num as int, 2int, d as int);
        lemma_div_pos_is_pos(num as int, d as int);
    }
    let q: u128 = num / d;
    q as i128
}

} // verus!
