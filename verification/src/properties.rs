//! Laws of the bounds estimator, proved once over the spec-level formulas
//! that the executable functions are pinned to: the upper bound dominates
//! the lower, the interval widens with the confidence level (exactly on
//! the upper side, up to one rounding unit on the lower side), a
//! zero-standard-deviation request collapses both bounds to the
//! continuity-corrected centers, full sampling pins the bounds to the
//! observed count shifted by the correction alone, and identical inputs
//! give identical results.

use vstd::prelude::*;
use crate::arith::is_isqrt;
use crate::arith::lemma_div_add_bounds;
use crate::arith::lemma_isqrt_exists;
use crate::arith::lemma_isqrt_monotone;
use crate::arith::lemma_isqrt_unique;
use crate::arith::spec_isqrt;
use crate::binomial_bounds_n::HALF_SCALE;
use crate::binomial_bounds_n::SCALE;
use crate::binomial_bounds_n::cont_classic_lb_spec;
use crate::binomial_bounds_n::cont_classic_ub_spec;
use crate::binomial_bounds_n::half_width_lower;
use crate::binomial_bounds_n::half_width_upper;
use crate::binomial_bounds_n::lower_defined;
use crate::binomial_bounds_n::nhat_lower;
use crate::binomial_bounds_n::nhat_upper;
use crate::binomial_bounds_n::radicand_lower;
use crate::binomial_bounds_n::radicand_num_lower;
use crate::binomial_bounds_n::radicand_num_upper;
use crate::binomial_bounds_n::radicand_upper;
use crate::binomial_bounds_n::spread_sq;
use vstd::arithmetic::div_mod::lemma_div_by_multiple;
use vstd::arithmetic::div_mod::lemma_div_denominator;
use vstd::arithmetic::div_mod::lemma_div_is_ordered;
use vstd::arithmetic::div_mod::lemma_div_multiples_vanish_quotient;
use vstd::arithmetic::div_mod::lemma_div_plus_one;
use vstd::arithmetic::div_mod::lemma_div_pos_is_pos;
use vstd::arithmetic::div_mod::lemma_fundamental_div_mod;
use vstd::arithmetic::div_mod::lemma_hoist_over_denominator;
use vstd::arithmetic::div_mod::lemma_mod_bound;
use vstd::arithmetic::mul::lemma_mul_is_commutative;
use vstd::arithmetic::mul::lemma_mul_nonnegative;

verus! {

/// The squared spread factor is never negative.
proof fn lemma_spread_sq_nonneg(t: int, k: int)
    requires
        1 <= t <= SCALE,
        0 <= k,
    ensures
        0 <= spread_sq(t, k),
{
    let sc = SCALE as int;
    assert(0 <= k * k * (sc - t)) by (nonlinear_arith)
        requires
            0 <= k,
            0 <= sc - t,
    ;
    lemma_div_pos_is_pos(k * k * (sc - t), sc * t);
}

/// The expression under the upper bound's square root is never negative.
proof fn lemma_radicand_upper_nonneg(c: int, t: int, k: int)
    requires
        1 <= t <= SCALE,
        0 <= c,
        0 <= k,
    ensures
        0 <= radicand_num_upper(c, t, k),
        0 <= radicand_upper(c, t, k),
{
    let sc = SCALE as int;
    assert(0 <= k * k * (sc - t)) by (nonlinear_arith)
        requires
            0 <= k,
            0 <= sc - t,
    ;
    lemma_div_pos_is_pos(k * k * (sc - t), sc);
    lemma_div_pos_is_pos(radicand_num_upper(c, t, k), t);
}

/// The lower bound's half-width is never negative where it is defined.
proof fn lemma_half_width_lower_nonneg(c: int, t: int, k: int)
    requires
        1 <= t <= SCALE,
        0 <= c,
        0 <= k,
        lower_defined(c, t, k),
    ensures
        0 <= half_width_lower(c, t, k),
{
    lemma_spread_sq_nonneg(t, k);
    lemma_div_pos_is_pos(radicand_num_lower(c, t, k), t);
    lemma_mul_nonnegative(spread_sq(t, k), radicand_lower(c, t, k));
    lemma_isqrt_exists(spread_sq(t, k) * radicand_lower(c, t, k));
    lemma_div_pos_is_pos(spec_isqrt(spread_sq(t, k) * radicand_lower(c, t, k)), 2);
}

/// The upper bound's half-width is never negative.
proof fn lemma_half_width_upper_nonneg(c: int, t: int, k: int)
    requires
        1 <= t <= SCALE,
        0 <= c,
        0 <= k,
    ensures
        0 <= half_width_upper(c, t, k),
{
    lemma_spread_sq_nonneg(t, k);
    lemma_radicand_upper_nonneg(c, t, k);
    lemma_mul_nonnegative(spread_sq(t, k), radicand_upper(c, t, k));
    lemma_isqrt_exists(spread_sq(t, k) * radicand_upper(c, t, k));
    lemma_div_pos_is_pos(spec_isqrt(spread_sq(t, k) * radicand_upper(c, t, k)), 2);
}

/// Wherever the lower bound is defined, the upper bound dominates it.
pub proof fn lemma_upper_at_least_lower(c: int, t: int, k: int)
    requires
        1 <= t <= SCALE,
        0 <= c,
        0 <= k,
        lower_defined(c, t, k),
    ensures
        cont_classic_lb_spec(c, t, k) <= cont_classic_ub_spec(c, t, k),
{
    let sc = SCALE as int;
    lemma_div_is_ordered((2 * c - sc) * sc, (2 * c + sc) * sc, 2 * t);
    lemma_half_width_lower_nonneg(c, t, k);
    lemma_half_width_upper_nonneg(c, t, k);
}

/// Raising the confidence level never shrinks the upper bound: the
/// interval widens upward with the number of standard deviations.
pub proof fn lemma_upper_bound_monotone_in_sdev(c: int, t: int, k1: int, k2: int)
    requires
        1 <= t <= SCALE,
        0 <= c,
        0 <= k1 <= k2,
    ensures
        cont_classic_ub_spec(c, t, k1) <= cont_classic_ub_spec(c, t, k2),
{
    let sc = SCALE as int;
    assert(k1 * k1 * (sc - t) <= k2 * k2 * (sc - t)) by (nonlinear_arith)
        requires
            0 <= k1 <= k2,
            0 <= sc - t,
    ;
    lemma_div_is_ordered(k1 * k1 * (sc - t), k2 * k2 * (sc - t), sc * t);
    lemma_div_is_ordered(k1 * k1 * (sc - t), k2 * k2 * (sc - t), sc);
    lemma_div_is_ordered(radicand_num_upper(c, t, k1), radicand_num_upper(c, t, k2), t);
    lemma_spread_sq_nonneg(t, k1);
    lemma_radicand_upper_nonneg(c, t, k1);
    assert(spread_sq(t, k1) * radicand_upper(c, t, k1) <= spread_sq(t, k2) * radicand_upper(
        c,
        t,
        k2,
    )) by (nonlinear_arith)
        requires
            0 <= spread_sq(t, k1) <= spread_sq(t, k2),
            0 <= radicand_upper(c, t, k1) <= radicand_upper(c, t, k2),
    ;
    lemma_mul_nonnegative(spread_sq(t, k1), radicand_upper(c, t, k1));
    lemma_isqrt_monotone(
        spread_sq(t, k1) * radicand_upper(c, t, k1),
        spread_sq(t, k2) * radicand_upper(c, t, k2),
    );
    lemma_div_is_ordered(
        spec_isqrt(spread_sq(t, k1) * radicand_upper(c, t, k1)),
        spec_isqrt(spread_sq(t, k2) * radicand_upper(c, t, k2)),
        2,
    );
    lemma_div_is_ordered(spread_sq(t, k1), spread_sq(t, k2), 2);
}

/// Raising the first factor of `x * (x + m)` by some amount raises its
/// floor square root by at least that amount, for non-negative `m`.
proof fn lemma_isqrt_grows_with_factor(x1: int, x2: int, m: int)
    requires
        0 <= x1 <= x2,
        0 <= m,
    ensures
        spec_isqrt(x1 * (x1 + m)) + (x2 - x1) <= spec_isqrt(x2 * (x2 + m)),
{
    lemma_mul_nonnegative(x1, x1 + m);
    lemma_mul_nonnegative(x2, x2 + m);
    lemma_isqrt_exists(x1 * (x1 + m));
    lemma_isqrt_exists(x2 * (x2 + m));
    let u1 = spec_isqrt(x1 * (x1 + m));
    let u2 = spec_isqrt(x2 * (x2 + m));
    assert(2 * u1 <= 2 * x1 + m) by (nonlinear_arith)
        requires
            0 <= u1,
            0 <= x1,
            0 <= m,
            u1 * u1 <= x1 * (x1 + m),
    ;
    assert((u1 + (x2 - x1)) * (u1 + (x2 - x1)) <= x2 * (x2 + m)) by (nonlinear_arith)
        requires
            0 <= u1,
            0 <= x1 <= x2,
            0 <= m,
            u1 * u1 <= x1 * (x1 + m),
            2 * u1 <= 2 * x1 + m,
    ;
    if u2 < u1 + (x2 - x1) {
        assert((u2 + 1) * (u2 + 1) <= (u1 + (x2 - x1)) * (u1 + (x2 - x1))) by (nonlinear_arith)
            requires
                0 <= u2 + 1 <= u1 + (x2 - x1),
        ;
        assert(false);
    }
}

/// For counts of at least one half, raising the confidence level never
/// raises the lower bound by more than one fixed-point unit: the interval
/// widens downward as the number of standard deviations grows, up to a
/// single rounding step of the fixed-point formula.  (The exact
/// inequality, with no rounding step, does not survive the floor
/// divisions.)
pub proof fn lemma_lower_bound_monotone_in_sdev(c: int, t: int, k1: int, k2: int)
    requires
        1 <= t <= SCALE,
        HALF_SCALE <= c,
        0 <= k1 <= k2,
    ensures
        lower_defined(c, t, k1),
        lower_defined(c, t, k2),
        cont_classic_lb_spec(c, t, k2) <= cont_classic_lb_spec(c, t, k1) + 1,
{
    let sc = SCALE as int;
    let y1 = k1 * k1 * (sc - t);
    let y2 = k2 * k2 * (sc - t);
    assert(0 <= y1 && y1 <= y2) by (nonlinear_arith)
        requires
            y1 == k1 * k1 * (sc - t),
            y2 == k2 * k2 * (sc - t),
            0 <= k1 <= k2,
            0 <= sc - t,
    ;
    let a1 = y1 / sc;
    let a2 = y2 / sc;
    lemma_div_pos_is_pos(y1, sc);
    lemma_div_is_ordered(y1, y2, sc);
    let dconst = 4 * sc * c - 2 * sc * sc;
    assert(0 <= dconst) by (nonlinear_arith)
        requires
            dconst == 4 * sc * c - 2 * sc * sc,
            sc == 1_000_000int,
            500_000 <= c,
    ;
    let m = dconst / t;
    lemma_div_pos_is_pos(dconst, t);
    assert(lower_defined(c, t, k1));
    assert(lower_defined(c, t, k2));
    let x1 = spread_sq(t, k1);
    let x2 = spread_sq(t, k2);
    lemma_div_denominator(y1, sc, t);
    lemma_div_denominator(y2, sc, t);
    assert(a1 / t == x1);
    assert(a2 / t == x2);
    lemma_div_is_ordered(y1, y2, sc * t);
    lemma_div_pos_is_pos(y1, sc * t);
    let r1 = radicand_lower(c, t, k1);
    let r2 = radicand_lower(c, t, k2);
    assert(x1 + m <= r1 <= x1 + m + 1) by {
        lemma_div_add_bounds(a1, dconst, t);
    }
    assert(x2 + m <= r2 <= x2 + m + 1) by {
        lemma_div_add_bounds(a2, dconst, t);
    }
    let u1 = spec_isqrt(x1 * (x1 + m));
    let u2 = spec_isqrt(x2 * (x2 + m));
    let q1 = spec_isqrt(x1 * r1);
    let q2 = spec_isqrt(x2 * r2);
    lemma_mul_nonnegative(x1, x1 + m);
    lemma_mul_nonnegative(x2, x2 + m);
    lemma_mul_nonnegative(x1, r1);
    lemma_mul_nonnegative(x2, r2);
    lemma_isqrt_exists(x1 * (x1 + m));
    lemma_isqrt_exists(x2 * (x2 + m));
    lemma_isqrt_exists(x1 * r1);
    lemma_isqrt_exists(x2 * r2);
    // The larger level's root is at least the smaller's plus the spread
    // growth.
    lemma_isqrt_grows_with_factor(x1, x2, m);
    assert(x2 * (x2 + m) <= x2 * r2) by (nonlinear_arith)
        requires
            0 <= x2,
            x2 + m <= r2,
    ;
    lemma_isqrt_monotone(x2 * (x2 + m), x2 * r2);
    assert(u1 + (x2 - x1) <= q2);
    // The smaller level's root exceeds its rounding-free value by at most
    // one.
    assert(x1 * x1 <= x1 * (x1 + m) && x1 * r1 <= x1 * (x1 + m) + x1) by (nonlinear_arith)
        requires
            0 <= x1,
            0 <= m,
            r1 <= x1 + m + 1,
    ;
    assert(is_isqrt(x1 * x1, x1)) by (nonlinear_arith)
        requires
            0 <= x1,
    ;
    lemma_isqrt_unique(x1 * x1, x1, spec_isqrt(x1 * x1));
    lemma_isqrt_monotone(x1 * x1, x1 * (x1 + m));
    assert(x1 <= u1);
    assert(x1 * r1 < (u1 + 2) * (u1 + 2)) by (nonlinear_arith)
        requires
            x1 * r1 <= x1 * (x1 + m) + x1,
            x1 * (x1 + m) < (u1 + 1) * (u1 + 1),
            x1 <= u1,
            0 <= x1,
    ;
    if q1 > u1 + 1 {
        assert((u1 + 2) * (u1 + 2) <= q1 * q1) by (nonlinear_arith)
            requires
                0 <= u1 + 2 <= q1,
        ;
        assert(false);
    }
    // Halving all four quantities loses at most one unit in total.
    lemma_fundamental_div_mod(x1, 2);
    lemma_fundamental_div_mod(x2, 2);
    lemma_fundamental_div_mod(q1, 2);
    lemma_fundamental_div_mod(q2, 2);
    lemma_mod_bound(x1, 2);
    lemma_mod_bound(x2, 2);
    lemma_mod_bound(q1, 2);
    lemma_mod_bound(q2, 2);
}

/// A zero-standard-deviation request collapses each bound to its
/// continuity-corrected center, and the two centers differ by the rescaled
/// correction of one (that is, by `1 / theta`), up to one unit of rounding.
pub proof fn lemma_zero_sdev_collapses(c: int, t: int)
    requires
        1 <= t <= SCALE,
        0 <= c,
        lower_defined(c, t, 0),
    ensures
        cont_classic_lb_spec(c, t, 0) == nhat_lower(c, t),
        cont_classic_ub_spec(c, t, 0) == nhat_upper(c, t),
        (SCALE as int) * SCALE / t <= nhat_upper(c, t) - nhat_lower(c, t),
        nhat_upper(c, t) - nhat_lower(c, t) <= (SCALE as int) * SCALE / t + 1,
{
    let sc = SCALE as int;
    assert(spread_sq(t, 0) == 0) by {
        assert(0 * 0 * (sc - t) == 0);
        lemma_div_pos_is_pos(0, sc * t);
        lemma_div_is_ordered(0 * 0 * (sc - t), 0, sc * t);
    }
    assert(half_width_lower(c, t, 0) == 0 && half_width_upper(c, t, 0) == 0) by {
        assert(is_isqrt(0, 0));
        lemma_isqrt_exists(0);
        lemma_isqrt_unique(0, 0, spec_isqrt(0));
        assert(0 * radicand_lower(c, t, 0) == 0);
        assert(0 * radicand_upper(c, t, 0) == 0);
    }
    let aa = (2 * c - sc) * sc;
    let bb = (2 * c + sc) * sc;
    let dd = 2 * t;
    let q = aa / dd;
    let r = aa % dd;
    let w = r + 2 * sc * sc;
    lemma_fundamental_div_mod(aa, dd);
    lemma_mod_bound(aa, dd);
    assert(dd * q == q * dd) by {
        lemma_mul_is_commutative(dd, q);
    }
    assert(bb == w + q * dd);
    assert(w / dd + q == (w + q * dd) / dd) by {
        lemma_hoist_over_denominator(w, q, dd as nat);
    }
    assert(2 * sc * sc / dd <= w / dd) by {
        lemma_div_is_ordered(2 * sc * sc, w, dd);
    }
    assert(w / dd <= 2 * sc * sc / dd + 1) by {
        lemma_div_is_ordered(w, 2 * sc * sc + dd - 1, dd);
        lemma_div_plus_one(2 * sc * sc - 1, dd);
        lemma_div_is_ordered(2 * sc * sc - 1, 2 * sc * sc, dd);
    }
    assert(sc * sc / t == 2 * sc * sc / dd) by {
        lemma_div_multiples_vanish_quotient(2, sc * sc, t);
        assert(2 * (sc * sc) == 2 * sc * sc);
        assert(2 * t == dd);
    }
}

/// At full sampling the spread term vanishes exactly, and each bound is
/// the observed count shifted by the continuity correction alone.
pub proof fn lemma_full_sampling_pins_bounds(c: int, k: int)
    requires
        HALF_SCALE <= c,
        0 <= k,
    ensures
        lower_defined(c, SCALE as int, k),
        cont_classic_lb_spec(c, SCALE as int, k) == c - HALF_SCALE,
        cont_classic_ub_spec(c, SCALE as int, k) == c + HALF_SCALE,
{
    let sc = SCALE as int;
    assert(k * k * (sc - sc) == 0) by (nonlinear_arith);
    assert(spread_sq(sc, k) == 0) by {
        lemma_div_pos_is_pos(0, sc * sc);
        lemma_div_is_ordered(0, 0, sc * sc);
    }
    assert(radicand_num_lower(c, sc, k) == 4 * sc * c - 2 * sc * sc) by {
        lemma_div_pos_is_pos(0, sc);
        lemma_div_is_ordered(0, 0, sc);
    }
    assert(half_width_lower(c, sc, k) == 0 && half_width_upper(c, sc, k) == 0) by {
        assert(is_isqrt(0, 0));
        lemma_isqrt_exists(0);
        lemma_isqrt_unique(0, 0, spec_isqrt(0));
        assert(0 * radicand_lower(c, sc, k) == 0);
        assert(0 * radicand_upper(c, sc, k) == 0);
    }
    assert(nhat_lower(c, sc) == c - HALF_SCALE) by {
        assert((2 * c - sc) * sc == (c - HALF_SCALE) * (2 * sc));
        lemma_div_by_multiple(c - HALF_SCALE, 2 * sc);
    }
    assert(nhat_upper(c, sc) == c + HALF_SCALE) by {
        assert((2 * c + sc) * sc == (c + HALF_SCALE) * (2 * sc));
        lemma_div_by_multiple(c + HALF_SCALE, 2 * sc);
    }
}

/// Identical inputs give identical results: each bound is a pure function
/// of the observed count, theta and the standard-deviation level, with no
/// hidden state.
pub proof fn lemma_bounds_reproducible(c: int, t: int, k: int, lb1: int, lb2: int, ub1: int, ub2: int)
    requires
        lb1 == cont_classic_lb_spec(c, t, k),
        lb2 == cont_classic_lb_spec(c, t, k),
        ub1 == cont_classic_ub_spec(c, t, k),
        ub2 == cont_classic_ub_spec(c, t, k),
    ensures
        lb1 == lb2,
        ub1 == ub2,
{
}

} // verus!
