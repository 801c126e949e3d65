//! Verified integer arithmetic helpers: the floor square root, and floor
//! division of a negated numerator, each pinned to its mathematical
//! definition over unbounded integers.

use vstd::prelude::*;
use vstd::arithmetic::div_mod::lemma_fundamental_div_mod;
use vstd::arithmetic::div_mod::lemma_fundamental_div_mod_converse;
use vstd::arithmetic::div_mod::lemma_mod_bound;

verus! {

/// The largest argument the executable square root accepts; one less than
/// the square of its initial upper search bound.
pub const ISQRT_INPUT_MAX: u128 = 700_000_000_000_000_000 * 700_000_000_000_000_000 - 1;

/// `r` is the floor square root of `n`: the greatest integer whose square
/// does not exceed `n`.
pub open spec fn is_isqrt(n: int, r: int) -> bool {
    &&& 0 <= r
    &&& r * r <= n
    &&& n < (r + 1) * (r + 1)
}

/// The floor square root of `n`, as a value.  Meaningful for `n >= 0`;
/// `lemma_isqrt_exists` shows that it then satisfies `is_isqrt`.
pub open spec fn spec_isqrt(n: int) -> int {
    choose|r: int| is_isqrt(n, r)
}

/// At most one integer is the floor square root of `n`.
pub proof fn lemma_isqrt_unique(n: int, r1: int, r2: int)
    requires
        is_isqrt(n, r1),
        is_isqrt(n, r2),
    ensures
        r1 == r2,
{
    if r1 < r2 {
        assert((r1 + 1) * (r1 + 1) <= r2 * r2) by (nonlinear_arith)
            requires
                0 <= r1 + 1 <= r2,
        ;
    }
    if r2 < r1 {
        assert((r2 + 1) * (r2 + 1) <= r1 * r1) by (nonlinear_arith)
            requires
                0 <= r2 + 1 <= r1,
        ;
    }
}

/// Every non-negative integer has a floor square root, so `spec_isqrt`
/// denotes it.
pub proof fn lemma_isqrt_exists(n: int)
    requires
        0 <= n,
    ensures
        is_isqrt(n, spec_isqrt(n)),
    decreases n,
{
    if n == 0 {
        assert(is_isqrt(0, 0));
    } else {
        lemma_isqrt_exists(n - 1);
        let r = spec_isqrt(n - 1);
        if (r + 1) * (r + 1) <= n {
            assert((r + 2) * (r + 2) > n) by (nonlinear_arith)
                requires
                    0 <= r,
                    n - 1 < (r + 1) * (r + 1),
            ;
            assert(is_isqrt(n, r + 1));
        } else {
            assert(is_isqrt(n, r));
        }
    }
    assert(exists|r: int| is_isqrt(n, r));
}

/// The floor square root is monotone.
pub proof fn lemma_isqrt_monotone(n1: int, n2: int)
    requires
        0 <= n1 <= n2,
    ensures
        spec_isqrt(n1) <= spec_isqrt(n2),
{
    lemma_isqrt_exists(n1);
    lemma_isqrt_exists(n2);
    let r1 = spec_isqrt(n1);
    let r2 = spec_isqrt(n2);
    if r1 > r2 {
        assert((r2 + 1) * (r2 + 1) <= r1 * r1) by (nonlinear_arith)
            requires
                0 <= r2 + 1 <= r1,
        ;
    }
}

/// Floor division of a negated non-negative numerator by a positive
/// divisor, expressed through the quotient and remainder of the numerator
/// itself.
pub proof fn lemma_div_of_negated(num: int, d: int)
    requires
        0 <= num,
        0 < d,
    ensures
        num % d == 0 ==> (-num) / d == -(num / d),
        num % d != 0 ==> (-num) / d == -(num / d) - 1,
{
    let q = num / d;
    let r = num % d;
    lemma_fundamental_div_mod(num, d);
    lemma_mod_bound(num, d);
    if r == 0 {
        assert(-num == (-q) * d + 0) by (nonlinear_arith)
            requires
                num == d * q,
        ;
        lemma_fundamental_div_mod_converse(-num, d, -q, 0);
    } else {
        assert(-num == (-q - 1) * d + (d - r)) by (nonlinear_arith)
            requires
                num == d * q + r,
        ;
        lemma_fundamental_div_mod_converse(-num, d, -q - 1, d - r);
    }
}

/// Floor division distributes over a sum of two non-negative numerators
/// up to one unit.
pub proof fn lemma_div_add_bounds(a: int, b: int, t: int)
    requires
        0 <= a,
        0 <= b,
        0 < t,
    ensures
        a / t + b / t <= (a + b) / t,
        (a + b) / t <= a / t + b / t + 1,
{
    let qa = a / t;
    let ra = a % t;
    let qb = b / t;
    let rb = b % t;
    lemma_fundamental_div_mod(a, t);
    lemma_fundamental_div_mod(b, t);
    lemma_mod_bound(a, t);
    lemma_mod_bound(b, t);
    if ra + rb < t {
        assert(a + b == (qa + qb) * t + (ra + rb)) by (nonlinear_arith)
            requires
                a == t * qa + ra,
                b == t * qb + rb,
        ;
        lemma_fundamental_div_mod_converse(a + b, t, qa + qb, ra + rb);
    } else {
        assert(a + b == (qa + qb + 1) * t + (ra + rb - t)) by (nonlinear_arith)
            requires
                a == t * qa + ra,
                b == t * qb + rb,
        ;
        lemma_fundamental_div_mod_converse(a + b, t, qa + qb + 1, ra + rb - t);
    }
}

/// Floor square root by binary search.
pub fn isqrt(n: u128) -> (r: u128)
    requires
        n <= ISQRT_INPUT_MAX,
    ensures
        r == spec_isqrt(n as int),
        is_isqrt(n as int, r as int),
        r < 700_000_000_000_000_000,
{
    let mut lo: u128 = 0;
    let mut hi: u128 = 700_000_000_000_000_000;
    while lo + 1 < hi
        invariant
            lo < hi <= 700_000_000_000_000_000,
            (lo as int) * (lo as int) <= n as int,
            (n as int) < (hi as int) * (hi as int),
        decreases hi - lo,
    {
        let mid: u128 = lo + (hi - lo) / 2;
        proof {
            assert((mid as int) * (mid as int) <= 700_000_000_000_000_000int
                * 700_000_000_000_000_000int) by (nonlinear_arith)
                requires
                    0 <= mid as int <= 700_000_000_000_000_000int,
            ;
        }
        let sq: u128 = mid * mid;
        if sq <= n {
            lo = mid;
        } else {
            hi = mid;
        }
    }
    proof {
        lemma_isqrt_exists(n as int);
        lemma_isqrt_unique(n as int, lo as int, spec_isqrt(n as int));
    }
    lo
}

} // verus!
