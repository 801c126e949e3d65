//! Confidence-interval bounds for a population count estimated from a
//! binomially-distributed sample.
//!
//! Given an observed sample count, a sampling probability theta, and a
//! confidence level expressed as a number of standard deviations, the
//! estimator returns lower and upper bounds on the true underlying count,
//! using a continuity-corrected normal approximation to the binomial
//! distribution.
//!
//! All quantities are carried as fixed-point integers: counts, theta and
//! the standard-deviation level in units of `SCALE`, the tail-probability
//! table in units of `TAIL_SCALE`.  Every arithmetic step is pinned by its
//! contract to a mathematical definition over unbounded integers.

pub mod arith;
pub mod binomial_bounds_n;
pub mod properties;

pub use binomial_bounds_n::BinomialBoundsN;
pub use binomial_bounds_n::BoundsError;
pub use binomial_bounds_n::SCALE;
pub use binomial_bounds_n::HALF_SCALE;
pub use binomial_bounds_n::TAIL_SCALE;
pub use binomial_bounds_n::MAX_COUNT;
pub use binomial_bounds_n::MAX_NUM_SDEV;
