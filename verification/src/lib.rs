//! Exact computer algebra over prime fields.
//!
//! The layers, from the bottom up: arbitrary-precision naturals
//! ([`bignat`]), prime fields of integers modulo a prime ([`intmod`],
//! [`field`]), univariate polynomial rings with division and the extended
//! Euclidean algorithm ([`poly`], [`polymod`]), and multivariate
//! polynomials with exponent vectors ([`multiindex`]), terms ([`terms`]),
//! and sparse arithmetic culminating in multivariate division with
//! remainder against one divisor or an ordered list of divisors
//! ([`multivariatepoly`]).

pub mod bignat;
pub mod field;
pub mod intmod;
pub mod multiindex;
pub mod multivariatepoly;
pub mod poly;
pub mod polymod;
pub mod terms;
