//! A differential-evolution engine over fixed-point genes.
//!
//! Genes are fractions of one whole, counted in ticks of `scalar::UNIT`.
//! Feature vectors and evaluation vectors are vectors of integers;
//! evaluation vectors are ranked lexicographically and larger is better.

pub mod evolution;
pub mod group;
pub mod individual;
pub mod ledger;
pub mod method;
pub mod operators;
pub mod population;
pub mod populations;
pub mod random;
pub mod ranking;
pub mod scalar;
pub mod store;
pub mod text;
