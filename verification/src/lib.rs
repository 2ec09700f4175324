//! A bifurcation-style diagram of the logistic map `x' = r*x*(1-x)`,
//! computed not by iterating trajectories but by discretizing the map into a
//! Markov transition operator over equal-width buckets of the unit interval
//! and approximating its long-run distribution for a sweep of `r` values.
//!
//! All arithmetic is exact: the transition operator is a matrix of sample
//! counts, the power-iteration solver works on fixed-point vectors with an
//! exactly specified floor semantics, and the algebraic solver works on
//! rational numbers, so every result is pinned bit-for-bit by its contract.

pub mod transition;
pub mod power;
pub mod rat;
pub mod render;
pub mod solve;
