//! Paired Wilcoxon signed-rank testing, verified.
//!
//! Midranks are half-integers, the exact distribution of the W statistic is a
//! dyadic rational, and the normal approximation is determined by two integer
//! parameters.  This crate therefore carries every quantity exactly: ranks are
//! kept doubled (so a midrank of 2.5 is stored as 5), probabilities of the
//! exact distribution are integer numerators over a power of two, and the
//! normal approximation is reported as its defining integers.  Turning those
//! exact values into floating point is left to callers.

pub mod numeric;
pub mod ranks;
pub mod signed_rank;
pub mod sorting;
pub mod sums;
pub mod wilcoxon;
