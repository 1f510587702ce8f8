//! The distribution of the W statistic of the signed-rank test: an exact
//! combinatorial form for small samples without zeros or ties, and a normal
//! approximation with tie correction otherwise.
//!
//! Every exact probability is a dyadic rational: the CDF at `w` is an
//! integer numerator over `2^(n-1)`, the PDF over `2^n`.  The normal
//! approximation is determined by two integers: the effective sample size
//! and the tie correction; its mean is `n(n+1)/4` and its variance is
//! `(2 n (n+1) (2n+1) - tie) / 48`.  Methods therefore return integers and
//! integer pairs; callers that want a floating-point probability divide
//! outside this crate.

use vstd::prelude::*;
use vstd::arithmetic::power2::{
    pow2, lemma_pow2_pos, lemma_pow2_unfold, lemma_pow2_strictly_increases, lemma2_to64, lemma2_to64_rest,
};
use crate::ranks::MAX_TOTAL_WEIGHT;

verus! {

/// The number of ways to write `number` as a sum of exactly `parts`
/// positive integers, none exceeding `size`, by the recurrence that defines
/// the exact distribution: a sum equal to its number of parts counts once
/// (the all-ones partition; this case precedes the size test), and
/// otherwise the largest part `h` is picked and the remaining parts must
/// not exceed it.
pub open spec fn partitions_spec(number: int, parts: int, size: int) -> int
    decreases number, number + 1,
{
    if number == parts {
        1
    } else if number <= 0 || parts <= 0 || size <= 0 {
        0
    } else {
        partitions_sum(
            number,
            parts,
            if number < size {
                number
            } else {
                size
            },
        )
    }
}

/// The partial sum over largest parts `1..=h` of the recurrence above.
pub open spec fn partitions_sum(number: int, parts: int, h: int) -> int
    decreases number, h,
{
    if h <= 0 || number <= 0 {
        0
    } else if h <= number {
        partitions_sum(number, parts, h - 1) + partitions_spec(number - h, parts - 1, h)
    } else {
        partitions_sum(number, parts, h - 1)
    }
}

/// Partition counts are non-negative and at most `2^(parts + size)`.
pub proof fn lemma_partitions_bound(number: int, parts: int, size: int)
    requires
        parts >= 0,
        size >= 0,
    ensures
        0 <= partitions_spec(number, parts, size) <= pow2((parts + size) as nat),
    decreases number, number + 1,
{
    lemma_pow2_pos((parts + size) as nat);
    if number == parts {
    } else if number <= 0 || parts <= 0 || size <= 0 {
    } else {
        let top = if number < size {
            number
        } else {
            size
        };
        lemma_partitions_sum_bound(number, parts, top);
        lemma_pow2_pos(parts as nat);
        if parts + top < parts + size {
            lemma_pow2_strictly_increases((parts + top) as nat, (parts + size) as nat);
        }
    }
}

/// The partial sums of the recurrence stay below `2^(parts + h) - 2^parts`.
pub proof fn lemma_partitions_sum_bound(number: int, parts: int, h: int)
    requires
        parts >= 1,
        h >= 0,
    ensures
        0 <= partitions_sum(number, parts, h) <= pow2((parts + h) as nat) - pow2(parts as nat),
    decreases number, h,
{
    lemma_pow2_pos((parts + h) as nat);
    lemma_pow2_pos(parts as nat);
    if h <= 0 || number <= 0 {
        if h > 0 {
            lemma_pow2_strictly_increases(parts as nat, (parts + h) as nat);
        }
    } else if h <= number {
        lemma_partitions_sum_bound(number, parts, h - 1);
        lemma_partitions_bound(number - h, parts - 1, h);
        lemma_pow2_unfold((parts + h) as nat);
        assert((parts - 1 + h) as nat == (parts + h - 1) as nat);
        assert(partitions_spec(number - h, parts - 1, h) <= pow2((parts + h - 1) as nat));
        assert(pow2((parts + h) as nat) == 2 * pow2((parts + h - 1) as nat));
    } else {
        lemma_partitions_sum_bound(number, parts, h - 1);
        lemma_pow2_unfold((parts + h) as nat);
        lemma_pow2_pos((parts + h - 1) as nat);
    }
}

/// Computes [`partitions_spec`]: the number of ways to write `number` as a
/// sum of exactly `parts` positive integers, none exceeding `size`.
pub fn partitions(number: usize, parts: usize, size: usize) -> (r: u64)
    requires
        parts + size <= 63,
    ensures
        r as int == partitions_spec(number as int, parts as int, size as int),
    decreases number,
{
    if number == parts {
        1
    } else if number == 0 || parts == 0 || size == 0 {
        0
    } else {
        let top = if number < size {
            number
        } else {
            size
        };
        let mut sum: u64 = 0;
        let mut h: usize = 1;
        while h <= top
            invariant
                1 <= h <= top + 1,
                1 <= number,
                1 <= parts,
                1 <= size,
                parts + size <= 63,
                top == (if number < size {
                    number as int
                } else {
                    size as int
                }),
                top <= 63,
                top <= number,
                top <= size,
                sum as int == partitions_sum(number as int, parts as int, h - 1),
            decreases top + 1 - h,
        {
            proof {
                lemma_partitions_sum_bound(number as int, parts as int, h as int);
                lemma_partitions_sum_bound(number as int, parts as int, h - 1);
                lemma_partitions_bound(number - h, parts - 1, h as int);
                lemma2_to64();
                lemma2_to64_rest();
                lemma_pow2_pos((parts + h) as nat);
                lemma_pow2_pos(parts as nat);
                if parts + h < 63 {
                    lemma_pow2_strictly_increases((parts + h) as nat, 63);
                }
                if parts - 1 + h < 63 {
                    lemma_pow2_strictly_increases((parts - 1 + h) as nat, 63);
                }
            }
            let term = partitions(number - h, parts - 1, h);
            sum = sum + term;
            h = h + 1;
        }
        sum
    }
}

/// The smallest sum that `k` distinct positive integers can have, namely
/// `1 + 2 + ... + k = k (k - 1) / 2` below the largest part.
pub open spec fn min_parts_sum(k: int) -> int {
    k * (k - 1) / 2
}

/// The inner sum of the exact CDF: partition counts of every total from `k`
/// up to `i`, into exactly `k` distinct parts at most `n - k + 1`.
pub open spec fn cdf_inner_sum(n: int, k: int, i: int) -> int
    decreases i,
{
    if i < k || i <= 0 {
        0
    } else {
        cdf_inner_sum(n, k, i - 1) + partitions_spec(i, k, n - k + 1)
    }
}

/// The outer sum of the exact CDF over part counts `1..=k`.
pub open spec fn cdf_outer_sum(n: int, r: int, k: int) -> int
    decreases k,
{
    if k <= 0 {
        0
    } else {
        cdf_outer_sum(n, r, k - 1) + (if min_parts_sum(k) <= r {
            cdf_inner_sum(n, k, r - min_parts_sum(k))
        } else {
            0
        })
    }
}

/// The numerator of the exact CDF at rounded point `r`, over `2^(n-1)`:
/// one (for the empty selection) plus, for every part count `k` and every
/// total at most `r`, the number of partitions of that total.
pub open spec fn exact_cdf_numerator_spec(n: int, r: int) -> int {
    1 + cdf_outer_sum(n, r, n)
}

/// The outer sum of the exact PDF over part counts `1..=k`: the number of
/// partitions of exactly `r` into `k` distinct parts at most `n - k + 1`.
pub open spec fn pdf_outer_sum(n: int, r: int, k: int) -> int
    decreases k,
{
    if k <= 0 {
        0
    } else {
        pdf_outer_sum(n, r, k - 1) + (if min_parts_sum(k) <= r {
            partitions_spec(r - min_parts_sum(k), k, n - k + 1)
        } else {
            0
        })
    }
}

/// The numerator of the exact PDF at rounded point `r`, over `2^n`.
pub open spec fn exact_pdf_numerator_spec(n: int, r: int) -> int {
    pdf_outer_sum(n, r, n)
}

/// Inner CDF sums are non-negative and at most `(i + 1) * 2^(n + 1)`.
pub proof fn lemma_cdf_inner_bound(n: int, k: int, i: int)
    requires
        1 <= k <= n,
    ensures
        0 <= cdf_inner_sum(n, k, i),
        i >= 0 ==> cdf_inner_sum(n, k, i) <= (i + 1) * pow2((n + 1) as nat),
    decreases i,
{
    lemma_pow2_pos((n + 1) as nat);
    let p = pow2((n + 1) as nat) as int;
    if i < k || i <= 0 {
        if i >= 0 {
            assert(0 <= (i + 1) * p) by (nonlinear_arith)
                requires
                    0 <= i,
                    0 < p,
            ;
        }
    } else {
        lemma_cdf_inner_bound(n, k, i - 1);
        lemma_partitions_bound(i, k, n - k + 1);
        assert(i * p + p == (i + 1) * p) by (nonlinear_arith);
    }
}

/// Outer CDF sums are non-negative and at most `k * (r + 1) * 2^(n + 1)`.
pub proof fn lemma_cdf_outer_bound(n: int, r: int, k: int)
    requires
        1 <= n,
        0 <= r,
        0 <= k <= n,
    ensures
        0 <= cdf_outer_sum(n, r, k) <= k * ((r + 1) * pow2((n + 1) as nat)),
    decreases k,
{
    lemma_pow2_pos((n + 1) as nat);
    let p = pow2((n + 1) as nat) as int;
    if k <= 0 {
    } else {
        lemma_cdf_outer_bound(n, r, k - 1);
        if min_parts_sum(k) <= r {
            let i = r - min_parts_sum(k);
            assert(min_parts_sum(k) >= 0) by (nonlinear_arith)
                requires
                    k >= 1,
            ;
            lemma_cdf_inner_bound(n, k, i);
            assert(cdf_inner_sum(n, k, i) <= (r + 1) * p) by {
                if i >= 0 {
                    assert((i + 1) * p <= (r + 1) * p) by (nonlinear_arith)
                        requires
                            i <= r,
                            p > 0,
                    ;
                }
            }
        }
        assert((k - 1) * ((r + 1) * p) + (r + 1) * p == k * ((r + 1) * p)) by (nonlinear_arith);
        assert(k * ((r + 1) * p) >= 0) by (nonlinear_arith)
            requires
                k >= 0,
                r >= 0,
                p > 0,
        ;
    }
}

/// Outer PDF sums are non-negative and at most `k * 2^(n + 1)`.
pub proof fn lemma_pdf_outer_bound(n: int, r: int, k: int)
    requires
        1 <= n,
        0 <= k <= n,
    ensures
        0 <= pdf_outer_sum(n, r, k) <= k * pow2((n + 1) as nat),
    decreases k,
{
    lemma_pow2_pos((n + 1) as nat);
    let p = pow2((n + 1) as nat) as int;
    if k <= 0 {
    } else {
        lemma_pdf_outer_bound(n, r, k - 1);
        if min_parts_sum(k) <= r {
            lemma_partitions_bound(r - min_parts_sum(k), k, n - k + 1);
        }
        assert((k - 1) * p + p == k * p) by (nonlinear_arith);
    }
}

/// Computes the numerator of the exact CDF at rounded point `r`; the
/// denominator is `2^(n-1)`.
fn exact_cdf_numerator(n: usize, r: usize) -> (sum: u64)
    requires
        1 <= n <= 40,
        r <= n * (n + 1),
    ensures
        sum as int == exact_cdf_numerator_spec(n as int, r as int),
{
    proof {
        assert(n * (n + 1) <= 1640) by (nonlinear_arith)
            requires
                1 <= n <= 40,
        ;
    }
    let mut sum: u64 = 1;
    let mut k: usize = 1;
    while k <= n
        invariant
            1 <= k <= n + 1,
            1 <= n <= 40,
            r <= n * (n + 1),
            r <= 1640,
            sum as int == 1 + cdf_outer_sum(n as int, r as int, k - 1),
        decreases n + 1 - k,
    {
        proof {
            assert(k * (k - 1) <= 1640) by (nonlinear_arith)
                requires
                    1 <= k <= 41,
            ;
        }
        let base = k * (k - 1) / 2;
        proof {
            assert(base == min_parts_sum(k as int));
        }
        if base <= r {
            let limit = r - base;
            let mut i = k;
            proof {
                assert(cdf_inner_sum(n as int, k as int, k - 1) == 0);
            }
            while i <= limit
                invariant
                    1 <= k <= n <= 40,
                    r <= n * (n + 1),
                    base == min_parts_sum(k as int),
                    base <= r,
                    limit == r - base,
                    k <= i,
                    i <= limit + 1 || i == k,
                    r <= 1640,
                    sum as int == 1 + cdf_outer_sum(n as int, r as int, k - 1) + cdf_inner_sum(
                        n as int,
                        k as int,
                        i - 1,
                    ),
                decreases limit + 1 - i,
            {
                proof {
                    lemma_cdf_bound_numeric(n as int, r as int, k as int, i as int);
                }
                let term = partitions(i, k, n - k + 1);
                sum = sum + term;
                i = i + 1;
            }
            proof {
                assert(cdf_outer_sum(n as int, r as int, k as int) == cdf_outer_sum(
                    n as int,
                    r as int,
                    k - 1,
                ) + cdf_inner_sum(n as int, k as int, limit as int));
            }
        } else {
            proof {
                assert(cdf_outer_sum(n as int, r as int, k as int) == cdf_outer_sum(
                    n as int,
                    r as int,
                    k - 1,
                ));
            }
        }
        k = k + 1;
    }
    sum
}

/// The numeric overflow margin of one CDF accumulation step: with
/// `n <= 40`, everything stays far below `2^64`.
proof fn lemma_cdf_bound_numeric(n: int, r: int, k: int, i: int)
    requires
        1 <= k <= n <= 40,
        0 <= r <= 1640,
        k <= i <= r - min_parts_sum(k),
    ensures
        0 <= cdf_outer_sum(n, r, k - 1),
        0 <= cdf_inner_sum(n, k, i - 1),
        0 <= partitions_spec(i, k, n - k + 1) <= pow2((n + 1) as nat),
        1 + cdf_outer_sum(n, r, k - 1) + cdf_inner_sum(n, k, i - 1) + partitions_spec(
            i,
            k,
            n - k + 1,
        ) < 0x4000_0000_0000_0000,
{
    lemma2_to64();
    lemma2_to64_rest();
    lemma_pow2_pos((n + 1) as nat);
    if n + 1 < 41 {
        lemma_pow2_strictly_increases((n + 1) as nat, 41);
    }
    let p = pow2((n + 1) as nat) as int;
    assert(p <= 0x200_0000_0000);
    lemma_cdf_outer_bound(n, r, k - 1);
    lemma_cdf_inner_bound(n, k, i - 1);
    lemma_partitions_bound(i, k, n - k + 1);
    assert(cdf_outer_sum(n, r, k - 1) <= (k - 1) * ((r + 1) * p));
    assert((k - 1) * ((r + 1) * p) <= 39 * (1641 * 0x200_0000_0000)) by (nonlinear_arith)
        requires
            0 <= k - 1 <= 39,
            0 <= r + 1 <= 1641,
            0 < p <= 0x200_0000_0000,
    ;
    assert(cdf_inner_sum(n, k, i - 1) <= i * p) by {
        if i - 1 >= 0 {
            assert(i * p <= i * p);
        }
    }
    assert(i * p <= 1641 * 0x200_0000_0000) by (nonlinear_arith)
        requires
            0 <= i <= 1641,
            0 < p <= 0x200_0000_0000,
    ;
}

/// Computes the numerator of the exact PDF at rounded point `r`; the
/// denominator is `2^n`.
fn exact_pdf_numerator(n: usize, r: usize) -> (sum: u64)
    requires
        1 <= n <= 40,
        r <= n * (n + 1),
    ensures
        sum as int == exact_pdf_numerator_spec(n as int, r as int),
{
    proof {
        assert(n * (n + 1) <= 1640) by (nonlinear_arith)
            requires
                1 <= n <= 40,
        ;
    }
    let mut sum: u64 = 0;
    let mut k: usize = 1;
    while k <= n
        invariant
            1 <= k <= n + 1,
            1 <= n <= 40,
            r <= n * (n + 1),
            r <= 1640,
            sum as int == pdf_outer_sum(n as int, r as int, k - 1),
        decreases n + 1 - k,
    {
        proof {
            assert(k * (k - 1) <= 1640) by (nonlinear_arith)
                requires
                    1 <= k <= 41,
            ;
        }
        let base = k * (k - 1) / 2;
        proof {
            assert(base == min_parts_sum(k as int));
            lemma2_to64();
            lemma2_to64_rest();
            lemma_pow2_pos((n + 1) as nat);
            if n + 1 < 41 {
                lemma_pow2_strictly_increases((n + 1) as nat, 41);
            }
            lemma_pdf_outer_bound(n as int, r as int, k - 1);
            let p = pow2((n + 1) as nat) as int;
            assert((k - 1) * p <= 39 * 0x200_0000_0000) by (nonlinear_arith)
                requires
                    0 <= k - 1 <= 39,
                    0 < p <= 0x200_0000_0000,
            ;
        }
        if base <= r {
            proof {
                lemma_partitions_bound(r - base, k as int, n - k + 1);
            }
            let term = partitions(r - base, k, n - k + 1);
            sum = sum + term;
        }
        k = k + 1;
    }
    sum
}

/// Every partial product of the moment formulas stays far inside `u64` for
/// sample sizes the engine accepts.
proof fn lemma_moment_bounds(n: int)
    requires
        0 <= n <= MAX_TOTAL_WEIGHT,
    ensures
        0 <= n * (n + 1) < 0x10_0000_0000_0000,
        0 <= 2 * n * (n + 1) < 0x20_0000_0000_0000,
        0 <= n * (n + 1) * (2 * n + 1) < 0x4000_0000_0000_0000,
        0 <= 2 * n * (n + 1) * (2 * n + 1) < 0x8000_0000_0000_0000,
{
    assert(0 <= n * (n + 1) < 0x10_0000_0000_0000) by (nonlinear_arith)
        requires
            0 <= n <= 0x10_0000,
    ;
    assert(0 <= 2 * n * (n + 1) < 0x20_0000_0000_0000) by (nonlinear_arith)
        requires
            0 <= n <= 0x10_0000,
    ;
    assert(0 <= n * (n + 1) * (2 * n + 1) < 0x4000_0000_0000_0000) by (nonlinear_arith)
        requires
            0 <= n <= 0x10_0000,
    ;
    assert(0 <= 2 * n * (n + 1) * (2 * n + 1) < 0x8000_0000_0000_0000) by (nonlinear_arith)
        requires
            0 <= n <= 0x10_0000,
    ;
}

/// A distribution that cannot be built: the tie correction is so large that
/// the variance of the normal approximation would not be positive.
#[derive(Clone, Copy, Debug, PartialEq, Eq, Structural)]
pub enum SignedRankError {
    BadDistribution,
}

/// Which form the distribution takes.
#[derive(Clone, Copy, Debug, PartialEq, Eq, Structural)]
pub enum Approximation {
    /// The exact combinatorial distribution of W for `n` untied, non-zero
    /// paired differences.
    Exact,
    /// The normal approximation with the given tie correction; the mean and
    /// variance derive from the carried sample size and this correction.
    Normal { tie_correction: u64 },
}

/// The distribution of the W statistic for sample size `n` (the effective
/// size, zeros excluded, on the normal path).
#[derive(Clone, Copy, Debug, PartialEq, Eq, Structural)]
pub struct SignedRank {
    pub n: usize,
    pub approximation: Approximation,
}

/// A probability, reported exactly.  The caller turns it into a float.
#[derive(Clone, Copy, Debug, PartialEq, Eq, Structural)]
pub enum DistributionValue {
    /// The dyadic rational `numerator / 2^log2_denominator`.
    Exact { numerator: u64, log2_denominator: u32 },
    /// The value of the normal approximation with mean
    /// `n_eff (n_eff + 1) / 4` and variance
    /// `(2 n_eff (n_eff + 1) (2 n_eff + 1) - tie_correction) / 48`,
    /// evaluated at half of `at_doubled` (a two-sided tail for the CDF).
    NormalApprox { n_eff: usize, tie_correction: u64, at_doubled: u64 },
}

/// The constructor chooses the normal approximation exactly when there are
/// zeros, ties, or at least twenty non-zero differences.
pub open spec fn uses_normal(n: int, zeroes: int, tie_correction: int) -> bool {
    zeroes > 0 || tie_correction > 0 || n - zeroes >= 20
}

/// Forty-eight times the variance of the normal approximation.
pub open spec fn variance_x48(n_eff: int, tie_correction: int) -> int {
    2 * n_eff * (n_eff + 1) * (2 * n_eff + 1) - tie_correction
}

/// Rounding of the half-integer `w_doubled / 2` to the nearest integer,
/// halves away from zero.
pub open spec fn rounded_point(w_doubled: int) -> int {
    (w_doubled + 1) / 2
}

impl SignedRank {
    /// A built distribution is well formed: its size is bounded and a normal
    /// approximation has positive variance.
    pub open spec fn wf(self) -> bool {
        self.n <= MAX_TOTAL_WEIGHT && match self.approximation {
            Approximation::Exact => true,
            Approximation::Normal { tie_correction } => variance_x48(
                self.n as int,
                tie_correction as int,
            ) > 0,
        }
    }

    /// Choose between the exact distribution and the normal approximation
    /// for `n` paired observations of which `zeroes` had a zero difference,
    /// with tie correction `tie_correction`: approximate when zeros or ties
    /// are present or the effective sample size reaches twenty, else exact.
    /// Fails exactly when the approximation's variance would not be
    /// positive.
    pub fn new(n: usize, zeroes: usize, tie_correction: u64) -> (r: Result<
        SignedRank,
        SignedRankError,
    >)
        requires
            zeroes <= n,
            n <= MAX_TOTAL_WEIGHT,
        ensures
            uses_normal(n as int, zeroes as int, tie_correction as int) ==> match r {
                Ok(d) => {
                    &&& d.wf()
                    &&& d.n == n - zeroes
                    &&& d.approximation == (Approximation::Normal { tie_correction })
                    &&& variance_x48(n - zeroes, tie_correction as int) > 0
                },
                Err(e) => {
                    &&& e == SignedRankError::BadDistribution
                    &&& variance_x48(n - zeroes, tie_correction as int) <= 0
                },
            },
            !uses_normal(n as int, zeroes as int, tie_correction as int) ==> match r {
                Ok(d) => {
                    &&& d.wf()
                    &&& d.n == n
                    &&& d.approximation == Approximation::Exact
                },
                Err(e) => false,
            },
    {
        if zeroes > 0 || tie_correction > 0 || n - zeroes >= 20 {
            Self::approximate(n - zeroes, tie_correction)
        } else {
            Self::exact(n)
        }
    }

    /// The normal approximation for `n` non-zero differences with tie
    /// correction `tie_correction`; fails exactly when its variance would
    /// not be positive.
    pub fn approximate(n: usize, tie_correction: u64) -> (r: Result<SignedRank, SignedRankError>)
        requires
            n <= MAX_TOTAL_WEIGHT,
        ensures
            match r {
                Ok(d) => {
                    &&& d.wf()
                    &&& d.n == n
                    &&& d.approximation == (Approximation::Normal { tie_correction })
                    &&& variance_x48(n as int, tie_correction as int) > 0
                },
                Err(e) => {
                    &&& e == SignedRankError::BadDistribution
                    &&& variance_x48(n as int, tie_correction as int) <= 0
                },
            },
    {
        let n64 = n as u64;
        proof {
            lemma_moment_bounds(n64 as int);
        }
        let doubled_moment = 2 * n64 * (n64 + 1) * (2 * n64 + 1);
        if doubled_moment > tie_correction {
            Ok(
                SignedRank {
                    n,
                    approximation: Approximation::Normal { tie_correction },
                },
            )
        } else {
            Err(SignedRankError::BadDistribution)
        }
    }

    /// The exact distribution of W for sample size `n`.
    pub fn exact(n: usize) -> (r: Result<SignedRank, SignedRankError>)
        requires
            n <= MAX_TOTAL_WEIGHT,
        ensures
            match r {
                Ok(d) => {
                    &&& d.wf()
                    &&& d.n == n
                    &&& d.approximation == Approximation::Exact
                },
                Err(e) => false,
            },
    {
        Ok(SignedRank { n, approximation: Approximation::Exact })
    }

    /// The CDF at the half-integer `w_doubled / 2`, reported exactly.  On
    /// the exact path the point is rounded, halves away from zero, and the
    /// numerator over `2^(n-1)` is counted; on the normal path the value is
    /// the two-sided tail `2 * Phi((w - mean) / sigma)`, which the caller
    /// evaluates from the returned integers.
    pub fn cdf(&self, w_doubled: u64) -> (r: DistributionValue)
        requires
            self.wf(),
            self.approximation is Exact ==> 1 <= self.n <= 40 && w_doubled <= self.n * (self.n
                + 1),
        ensures
            match self.approximation {
                Approximation::Exact => r matches DistributionValue::Exact {
                    numerator,
                    log2_denominator,
                } && numerator as int == exact_cdf_numerator_spec(
                    self.n as int,
                    rounded_point(w_doubled as int),
                ) && log2_denominator == self.n - 1,
                Approximation::Normal { tie_correction } => r
                    == (DistributionValue::NormalApprox {
                    n_eff: self.n,
                    tie_correction,
                    at_doubled: w_doubled,
                }),
            },
    {
        match self.approximation {
            Approximation::Exact => {
                proof {
                    assert(self.n * (self.n + 1) <= 1640) by (nonlinear_arith)
                        requires
                            1 <= self.n <= 40,
                    ;
                }
                let point = ((w_doubled + 1) / 2) as usize;
                let numerator = exact_cdf_numerator(self.n, point);
                DistributionValue::Exact {
                    numerator,
                    log2_denominator: (self.n - 1) as u32,
                }
            },
            Approximation::Normal { tie_correction } => DistributionValue::NormalApprox {
                n_eff: self.n,
                tie_correction,
                at_doubled: w_doubled,
            },
        }
    }

    /// The PDF at the half-integer `w_doubled / 2`, reported exactly.  On
    /// the exact path the point is rounded and the numerator over `2^n` is
    /// counted; on the normal path the caller evaluates the normal density
    /// from the returned integers.
    pub fn pdf(&self, w_doubled: u64) -> (r: DistributionValue)
        requires
            self.wf(),
            self.approximation is Exact ==> 1 <= self.n <= 40 && w_doubled <= self.n * (self.n
                + 1),
        ensures
            match self.approximation {
                Approximation::Exact => r matches DistributionValue::Exact {
                    numerator,
                    log2_denominator,
                } && numerator as int == exact_pdf_numerator_spec(
                    self.n as int,
                    rounded_point(w_doubled as int),
                ) && log2_denominator == self.n,
                Approximation::Normal { tie_correction } => r
                    == (DistributionValue::NormalApprox {
                    n_eff: self.n,
                    tie_correction,
                    at_doubled: w_doubled,
                }),
            },
    {
        match self.approximation {
            Approximation::Exact => {
                proof {
                    assert(self.n * (self.n + 1) <= 1640) by (nonlinear_arith)
                        requires
                            1 <= self.n <= 40,
                    ;
                }
                let point = ((w_doubled + 1) / 2) as usize;
                let numerator = exact_pdf_numerator(self.n, point);
                DistributionValue::Exact {
                    numerator,
                    log2_denominator: self.n as u32,
                }
            },
            Approximation::Normal { tie_correction } => DistributionValue::NormalApprox {
                n_eff: self.n,
                tie_correction,
                at_doubled: w_doubled,
            },
        }
    }

    /// The mean of W, as the exact rational `n (n + 1) / 4`: the numerator
    /// and the denominator four.  The same formula serves both forms, since
    /// the normal approximation is centered at the exact mean.
    pub fn mean(&self) -> (r: (u64, u64))
        requires
            self.wf(),
        ensures
            r.0 == self.n * (self.n + 1),
            r.1 == 4,
    {
        let n64 = self.n as u64;
        proof {
            lemma_moment_bounds(n64 as int);
        }
        (n64 * (n64 + 1), 4)
    }

    /// The variance of W, as an exact rational.  The exact distribution has
    /// variance `n (n+1) (2n+1) / 24`; the normal approximation subtracts
    /// the tie adjustment and has variance
    /// `(2 n (n+1) (2n+1) - tie_correction) / 48`.
    pub fn variance(&self) -> (r: (u64, u64))
        requires
            self.wf(),
        ensures
            match self.approximation {
                Approximation::Exact => r.0 == self.n * (self.n + 1) * (2 * self.n + 1) && r.1
                    == 24,
                Approximation::Normal { tie_correction } => r.0 as int == variance_x48(
                    self.n as int,
                    tie_correction as int,
                ) && r.1 == 48,
            },
    {
        let n64 = self.n as u64;
        proof {
            lemma_moment_bounds(n64 as int);
        }
        match self.approximation {
            Approximation::Exact => (n64 * (n64 + 1) * (2 * n64 + 1), 24),
            Approximation::Normal { tie_correction } => (
                2 * n64 * (n64 + 1) * (2 * n64 + 1) - tie_correction,
                48,
            ),
        }
    }

    /// The skewness of W: zero in both forms — the exact distribution is
    /// symmetric about its mean, and so is the normal approximation.
    pub fn skewness(&self) -> (r: (u64, u64))
        requires
            self.wf(),
        ensures
            r.0 == 0,
            r.1 == 1,
    {
        (0, 1)
    }

    /// The median of W: the mean, `n (n + 1) / 4`, in both forms, by the
    /// same symmetry.
    pub fn median(&self) -> (r: (u64, u64))
        requires
            self.wf(),
        ensures
            r.0 == self.n * (self.n + 1),
            r.1 == 4,
    {
        self.mean()
    }

    /// The mode of W: again the mean, in both forms.
    pub fn mode(&self) -> (r: (u64, u64))
        requires
            self.wf(),
        ensures
            r.0 == self.n * (self.n + 1),
            r.1 == 4,
    {
        self.mean()
    }

    /// The support of W, doubled: from zero to `2 * n (n + 1) / 2`, that is
    /// `n (n + 1)`.
    pub fn support(&self) -> (r: (u64, u64))
        requires
            self.wf(),
        ensures
            r.0 == 0,
            r.1 == self.n * (self.n + 1),
    {
        let n64 = self.n as u64;
        proof {
            lemma_moment_bounds(n64 as int);
        }
        (0, n64 * (n64 + 1))
    }
}

} // verus!
