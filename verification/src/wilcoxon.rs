//! The paired Wilcoxon signed-rank test.
//!
//! The pipeline: compute paired differences, sort them by absolute value,
//! rank them with tie resolution, accumulate the rank sums of the negative
//! and the positive differences, and consult the distribution of W at the
//! smaller sum.  A difference is a [`RankEntry`] whose key is the absolute
//! difference (zero exactly for a zero difference), whose tag tells the
//! sign (zero for negative, one otherwise), and whose weight counts
//! occurrences.  All reported quantities are exact: rank sums doubled,
//! the effect size as a numerator over `n (n + 1)`, the p-value as a
//! [`DistributionValue`].

use vstd::prelude::*;
use crate::ranks::{
    RankEntry, MAX_TOTAL_WEIGHT, valid_weights, total_weight, weight_at, rank_doubled, tie_term,
    tie_correction_spec, wrank_term, at_term, below_term, weight_term, lemma_counts_permutation,
    lemma_count_bounds, lemma_rank_sum_total, lemma_weight_below_zero, lemma_subrange_weight,
    ranks_of_sorted,
};
use crate::signed_rank::{
    SignedRank, DistributionValue, uses_normal, variance_x48, exact_cdf_numerator_spec,
    rounded_point,
};
use crate::sums::{
    sum_map, lemma_sum_map_app, lemma_sum_map_le, lemma_sum_map_linear, lemma_sum_map_nonneg,
    lemma_sum_map_permutation, lemma_sum_map_pointwise, lemma_sum_map_scaled,
    lemma_sum_map_singleton,
};

verus! {

/// What went wrong: the two samples differ in length, there is no data, or
/// the tie correction is so large that the approximate distribution cannot
/// be built.
#[derive(Clone, Copy, Debug, PartialEq, Eq, Structural)]
pub enum TestError {
    LengthMismatch,
    EmptyInput,
    BadDistribution,
}

/// Alternative hypothesis for comparing two means.
#[derive(Clone, Copy, Debug, PartialEq, Eq, Structural)]
pub enum AlternativeHypothesis {
    Greater,
    Different,
    Less,
}

/// A statistical test reports an estimate, a p-value and an effect size.
pub trait StatisticalTest {
    type Estimate;

    type PValue;

    type EffectSize;

    /// The estimate of the test statistic.
    fn estimate(&self) -> Self::Estimate;

    /// The p-value of the test.
    fn p_value(&self) -> Self::PValue;

    /// The effect size of the test.
    fn effect_size(&self) -> Self::EffectSize;
}

/// The rank-sum contribution of a negative difference: tag zero, key
/// positive.
pub open spec fn neg_term(s: Seq<RankEntry>) -> spec_fn(RankEntry) -> int {
    |e: RankEntry|
        if e.key > 0 && e.tag == 0 {
            e.weight * rank_doubled(s, e.key)
        } else {
            0
        }
}

/// The rank-sum contribution of a positive difference: tag non-zero, key
/// positive.
pub open spec fn pos_term(s: Seq<RankEntry>) -> spec_fn(RankEntry) -> int {
    |e: RankEntry|
        if e.key > 0 && e.tag != 0 {
            e.weight * rank_doubled(s, e.key)
        } else {
            0
        }
}

/// The rank-sum contribution of any non-zero difference.
pub open spec fn nonzero_term(s: Seq<RankEntry>) -> spec_fn(RankEntry) -> int {
    |e: RankEntry|
        if e.key > 0 {
            e.weight * rank_doubled(s, e.key)
        } else {
            0
        }
}

/// The rank-sum contribution of a zero difference.
pub open spec fn zero_rank_term(s: Seq<RankEntry>) -> spec_fn(RankEntry) -> int {
    |e: RankEntry|
        if e.key == 0 {
            e.weight * rank_doubled(s, 0)
        } else {
            0
        }
}

/// Twice the rank sum of the negative differences, `2 * W^-`.
pub open spec fn w_minus_doubled(d: Seq<RankEntry>) -> int {
    sum_map(d, neg_term(d))
}

/// Twice the rank sum of the positive differences, `2 * W^+`.
pub open spec fn w_plus_doubled(d: Seq<RankEntry>) -> int {
    sum_map(d, pos_term(d))
}

/// The total occurrence weight of the zero differences.
pub open spec fn zeros_weight(d: Seq<RankEntry>) -> int {
    weight_at(d, 0)
}

/// The smaller of the two doubled rank sums, the statistic the p-value is
/// taken at.
pub open spec fn w_small_doubled(d: Seq<RankEntry>) -> int {
    if w_minus_doubled(d) <= w_plus_doubled(d) {
        w_minus_doubled(d)
    } else {
        w_plus_doubled(d)
    }
}

/// The outcome of a Wilcoxon signed-rank test.  The estimate is the pair
/// `(2 W^-, 2 W^+)` of doubled rank sums; the effect size is the exact
/// rational `effect_size.0 / effect_size.1`, namely
/// `min(W^-, W^+) / (n (n + 1) / 2)` with both sides doubled; the p-value
/// is exact on the small-sample path and carries the normal approximation's
/// integers otherwise.
#[derive(Clone, Copy, Debug, PartialEq)]
pub struct WilcoxonWTest {
    pub estimate: (u64, u64),
    pub effect_size: (u64, u64),
    pub p_value: DistributionValue,
}

impl StatisticalTest for WilcoxonWTest {
    type Estimate = (u64, u64);

    type PValue = DistributionValue;

    type EffectSize = (u64, u64);

    fn estimate(&self) -> (u64, u64) {
        self.estimate
    }

    fn p_value(&self) -> DistributionValue {
        self.p_value
    }

    fn effect_size(&self) -> (u64, u64) {
        self.effect_size
    }
}

/// What the test must return for the differences `d`: an error exactly on
/// empty input or a non-positive approximate variance, else the doubled
/// rank sums, the exact effect-size rational, and the p-value of the
/// distribution that [`SignedRank::new`] selects, taken at `min(W^-, W^+)`.
pub open spec fn wilcoxon_outcome(d: Seq<RankEntry>, r: Result<WilcoxonWTest, TestError>) -> bool {
    let w = total_weight(d);
    let wm = w_minus_doubled(d);
    let wp = w_plus_doubled(d);
    let z = zeros_weight(d);
    let c = tie_correction_spec(d);
    let ws = w_small_doubled(d);
    if d.len() == 0 {
        r == Err::<WilcoxonWTest, TestError>(TestError::EmptyInput)
    } else if uses_normal(w, z, c) && variance_x48(w - z, c) <= 0 {
        r == Err::<WilcoxonWTest, TestError>(TestError::BadDistribution)
    } else {
        &&& r matches Ok(t)
        &&& r matches Ok(t) ==> {
            &&& t.estimate.0 == wm
            &&& t.estimate.1 == wp
            &&& t.effect_size.0 == ws
            &&& t.effect_size.1 == w * (w + 1)
            &&& if uses_normal(w, z, c) {
                t.p_value matches DistributionValue::NormalApprox {
                    n_eff,
                    tie_correction,
                    at_doubled,
                } && n_eff == w - z && tie_correction == c && at_doubled == ws
            } else {
                t.p_value matches DistributionValue::Exact { numerator, log2_denominator }
                    && numerator as int == exact_cdf_numerator_spec(w, rounded_point(ws))
                    && log2_denominator == w - 1
            }
        }
    }
}

/// Splitting the weighted rank sum by sign: the negative, positive and zero
/// contributions partition the total, and the zero differences, which
/// always form the lowest tie group, contribute exactly `z (z + 1)`.  So
/// `2 W^- + 2 W^+ + z (z + 1) == K (K + 1)` for total weight `K`.
pub proof fn lemma_signed_rank_partition(d: Seq<RankEntry>)
    requires
        valid_weights(d),
    ensures
        w_minus_doubled(d) + w_plus_doubled(d) + zeros_weight(d) * (zeros_weight(d) + 1)
            == total_weight(d) * (total_weight(d) + 1),
{
    assert forall|i: int| 0 <= i < d.len() implies #[trigger] nonzero_term(d)(d[i]) == 1 * neg_term(
        d,
    )(d[i]) + 1 * pos_term(d)(d[i]) by {}
    lemma_sum_map_linear(d, neg_term(d), pos_term(d), nonzero_term(d), 1, 1);
    assert forall|i: int| 0 <= i < d.len() implies #[trigger] wrank_term(d)(d[i]) == 1
        * nonzero_term(d)(d[i]) + 1 * zero_rank_term(d)(d[i]) by {}
    lemma_sum_map_linear(d, nonzero_term(d), zero_rank_term(d), wrank_term(d), 1, 1);
    let z_rank = rank_doubled(d, 0);
    assert forall|i: int| 0 <= i < d.len() implies #[trigger] zero_rank_term(d)(d[i]) == z_rank
        * at_term(0)(d[i]) by {
        let e = d[i];
        if e.key == 0 {
            assert(e.weight * z_rank == z_rank * e.weight) by (nonlinear_arith);
        } else {
            assert(z_rank * 0 == 0) by (nonlinear_arith);
        }
    }
    lemma_sum_map_scaled(d, zero_rank_term(d), at_term(0), z_rank);
    lemma_weight_below_zero(d);
    lemma_rank_sum_total(d);
    let z = weight_at(d, 0);
    assert((z + 1) * z == z * (z + 1)) by (nonlinear_arith);
}

/// The signed-rank symmetry law: without zero differences the two rank sums
/// exhaust the whole rank sum, `W^- + W^+ == K (K + 1) / 2` for total
/// weight `K`, stated doubled.
pub proof fn lemma_signed_rank_symmetry(d: Seq<RankEntry>)
    requires
        valid_weights(d),
        zeros_weight(d) == 0,
    ensures
        w_minus_doubled(d) + w_plus_doubled(d) == total_weight(d) * (total_weight(d) + 1),
{
    lemma_signed_rank_partition(d);
}

/// Every partial rank sum lies between zero and the total `K (K + 1)`, and
/// the zero weight between zero and `K`.
pub proof fn lemma_accum_bounds(s: Seq<RankEntry>, j: int)
    requires
        valid_weights(s),
        0 <= j <= s.len(),
    ensures
        0 <= sum_map(s.subrange(0, j), neg_term(s)) <= total_weight(s) * (total_weight(s) + 1),
        0 <= sum_map(s.subrange(0, j), pos_term(s)) <= total_weight(s) * (total_weight(s) + 1),
        0 <= sum_map(s.subrange(0, j), at_term(0)) <= total_weight(s),
        w_minus_doubled(s) + w_plus_doubled(s) <= total_weight(s) * (total_weight(s) + 1),
        0 <= w_minus_doubled(s),
        0 <= w_plus_doubled(s),
        0 <= zeros_weight(s) <= total_weight(s),
{
    let prefix = s.subrange(0, j);
    let suffix = s.subrange(j, s.len() as int);
    assert(s =~= prefix + suffix);
    assert forall|i: int| 0 <= i < s.len() implies 0 <= #[trigger] neg_term(s)(s[i]) <= wrank_term(
        s,
    )(s[i]) by {
        lemma_nonneg_rank_term(s, s[i]);
    }
    assert forall|i: int| 0 <= i < s.len() implies 0 <= #[trigger] pos_term(s)(s[i]) <= wrank_term(
        s,
    )(s[i]) by {
        lemma_nonneg_rank_term(s, s[i]);
    }
    assert forall|i: int| 0 <= i < prefix.len() implies 0 <= #[trigger] neg_term(s)(prefix[i]) by {
        lemma_nonneg_rank_term(s, prefix[i]);
    }
    assert forall|i: int| 0 <= i < prefix.len() implies 0 <= #[trigger] pos_term(s)(prefix[i]) by {
        lemma_nonneg_rank_term(s, prefix[i]);
    }
    assert forall|i: int| 0 <= i < prefix.len() implies 0 <= #[trigger] at_term(0)(prefix[i]) by {}
    assert forall|i: int| 0 <= i < suffix.len() implies 0 <= #[trigger] neg_term(s)(suffix[i]) by {
        lemma_nonneg_rank_term(s, suffix[i]);
    }
    assert forall|i: int| 0 <= i < suffix.len() implies 0 <= #[trigger] pos_term(s)(suffix[i]) by {
        lemma_nonneg_rank_term(s, suffix[i]);
    }
    assert forall|i: int| 0 <= i < suffix.len() implies 0 <= #[trigger] at_term(0)(suffix[i]) by {}
    lemma_sum_map_app(prefix, suffix, neg_term(s));
    lemma_sum_map_app(prefix, suffix, pos_term(s));
    lemma_sum_map_app(prefix, suffix, at_term(0));
    lemma_sum_map_nonneg(prefix, neg_term(s));
    lemma_sum_map_nonneg(suffix, neg_term(s));
    lemma_sum_map_nonneg(prefix, pos_term(s));
    lemma_sum_map_nonneg(suffix, pos_term(s));
    lemma_sum_map_nonneg(prefix, at_term(0));
    lemma_sum_map_nonneg(suffix, at_term(0));
    lemma_sum_map_le(s, neg_term(s), wrank_term(s));
    lemma_sum_map_le(s, pos_term(s), wrank_term(s));
    lemma_signed_rank_partition(s);
    lemma_count_bounds(s, 0);
    let z = zeros_weight(s);
    assert(z * (z + 1) >= 0) by (nonlinear_arith)
        requires
            z >= 0,
    ;
    lemma_rank_sum_total(s);
}

/// A single entry's signed rank terms are non-negative and below its whole
/// rank term.
proof fn lemma_nonneg_rank_term(s: Seq<RankEntry>, e: RankEntry)
    ensures
        0 <= (if e.key > 0 && e.tag == 0 {
            e.weight * rank_doubled(s, e.key)
        } else {
            0
        }) <= e.weight * rank_doubled(s, e.key),
        0 <= (if e.key > 0 && e.tag != 0 {
            e.weight * rank_doubled(s, e.key)
        } else {
            0
        }) <= e.weight * rank_doubled(s, e.key),
{
    let zero_fn = crate::ranks::zero_term();
    lemma_sum_map_le(s, zero_fn, crate::ranks::below_term(e.key));
    lemma_sum_map_le(s, zero_fn, at_term(e.key));
    crate::sums::lemma_sum_map_zero(s, zero_fn);
    assert(rank_doubled(s, e.key) >= 1);
    assert(e.weight * rank_doubled(s, e.key) >= 0) by (nonlinear_arith)
        requires
            e.weight >= 0,
            rank_doubled(s, e.key) >= 1,
    ;
}

/// Which ordering of the differences by absolute value to use: the
/// comparison sort, or the radix path over the key's binary digits.  Both
/// produce a sorted permutation, and the rank engine gives equal keys equal
/// midranks, so the choice never changes the outcome.
#[derive(Clone, Copy, Debug, PartialEq, Eq, Structural)]
pub enum SortStrategy {
    Comparison,
    Radix,
}

/// Run the signed-rank pipeline on ready-made difference entries: sort by
/// absolute difference with the chosen strategy, resolve ties, accumulate
/// the signed rank sums and the zero weight, and consult the distribution
/// of W at the smaller sum.  The outcome does not depend on the strategy.
pub fn paired_diffs(diffs: Vec<RankEntry>, strategy: SortStrategy) -> (r: Result<
    WilcoxonWTest,
    TestError,
>)
    requires
        valid_weights(diffs@),
        total_weight(diffs@) <= MAX_TOTAL_WEIGHT,
    ensures
        wilcoxon_outcome(diffs@, r),
{
    let ghost d = diffs@;
    if diffs.len() == 0 {
        return Err(TestError::EmptyInput);
    }
    proof {
        lemma_count_bounds(d, 0);
    }
    let sorted = match strategy {
        SortStrategy::Comparison => crate::sorting::sort_by_key(diffs),
        SortStrategy::Radix => crate::sorting::radix_sort_by_key(diffs),
    };
    proof {
        assert(valid_weights(sorted@)) by {
            lemma_sorted_weights(d, sorted@);
        }
        lemma_counts_permutation(d, sorted@, 0);
    }
    let (ranks2, tie) = ranks_of_sorted(&sorted);
    proof {
        lemma_sum_map_permutation(sorted@, d, tie_term(sorted@));
        assert forall|i: int| 0 <= i < d.len() implies #[trigger] tie_term(sorted@)(d[i])
            == tie_term(d)(d[i]) by {
            lemma_counts_permutation(sorted@, d, d[i].key);
        }
        lemma_sum_map_pointwise(d, d, tie_term(sorted@), tie_term(d));
        assert(tie == tie_correction_spec(d));
    }
    let n = sorted.len();
    let mut wm: u64 = 0;
    let mut wp: u64 = 0;
    let mut zeros: u64 = 0;
    let mut wt: u64 = 0;
    let mut t: usize = 0;
    proof {
        assert(sorted@.subrange(0, 0) =~= Seq::<RankEntry>::empty());
    }
    while t < n
        invariant
            0 <= t <= n,
            n == sorted@.len() == ranks2@.len(),
            valid_weights(sorted@),
            total_weight(sorted@) <= MAX_TOTAL_WEIGHT,
            forall|u: int|
                0 <= u < n ==> #[trigger] ranks2@[u] as int == rank_doubled(
                    sorted@,
                    sorted@[u].key,
                ),
            wm == sum_map(sorted@.subrange(0, t as int), neg_term(sorted@)),
            wp == sum_map(sorted@.subrange(0, t as int), pos_term(sorted@)),
            zeros == sum_map(sorted@.subrange(0, t as int), at_term(0)),
            wt == total_weight(sorted@.subrange(0, t as int)),
        decreases n - t,
    {
        let e = sorted[t];
        let r2 = ranks2[t];
        proof {
            let s = sorted@;
            let w_all = total_weight(s);
            assert(s.subrange(0, t + 1) =~= s.subrange(0, t as int) + seq![s[t as int]]);
            lemma_sum_map_app(s.subrange(0, t as int), seq![s[t as int]], neg_term(s));
            lemma_sum_map_app(s.subrange(0, t as int), seq![s[t as int]], pos_term(s));
            lemma_sum_map_app(s.subrange(0, t as int), seq![s[t as int]], at_term(0));
            lemma_sum_map_app(s.subrange(0, t as int), seq![s[t as int]], weight_term());
            lemma_sum_map_singleton(s[t as int], neg_term(s));
            lemma_sum_map_singleton(s[t as int], pos_term(s));
            lemma_sum_map_singleton(s[t as int], at_term(0));
            lemma_sum_map_singleton(s[t as int], weight_term());
            lemma_accum_bounds(s, t as int);
            lemma_accum_bounds(s, t + 1);
            lemma_subrange_weight(s, 0, t as int);
            lemma_subrange_weight(s, 0, t + 1);
            lemma_count_bounds(s, e.key);
            assert(w_all * (w_all + 1) <= MAX_TOTAL_WEIGHT * (MAX_TOTAL_WEIGHT + 1))
                by (nonlinear_arith)
                requires
                    0 <= w_all <= MAX_TOTAL_WEIGHT,
            ;
            assert(r2 * e.weight == e.weight * r2) by (nonlinear_arith);
        }
        if e.key == 0 {
            zeros = zeros + e.weight;
        } else if e.tag == 0 {
            wm = wm + r2 * e.weight;
        } else {
            wp = wp + r2 * e.weight;
        }
        wt = wt + e.weight;
        t = t + 1;
    }
    proof {
        let s = sorted@;
        assert(s.subrange(0, n as int) =~= s);
        lemma_sum_map_permutation(s, d, neg_term(s));
        lemma_sum_map_permutation(s, d, pos_term(s));
        assert forall|i: int| 0 <= i < d.len() implies #[trigger] neg_term(s)(d[i]) == neg_term(d)(
            d[i],
        ) by {
            lemma_counts_permutation(s, d, d[i].key);
        }
        assert forall|i: int| 0 <= i < d.len() implies #[trigger] pos_term(s)(d[i]) == pos_term(d)(
            d[i],
        ) by {
            lemma_counts_permutation(s, d, d[i].key);
        }
        lemma_sum_map_pointwise(d, d, neg_term(s), neg_term(d));
        lemma_sum_map_pointwise(d, d, pos_term(s), pos_term(d));
        lemma_counts_permutation(s, d, 0);
        lemma_accum_bounds(d, d.len() as int);
        lemma_count_bounds(d, 0);
    }
    let w_small = if wm <= wp {
        wm
    } else {
        wp
    };
    let dist = match SignedRank::new(wt as usize, zeros as usize, tie) {
        Ok(dist) => dist,
        Err(_) => {
            return Err(TestError::BadDistribution);
        },
    };
    proof {
        if dist.approximation is Exact {
            lemma_signed_rank_partition(d);
            let z = zeros_weight(d);
            assert(z * (z + 1) >= 0) by (nonlinear_arith)
                requires
                    z >= 0,
            ;
        }
        let w_all = total_weight(d);
        assert(w_all * (w_all + 1) <= MAX_TOTAL_WEIGHT * (MAX_TOTAL_WEIGHT + 1))
            by (nonlinear_arith)
            requires
                0 <= w_all <= MAX_TOTAL_WEIGHT,
        ;
    }
    let p_value = dist.cdf(w_small);
    Ok(
        WilcoxonWTest {
            estimate: (wm, wp),
            effect_size: (w_small, wt * (wt + 1)),
            p_value,
        },
    )
}

/// A permutation of entries with positive weights has positive weights.
proof fn lemma_sorted_weights(d: Seq<RankEntry>, s: Seq<RankEntry>)
    requires
        valid_weights(d),
        d.to_multiset() == s.to_multiset(),
    ensures
        valid_weights(s),
{
    broadcast use vstd::seq_lib::group_to_multiset_ensures;

    assert forall|i: int| 0 <= i < s.len() implies 1 <= #[trigger] s[i].weight by {
        assert(s.contains(s[i]));
        assert(d.to_multiset().count(s[i]) > 0);
        assert(d.contains(s[i]));
    }
}

/// The absolute difference of two signed values, exact in `u64`.
pub open spec fn abs_diff(a: i64, b: i64) -> u64 {
    if a >= b {
        (a - b) as u64
    } else {
        (b - a) as u64
    }
}

/// Computes [`abs_diff`].
pub fn to_abs_diff(a: i64, b: i64) -> (r: u64)
    ensures
        r == abs_diff(a, b),
{
    let wide = (a as i128) - (b as i128);
    if wide >= 0 {
        wide as u64
    } else {
        (-wide) as u64
    }
}

/// The difference entries of two paired samples at unit weight: the key is
/// the absolute difference, the tag is zero exactly for a negative
/// difference.
pub open spec fn diff_entries(x: Seq<i64>, y: Seq<i64>) -> Seq<RankEntry> {
    Seq::new(
        x.len(),
        |i: int|
            RankEntry {
                key: abs_diff(x[i], y[i]),
                weight: 1,
                tag: if x[i] < y[i] {
                    0
                } else {
                    1
                },
            },
    )
}

/// The difference entries of two paired samples with per-pair occurrence
/// weights.
pub open spec fn weighted_diff_entries(x: Seq<i64>, y: Seq<i64>, w: Seq<u64>) -> Seq<RankEntry> {
    Seq::new(
        x.len(),
        |i: int|
            RankEntry {
                key: abs_diff(x[i], y[i]),
                weight: w[i],
                tag: if x[i] < y[i] {
                    0
                } else {
                    1
                },
            },
    )
}

impl WilcoxonWTest {
    /// Run the Wilcoxon signed-rank test on the paired samples `x` and `y`.
    /// Fails with `LengthMismatch` when the samples differ in length, with
    /// `EmptyInput` when they are empty, and with `BadDistribution` when the
    /// normal approximation's variance is not positive; otherwise the
    /// outcome is exactly the one [`wilcoxon_outcome`] describes for the
    /// differences `x - y`.
    pub fn paired(x: &Vec<i64>, y: &Vec<i64>) -> (r: Result<WilcoxonWTest, TestError>)
        requires
            x@.len() <= MAX_TOTAL_WEIGHT,
        ensures
            x@.len() != y@.len() ==> r == Err::<WilcoxonWTest, TestError>(TestError::LengthMismatch),
            x@.len() == y@.len() ==> wilcoxon_outcome(diff_entries(x@, y@), r),
    {
        Self::paired_with(x, y, SortStrategy::Comparison)
    }

    /// The raw test with the radix ordering of the differences; byte for
    /// byte the same outcome as [`WilcoxonWTest::paired`].
    pub fn voracious_paired(x: &Vec<i64>, y: &Vec<i64>) -> (r: Result<WilcoxonWTest, TestError>)
        requires
            x@.len() <= MAX_TOTAL_WEIGHT,
        ensures
            x@.len() != y@.len() ==> r == Err::<WilcoxonWTest, TestError>(TestError::LengthMismatch),
            x@.len() == y@.len() ==> wilcoxon_outcome(diff_entries(x@, y@), r),
    {
        Self::paired_with(x, y, SortStrategy::Radix)
    }

    /// The raw pipeline, generic in the sort strategy.
    fn paired_with(x: &Vec<i64>, y: &Vec<i64>, strategy: SortStrategy) -> (r: Result<
        WilcoxonWTest,
        TestError,
    >)
        requires
            x@.len() <= MAX_TOTAL_WEIGHT,
        ensures
            x@.len() != y@.len() ==> r == Err::<WilcoxonWTest, TestError>(TestError::LengthMismatch),
            x@.len() == y@.len() ==> wilcoxon_outcome(diff_entries(x@, y@), r),
    {
        if x.len() != y.len() {
            return Err(TestError::LengthMismatch);
        }
        let ghost d = diff_entries(x@, y@);
        let n = x.len();
        let mut diffs: Vec<RankEntry> = Vec::new();
        let mut i: usize = 0;
        while i < n
            invariant
                0 <= i <= n,
                n == x@.len() == y@.len(),
                diffs@.len() == i,
                forall|t: int| 0 <= t < i ==> #[trigger] diffs@[t] == diff_entries(x@, y@)[t],
            decreases n - i,
        {
            let key = to_abs_diff(x[i], y[i]);
            let tag: u64 = if x[i] < y[i] {
                0
            } else {
                1
            };
            diffs.push(RankEntry { key, weight: 1, tag });
            i = i + 1;
        }
        proof {
            assert(diffs@ =~= d);
            lemma_unit_weight_total(d);
        }
        paired_diffs(diffs, strategy)
    }

    /// Run the weighted Wilcoxon signed-rank test: each pair carries a
    /// strictly positive occurrence weight, and the test behaves as if the
    /// pair were repeated that many times.
    pub fn weighted_paired(x: &Vec<i64>, y: &Vec<i64>, weights: &Vec<u64>) -> (r: Result<
        WilcoxonWTest,
        TestError,
    >)
        requires
            forall|i: int| 0 <= i < weights@.len() ==> 1 <= #[trigger] weights@[i],
            x@.len() == weights@.len() ==> total_weight(weighted_diff_entries(x@, y@, weights@))
                <= MAX_TOTAL_WEIGHT,
        ensures
            x@.len() != y@.len() || x@.len() != weights@.len() ==> r == Err::<
                WilcoxonWTest,
                TestError,
            >(TestError::LengthMismatch),
            x@.len() == y@.len() && x@.len() == weights@.len() ==> wilcoxon_outcome(
                weighted_diff_entries(x@, y@, weights@),
                r,
            ),
    {
        if x.len() != y.len() || x.len() != weights.len() {
            return Err(TestError::LengthMismatch);
        }
        let ghost d = weighted_diff_entries(x@, y@, weights@);
        let n = x.len();
        let mut diffs: Vec<RankEntry> = Vec::new();
        let mut i: usize = 0;
        while i < n
            invariant
                0 <= i <= n,
                n == x@.len() == y@.len() == weights@.len(),
                diffs@.len() == i,
                forall|t: int|
                    0 <= t < i ==> #[trigger] diffs@[t] == weighted_diff_entries(
                        x@,
                        y@,
                        weights@,
                    )[t],
            decreases n - i,
        {
            let key = to_abs_diff(x[i], y[i]);
            let tag: u64 = if x[i] < y[i] {
                0
            } else {
                1
            };
            diffs.push(RankEntry { key, weight: weights[i], tag });
            i = i + 1;
        }
        proof {
            assert(diffs@ =~= d);
        }
        paired_diffs(diffs, SortStrategy::Comparison)
    }
}

/// The largest absolute difference among the first `i` pairs.
pub open spec fn max_abs_upto(x: Seq<i64>, y: Seq<i64>, i: int) -> u64
    decreases i,
{
    if i <= 0 {
        0
    } else if abs_diff(x[i - 1], y[i - 1]) > max_abs_upto(x, y, i - 1) {
        abs_diff(x[i - 1], y[i - 1])
    } else {
        max_abs_upto(x, y, i - 1)
    }
}

/// The largest absolute difference of the paired samples: the quantization
/// scale.
pub open spec fn max_abs_diff(x: Seq<i64>, y: Seq<i64>) -> u64 {
    max_abs_upto(x, y, x.len() as int)
}

/// Every pair's absolute difference is at most the scale.
pub proof fn lemma_max_abs_bounds(x: Seq<i64>, y: Seq<i64>, i: int, j: int)
    requires
        0 <= i < j,
    ensures
        abs_diff(x[i], y[i]) <= max_abs_upto(x, y, j),
    decreases j,
{
    if i < j - 1 {
        lemma_max_abs_bounds(x, y, i, j - 1);
    }
}

/// A bound on every pair's absolute difference bounds the scale.
pub proof fn lemma_max_abs_le(x: Seq<i64>, y: Seq<i64>, j: int, bound: u64)
    requires
        forall|t: int| 0 <= t < j ==> #[trigger] abs_diff(x[t], y[t]) <= bound,
    ensures
        max_abs_upto(x, y, j) <= bound,
    decreases j,
{
    if j > 0 {
        lemma_max_abs_le(x, y, j - 1, bound);
    }
}

/// The quantized difference of one pair: the signed difference mapped onto
/// the symmetric range of `i32` by the scale.
pub open spec fn quantized_diff(x: Seq<i64>, y: Seq<i64>, i: int) -> i32 {
    <i32 as crate::numeric::Quantize<i64>>::quantize_spec(
        (x[i] - y[i]) as i64,
        max_abs_diff(x, y) as i64,
    )
}

/// The difference entries of the quantized path: each signed difference is
/// quantized onto `i32` by the batch's largest absolute difference, and the
/// quantized value's magnitude and sign drive the test.
pub open spec fn quantized_entries(x: Seq<i64>, y: Seq<i64>) -> Seq<RankEntry> {
    Seq::new(
        x.len(),
        |i: int|
            RankEntry {
                key: (if quantized_diff(x, y, i) >= 0 {
                    quantized_diff(x, y, i) as int
                } else {
                    -(quantized_diff(x, y, i) as int)
                }) as u64,
                weight: 1,
                tag: if quantized_diff(x, y, i) < 0 {
                    0
                } else {
                    1
                },
            },
    )
}

/// What the quantized test must return: the length and emptiness errors as
/// in the raw test; when every difference is zero the fixed degenerate
/// outcome (empty estimate, zero effect, p-value one); otherwise exactly
/// the outcome of the pipeline on the quantized differences.
pub open spec fn quantized_outcome(
    x: Seq<i64>,
    y: Seq<i64>,
    r: Result<WilcoxonWTest, TestError>,
) -> bool {
    if x.len() == 0 {
        r == Err::<WilcoxonWTest, TestError>(TestError::EmptyInput)
    } else if max_abs_diff(x, y) == 0 {
        r matches Ok(t) && t.estimate == (0u64, 0u64) && t.effect_size == (
            0u64,
            (x.len() * (x.len() + 1)) as u64,
        ) && t.p_value == (DistributionValue::Exact { numerator: 1, log2_denominator: 0 })
    } else {
        wilcoxon_outcome(quantized_entries(x, y), r)
    }
}

impl WilcoxonWTest {
    /// Run the Wilcoxon signed-rank test on quantized differences: compute
    /// the scale `max |x_i - y_i|`, map each difference onto the symmetric
    /// range of `i32` by that scale, and test the quantized values.  When
    /// every difference is zero, the estimate is `(0, 0)`, the effect size
    /// zero and the p-value one.
    pub fn quantized_paired(x: &Vec<i64>, y: &Vec<i64>) -> (r: Result<WilcoxonWTest, TestError>)
        requires
            x@.len() <= MAX_TOTAL_WEIGHT,
            forall|i: int|
                0 <= i < x@.len() && x@.len() == y@.len() ==> #[trigger] abs_diff(x@[i], y@[i])
                    <= i64::MAX as u64,
        ensures
            x@.len() != y@.len() ==> r == Err::<WilcoxonWTest, TestError>(TestError::LengthMismatch),
            x@.len() == y@.len() ==> quantized_outcome(x@, y@, r),
    {
        Self::quantized_with(x, y, SortStrategy::Comparison)
    }

    /// The quantized test with the radix ordering of the differences; byte
    /// for byte the same outcome as [`WilcoxonWTest::quantized_paired`].
    pub fn voracious_quantized_paired(x: &Vec<i64>, y: &Vec<i64>) -> (r: Result<
        WilcoxonWTest,
        TestError,
    >)
        requires
            x@.len() <= MAX_TOTAL_WEIGHT,
            forall|i: int|
                0 <= i < x@.len() && x@.len() == y@.len() ==> #[trigger] abs_diff(x@[i], y@[i])
                    <= i64::MAX as u64,
        ensures
            x@.len() != y@.len() ==> r == Err::<WilcoxonWTest, TestError>(TestError::LengthMismatch),
            x@.len() == y@.len() ==> quantized_outcome(x@, y@, r),
    {
        Self::quantized_with(x, y, SortStrategy::Radix)
    }

    /// The quantized pipeline, generic in the sort strategy.
    fn quantized_with(x: &Vec<i64>, y: &Vec<i64>, strategy: SortStrategy) -> (r: Result<
        WilcoxonWTest,
        TestError,
    >)
        requires
            x@.len() <= MAX_TOTAL_WEIGHT,
            forall|i: int|
                0 <= i < x@.len() && x@.len() == y@.len() ==> #[trigger] abs_diff(x@[i], y@[i])
                    <= i64::MAX as u64,
        ensures
            x@.len() != y@.len() ==> r == Err::<WilcoxonWTest, TestError>(TestError::LengthMismatch),
            x@.len() == y@.len() ==> quantized_outcome(x@, y@, r),
    {
        if x.len() != y.len() {
            return Err(TestError::LengthMismatch);
        }
        if x.len() == 0 {
            return Err(TestError::EmptyInput);
        }
        let n = x.len();
        let mut scale: u64 = 0;
        let mut i: usize = 0;
        while i < n
            invariant
                0 <= i <= n,
                n == x@.len() == y@.len(),
                scale == max_abs_upto(x@, y@, i as int),
            decreases n - i,
        {
            let a = to_abs_diff(x[i], y[i]);
            if a > scale {
                scale = a;
            }
            i = i + 1;
        }
        if scale == 0 {
            let n64 = n as u64;
            proof {
                assert(n64 * (n64 + 1) <= MAX_TOTAL_WEIGHT * (MAX_TOTAL_WEIGHT + 1))
                    by (nonlinear_arith)
                    requires
                        0 <= n64 <= MAX_TOTAL_WEIGHT,
                ;
            }
            return Ok(
                WilcoxonWTest {
                    estimate: (0, 0),
                    effect_size: (0, n64 * (n64 + 1)),
                    p_value: DistributionValue::Exact { numerator: 1, log2_denominator: 0 },
                },
            );
        }
        proof {
            lemma_max_abs_le(x@, y@, n as int, i64::MAX as u64);
        }
        let ghost d = quantized_entries(x@, y@);
        let mut diffs: Vec<RankEntry> = Vec::new();
        let mut i: usize = 0;
        while i < n
            invariant
                0 <= i <= n,
                n == x@.len() == y@.len(),
                1 <= scale <= i64::MAX as u64,
                scale == max_abs_diff(x@, y@),
                forall|t: int|
                    0 <= t < n ==> #[trigger] abs_diff(x@[t], y@[t]) <= i64::MAX as u64,
                diffs@.len() == i,
                forall|t: int| 0 <= t < i ==> #[trigger] diffs@[t] == quantized_entries(x@, y@)[t],
            decreases n - i,
        {
            proof {
                lemma_max_abs_bounds(x@, y@, i as int, n as int);
                crate::numeric::lemma_quantize_i32_bounds(
                    (x@[i as int] - y@[i as int]) as i64,
                    scale as i64,
                );
            }
            let wide = (x[i] as i128) - (y[i] as i128);
            let value = wide as i64;
            let q: i32 = crate::numeric::Quantize::<i64>::quantize(value, scale as i64);
            let magnitude: i32 = if q >= 0 {
                q
            } else {
                -q
            };
            let tag: u64 = if q < 0 {
                0
            } else {
                1
            };
            diffs.push(RankEntry { key: magnitude as u64, weight: 1, tag });
            i = i + 1;
        }
        proof {
            assert(diffs@ =~= d);
            lemma_unit_weight_total(d);
        }
        paired_diffs(diffs, strategy)
    }
}

/// The sort-strategy equivalence law: any two results that satisfy the
/// outcome relation for the same differences are equal, so the comparison
/// and the radix paths return identical estimates, effect sizes and
/// p-values, and identical errors.
pub proof fn lemma_sort_strategy_equivalence(
    d: Seq<RankEntry>,
    r1: Result<WilcoxonWTest, TestError>,
    r2: Result<WilcoxonWTest, TestError>,
)
    requires
        wilcoxon_outcome(d, r1),
        wilcoxon_outcome(d, r2),
    ensures
        r1 == r2,
{
    let w = total_weight(d);
    let z = zeros_weight(d);
    let c = tie_correction_spec(d);
    if d.len() == 0 {
    } else if uses_normal(w, z, c) && variance_x48(w - z, c) <= 0 {
    } else {
        let t1 = r1->Ok_0;
        let t2 = r2->Ok_0;
        assert(t1.estimate == t2.estimate);
        assert(t1.effect_size == t2.effect_size);
        assert(t1.p_value == t2.p_value);
    }
}

/// The entries at one index pair carry order-isomorphic keys.
pub open spec fn keys_isomorphic_at(d: Seq<RankEntry>, e: Seq<RankEntry>, i: int, j: int) -> bool {
    (d[i].key < d[j].key) <==> (e[i].key < e[j].key)
}

/// The entries at one index agree on weight, sign tag and zeroness.
pub open spec fn entries_aligned_at(d: Seq<RankEntry>, e: Seq<RankEntry>, i: int) -> bool {
    &&& d[i].weight == e[i].weight
    &&& d[i].tag == e[i].tag
    &&& ((d[i].key == 0) <==> (e[i].key == 0))
}

/// Order blindness of the whole pipeline: two index-aligned difference
/// sequences with equal weights, equal signs, equally placed zeros and
/// order-isomorphic magnitudes produce identical rank sums, zero weight,
/// tie correction and total, and therefore identical test outcomes.
pub proof fn lemma_order_isomorphic_diffs(d: Seq<RankEntry>, e: Seq<RankEntry>)
    requires
        d.len() == e.len(),
        forall|i: int| 0 <= i < d.len() ==> #[trigger] entries_aligned_at(d, e, i),
        forall|i: int, j: int|
            0 <= i < d.len() && 0 <= j < d.len() ==> #[trigger] keys_isomorphic_at(d, e, i, j),
    ensures
        total_weight(d) == total_weight(e),
        zeros_weight(d) == zeros_weight(e),
        tie_correction_spec(d) == tie_correction_spec(e),
        w_minus_doubled(d) == w_minus_doubled(e),
        w_plus_doubled(d) == w_plus_doubled(e),
        forall|r: Result<WilcoxonWTest, TestError>| #[trigger] wilcoxon_outcome(d, r)
            <==> #[trigger] wilcoxon_outcome(e, r),
{
    assert forall|i: int| 0 <= i < d.len() implies rank_doubled(d, #[trigger] d[i].key)
        == rank_doubled(e, e[i].key) && weight_at(d, d[i].key) == weight_at(e, e[i].key) by {
        assert forall|j: int| 0 <= j < d.len() implies #[trigger] below_term(d[i].key)(d[j])
            == below_term(e[i].key)(e[j]) by {
            assert(keys_isomorphic_at(d, e, j, i));
            assert(entries_aligned_at(d, e, j));
        }
        assert forall|j: int| 0 <= j < d.len() implies #[trigger] at_term(d[i].key)(d[j])
            == at_term(e[i].key)(e[j]) by {
            assert(keys_isomorphic_at(d, e, j, i));
            assert(keys_isomorphic_at(d, e, i, j));
            assert(entries_aligned_at(d, e, j));
        }
        lemma_sum_map_pointwise(d, e, below_term(d[i].key), below_term(e[i].key));
        lemma_sum_map_pointwise(d, e, at_term(d[i].key), at_term(e[i].key));
    }
    assert forall|i: int| 0 <= i < d.len() implies #[trigger] weight_term()(d[i]) == weight_term()(
        e[i],
    ) by {
        assert(entries_aligned_at(d, e, i));
    }
    lemma_sum_map_pointwise(d, e, weight_term(), weight_term());
    assert forall|i: int| 0 <= i < d.len() implies #[trigger] at_term(0)(d[i]) == at_term(0)(
        e[i],
    ) by {
        assert(entries_aligned_at(d, e, i));
    }
    lemma_sum_map_pointwise(d, e, at_term(0), at_term(0));
    assert forall|i: int| 0 <= i < d.len() implies #[trigger] tie_term(d)(d[i]) == tie_term(e)(
        e[i],
    ) by {
        assert(entries_aligned_at(d, e, i));
    }
    lemma_sum_map_pointwise(d, e, tie_term(d), tie_term(e));
    assert forall|i: int| 0 <= i < d.len() implies #[trigger] neg_term(d)(d[i]) == neg_term(e)(
        e[i],
    ) by {
        assert(entries_aligned_at(d, e, i));
    }
    lemma_sum_map_pointwise(d, e, neg_term(d), neg_term(e));
    assert forall|i: int| 0 <= i < d.len() implies #[trigger] pos_term(d)(d[i]) == pos_term(e)(
        e[i],
    ) by {
        assert(entries_aligned_at(d, e, i));
    }
    lemma_sum_map_pointwise(d, e, pos_term(d), pos_term(e));
}

/// Quantization agreement: when the magnitudes of the differences keep a
/// margin of at least `2 * scale / upper` from zero and from one another,
/// quantization preserves their order, equalities, zeros and signs exactly,
/// so the quantized test and the raw test return the same outcome.
pub proof fn lemma_quantization_agreement(x: Seq<i64>, y: Seq<i64>)
    requires
        x.len() == y.len(),
        0 < max_abs_diff(x, y),
        forall|i: int|
            0 <= i < x.len() ==> #[trigger] abs_diff(x[i], y[i]) <= i64::MAX as u64,
        forall|i: int|
            0 <= i < x.len() ==> #[trigger] abs_diff(x[i], y[i]) == 0 || abs_diff(x[i], y[i])
                * (i32::MAX as int) >= 2 * max_abs_diff(x, y),
        forall|i: int, j: int|
            0 <= i < x.len() && 0 <= j < x.len() && #[trigger] abs_diff(x[i], y[i])
                < #[trigger] abs_diff(x[j], y[j]) ==> (abs_diff(x[j], y[j]) - abs_diff(x[i], y[i]))
                * (i32::MAX as int) >= 2 * max_abs_diff(x, y),
    ensures
        forall|r: Result<WilcoxonWTest, TestError>| #[trigger] wilcoxon_outcome(
            diff_entries(x, y),
            r,
        ) <==> #[trigger] wilcoxon_outcome(quantized_entries(x, y), r),
{
    let d = diff_entries(x, y);
    let e = quantized_entries(x, y);
    let scale = max_abs_diff(x, y) as int;
    let upper = i32::MAX as int;
    lemma_max_abs_le(x, y, x.len() as int, i64::MAX as u64);
    assert forall|i: int| 0 <= i < x.len() implies {
        &&& #[trigger] e[i].key as int == (abs_diff(x[i], y[i]) * upper) / scale
        &&& e[i].tag == d[i].tag
        &&& (e[i].key == 0 <==> d[i].key == 0)
    } by {
        lemma_max_abs_bounds(x, y, i, x.len() as int);
        lemma_quantize_magnitude_public(x[i], y[i], scale);
        if abs_diff(x[i], y[i]) > 0 {
            crate::numeric::lemma_quantize_nonzero(abs_diff(x[i], y[i]) as int, scale, upper);
        }
    }
    assert forall|i: int, j: int|
        0 <= i < d.len() && 0 <= j < d.len() implies #[trigger] keys_isomorphic_at(d, e, i, j) by {
        let ai = abs_diff(x[i], y[i]) as int;
        let aj = abs_diff(x[j], y[j]) as int;
        lemma_max_abs_bounds(x, y, i, x.len() as int);
        lemma_max_abs_bounds(x, y, j, x.len() as int);
        if ai < aj {
            crate::numeric::lemma_quantize_gap(ai, aj, scale, upper);
        }
        if aj < ai {
            crate::numeric::lemma_quantize_gap(aj, ai, scale, upper);
        }
    }
    assert forall|i: int| 0 <= i < d.len() implies #[trigger] entries_aligned_at(d, e, i) by {
        lemma_max_abs_bounds(x, y, i, x.len() as int);
        lemma_quantize_magnitude_public(x[i], y[i], scale);
        if abs_diff(x[i], y[i]) > 0 {
            crate::numeric::lemma_quantize_nonzero(abs_diff(x[i], y[i]) as int, scale, upper);
        }
    }
    lemma_order_isomorphic_diffs(d, e);
}

/// The key and tag of a quantized difference in terms of the magnitude
/// quotient: quantization is odd, so the magnitude of the quantized value
/// is the quantized magnitude, and the sign is the sign of the difference
/// unless the magnitude quantizes to zero.
proof fn lemma_quantize_magnitude_public(a: i64, b: i64, scale: int)
    requires
        0 < scale <= i64::MAX,
        abs_diff(a, b) <= scale,
        abs_diff(a, b) <= i64::MAX as u64,
    ensures
        ({
            let q = <i32 as crate::numeric::Quantize<i64>>::quantize_spec(
                (a - b) as i64,
                scale as i64,
            );
            let mag = (abs_diff(a, b) * (i32::MAX as int)) / scale;
            &&& (if q >= 0 {
                q as int
            } else {
                -(q as int)
            }) == mag
            &&& (q < 0 <==> a < b && mag > 0)
        }),
{
    let v = (a - b) as i64;
    let u = i32::MAX as int;
    crate::numeric::lemma_quantize_i32_bounds(v, scale as i64);
    let dtz = crate::numeric::div_toward_zero(v * u, scale);
    if v >= 0 {
        assert(v * u >= 0) by (nonlinear_arith)
            requires
                v >= 0,
                u > 0,
        ;
        assert(v as int == abs_diff(a, b) as int);
    } else {
        assert(v * u < 0) by (nonlinear_arith)
            requires
                v < 0,
                u > 0,
        ;
        assert(-(v * u) == (-v) * u) by (nonlinear_arith);
        assert((-v) as int == abs_diff(a, b) as int);
        vstd::arithmetic::div_mod::lemma_div_pos_is_pos((-v) * u, scale);
    }
}

/// The effect-size law: `min(W^-, W^+)` is non-negative and at most half
/// the rank sum, so the reported effect size lies in `[0, 1/2]`.
pub proof fn lemma_effect_size_bound(d: Seq<RankEntry>)
    requires
        valid_weights(d),
    ensures
        0 <= w_small_doubled(d),
        2 * w_small_doubled(d) <= total_weight(d) * (total_weight(d) + 1),
{
    lemma_accum_bounds(d, d.len() as int);
    lemma_signed_rank_partition(d);
    let z = zeros_weight(d);
    assert(z * (z + 1) >= 0) by (nonlinear_arith)
        requires
            z >= 0,
    ;
}

/// Unit-weight entries have total weight equal to their count.
proof fn lemma_unit_weight_total(d: Seq<RankEntry>)
    requires
        forall|i: int| 0 <= i < d.len() ==> #[trigger] d[i].weight == 1,
    ensures
        total_weight(d) == d.len(),
        valid_weights(d),
{
    assert forall|i: int| 0 <= i < d.len() implies #[trigger] weight_term()(d[i]) == 1 by {}
    crate::sums::lemma_sum_map_bounds(d, weight_term(), 1, 1);
    assert(1 * d.len() == d.len()) by (nonlinear_arith);
}

} // verus!
