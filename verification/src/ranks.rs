//! The rank engine: fractional ranks over tied groups, kept exact by
//! doubling, together with the tie-correction statistic.
//!
//! An observation is a [`RankEntry`]: an order key, a positive occurrence
//! weight, and a tag that the caller is free to use (an original position, a
//! sign).  Ranking depends only on the multiset of keys and weights; a
//! maximal group of equal keys with total weight `k`, preceded by total
//! weight `p`, receives the midrank `p + (k + 1) / 2` at every member, which
//! is the doubled rank `2 * p + k + 1`.

use vstd::prelude::*;
use crate::sums::{
    sum_map, lemma_sum_map_app, lemma_sum_map_bounds, lemma_sum_map_le, lemma_sum_map_linear,
    lemma_sum_map_permutation, lemma_sum_map_pointwise, lemma_sum_map_remove,
    lemma_sum_map_nonneg, lemma_sum_map_scaled, lemma_sum_map_zero,
};

verus! {

/// One observation to be ranked: an order key, a strictly positive
/// occurrence weight, and a caller-chosen tag carried along unchanged.
#[derive(Clone, Copy, Debug, PartialEq, Eq, Structural)]
pub struct RankEntry {
    pub key: u64,
    pub weight: u64,
    pub tag: u64,
}

/// The largest total occurrence weight the engine accepts; keeps every
/// intermediate quantity, among them the cubic tie correction, inside `u64`.
pub const MAX_TOTAL_WEIGHT: u64 = 0x10_0000;

/// Keys are non-decreasing.
pub open spec fn sorted_by_key(s: Seq<RankEntry>) -> bool {
    forall|a: int, b: int| 0 <= a < b < s.len() ==> #[trigger] s[a].key <= #[trigger] s[b].key
}

/// Every weight is strictly positive.
pub open spec fn valid_weights(s: Seq<RankEntry>) -> bool {
    forall|i: int| 0 <= i < s.len() ==> 1 <= #[trigger] s[i].weight
}

/// The occurrence weight of an entry.
pub open spec fn weight_term() -> spec_fn(RankEntry) -> int {
    |e: RankEntry| e.weight as int
}

/// The weight of an entry if its key lies below `k`, else zero.
pub open spec fn below_term(k: u64) -> spec_fn(RankEntry) -> int {
    |e: RankEntry|
        if e.key < k {
            e.weight as int
        } else {
            0
        }
}

/// The weight of an entry if its key equals `k`, else zero.
pub open spec fn at_term(k: u64) -> spec_fn(RankEntry) -> int {
    |e: RankEntry|
        if e.key == k {
            e.weight as int
        } else {
            0
        }
}

/// The weight of an entry if its key lies above `k`, else zero.
pub open spec fn above_term(k: u64) -> spec_fn(RankEntry) -> int {
    |e: RankEntry|
        if e.key > k {
            e.weight as int
        } else {
            0
        }
}

/// Total occurrence weight of a sequence of entries.
pub open spec fn total_weight(s: Seq<RankEntry>) -> int {
    sum_map(s, weight_term())
}

/// Total weight of the entries whose key lies strictly below `k`.
pub open spec fn weight_below(s: Seq<RankEntry>, k: u64) -> int {
    sum_map(s, below_term(k))
}

/// Total weight of the entries whose key equals `k`.
pub open spec fn weight_at(s: Seq<RankEntry>, k: u64) -> int {
    sum_map(s, at_term(k))
}

/// Total weight of the entries whose key lies strictly above `k`.
pub open spec fn weight_above(s: Seq<RankEntry>, k: u64) -> int {
    sum_map(s, above_term(k))
}

/// Twice the midrank that key `k` receives among the entries of `s`: with
/// weight `p` strictly below and weight `a` at `k`, the midrank is
/// `p + (a + 1) / 2`, so its double is `2 * p + a + 1`.
pub open spec fn rank_doubled(s: Seq<RankEntry>, k: u64) -> int {
    2 * weight_below(s, k) + weight_at(s, k) + 1
}

/// The tie-correction contribution of one entry: its weight times
/// `a^2 - 1`, where `a` is the total weight tied at its key.  Summed over a
/// tie group of weight `a` this yields the classical `a^3 - a`.
pub open spec fn tie_term(s: Seq<RankEntry>) -> spec_fn(RankEntry) -> int {
    |e: RankEntry| e.weight * (weight_at(s, e.key) * weight_at(s, e.key) - 1)
}

/// The tie correction of `s`: the sum of `a^3 - a` over its tie groups.
pub open spec fn tie_correction_spec(s: Seq<RankEntry>) -> int {
    sum_map(s, tie_term(s))
}

/// The rank-sum contribution of one entry: its weight times its doubled
/// midrank among the entries of `s`.
pub open spec fn wrank_term(s: Seq<RankEntry>) -> spec_fn(RankEntry) -> int {
    |e: RankEntry| e.weight * rank_doubled(s, e.key)
}

/// Counting weights below, at and above a key exhausts the total weight.
pub proof fn lemma_weight_partition(s: Seq<RankEntry>, k: u64)
    ensures
        weight_below(s, k) + weight_at(s, k) + weight_above(s, k) == total_weight(s),
{
    lemma_sum_map_linear(s, at_term(k), above_term(k), ata_term(k), 1, 1);
    lemma_sum_map_linear(s, below_term(k), ata_term(k), weight_term(), 1, 1);
}

/// The weights at and above a key, combined; only used to split sums.
pub open spec fn ata_term(k: u64) -> spec_fn(RankEntry) -> int {
    |e: RankEntry|
        if e.key >= k {
            e.weight as int
        } else {
            0
        }
}

/// All the counting sums are invariant under reordering of the entries.
pub proof fn lemma_counts_permutation(s: Seq<RankEntry>, t: Seq<RankEntry>, k: u64)
    requires
        s.to_multiset() == t.to_multiset(),
    ensures
        total_weight(s) == total_weight(t),
        weight_below(s, k) == weight_below(t, k),
        weight_at(s, k) == weight_at(t, k),
        rank_doubled(s, k) == rank_doubled(t, k),
{
    lemma_sum_map_permutation(s, t, weight_term());
    lemma_sum_map_permutation(s, t, below_term(k));
    lemma_sum_map_permutation(s, t, at_term(k));
}

/// Counting sums over non-negative weights are non-negative and bounded by
/// the total weight.
pub proof fn lemma_count_bounds(s: Seq<RankEntry>, k: u64)
    requires
        valid_weights(s),
    ensures
        0 <= weight_below(s, k) <= total_weight(s),
        0 <= weight_at(s, k) <= total_weight(s),
        0 <= total_weight(s),
        s.len() <= total_weight(s),
{
    let zero_fn = zero_term();
    lemma_sum_map_le(s, zero_fn, below_term(k));
    lemma_sum_map_le(s, zero_fn, at_term(k));
    lemma_sum_map_zero(s, zero_fn);
    lemma_sum_map_le(s, below_term(k), weight_term());
    lemma_sum_map_le(s, at_term(k), weight_term());
    lemma_sum_map_le(s, one_term(), weight_term());
    lemma_sum_map_bounds(s, one_term(), 1, 1);
    assert(1 * s.len() == s.len()) by (nonlinear_arith);
}

/// The everywhere-zero term.
pub open spec fn zero_term() -> spec_fn(RankEntry) -> int {
    |e: RankEntry| 0
}

/// The everywhere-one term; sums to the length.
pub open spec fn one_term() -> spec_fn(RankEntry) -> int {
    |e: RankEntry| 1
}

/// Splitting a sequence at a run of key `k` evaluates the counting sums:
/// everything before the run lies below `k`, the run carries the weight at
/// `k`, and everything after lies above.
pub proof fn lemma_run_counts(s: Seq<RankEntry>, k: u64, i: int, j: int)
    requires
        0 <= i <= j <= s.len(),
        forall|t: int| 0 <= t < i ==> #[trigger] s[t].key < k,
        forall|t: int| i <= t < j ==> #[trigger] s[t].key == k,
        forall|t: int| j <= t < s.len() ==> #[trigger] s[t].key > k,
    ensures
        weight_below(s, k) == total_weight(s.subrange(0, i)),
        weight_at(s, k) == total_weight(s.subrange(i, j)),
{
    let prefix = s.subrange(0, i);
    let run = s.subrange(i, j);
    let suffix = s.subrange(j, s.len() as int);
    assert(s =~= prefix + run + suffix);
    lemma_sum_map_app(prefix + run, suffix, below_term(k));
    lemma_sum_map_app(prefix, run, below_term(k));
    lemma_sum_map_app(prefix + run, suffix, at_term(k));
    lemma_sum_map_app(prefix, run, at_term(k));
    lemma_sum_map_pointwise(prefix, prefix, below_term(k), weight_term());
    lemma_sum_map_zero(run, below_term(k));
    lemma_sum_map_zero(suffix, below_term(k));
    lemma_sum_map_zero(prefix, at_term(k));
    lemma_sum_map_pointwise(run, run, at_term(k), weight_term());
    lemma_sum_map_zero(suffix, at_term(k));
}

/// The weight of any contiguous piece lies between zero and the total.
pub proof fn lemma_subrange_weight(s: Seq<RankEntry>, a: int, b: int)
    requires
        0 <= a <= b <= s.len(),
    ensures
        0 <= total_weight(s.subrange(a, b)),
        total_weight(s.subrange(0, a)) + total_weight(s.subrange(a, b)) + total_weight(
            s.subrange(b, s.len() as int),
        ) == total_weight(s),
        total_weight(s.subrange(a, b)) <= total_weight(s),
{
    let prefix = s.subrange(0, a);
    let mid = s.subrange(a, b);
    let suffix = s.subrange(b, s.len() as int);
    assert(s =~= prefix + mid + suffix);
    lemma_sum_map_app(prefix + mid, suffix, weight_term());
    lemma_sum_map_app(prefix, mid, weight_term());
    lemma_sum_map_bounds(prefix, weight_term(), 0, u64::MAX as int);
    lemma_sum_map_bounds(mid, weight_term(), 0, u64::MAX as int);
    lemma_sum_map_bounds(suffix, weight_term(), 0, u64::MAX as int);
}

/// An entry's own weight is counted among the weight tied at its key.
pub proof fn lemma_at_counts_member(s: Seq<RankEntry>, t: int)
    requires
        0 <= t < s.len(),
    ensures
        weight_at(s, s[t].key) >= s[t].weight,
{
    lemma_sum_map_remove(s, at_term(s[t].key), t);
    let rest = s.remove(t);
    lemma_sum_map_le(rest, zero_term(), at_term(s[t].key));
    lemma_sum_map_zero(rest, zero_term());
}

/// Every tie-correction term is non-negative, and any prefix sum of them
/// stays between zero and the cube of the total weight.
pub proof fn lemma_tie_prefix_bounds(s: Seq<RankEntry>, j: int)
    requires
        valid_weights(s),
        0 <= j <= s.len(),
    ensures
        0 <= sum_map(s.subrange(0, j), tie_term(s)),
        sum_map(s.subrange(0, j), tie_term(s)) <= tie_correction_spec(s),
        tie_correction_spec(s) <= total_weight(s) * total_weight(s) * total_weight(s),
{
    let w = total_weight(s);
    let f = tie_term(s);
    assert forall|i: int| 0 <= i < s.len() implies 0 <= #[trigger] f(s[i]) <= s[i].weight * (w * w
        - 1) by {
        lemma_at_counts_member(s, i);
        lemma_count_bounds(s, s[i].key);
        let a = weight_at(s, s[i].key);
        assert(1 <= a <= w);
        assert(0 <= a * a - 1 <= w * w - 1) by (nonlinear_arith)
            requires
                1 <= a <= w,
        ;
        assert(0 <= s[i].weight * (a * a - 1) <= s[i].weight * (w * w - 1)) by (nonlinear_arith)
            requires
                s[i].weight >= 1,
                0 <= a * a - 1 <= w * w - 1,
        ;
    }
    let prefix = s.subrange(0, j);
    let suffix = s.subrange(j, s.len() as int);
    assert(s =~= prefix + suffix);
    lemma_sum_map_app(prefix, suffix, f);
    assert forall|u: int| 0 <= u < prefix.len() implies 0 <= #[trigger] f(prefix[u]) by {
        assert(prefix[u] == s[u]);
    }
    assert forall|u: int| 0 <= u < suffix.len() implies 0 <= #[trigger] f(suffix[u]) by {
        assert(suffix[u] == s[j + u]);
    }
    lemma_sum_map_nonneg(prefix, f);
    lemma_sum_map_nonneg(suffix, f);
    lemma_sum_map_le(s, f, tie_cap_term(w * w - 1));
    assert forall|u: int| 0 <= u < s.len() implies #[trigger] tie_cap_term(w * w - 1)(s[u]) == (w
        * w - 1) * weight_term()(s[u]) by {
        assert(s[u].weight * (w * w - 1) == (w * w - 1) * s[u].weight) by (nonlinear_arith);
    }
    lemma_sum_map_scaled(s, tie_cap_term(w * w - 1), weight_term(), w * w - 1);
    lemma_count_bounds(s, 0);
    assert((w * w - 1) * w <= w * w * w) by (nonlinear_arith)
        requires
            w >= 0,
    ;
}

/// A weight scaled by a fixed factor; only used to bound sums.
pub open spec fn tie_cap_term(c: int) -> spec_fn(RankEntry) -> int {
    |e: RankEntry| e.weight * c
}

/// Walk a sorted sequence of entries and give every entry its doubled
/// midrank, together with the tie correction `sum of (a^3 - a)` over the tie
/// groups.  This is the single linear pass that resolves ties: a maximal run
/// of equal keys of total weight `a` after total weight `p` receives the
/// doubled rank `2 * p + a + 1` at every member.
pub fn ranks_of_sorted(sorted: &Vec<RankEntry>) -> (r: (Vec<u64>, u64))
    requires
        sorted_by_key(sorted@),
        valid_weights(sorted@),
        total_weight(sorted@) <= MAX_TOTAL_WEIGHT,
    ensures
        r.0@.len() == sorted@.len(),
        forall|t: int|
            0 <= t < sorted@.len() ==> r.0@[t] == rank_doubled(sorted@, sorted@[t].key),
        r.1 == tie_correction_spec(sorted@),
{
    let n = sorted.len();
    let mut ranks2: Vec<u64> = Vec::new();
    let mut tie: u64 = 0;
    let mut cum: u64 = 0;
    let mut i: usize = 0;
    proof {
        assert(sorted@.subrange(0, 0) =~= Seq::<RankEntry>::empty());
    }
    while i < n
        invariant
            sorted_by_key(sorted@),
            valid_weights(sorted@),
            total_weight(sorted@) <= MAX_TOTAL_WEIGHT,
            n == sorted@.len(),
            0 <= i <= n,
            ranks2@.len() == i,
            forall|t: int|
                0 <= t < i ==> ranks2@[t] == rank_doubled(sorted@, sorted@[t].key),
            cum == total_weight(sorted@.subrange(0, i as int)),
            tie == sum_map(sorted@.subrange(0, i as int), tie_term(sorted@)),
            i < n ==> forall|t: int| 0 <= t < i ==> #[trigger] sorted@[t].key < sorted@[i as int].key,
        decreases n - i,
    {
        let key = sorted[i].key;
        let mut j = i;
        let mut run_w: u64 = 0;
        while j < n && sorted[j].key == key
            invariant
                sorted_by_key(sorted@),
                valid_weights(sorted@),
                total_weight(sorted@) <= MAX_TOTAL_WEIGHT,
                n == sorted@.len(),
                0 <= i <= j <= n,
                forall|t: int| i <= t < j ==> #[trigger] sorted@[t].key == key,
                run_w == total_weight(sorted@.subrange(i as int, j as int)),
            decreases n - j,
        {
            proof {
                lemma_subrange_weight(sorted@, i as int, j as int);
                lemma_subrange_weight(sorted@, i as int, j as int + 1);
                assert(sorted@.subrange(i as int, j as int + 1) =~= sorted@.subrange(
                    i as int,
                    j as int,
                ) + seq![sorted@[j as int]]);
                lemma_sum_map_app(
                    sorted@.subrange(i as int, j as int),
                    seq![sorted@[j as int]],
                    weight_term(),
                );
                crate::sums::lemma_sum_map_singleton(sorted@[j as int], weight_term());
            }
            run_w = run_w + sorted[j].weight;
            j = j + 1;
        }
        proof {
            assert forall|t: int| 0 <= t < i implies #[trigger] sorted@[t].key < key by {}
            assert forall|t: int| j <= t < n implies #[trigger] sorted@[t].key > key by {
                assert(sorted@[i as int].key <= sorted@[t].key);
                if j < n {
                    assert(sorted@[j as int].key <= sorted@[t].key);
                }
            }
            lemma_run_counts(sorted@, key, i as int, j as int);
            lemma_count_bounds(sorted@, key);
            lemma_weight_partition(sorted@, key);
        }
        let rank2 = 2 * cum + run_w + 1;
        assert(rank2 == rank_doubled(sorted@, key));
        let ghost prev_len = ranks2@.len();
        let mut t = i;
        while t < j
            invariant
                i <= t <= j <= n,
                n == sorted@.len(),
                ranks2@.len() == t,
                forall|u: int|
                    0 <= u < i ==> ranks2@[u] == rank_doubled(sorted@, sorted@[u].key),
                forall|u: int| i <= u < t ==> ranks2@[u] == rank2,
                rank2 == rank_doubled(sorted@, key),
                forall|u: int| i <= u < j ==> #[trigger] sorted@[u].key == key,
            decreases j - t,
        {
            ranks2.push(rank2);
            t = t + 1;
        }
        proof {
            lemma_tie_prefix_bounds(sorted@, i as int);
            lemma_tie_prefix_bounds(sorted@, j as int);
            assert(sorted@.subrange(0, j as int) =~= sorted@.subrange(0, i as int)
                + sorted@.subrange(i as int, j as int));
            lemma_sum_map_app(
                sorted@.subrange(0, i as int),
                sorted@.subrange(i as int, j as int),
                tie_term(sorted@),
            );
            lemma_sum_map_app(
                sorted@.subrange(0, i as int),
                sorted@.subrange(i as int, j as int),
                weight_term(),
            );
            lemma_subrange_weight(sorted@, 0, j as int);
            let run = sorted@.subrange(i as int, j as int);
            assert(weight_at(sorted@, key) == run_w);
            assert forall|u: int| 0 <= u < run.len() implies #[trigger] tie_term(sorted@)(run[u])
                == (run_w * run_w - 1) * weight_term()(run[u]) by {
                assert(run[u] == sorted@[i + u]);
                assert(run[u].key == key);
                assert(weight_at(sorted@, run[u].key) == run_w);
                assert(tie_term(sorted@)(run[u]) == run[u].weight * (run_w * run_w - 1));
                assert(run[u].weight * (run_w * run_w - 1) == (run_w * run_w - 1)
                    * run[u].weight) by (nonlinear_arith);
            }
            lemma_sum_map_scaled(run, tie_term(sorted@), weight_term(), run_w * run_w - 1);
            assert((run_w * run_w - 1) * run_w == run_w * run_w * run_w - run_w)
                by (nonlinear_arith);
            assert(run_w * run_w * run_w <= MAX_TOTAL_WEIGHT * MAX_TOTAL_WEIGHT
                * MAX_TOTAL_WEIGHT) by (nonlinear_arith)
                requires
                    0 <= run_w <= MAX_TOTAL_WEIGHT,
            ;
            assert(total_weight(sorted@) * total_weight(sorted@) * total_weight(sorted@)
                <= MAX_TOTAL_WEIGHT * MAX_TOTAL_WEIGHT * MAX_TOTAL_WEIGHT) by (nonlinear_arith)
                requires
                    0 <= total_weight(sorted@) <= MAX_TOTAL_WEIGHT,
            ;
            lemma_subrange_weight(sorted@, i as int, j as int);
            assert(run_w * run_w * run_w >= run_w) by (nonlinear_arith)
                requires
                    run_w >= 0,
            ;
            assert(run_w * run_w <= MAX_TOTAL_WEIGHT * MAX_TOTAL_WEIGHT) by (nonlinear_arith)
                requires
                    0 <= run_w <= MAX_TOTAL_WEIGHT,
            ;
        }
        tie = tie + (run_w * run_w * run_w - run_w);
        cum = cum + run_w;
        i = j;
    }
    proof {
        assert(sorted@.subrange(0, n as int) =~= sorted@);
    }
    (ranks2, tie)
}

/// The order-preserving embedding of a signed value into the unsigned key
/// space: shifting by `2^63` maps `i64` onto `u64` monotonically.
pub open spec fn signed_key(x: i64) -> u64 {
    (x + 0x8000_0000_0000_0000) as u64
}

/// Computes [`signed_key`].
pub fn to_signed_key(x: i64) -> (k: u64)
    ensures
        k == signed_key(x),
{
    ((x as i128) + 0x8000_0000_0000_0000i128) as u64
}

/// The key embedding preserves order and equality exactly.
pub proof fn lemma_signed_key_monotone(x: i64, y: i64)
    ensures
        x < y <==> signed_key(x) < signed_key(y),
        x == y <==> signed_key(x) == signed_key(y),
{
}

/// One entry per value, at unit weight, tagged with its position.
pub open spec fn unit_entries(values: Seq<i64>) -> Seq<RankEntry> {
    Seq::new(
        values.len(),
        |i: int| RankEntry { key: signed_key(values[i]), weight: 1, tag: i as u64 },
    )
}

/// One entry per weighted value, tagged with its position.
pub open spec fn weighted_entries(values: Seq<(i64, u64)>) -> Seq<RankEntry> {
    Seq::new(
        values.len(),
        |i: int| RankEntry { key: signed_key(values[i].0), weight: values[i].1, tag: i as u64 },
    )
}

/// After sorting a position-tagged sequence, each entry is exactly the
/// original entry at the position its tag names, tags stay distinct, and
/// every original entry is found somewhere.
pub proof fn lemma_sorted_origins(e: Seq<RankEntry>, s: Seq<RankEntry>)
    requires
        e.to_multiset() == s.to_multiset(),
        forall|i: int| 0 <= i < e.len() ==> #[trigger] e[i].tag == i as u64,
        e.len() <= MAX_TOTAL_WEIGHT,
    ensures
        s.len() == e.len(),
        forall|t: int|
            0 <= t < s.len() ==> 0 <= #[trigger] s[t].tag < e.len() && s[t] == e[s[t].tag as int],
        forall|t1: int, t2: int|
            0 <= t1 < t2 < s.len() ==> #[trigger] s[t1].tag != #[trigger] s[t2].tag,
        forall|i: int| 0 <= i < e.len() ==> s.contains(#[trigger] e[i]),
{
    broadcast use vstd::seq_lib::group_to_multiset_ensures;

    assert(e.to_multiset().len() == e.len());
    assert(s.to_multiset().len() == s.len());
    assert(e.no_duplicates()) by {
        assert forall|i: int, j: int|
            0 <= i < e.len() && 0 <= j < e.len() && i != j implies e[i] != e[j] by {
            assert(e[i].tag == i as u64);
            assert(e[j].tag == j as u64);
        }
    }
    e.lemma_multiset_has_no_duplicates();
    s.lemma_multiset_has_no_duplicates_conv();
    assert forall|t: int| 0 <= t < s.len() implies 0 <= #[trigger] s[t].tag < e.len() && s[t]
        == e[s[t].tag as int] by {
        assert(s.contains(s[t]));
        assert(e.to_multiset().count(s[t]) > 0);
        assert(e.contains(s[t]));
        let i = choose|i: int| 0 <= i < e.len() && e[i] == s[t];
        assert(s[t].tag == i as u64);
    }
    assert forall|t1: int, t2: int| 0 <= t1 < t2 < s.len() implies #[trigger] s[t1].tag
        != #[trigger] s[t2].tag by {
        assert(s[t1] != s[t2]);
        if s[t1].tag == s[t2].tag {
            assert(s[t1] == e[s[t1].tag as int]);
            assert(s[t2] == e[s[t2].tag as int]);
        }
    }
    assert forall|i: int| 0 <= i < e.len() implies s.contains(#[trigger] e[i]) by {
        assert(e.contains(e[i]));
        assert(s.to_multiset().count(e[i]) > 0);
    }
}

/// Sort position-tagged entries, resolve ties, and scatter each doubled
/// midrank back to the position its tag names.
fn scatter_ranks(entries: Vec<RankEntry>) -> (r: (Vec<u64>, u64))
    requires
        valid_weights(entries@),
        total_weight(entries@) <= MAX_TOTAL_WEIGHT,
        forall|i: int| 0 <= i < entries@.len() ==> #[trigger] entries@[i].tag == i as u64,
    ensures
        r.0@.len() == entries@.len(),
        forall|i: int|
            0 <= i < entries@.len() ==> #[trigger] r.0@[i] as int == rank_doubled(
                entries@,
                entries@[i].key,
            ),
        r.1 == tie_correction_spec(entries@),
{
    let ghost e = entries@;
    let n = entries.len();
    proof {
        lemma_count_bounds(e, 0);
    }
    let sorted = crate::sorting::sort_by_key(entries);
    proof {
        lemma_sorted_origins(e, sorted@);
        assert(valid_weights(sorted@)) by {
            assert forall|t: int| 0 <= t < sorted@.len() implies 1 <= #[trigger] sorted@[t].weight by {
                assert(sorted@[t] == e[sorted@[t].tag as int]);
            }
        }
        lemma_counts_permutation(e, sorted@, 0);
    }
    let (ranks2, tie) = ranks_of_sorted(&sorted);
    proof {
        lemma_sum_map_permutation(sorted@, e, tie_term(sorted@));
        assert forall|i: int| 0 <= i < e.len() implies #[trigger] tie_term(sorted@)(e[i])
            == tie_term(e)(e[i]) by {
            lemma_counts_permutation(sorted@, e, e[i].key);
        }
        lemma_sum_map_pointwise(e, e, tie_term(sorted@), tie_term(e));
        assert(tie == tie_correction_spec(e));
    }
    let mut out: Vec<u64> = Vec::new();
    while out.len() < n
        invariant
            out@.len() <= n,
        decreases n - out@.len(),
    {
        out.push(0);
    }
    let mut t: usize = 0;
    while t < n
        invariant
            0 <= t <= n,
            n == e.len() == sorted@.len() == ranks2@.len(),
            out@.len() == n,
            e.to_multiset() == sorted@.to_multiset(),
            forall|u: int|
                0 <= u < n ==> 0 <= #[trigger] sorted@[u].tag < n && sorted@[u] == e[sorted@[u].tag as int],
            forall|u1: int, u2: int|
                0 <= u1 < u2 < n ==> #[trigger] sorted@[u1].tag != #[trigger] sorted@[u2].tag,
            forall|u: int|
                0 <= u < n ==> #[trigger] ranks2@[u] as int == rank_doubled(sorted@, sorted@[u].key),
            forall|u: int|
                0 <= u < t ==> #[trigger] out@[sorted@[u].tag as int] == ranks2@[u],
        decreases n - t,
    {
        let idx = sorted[t].tag as usize;
        let val = ranks2[t];
        out.set(idx, val);
        t = t + 1;
    }
    proof {
        assert forall|i: int| 0 <= i < e.len() implies #[trigger] out@[i] as int == rank_doubled(
            e,
            e[i].key,
        ) by {
            assert(sorted@.contains(e[i]));
            let u = choose|u: int| 0 <= u < sorted@.len() && sorted@[u] == e[i];
            assert(sorted@[u].tag == i as u64);
            assert(out@[i] == ranks2@[u]);
            lemma_counts_permutation(sorted@, e, e[i].key);
        }
    }
    (out, tie)
}

/// No weight lies below the zero key.
pub proof fn lemma_weight_below_zero(s: Seq<RankEntry>)
    ensures
        weight_below(s, 0) == 0,
{
    lemma_sum_map_zero(s, below_term(0));
}

/// The rank-sum contribution of one late-appended entry `x` to every earlier
/// entry: twice `x`'s weight where `x` ranks below, once where it ties.
pub open spec fn cross_term(x: RankEntry) -> spec_fn(RankEntry) -> int {
    |e: RankEntry|
        e.weight * (2 * (if x.key < e.key {
            x.weight as int
        } else {
            0
        }) + (if x.key == e.key {
            x.weight as int
        } else {
            0
        }))
}

/// Appending an entry shifts each counting sum by that entry's contribution.
pub proof fn lemma_counts_snoc(u: Seq<RankEntry>, x: RankEntry, k: u64)
    ensures
        weight_below(u.push(x), k) == weight_below(u, k) + (if x.key < k {
            x.weight as int
        } else {
            0
        }),
        weight_at(u.push(x), k) == weight_at(u, k) + (if x.key == k {
            x.weight as int
        } else {
            0
        }),
        total_weight(u.push(x)) == total_weight(u) + x.weight,
{
    assert(u.push(x) =~= u + seq![x]);
    lemma_sum_map_app(u, seq![x], below_term(k));
    lemma_sum_map_app(u, seq![x], at_term(k));
    lemma_sum_map_app(u, seq![x], weight_term());
    crate::sums::lemma_sum_map_singleton(x, below_term(k));
    crate::sums::lemma_sum_map_singleton(x, at_term(k));
    crate::sums::lemma_sum_map_singleton(x, weight_term());
}

/// The fundamental rank-sum identity: over entries of total weight `K`, the
/// weighted doubled midranks add up to exactly `K * (K + 1)` — twice the
/// rank sum `K (K + 1) / 2` — ties or no ties.
pub proof fn lemma_rank_sum_total(s: Seq<RankEntry>)
    ensures
        sum_map(s, wrank_term(s)) == total_weight(s) * (total_weight(s) + 1),
    decreases s.len(),
{
    if s.len() == 0 {
        assert(total_weight(s) == 0);
    } else {
        let u = s.drop_last();
        let x = s.last();
        let xw = x.weight as int;
        assert(s =~= u.push(x));
        assert(s =~= u + seq![x]);
        lemma_rank_sum_total(u);
        lemma_counts_snoc(u, x, x.key);
        lemma_sum_map_app(u, seq![x], wrank_term(s));
        crate::sums::lemma_sum_map_singleton(x, wrank_term(s));
        assert forall|t: int| 0 <= t < u.len() implies #[trigger] wrank_term(s)(u[t]) == 1
            * wrank_term(u)(u[t]) + 1 * cross_term(x)(u[t]) by {
            let e = u[t];
            lemma_counts_snoc(u, x, e.key);
            let b = weight_below(u, e.key);
            let a = weight_at(u, e.key);
            let db = if x.key < e.key {
                xw
            } else {
                0
            };
            let da = if x.key == e.key {
                xw
            } else {
                0
            };
            assert(e.weight * (2 * (b + db) + (a + da) + 1) == e.weight * (2 * b + a + 1)
                + e.weight * (2 * db + da)) by (nonlinear_arith);
        }
        lemma_sum_map_linear(u, wrank_term(u), cross_term(x), wrank_term(s), 1, 1);
        assert forall|t: int| 0 <= t < u.len() implies #[trigger] cross_term(x)(u[t]) == (2 * xw)
            * above_term(x.key)(u[t]) + xw * at_term(x.key)(u[t]) by {
            let e = u[t];
            if x.key < e.key {
                assert(e.weight * (2 * xw + 0) == (2 * xw) * (e.weight as int) + xw * 0)
                    by (nonlinear_arith);
            } else if x.key == e.key {
                assert(e.weight * (2 * 0 + xw) == (2 * xw) * 0 + xw * (e.weight as int))
                    by (nonlinear_arith);
            } else {
                assert(e.weight * (2 * 0 + 0) == (2 * xw) * 0 + xw * 0) by (nonlinear_arith);
            }
        }
        lemma_sum_map_linear(u, above_term(x.key), at_term(x.key), cross_term(x), 2 * xw, xw);
        lemma_weight_partition(u, x.key);
        let wu = total_weight(u);
        let b0 = weight_below(u, x.key);
        let a0 = weight_at(u, x.key);
        let g0 = weight_above(u, x.key);
        assert(wrank_term(s)(x) == xw * (2 * b0 + (a0 + xw) + 1));
        assert(wu * (wu + 1) + ((2 * xw) * g0 + xw * a0) + xw * (2 * b0 + (a0 + xw) + 1) == (wu
            + xw) * ((wu + xw) + 1)) by (nonlinear_arith)
            requires
                b0 + a0 + g0 == wu,
        ;
    }
}

/// The rank sum of `n` unit-weight observations is `n (n + 1) / 2`, stated
/// doubled: the doubled midranks add up to `n (n + 1)`, whether or not the
/// observations are distinct.
pub proof fn lemma_unit_rank_sum(values: Seq<i64>)
    ensures
        sum_map(unit_entries(values), wrank_term(unit_entries(values))) == values.len() * (
        values.len() + 1),
{
    let e = unit_entries(values);
    lemma_rank_sum_total(e);
    assert forall|t: int| 0 <= t < e.len() implies #[trigger] weight_term()(e[t]) == 1 by {}
    lemma_sum_map_bounds(e, weight_term(), 1, 1);
    assert(1 * e.len() == e.len()) by (nonlinear_arith);
}

/// One if the value lies below `v`, else zero: the value-level count term.
pub open spec fn value_lt_term(v: i64) -> spec_fn(i64) -> int {
    |x: i64|
        if x < v {
            1
        } else {
            0
        }
}

/// One if the value equals `v`, else zero.
pub open spec fn value_eq_term(v: i64) -> spec_fn(i64) -> int {
    |x: i64|
        if x == v {
            1
        } else {
            0
        }
}

/// Twice the midrank of the value `v` among `values`: with `p` values
/// strictly below it and `a` values equal to it, the midrank is
/// `p + (a + 1) / 2`, so its double is `2 * p + a + 1`.
pub open spec fn value_rank_doubled(values: Seq<i64>, v: i64) -> int {
    2 * sum_map(values, value_lt_term(v)) + sum_map(values, value_eq_term(v)) + 1
}

/// The midrank over the position-tagged entries is the midrank over the
/// bare values: the key embedding preserves order and equality.
pub proof fn lemma_value_rank(values: Seq<i64>, v: i64)
    ensures
        rank_doubled(unit_entries(values), signed_key(v)) == value_rank_doubled(values, v),
        weight_at(unit_entries(values), signed_key(v)) == sum_map(values, value_eq_term(v)),
{
    let e = unit_entries(values);
    let k = signed_key(v);
    assert forall|i: int| 0 <= i < e.len() implies #[trigger] below_term(k)(e[i]) == value_lt_term(
        v,
    )(values[i]) by {
        lemma_signed_key_monotone(values[i], v);
    }
    lemma_sum_map_pointwise(e, values, below_term(k), value_lt_term(v));
    assert forall|i: int| 0 <= i < e.len() implies #[trigger] at_term(k)(e[i]) == value_eq_term(v)(
        values[i],
    ) by {
        lemma_signed_key_monotone(values[i], v);
    }
    lemma_sum_map_pointwise(e, values, at_term(k), value_eq_term(v));
}

/// Permutation invariance of ranking: a value's midrank depends only on the
/// multiset of observed values, never on their order.  Ranking a permuted
/// input and reading the rank where the value went yields the same rank as
/// ranking the original.
pub proof fn lemma_ranks_permutation(values: Seq<i64>, shuffled: Seq<i64>, i: int, j: int)
    requires
        values.to_multiset() == shuffled.to_multiset(),
        0 <= i < values.len(),
        0 <= j < shuffled.len(),
        values[i] == shuffled[j],
    ensures
        value_rank_doubled(values, values[i]) == value_rank_doubled(shuffled, shuffled[j]),
{
    let v = values[i];
    lemma_sum_map_permutation(values, shuffled, value_lt_term(v));
    lemma_sum_map_permutation(values, shuffled, value_eq_term(v));
}

/// The tie correction is equally order-blind: it depends only on the
/// multiset of observed values.
pub proof fn lemma_tie_correction_permutation(values: Seq<i64>, shuffled: Seq<i64>)
    requires
        values.to_multiset() == shuffled.to_multiset(),
    ensures
        tie_correction_spec(unit_entries(values)) == tie_correction_spec(unit_entries(shuffled)),
{
    let ev = unit_entries(values);
    let es = unit_entries(shuffled);
    assert forall|t: int| 0 <= t < ev.len() implies #[trigger] tie_term(ev)(ev[t])
        == value_tie_term(values)(values[t]) by {
        lemma_value_rank(values, values[t]);
        let a = weight_at(ev, ev[t].key);
        assert(1 * (a * a - 1) == a * a - 1) by (nonlinear_arith);
    }
    lemma_sum_map_pointwise(ev, values, tie_term(ev), value_tie_term(values));
    lemma_sum_map_permutation(values, shuffled, value_tie_term(values));
    assert forall|t: int| 0 <= t < shuffled.len() implies #[trigger] value_tie_term(values)(
        shuffled[t],
    ) == value_tie_term(shuffled)(shuffled[t]) by {
        lemma_sum_map_permutation(values, shuffled, value_eq_term(shuffled[t]));
    }
    lemma_sum_map_pointwise(shuffled, shuffled, value_tie_term(values), value_tie_term(shuffled));
    assert forall|t: int| 0 <= t < es.len() implies #[trigger] tie_term(es)(es[t])
        == value_tie_term(shuffled)(shuffled[t]) by {
        lemma_value_rank(shuffled, shuffled[t]);
        let a = weight_at(es, es[t].key);
        assert(1 * (a * a - 1) == a * a - 1) by (nonlinear_arith);
    }
    lemma_sum_map_pointwise(es, shuffled, tie_term(es), value_tie_term(shuffled));
}

/// The tie-correction contribution of one value among a sequence of values:
/// the squared count of its duplicates, less one.
pub open spec fn value_tie_term(values: Seq<i64>) -> spec_fn(i64) -> int {
    |x: i64| sum_map(values, value_eq_term(x)) * sum_map(values, value_eq_term(x)) - 1
}

/// How many times a value occurs: the occurrence weight that an element
/// carries into the rank engine.
pub trait Occurrence {
    spec fn occurrence_spec(&self) -> usize;

    fn to_occurrence(&self) -> (r: usize)
        ensures
            r == self.occurrence_spec(),
    ;
}

impl Occurrence for () {
    open spec fn occurrence_spec(&self) -> usize {
        1
    }

    fn to_occurrence(&self) -> usize {
        1
    }
}

impl Occurrence for u8 {
    open spec fn occurrence_spec(&self) -> usize {
        *self as usize
    }

    fn to_occurrence(&self) -> usize {
        *self as usize
    }
}

impl Occurrence for u16 {
    open spec fn occurrence_spec(&self) -> usize {
        *self as usize
    }

    fn to_occurrence(&self) -> usize {
        *self as usize
    }
}

impl Occurrence for u32 {
    open spec fn occurrence_spec(&self) -> usize {
        *self as usize
    }

    fn to_occurrence(&self) -> usize {
        *self as usize
    }
}

impl Occurrence for usize {
    open spec fn occurrence_spec(&self) -> usize {
        *self
    }

    fn to_occurrence(&self) -> usize {
        *self
    }
}

/// Ranking of a collection of observations: fractional ranks, doubled to
/// stay exact, and the tie correction `sum of (k^3 - k)` over tie groups.
pub trait Ranks<T> {
    spec fn ranks_req(&self) -> bool;

    spec fn ranks_seq(&self) -> Seq<T>;

    spec fn tie_spec(&self) -> int;

    /// The doubled rank of every observation, in input order, and the tie
    /// correction.
    fn ranks(&self) -> (r: (Vec<T>, u64))
        requires
            self.ranks_req(),
        ensures
            r.0@ == self.ranks_seq(),
            r.1 == self.tie_spec(),
    ;
}

impl Ranks<u64> for Vec<i64> {
    open spec fn ranks_req(&self) -> bool {
        self@.len() <= MAX_TOTAL_WEIGHT
    }

    open spec fn ranks_seq(&self) -> Seq<u64> {
        Seq::new(self@.len(), |i: int| value_rank_doubled(self@, self@[i]) as u64)
    }

    open spec fn tie_spec(&self) -> int {
        tie_correction_spec(unit_entries(self@))
    }

    fn ranks(&self) -> (r: (Vec<u64>, u64)) {
        let ghost e = unit_entries(self@);
        let n = self.len();
        let mut entries: Vec<RankEntry> = Vec::new();
        let mut i: usize = 0;
        while i < n
            invariant
                0 <= i <= n,
                n == self@.len(),
                entries@.len() == i,
                forall|t: int| 0 <= t < i ==> #[trigger] entries@[t] == unit_entries(self@)[t],
            decreases n - i,
        {
            let key = to_signed_key(self[i]);
            entries.push(RankEntry { key, weight: 1, tag: i as u64 });
            i = i + 1;
        }
        proof {
            assert(entries@ =~= e);
            assert forall|t: int| 0 <= t < e.len() implies #[trigger] weight_term()(e[t]) == 1 by {}
            lemma_sum_map_bounds(e, weight_term(), 1, 1);
            assert(1 * e.len() == e.len()) by (nonlinear_arith);
        }
        let (out, tie) = scatter_ranks(entries);
        proof {
            assert forall|i: int| 0 <= i < self@.len() implies #[trigger] out@[i]
                == self.ranks_seq()[i] by {
                lemma_value_rank(self@, self@[i]);
            }
            assert(out@ =~= self.ranks_seq());
        }
        (out, tie)
    }
}

impl Ranks<u64> for Vec<(i64, u64)> {
    open spec fn ranks_req(&self) -> bool {
        &&& forall|i: int| 0 <= i < self@.len() ==> 1 <= #[trigger] self@[i].1
        &&& total_weight(weighted_entries(self@)) <= MAX_TOTAL_WEIGHT
    }

    open spec fn ranks_seq(&self) -> Seq<u64> {
        Seq::new(
            self@.len(),
            |i: int| rank_doubled(weighted_entries(self@), signed_key(self@[i].0)) as u64,
        )
    }

    open spec fn tie_spec(&self) -> int {
        tie_correction_spec(weighted_entries(self@))
    }

    fn ranks(&self) -> (r: (Vec<u64>, u64)) {
        let ghost e = weighted_entries(self@);
        let n = self.len();
        let mut entries: Vec<RankEntry> = Vec::new();
        let mut i: usize = 0;
        while i < n
            invariant
                0 <= i <= n,
                n == self@.len(),
                forall|t: int| 0 <= t < n ==> 1 <= #[trigger] self@[t].1,
                entries@.len() == i,
                forall|t: int| 0 <= t < i ==> #[trigger] entries@[t] == weighted_entries(self@)[t],
            decreases n - i,
        {
            let (value, weight) = self[i];
            let key = to_signed_key(value);
            entries.push(RankEntry { key, weight, tag: i as u64 });
            i = i + 1;
        }
        proof {
            assert(entries@ =~= e);
        }
        let (out, tie) = scatter_ranks(entries);
        proof {
            assert(out@ =~= self.ranks_seq());
        }
        (out, tie)
    }
}

} // verus!
