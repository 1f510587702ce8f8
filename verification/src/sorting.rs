//! The sort stage that precedes ranking: order entries by key ascending.
//!
//! Two interchangeable strategies are provided.  The comparison strategy is
//! an insertion sort; the radix strategy recurses over the binary digits of
//! the key, most significant first, splitting the entries on one digit per
//! level.  Both promise exactly the same thing — a sorted permutation of
//! the input — and the rank engine gives equal keys equal midranks, so the
//! two strategies lead to identical test results.

use vstd::prelude::*;
use vstd::seq_lib::{to_multiset_update, lemma_multiset_commutative};
use vstd::arithmetic::power2::{pow2, lemma_pow2_unfold, lemma_pow2_pos, lemma2_to64, lemma2_to64_rest};
use vstd::arithmetic::div_mod::{lemma_div_denominator, lemma_div_is_ordered, lemma_basic_div};
use vstd::bits::lemma_u64_shl_is_mul;
use crate::ranks::{RankEntry, sorted_by_key};

verus! {

/// Comparison strategy: insertion sort of the entries by key, ascending.
pub fn sort_by_key(entries: Vec<RankEntry>) -> (r: Vec<RankEntry>)
    ensures
        sorted_by_key(r@),
        r@.to_multiset() == entries@.to_multiset(),
        r@.len() == entries@.len(),
{
    broadcast use to_multiset_update, vstd::seq_lib::group_to_multiset_ensures;

    let ghost orig = entries@;
    let mut v = entries;
    if v.len() <= 1 {
        return v;
    }
    let mut i: usize = 1;
    while i < v.len()
        invariant
            1 <= i <= v@.len(),
            v@.len() == orig.len(),
            v@.to_multiset() == orig.to_multiset(),
            forall|a: int, b: int|
                0 <= a < b < i ==> #[trigger] v@[a].key <= #[trigger] v@[b].key,
        decreases v@.len() - i,
    {
        let mut j = i;
        while j > 0 && v[j - 1].key > v[j].key
            invariant
                0 <= j <= i < v@.len(),
                v@.len() == orig.len(),
                v@.to_multiset() == orig.to_multiset(),
                forall|a: int, b: int|
                    0 <= a < b <= i && b != j ==> #[trigger] v@[a].key <= #[trigger] v@[b].key,
            decreases j,
        {
            let ghost before = v@;
            let x = v[j - 1];
            let y = v[j];
            v.set(j - 1, y);
            v.set(j, x);
            proof {
                before.to_multiset_ensures();
                assert(before.contains(x)) by {
                    assert(before[j - 1] == x);
                }
                assert(before.to_multiset().count(x) > 0);
                to_multiset_update(before, j - 1, y);
                to_multiset_update(before.update(j - 1, y), j as int, x);
                assert(v@ == before.update(j - 1, y).update(j as int, x));
                assert(before.update(j - 1, y)[j as int] == y);
                assert(v@.to_multiset() =~= before.to_multiset());
            }
            j = j - 1;
        }
        proof {
            assert forall|a: int, b: int| 0 <= a < b <= i implies #[trigger] v@[a].key
                <= #[trigger] v@[b].key by {
                if b == j && j > 0 {
                    assert(v@[j - 1].key <= v@[j as int].key);
                    if a < j - 1 {
                        assert(v@[a].key <= v@[j - 1].key);
                    }
                }
            }
        }
        i = i + 1;
    }
    v
}

/// The entries of `b` carry the same level-`p` key digits as those of `a`:
/// key-level facts survive reordering.
proof fn lemma_key_level_transfer(a: Seq<RankEntry>, b: Seq<RankEntry>, p: int, v: int)
    requires
        a.to_multiset() == b.to_multiset(),
        forall|i: int| 0 <= i < a.len() ==> #[trigger] (a[i].key as int) / p == v,
    ensures
        forall|i: int| 0 <= i < b.len() ==> #[trigger] (b[i].key as int) / p == v,
{
    broadcast use vstd::seq_lib::group_to_multiset_ensures;

    assert forall|i: int| 0 <= i < b.len() implies #[trigger] (b[i].key as int) / p == v by {
        assert(b.contains(b[i]));
        assert(a.to_multiset().count(b[i]) > 0);
        assert(a.contains(b[i]));
    }
}

/// Radix strategy, the recursive step: all keys agree on the digits above
/// `bit`; distribute the entries on the digit at `bit` — zeros before ones —
/// and recurse on the next digit within each part.
fn radix_split(entries: Vec<RankEntry>, bit: u64) -> (r: Vec<RankEntry>)
    requires
        bit <= 63,
        forall|i: int, j: int|
            0 <= i < entries@.len() && 0 <= j < entries@.len() ==> #[trigger] (
            entries@[i].key as int) / pow2((bit + 1) as nat) as int == #[trigger] (
            entries@[j].key as int) / pow2((bit + 1) as nat) as int,
    ensures
        sorted_by_key(r@),
        r@.to_multiset() == entries@.to_multiset(),
        r@.len() == entries@.len(),
    decreases bit,
{
    broadcast use vstd::seq_lib::group_to_multiset_ensures, vstd::multiset::group_multiset_axioms;

    if entries.len() <= 1 {
        return entries;
    }
    proof {
        lemma_pow2_pos(bit as nat);
        lemma_pow2_pos((bit + 1) as nat);
        lemma2_to64();
        lemma2_to64_rest();
        lemma_u64_shl_is_mul(1u64, bit);
    }
    let divisor: u64 = 1u64 << bit;
    let p2 = Ghost(pow2(bit as nat) as int);
    let common = Ghost((entries@[0].key as int) / pow2((bit + 1) as nat) as int);
    let mut low: Vec<RankEntry> = Vec::new();
    let mut high: Vec<RankEntry> = Vec::new();
    let n = entries.len();
    let mut i: usize = 0;
    while i < n
        invariant
            0 <= i <= n,
            n == entries@.len(),
            bit <= 63,
            1 <= divisor,
            divisor == pow2(bit as nat),
            p2@ == pow2(bit as nat) as int,
            common@ == (entries@[0].key as int) / pow2((bit + 1) as nat) as int,
            forall|a: int, b: int|
                0 <= a < n && 0 <= b < n ==> #[trigger] (entries@[a].key as int) / pow2(
                    (bit + 1) as nat,
                ) as int == #[trigger] (entries@[b].key as int) / pow2((bit + 1) as nat) as int,
            low@.to_multiset().add(high@.to_multiset()) == entries@.subrange(
                0,
                i as int,
            ).to_multiset(),
            forall|t: int| 0 <= t < low@.len() ==> #[trigger] (low@[t].key as int) / p2@ == 2
                * common@,
            forall|t: int| 0 <= t < high@.len() ==> #[trigger] (high@[t].key as int) / p2@ == 2
                * common@ + 1,
        decreases n - i,
    {
        let e = entries[i];
        let q = e.key / divisor;
        proof {
            broadcast use vstd::seq_lib::group_to_multiset_ensures, vstd::multiset::group_multiset_axioms;

            lemma_pow2_pos(bit as nat);
            lemma_pow2_unfold((bit + 1) as nat);
            lemma_div_denominator(e.key as int, p2@, 2);
            vstd::arithmetic::div_mod::lemma_fundamental_div_mod(q as int, 2);
            assert((e.key as int) / pow2((bit + 1) as nat) as int == common@);
            assert(q as int == (e.key as int) / p2@);
            assert((q as int) / 2 == common@);
            let ghost prefix = entries@.subrange(0, i as int);
            assert(entries@.subrange(0, i + 1) =~= prefix.push(entries@[i as int]));
            assert(entries@.subrange(0, i + 1).to_multiset() =~= prefix.to_multiset().insert(e));
        }
        if q % 2 == 0 {
            let ghost before = low@;
            low.push(e);
            proof {
                broadcast use vstd::seq_lib::group_to_multiset_ensures, vstd::multiset::group_multiset_axioms;

                assert(low@.to_multiset() =~= before.to_multiset().insert(e));
                assert(low@.to_multiset().add(high@.to_multiset()) =~= entries@.subrange(
                    0,
                    i + 1,
                ).to_multiset());
            }
        } else {
            let ghost before = high@;
            high.push(e);
            proof {
                broadcast use vstd::seq_lib::group_to_multiset_ensures, vstd::multiset::group_multiset_axioms;

                assert(high@.to_multiset() =~= before.to_multiset().insert(e));
                assert(low@.to_multiset().add(high@.to_multiset()) =~= entries@.subrange(
                    0,
                    i + 1,
                ).to_multiset());
            }
        }
        i = i + 1;
    }
    proof {
        assert(entries@.subrange(0, n as int) =~= entries@);
    }
    let ghost low0 = low@;
    let ghost high0 = high@;
    let sorted_low: Vec<RankEntry>;
    let sorted_high: Vec<RankEntry>;
    if bit == 0 {
        proof {
            assert(pow2(0) == 1) by {
                lemma2_to64();
            }
            assert forall|a: int, b: int|
                0 <= a < b < low@.len() implies #[trigger] low@[a].key <= #[trigger] low@[b].key by {
                assert((low@[a].key as int) / 1 == 2 * common@);
                assert((low@[b].key as int) / 1 == 2 * common@);
            }
            assert forall|a: int, b: int|
                0 <= a < b < high@.len() implies #[trigger] high@[a].key
                <= #[trigger] high@[b].key by {
                assert((high@[a].key as int) / 1 == 2 * common@ + 1);
                assert((high@[b].key as int) / 1 == 2 * common@ + 1);
            }
        }
        sorted_low = low;
        sorted_high = high;
    } else {
        proof {
            lemma_pow2_unfold(bit as nat);
            assert forall|a: int, b: int|
                0 <= a < low0.len() && 0 <= b < low0.len() implies #[trigger] (low0[a].key as int)
                / pow2(bit as nat) as int == #[trigger] (low0[b].key as int) / pow2(
                bit as nat,
            ) as int by {
                assert((low0[a].key as int) / p2@ == 2 * common@);
                assert((low0[b].key as int) / p2@ == 2 * common@);
            }
            assert forall|a: int, b: int|
                0 <= a < high0.len() && 0 <= b < high0.len() implies #[trigger] (
            high0[a].key as int) / pow2(bit as nat) as int == #[trigger] (high0[b].key as int)
                / pow2(bit as nat) as int by {
                assert((high0[a].key as int) / p2@ == 2 * common@ + 1);
                assert((high0[b].key as int) / p2@ == 2 * common@ + 1);
            }
        }
        sorted_low = radix_split(low, bit - 1);
        sorted_high = radix_split(high, bit - 1);
    }
    proof {
        lemma_key_level_transfer(low0, sorted_low@, p2@, 2 * common@);
        lemma_key_level_transfer(high0, sorted_high@, p2@, 2 * common@ + 1);
    }
    let mut out = sorted_low;
    let ghost sorted_low_view = out@;
    let m = high_len_of(&sorted_high);
    let mut j: usize = 0;
    while j < m
        invariant
            0 <= j <= m,
            m == sorted_high@.len(),
            out@ == sorted_low_view + sorted_high@.subrange(0, j as int),
        decreases m - j,
    {
        out.push(sorted_high[j]);
        proof {
            assert(out@ =~= sorted_low_view + sorted_high@.subrange(0, j + 1));
        }
        j = j + 1;
    }
    proof {
        broadcast use vstd::seq_lib::group_to_multiset_ensures, vstd::multiset::group_multiset_axioms;

        assert(out@ =~= sorted_low_view + sorted_high@);
        lemma_multiset_commutative(sorted_low_view, sorted_high@);
        assert(out@.to_multiset() =~= entries@.to_multiset());
        assert(out@.to_multiset().len() == out@.len());
        assert(entries@.to_multiset().len() == entries@.len());
        let ll = sorted_low_view.len() as int;
        assert forall|a: int, b: int|
            0 <= a < b < out@.len() implies #[trigger] out@[a].key <= #[trigger] out@[b].key by {
            if a < ll && b >= ll {
                let ka = out@[a].key as int;
                let kb = out@[b].key as int;
                assert(ka / p2@ == 2 * common@);
                assert(kb / p2@ == 2 * common@ + 1);
                if ka >= kb {
                    lemma_div_is_ordered(kb, ka, p2@);
                }
            }
        }
    }
    out
}

/// The length of a vector of entries; only a name for the loop bound.
fn high_len_of(v: &Vec<RankEntry>) -> (n: usize)
    ensures
        n == v@.len(),
{
    v.len()
}

/// Radix strategy: order the entries by key through their binary digits,
/// most significant first, equivalent in outcome to [`sort_by_key`].
pub fn radix_sort_by_key(entries: Vec<RankEntry>) -> (r: Vec<RankEntry>)
    ensures
        sorted_by_key(r@),
        r@.to_multiset() == entries@.to_multiset(),
        r@.len() == entries@.len(),
{
    proof {
        lemma2_to64();
        assert forall|i: int, j: int|
            0 <= i < entries@.len() && 0 <= j < entries@.len() implies #[trigger] (
        entries@[i].key as int) / pow2(64) as int == #[trigger] (entries@[j].key as int) / pow2(
            64,
        ) as int by {
            lemma_basic_div(entries@[i].key as int, pow2(64) as int);
            lemma_basic_div(entries@[j].key as int, pow2(64) as int);
        }
    }
    radix_split(entries, 63)
}

} // verus!
