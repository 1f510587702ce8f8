//! Sums of an integer-valued function over a sequence, with the facts the
//! rank engine needs: sums split over concatenation, agree for pointwise
//! equal functions, are invariant under reordering, and respect bounds.

use vstd::prelude::*;
use vstd::seq_lib::group_to_multiset_ensures;

verus! {

/// Sum of `f` over the elements of `s`.
pub open spec fn sum_map<A>(s: Seq<A>, f: spec_fn(A) -> int) -> int
    decreases s.len(),
{
    if s.len() == 0 {
        0
    } else {
        f(s[0]) + sum_map(s.drop_first(), f)
    }
}

/// A sum over a singleton is the one term.
pub proof fn lemma_sum_map_singleton<A>(x: A, f: spec_fn(A) -> int)
    ensures
        sum_map(seq![x], f) == f(x),
{
    assert(seq![x].drop_first() =~= Seq::<A>::empty());
    assert(seq![x].len() == 1);
    assert(seq![x][0] == x);
    assert(sum_map(Seq::<A>::empty(), f) == 0);
}

/// Sums split over concatenation.
pub proof fn lemma_sum_map_app<A>(a: Seq<A>, b: Seq<A>, f: spec_fn(A) -> int)
    ensures
        sum_map(a + b, f) == sum_map(a, f) + sum_map(b, f),
    decreases a.len(),
{
    if a.len() == 0 {
        assert(a + b =~= b);
    } else {
        assert((a + b).drop_first() =~= a.drop_first() + b);
        assert((a + b)[0] == a[0]);
        lemma_sum_map_app(a.drop_first(), b, f);
    }
}

/// Removing one element removes exactly its term from the sum.
pub proof fn lemma_sum_map_remove<A>(s: Seq<A>, f: spec_fn(A) -> int, i: int)
    requires
        0 <= i < s.len(),
    ensures
        sum_map(s, f) == f(s[i]) + sum_map(s.remove(i), f),
{
    let prefix = s.subrange(0, i);
    let suffix = s.subrange(i + 1, s.len() as int);
    assert(s =~= prefix + seq![s[i]] + suffix);
    assert(s.remove(i) =~= prefix + suffix);
    lemma_sum_map_app(prefix + seq![s[i]], suffix, f);
    lemma_sum_map_app(prefix, seq![s[i]], f);
    lemma_sum_map_app(prefix, suffix, f);
    lemma_sum_map_singleton(s[i], f);
}

/// Sums over index-aligned sequences with pointwise equal terms agree.
pub proof fn lemma_sum_map_pointwise<A, B>(s: Seq<A>, t: Seq<B>, f: spec_fn(A) -> int, g: spec_fn(
    B,
) -> int)
    requires
        s.len() == t.len(),
        forall|i: int| 0 <= i < s.len() ==> #[trigger] f(s[i]) == g(t[i]),
    ensures
        sum_map(s, f) == sum_map(t, g),
    decreases s.len(),
{
    if s.len() > 0 {
        lemma_sum_map_pointwise(s.drop_first(), t.drop_first(), f, g);
    }
}

/// A sum is unchanged by reordering: sequences with equal multisets have
/// equal sums.
pub proof fn lemma_sum_map_permutation<A>(s: Seq<A>, t: Seq<A>, f: spec_fn(A) -> int)
    requires
        s.to_multiset() == t.to_multiset(),
    ensures
        sum_map(s, f) == sum_map(t, f),
    decreases s.len(),
{
    broadcast use group_to_multiset_ensures;

    assert(s.to_multiset().len() == s.len());
    assert(t.to_multiset().len() == t.len());
    if s.len() == 0 {
    } else {
        let x = s[0];
        assert(s.contains(x));
        assert(t.to_multiset().count(x) > 0);
        assert(t.contains(x));
        let j = choose|j: int| 0 <= j < t.len() && t[j] == x;
        assert(s.remove(0).to_multiset() =~= s.to_multiset().remove(x));
        assert(t.remove(j).to_multiset() =~= t.to_multiset().remove(x));
        lemma_sum_map_permutation(s.remove(0), t.remove(j), f);
        lemma_sum_map_remove(s, f, 0);
        lemma_sum_map_remove(t, f, j);
    }
}

/// A sum of termwise-bounded terms is bounded by the count of terms.
pub proof fn lemma_sum_map_bounds<A>(s: Seq<A>, f: spec_fn(A) -> int, lo: int, hi: int)
    requires
        forall|i: int| 0 <= i < s.len() ==> lo <= #[trigger] f(s[i]) <= hi,
    ensures
        lo * s.len() <= sum_map(s, f) <= hi * s.len(),
    decreases s.len(),
{
    if s.len() == 0 {
        assert(lo * 0 == 0) by (nonlinear_arith);
        assert(hi * 0 == 0) by (nonlinear_arith);
    } else {
        lemma_sum_map_bounds(s.drop_first(), f, lo, hi);
        let n = s.len() as int;
        assert(lo * n == lo * (n - 1) + lo) by (nonlinear_arith);
        assert(hi * n == hi * (n - 1) + hi) by (nonlinear_arith);
        assert(s.drop_first().len() == n - 1);
    }
}

/// A sum whose terms are termwise a linear combination of two other sums'
/// terms is that combination of the two sums.
pub proof fn lemma_sum_map_linear<A>(
    s: Seq<A>,
    f: spec_fn(A) -> int,
    g: spec_fn(A) -> int,
    h: spec_fn(A) -> int,
    a: int,
    b: int,
)
    requires
        forall|i: int| 0 <= i < s.len() ==> #[trigger] h(s[i]) == a * f(s[i]) + b * g(s[i]),
    ensures
        sum_map(s, h) == a * sum_map(s, f) + b * sum_map(s, g),
    decreases s.len(),
{
    if s.len() == 0 {
        assert(a * 0 + b * 0 == 0) by (nonlinear_arith);
    } else {
        lemma_sum_map_linear(s.drop_first(), f, g, h, a, b);
        let f0 = f(s[0]);
        let g0 = g(s[0]);
        let fr = sum_map(s.drop_first(), f);
        let gr = sum_map(s.drop_first(), g);
        assert((a * f0 + b * g0) + (a * fr + b * gr) == a * (f0 + fr) + b * (g0 + gr))
            by (nonlinear_arith);
    }
}

/// Sums are monotone under pointwise comparison of the terms.
pub proof fn lemma_sum_map_le<A>(s: Seq<A>, f: spec_fn(A) -> int, g: spec_fn(A) -> int)
    requires
        forall|i: int| 0 <= i < s.len() ==> #[trigger] f(s[i]) <= g(s[i]),
    ensures
        sum_map(s, f) <= sum_map(s, g),
    decreases s.len(),
{
    if s.len() > 0 {
        lemma_sum_map_le(s.drop_first(), f, g);
    }
}

/// A sum whose terms are a common multiple of another sum's terms is that
/// multiple of the other sum.
pub proof fn lemma_sum_map_scaled<A>(s: Seq<A>, f: spec_fn(A) -> int, g: spec_fn(A) -> int, c: int)
    requires
        forall|i: int| 0 <= i < s.len() ==> #[trigger] f(s[i]) == c * g(s[i]),
    ensures
        sum_map(s, f) == c * sum_map(s, g),
    decreases s.len(),
{
    if s.len() == 0 {
        assert(c * 0 == 0) by (nonlinear_arith);
    } else {
        lemma_sum_map_scaled(s.drop_first(), f, g, c);
        let a = g(s[0]);
        let b = sum_map(s.drop_first(), g);
        assert(c * a + c * b == c * (a + b)) by (nonlinear_arith);
    }
}

/// A sum of non-negative terms is non-negative.
pub proof fn lemma_sum_map_nonneg<A>(s: Seq<A>, f: spec_fn(A) -> int)
    requires
        forall|i: int| 0 <= i < s.len() ==> 0 <= #[trigger] f(s[i]),
    ensures
        0 <= sum_map(s, f),
    decreases s.len(),
{
    if s.len() > 0 {
        lemma_sum_map_nonneg(s.drop_first(), f);
    }
}

/// A sum of everywhere-zero terms is zero.
pub proof fn lemma_sum_map_zero<A>(s: Seq<A>, f: spec_fn(A) -> int)
    requires
        forall|i: int| 0 <= i < s.len() ==> #[trigger] f(s[i]) == 0,
    ensures
        sum_map(s, f) == 0,
{
    lemma_sum_map_bounds(s, f, 0, 0);
}

} // verus!
