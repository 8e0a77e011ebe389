//! Summation over sequences, and its behaviour under rearrangement.
//!
//! Every quantity this engine conserves is a sum of per-item contributions:
//! the weight schedule's total, a ballot's total weight, a candidate's share
//! across ballots. `sum_map` is the one summation all of them instantiate,
//! and the lemmas here say how such a sum responds to removing an item,
//! permuting the sequence, or mapping it pointwise.

use vstd::prelude::*;

verus! {

broadcast use vstd::seq_lib::group_to_multiset_ensures;

/// The sum of `f` over the elements of `s`.
pub open spec fn sum_map<A>(s: Seq<A>, f: spec_fn(A) -> int) -> int
    decreases s.len(),
{
    if s.len() == 0 {
        0
    } else {
        sum_map(s.drop_last(), f) + f(s.last())
    }
}

/// Appending an element adds exactly its contribution.
pub proof fn lemma_sum_map_push<A>(s: Seq<A>, x: A, f: spec_fn(A) -> int)
    ensures
        sum_map(s.push(x), f) == sum_map(s, f) + f(x),
{
    assert(s.push(x).drop_last() =~= s);
}

/// The sum can equally be peeled off at the front.
pub proof fn lemma_sum_map_first<A>(s: Seq<A>, f: spec_fn(A) -> int)
    requires
        s.len() > 0,
    ensures
        sum_map(s, f) == f(s[0]) + sum_map(s.drop_first(), f),
    decreases s.len(),
{
    assert(sum_map(s, f) == sum_map(s.drop_last(), f) + f(s.last()));
    if s.len() == 1 {
        assert(s.drop_first() =~= Seq::<A>::empty());
        assert(sum_map(s.drop_first(), f) == 0);
        assert(s.drop_last() =~= Seq::<A>::empty());
        assert(sum_map(s.drop_last(), f) == 0);
        assert(s.last() == s[0]);
    } else {
        lemma_sum_map_first(s.drop_last(), f);
        assert(s.drop_last()[0] == s[0]);
        assert(s.drop_last().drop_first() =~= s.drop_first().drop_last());
        assert(s.drop_first().last() == s.last());
        assert(sum_map(s.drop_first(), f) == sum_map(s.drop_first().drop_last(), f) + f(
            s.drop_first().last(),
        ));
    }
}

/// Removing the element at `i` subtracts exactly its contribution.
pub proof fn lemma_sum_map_remove<A>(s: Seq<A>, i: int, f: spec_fn(A) -> int)
    requires
        0 <= i < s.len(),
    ensures
        sum_map(s.remove(i), f) == sum_map(s, f) - f(s[i]),
    decreases s.len(),
{
    if i == s.len() - 1 {
        assert(s.remove(i) =~= s.drop_last());
    } else {
        lemma_sum_map_remove(s.drop_last(), i, f);
        assert(s.remove(i).drop_last() =~= s.drop_last().remove(i));
        assert(s.remove(i).last() == s.last());
    }
}

/// Replacing the element at `i` shifts the sum by the difference of the
/// two contributions.
pub proof fn lemma_sum_map_update<A>(s: Seq<A>, i: int, v: A, f: spec_fn(A) -> int)
    requires
        0 <= i < s.len(),
    ensures
        sum_map(s.update(i, v), f) == sum_map(s, f) - f(s[i]) + f(v),
    decreases s.len(),
{
    if i == s.len() - 1 {
        assert(s.update(i, v).drop_last() =~= s.drop_last());
        assert(s.update(i, v).last() == v);
    } else {
        lemma_sum_map_update(s.drop_last(), i, v, f);
        assert(s.update(i, v).drop_last() =~= s.drop_last().update(i, v));
        assert(s.update(i, v).last() == s.last());
    }
}

/// Summation does not see the order of the sequence: two sequences holding
/// the same elements with the same multiplicities have the same sum.
pub proof fn lemma_sum_map_permutation<A>(s1: Seq<A>, s2: Seq<A>, f: spec_fn(A) -> int)
    requires
        s1.to_multiset() == s2.to_multiset(),
    ensures
        sum_map(s1, f) == sum_map(s2, f),
    decreases s1.len(),
{
    if s1.len() == 0 {
        assert(s2.to_multiset().len() == 0);
    } else {
        let x = s1.last();
        assert(s1.to_multiset().count(x) > 0);
        assert(s2.to_multiset().count(x) > 0);
        assert(s2.contains(x));
        let j = choose|j: int| 0 <= j < s2.len() && s2[j] == x;
        assert(s1.drop_last() =~= s1.remove(s1.len() - 1));
        assert(s1.remove(s1.len() - 1).to_multiset() =~= s1.to_multiset().remove(x));
        assert(s2.remove(j).to_multiset() =~= s2.to_multiset().remove(x));
        lemma_sum_map_permutation(s1.drop_last(), s2.remove(j), f);
        lemma_sum_map_remove(s2, j, f);
    }
}

/// Two sequences whose elements correspond pointwise under `f1` and `f2`
/// have the same sum.
pub proof fn lemma_sum_map_pointwise<A, B>(
    s1: Seq<A>,
    s2: Seq<B>,
    f1: spec_fn(A) -> int,
    f2: spec_fn(B) -> int,
)
    requires
        s1.len() == s2.len(),
        forall|i: int| 0 <= i < s1.len() ==> f1(s1[i]) == f2(s2[i]),
    ensures
        sum_map(s1, f1) == sum_map(s2, f2),
    decreases s1.len(),
{
    if s1.len() > 0 {
        lemma_sum_map_pointwise(s1.drop_last(), s2.drop_last(), f1, f2);
    }
}

/// A sum of contributions that all equal `c` is `len * c`.
pub proof fn lemma_sum_map_const<A>(s: Seq<A>, f: spec_fn(A) -> int, c: int)
    requires
        forall|i: int| 0 <= i < s.len() ==> #[trigger] f(s[i]) == c,
    ensures
        sum_map(s, f) == s.len() * c,
    decreases s.len(),
{
    if s.len() == 0 {
    } else {
        lemma_sum_map_const(s.drop_last(), f, c);
        assert(s.len() * c == (s.len() - 1) * c + c) by (nonlinear_arith);
    }
}

/// A sum of contributions that each lie in `[0, q]` lies in `[0, len * q]`.
pub proof fn lemma_sum_map_bounds<A>(s: Seq<A>, f: spec_fn(A) -> int, q: int)
    requires
        forall|i: int| 0 <= i < s.len() ==> 0 <= #[trigger] f(s[i]) <= q,
    ensures
        0 <= sum_map(s, f) <= s.len() * q,
    decreases s.len(),
{
    if s.len() == 0 {
    } else {
        lemma_sum_map_bounds(s.drop_last(), f, q);
        assert(s.len() * q == (s.len() - 1) * q + q) by (nonlinear_arith);
    }
}

} // verus!
