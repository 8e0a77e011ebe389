//! The geometric weight schedule.
//!
//! For `p` voters and a fund of `funds` whole units, the schedule has `p - 1`
//! entries, one per rank, each entry worth half the one above it.  Entries are
//! kept as exact numerators over the common denominator
//! `weight_denominator(p) == p * (2^(p-1) - 1)`: rank `j` (zero-based, best
//! first) is worth `2^(p-2-j) * funds` of those parts.  The numerators sum to
//! `funds * (2^(p-1) - 1)`, that is, to exactly `funds / p` once divided by
//! the denominator: one fully weighted ballot stands for one voter's share of
//! the pool.

use crate::sums::{lemma_sum_map_first, lemma_sum_map_push, sum_map};
use vstd::arithmetic::mul::lemma_mul_inequality;
use vstd::arithmetic::power2::{lemma2_to64, lemma_pow2_strictly_increases, lemma_pow2_unfold, pow2};
use vstd::prelude::*;

verus! {

/// The common denominator of every share for a count of `p` voters.
pub open spec fn weight_denominator(p: int) -> int
    recommends
        p >= 2,
{
    p * (pow2((p - 1) as nat) - 1)
}

/// The schedule's numerator for zero-based rank `j` of `p - 1`.
pub open spec fn weight_numerator(p: int, funds: u128, j: int) -> int
    recommends
        2 <= p,
        0 <= j < p - 1,
{
    pow2((p - 2 - j) as nat) * funds
}

/// The sum of a sequence of numerators.
pub open spec fn seq_sum(s: Seq<u128>) -> int {
    sum_map(s, |x: u128| x as int)
}

/// The whole schedule for `n` voters over `fu` whole units, as a sequence.
pub open spec fn schedule(n: int, fu: u128) -> Seq<u128> {
    Seq::new((n - 1) as nat, |j: int| (pow2((n - 2 - j) as nat) * fu) as u128)
}

/// The machine limits a settlement needs: the voter count small enough for
/// the denominator to be computed, the doubled denominator in range for
/// rounding, and every partial share numerator in range for aggregation.
pub open spec fn settlement_fits(n: int, fu: u128) -> bool {
    &&& n <= 128
    &&& weight_denominator(n) * 2 <= u128::MAX
    &&& n * (pow2((n - 2) as nat) * fu) <= u128::MAX
}

/// For at least two voters the denominator is at least two.
pub proof fn lemma_weight_denominator_pos(n: int)
    requires
        2 <= n,
    ensures
        weight_denominator(n) >= 2,
{
    lemma_pow2_strictly_increases(0, (n - 1) as nat);
    lemma2_to64();
    assert(pow2((n - 1) as nat) >= 2);
    assert(n * (pow2((n - 1) as nat) - 1) >= 2) by (nonlinear_arith)
        requires
            n >= 2,
            pow2((n - 1) as nat) >= 2,
    ;
}

/// Relies on `num_traits::pow`: exponentiation by squaring with `*`, so for
/// base 2 and an exponent below 128 every intermediate product fits in
/// `u128` and the result is the mathematical power.
#[verifier::external_body]
pub(crate) fn pow2_u128(e: usize) -> (r: u128)
    requires
        e < 128,
    ensures
        r == pow2(e as nat),
{
    num_traits::pow(2u128, e)
}

/// Computes the weight schedule for `p` voters and `funds` whole units:
/// `p - 1` numerators in rank order, best rank first, each exactly twice
/// the next (rank monotonicity).
pub fn set_weights(p: usize, funds: u128) -> (w: Vec<u128>)
    requires
        2 <= p,
        p <= 129,
        pow2((p - 2) as nat) * funds <= u128::MAX,
    ensures
        w@.len() == p - 1,
        forall|j: int| 0 <= j < p - 1 ==> w@[j] == weight_numerator(p as int, funds, j),
        forall|j: int| 0 <= j < p - 2 ==> #[trigger] w@[j] == 2 * w@[j + 1],
{
    let mut w: Vec<u128> = Vec::new();
    let mut j: usize = 0;
    while j < p - 1
        invariant
            2 <= p <= 129,
            0 <= j <= p - 1,
            pow2((p - 2) as nat) * funds <= u128::MAX,
            w@.len() == j,
            forall|k: int| 0 <= k < j ==> w@[k] == weight_numerator(p as int, funds, k),
        decreases p - 1 - j,
    {
        let e = p - 2 - j;
        proof {
            if e < p - 2 {
                lemma_pow2_strictly_increases(e as nat, (p - 2) as nat);
            }
            lemma_mul_inequality(pow2(e as nat) as int, pow2((p - 2) as nat) as int, funds as int);
        }
        let entry = pow2_u128(e) * funds;
        w.push(entry);
        j += 1;
    }
    proof {
        assert forall|j: int| 0 <= j < p - 2 implies #[trigger] w@[j] == 2 * w@[j + 1] by {
            lemma_pow2_unfold((p - 2 - j) as nat);
            assert((2 * pow2((p - 3 - j) as nat)) * funds == 2 * (pow2((p - 3 - j) as nat)
                * funds)) by (nonlinear_arith);
        }
    }
    w
}

/// Weight conservation: the schedule's numerators sum to
/// `funds * (2^(p-1) - 1)`, so the schedule itself sums to exactly
/// `funds / p` of the pool — `p` times the sum of the numerators is
/// `funds` times the common denominator.
pub proof fn lemma_weight_conservation(w: Seq<u128>, p: int, funds: u128)
    requires
        2 <= p,
        w.len() == p - 1,
        forall|j: int| 0 <= j < p - 1 ==> w[j] == weight_numerator(p, funds, j),
    ensures
        seq_sum(w) == funds * (pow2((p - 1) as nat) - 1),
        p * seq_sum(w) == funds * weight_denominator(p),
    decreases p,
{
    if p == 2 {
        assert(w =~= Seq::<u128>::empty().push(w[0]));
        lemma_sum_map_push(Seq::<u128>::empty(), w[0], |x: u128| x as int);
        assert(seq_sum(w) == w[0]);
        lemma2_to64();
        assert(w[0] == weight_numerator(p, funds, 0));
        assert(funds * (pow2((p - 1) as nat) - 1) == funds * 1 == funds as int) by (nonlinear_arith)
            requires
                pow2((p - 1) as nat) == 2,
        ;
    } else {
        let t = w.drop_first();
        assert forall|j: int| 0 <= j < p - 2 implies t[j] == weight_numerator(p - 1, funds, j) by {
            assert(t[j] == w[j + 1]);
        }
        lemma_weight_conservation(t, p - 1, funds);
        lemma_sum_map_first(w, |x: u128| x as int);
        assert(w[0] == pow2((p - 2) as nat) * funds);
        lemma_pow2_unfold((p - 1) as nat);
        assert(pow2((p - 2) as nat) * funds + funds * (pow2((p - 2) as nat) - 1) == funds * (pow2(
            (p - 1) as nat,
        ) - 1)) by (nonlinear_arith)
            requires
                pow2((p - 1) as nat) == 2 * pow2((p - 2) as nat),
        ;
        assert(seq_sum(w) == w[0] + seq_sum(t));
        assert(seq_sum(w) == funds * (pow2((p - 1) as nat) - 1));
    }
    assert(p * (funds * (pow2((p - 1) as nat) - 1)) == funds * (p * (pow2((p - 1) as nat) - 1)))
        by (nonlinear_arith);
}

} // verus!
