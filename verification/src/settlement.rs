//! Rounding a share table to whole currency units, under fund-safety.
//!
//! A candidate's exact share is `num / d` of the pool, where `num` is the
//! numerator `tally_shares` accumulated and `d` the schedule's common
//! denominator.  Settlement rounds each share half-up to whole units and
//! refuses — before anything is paid — any table whose rounded total would
//! exceed the pool.

use crate::sums::{lemma_sum_map_pointwise, lemma_sum_map_push, sum_map};
use crate::tally::{all_keys, dedup_keys, share_of, table_keys, table_sum};
use crate::types::{AccountId, Error, Votes};
use vstd::arithmetic::div_mod::{
    lemma_div_is_ordered,
    lemma_div_multiples_vanish_fancy, lemma_div_pos_is_pos,
    lemma_fundamental_div_mod,
};
use vstd::prelude::*;

verus! {

/// `num / d` rounded half-up (halves round away from zero).
pub open spec fn rounded(num: int, d: int) -> int
    recommends
        d >= 1,
{
    (2 * num + d) / (2 * d)
}

/// The rounded total of a share table over denominator `d`.
pub open spec fn rounded_total(t: Seq<(AccountId, u128)>, d: int) -> int {
    sum_map(t, |p: (AccountId, u128)| rounded(p.1 as int, d))
}

/// The rounded total of a settlement, written over the candidates alone:
/// the sum, over the distinct candidate accounts in order of first
/// appearance, of each candidate's rounded share.
pub open spec fn spec_rounded_total(ballots: Seq<Votes>, w: Seq<u128>, d: int) -> int {
    sum_map(dedup_keys(all_keys(ballots)), |who: Seq<char>| rounded(share_of(ballots, w, who), d))
}

/// A share table whose rows hold exactly the candidates' shares has the
/// candidate-wise rounded total.
pub proof fn lemma_rounded_total_by_candidate(
    t: Seq<(AccountId, u128)>,
    ballots: Seq<Votes>,
    w: Seq<u128>,
    d: int,
)
    requires
        table_keys(t) == dedup_keys(all_keys(ballots)),
        forall|i: int|
            0 <= i < t.len() ==> (#[trigger] t[i]).1 as int == share_of(ballots, w, t[i].0@),
    ensures
        rounded_total(t, d) == spec_rounded_total(ballots, w, d),
{
    let keys = dedup_keys(all_keys(ballots));
    assert(t.len() == keys.len()) by {
        assert(table_keys(t).len() == t.len());
    }
    assert forall|i: int| 0 <= i < t.len() implies (|p: (AccountId, u128)| rounded(
        p.1 as int,
        d,
    ))(t[i]) == (|who: Seq<char>| rounded(share_of(ballots, w, who), d))(keys[i]) by {
        assert(table_keys(t)[i] == t[i].0@);
    }
    lemma_sum_map_pointwise(
        t,
        keys,
        |p: (AccountId, u128)| rounded(p.1 as int, d),
        |who: Seq<char>| rounded(share_of(ballots, w, who), d),
    );
}

/// A rounded non-negative share is non-negative and never exceeds its
/// numerator.
pub proof fn lemma_rounded_range(num: int, d: int)
    requires
        0 <= num,
        1 <= d,
    ensures
        0 <= rounded(num, d) <= num,
{
    lemma_div_pos_is_pos(2 * num + d, 2 * d);
    if d == 1 {
        lemma_div_multiples_vanish_fancy(num, 1, 2);
        assert(2 * num + 1 == 2 * num + 1);
        assert((2 * num + 1) / 2 == num);
    } else {
        if num == 0 {
            assert(rounded(0, d) == d / (2 * d));
            vstd::arithmetic::div_mod::lemma_basic_div(d, 2 * d);
        } else {
            // 2*num + d <= 2*d*num since d >= 2 and num >= 1
            assert(2 * num + d <= (2 * d) * num) by (nonlinear_arith)
                requires
                    d >= 2,
                    num >= 1,
            ;
            lemma_div_is_ordered(2 * num + d, (2 * d) * num, 2 * d);
            vstd::arithmetic::div_mod::lemma_div_by_multiple(num, 2 * d);
            assert(num * (2 * d) == (2 * d) * num) by (nonlinear_arith);
        }
    }
}

/// Rounding as the executable engine performs it: quotient, plus one when
/// twice the remainder reaches the denominator.
fn round_half_up(num: u128, d: u128) -> (r: u128)
    requires
        1 <= d,
        d as int * 2 <= u128::MAX,
    ensures
        r as int == rounded(num as int, d as int),
        r as int <= num as int,
{
    let q = num / d;
    let rem = num % d;
    proof {
        lemma_fundamental_div_mod(num as int, d as int);
        let n = num as int;
        let dd = d as int;
        if 2 * rem >= d {
            assert(2 * n + dd == (2 * dd) * (q + 1) + (2 * (rem as int) - dd)) by (nonlinear_arith)
                requires
                    n == dd * (q as int) + rem,
            ;
            lemma_div_multiples_vanish_fancy(q as int + 1, 2 * (rem as int) - dd, 2 * dd);
        } else {
            assert(2 * n + dd == (2 * dd) * (q as int) + (2 * (rem as int) + dd))
                by (nonlinear_arith)
                requires
                    n == dd * (q as int) + rem,
            ;
            lemma_div_multiples_vanish_fancy(q as int, 2 * (rem as int) + dd, 2 * dd);
        }
        lemma_rounded_range(num as int, d as int);
    }
    if 2 * rem >= d {
        q + 1
    } else {
        q
    }
}

/// Any prefix of the rounded total is at most the whole rounded total.
proof fn lemma_rounded_prefix_le(t: Seq<(AccountId, u128)>, d: int, i: int)
    requires
        1 <= d,
        0 <= i <= t.len(),
    ensures
        rounded_total(t.take(i), d) <= rounded_total(t, d),
    decreases t.len() - i,
{
    if i == t.len() {
        assert(t.take(i) =~= t);
    } else {
        assert(t.take(i + 1) =~= t.take(i).push(t[i]));
        lemma_sum_map_push(t.take(i), t[i], |p: (AccountId, u128)| rounded(p.1 as int, d));
        lemma_rounded_range(t[i].1 as int, d);
        lemma_rounded_prefix_le(t, d, i + 1);
    }
}

/// Rounds every share of the table to whole units, keeping rows in table
/// order, and fails with `InsufficientFunds` — issuing nothing — exactly
/// when the rounded shares together would exceed the pool of `fu` whole
/// units.
pub fn round_table(t: &Vec<(AccountId, u128)>, d: u128, fu: u128) -> (r: Result<
    (Vec<(AccountId, u128)>, u128),
    Error,
>)
    requires
        1 <= d,
        d as int * 2 <= u128::MAX,
    ensures
        match r {
            Result::Ok(out) => {
                &&& rounded_total(t@, d as int) <= fu
                &&& out.0@.len() == t@.len()
                &&& forall|i: int|
                    0 <= i < t@.len() ==> (#[trigger] out.0@[i]).0@ == t@[i].0@ && out.0@[i].1 as int
                        == rounded(t@[i].1 as int, d as int)
                &&& table_sum(out.0@) == rounded_total(t@, d as int)
                &&& out.1 as int == rounded_total(t@, d as int)
                &&& out.1 <= fu
            },
            Result::Err(e) => {
                &&& e == Error::InsufficientFunds
                &&& rounded_total(t@, d as int) > fu
            },
        },
{
    let mut out: Vec<(AccountId, u128)> = Vec::new();
    let mut total: u128 = 0;
    let mut i: usize = 0;
    proof {
        assert(t@.take(0) =~= Seq::<(AccountId, u128)>::empty());
        assert(out@ =~= Seq::<(AccountId, u128)>::empty());
    }
    while i < t.len()
        invariant
            1 <= d,
            d as int * 2 <= u128::MAX,
            i <= t@.len(),
            out@.len() == i,
            forall|j: int|
                0 <= j < i ==> (#[trigger] out@[j]).0@ == t@[j].0@ && out@[j].1 as int == rounded(
                    t@[j].1 as int,
                    d as int,
                ),
            total as int == rounded_total(t@.take(i as int), d as int),
            total as int == table_sum(out@),
            total <= fu,
        decreases t@.len() - i,
    {
        let amount = round_half_up(t[i].1, d);
        if amount > fu - total {
            proof {
                assert(t@.take(i as int + 1) =~= t@.take(i as int).push(t@[i as int]));
                lemma_sum_map_push(
                    t@.take(i as int),
                    t@[i as int],
                    |p: (AccountId, u128)| rounded(p.1 as int, d as int),
                );
                lemma_rounded_prefix_le(t@, d as int, i as int + 1);
            }
            return Result::Err(Error::InsufficientFunds);
        }
        let ghost outold = out@;
        out.push((t[i].0.clone(), amount));
        total = total + amount;
        proof {
            assert(t@.take(i as int + 1) =~= t@.take(i as int).push(t@[i as int]));
            lemma_sum_map_push(
                t@.take(i as int),
                t@[i as int],
                |p: (AccountId, u128)| rounded(p.1 as int, d as int),
            );
            assert(out@ == outold.push(out@[outold.len() as int]));
            lemma_sum_map_push(
                outold,
                out@[outold.len() as int],
                |p: (AccountId, u128)| p.1 as int,
            );
        }
        i += 1;
    }
    proof {
        assert(t@.take(t@.len() as int) =~= t@);
    }
    Result::Ok((out, total))
}

} // verus!
