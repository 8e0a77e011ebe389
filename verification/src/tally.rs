//! The ballot aggregator.
//!
//! Every (candidate, rank) pair of every ballot is worth the weight
//! schedule's numerator for that rank; a candidate's share is the sum of
//! those numerators over all ballots, an exact count of parts of the common
//! denominator.  `tally_shares` merges all ballots into one share table,
//! one row per candidate in order of first appearance, and the lemmas here
//! state the two global facts about that merge: the table's total equals
//! the total weight of the ballots (conservation), and the shares do not
//! depend on the order in which ballots were submitted.

use crate::sums::{
    lemma_sum_map_bounds, lemma_sum_map_permutation, lemma_sum_map_pointwise, lemma_sum_map_push,
    lemma_sum_map_remove, lemma_sum_map_update, sum_map,
};
use crate::types::{AccountId, Votes};
use crate::weights::seq_sum;
use vstd::prelude::*;

verus! {

/// The weight a single ballot entry carries: the schedule numerator of its
/// rank, or nothing when the rank lies outside `1..=w.len()`.
pub open spec fn entry_weight(e: (AccountId, usize), w: Seq<u128>) -> int {
    if 1 <= e.1 <= w.len() {
        w[e.1 - 1] as int
    } else {
        0
    }
}

/// The weight an entry contributes to candidate `who`.
pub open spec fn entry_weight_for(e: (AccountId, usize), w: Seq<u128>, who: Seq<char>) -> int {
    if e.0@ == who {
        entry_weight(e, w)
    } else {
        0
    }
}

/// One ballot's contribution to candidate `who`.
pub open spec fn ballot_contrib(
    entries: Seq<(AccountId, usize)>,
    w: Seq<u128>,
    who: Seq<char>,
) -> int {
    sum_map(entries, |e: (AccountId, usize)| entry_weight_for(e, w, who))
}

/// Candidate `who`'s share over all ballots, as a numerator count.
pub open spec fn share_of(ballots: Seq<Votes>, w: Seq<u128>, who: Seq<char>) -> int {
    sum_map(ballots, |b: Votes| ballot_contrib(b.vote@, w, who))
}

/// The total weight one ballot hands out, over all its candidates.
pub open spec fn ballot_total(entries: Seq<(AccountId, usize)>, w: Seq<u128>) -> int {
    sum_map(entries, |e: (AccountId, usize)| entry_weight(e, w))
}

/// The total weight all ballots hand out.
pub open spec fn ballots_total(ballots: Seq<Votes>, w: Seq<u128>) -> int {
    sum_map(ballots, |b: Votes| ballot_total(b.vote@, w))
}

/// The candidate accounts one ballot names, in entry order.
pub open spec fn ballot_keys(entries: Seq<(AccountId, usize)>) -> Seq<Seq<char>> {
    entries.map_values(|e: (AccountId, usize)| e.0@)
}

/// All candidate accounts named across the ballots, in submission order.
pub open spec fn all_keys(ballots: Seq<Votes>) -> Seq<Seq<char>>
    decreases ballots.len(),
{
    if ballots.len() == 0 {
        Seq::empty()
    } else {
        all_keys(ballots.drop_last()) + ballot_keys(ballots.last().vote@)
    }
}

/// `s` with later repetitions dropped: each key once, at its first
/// appearance.
pub open spec fn dedup_keys(s: Seq<Seq<char>>) -> Seq<Seq<char>>
    decreases s.len(),
{
    if s.len() == 0 {
        Seq::empty()
    } else {
        let d = dedup_keys(s.drop_last());
        if d.contains(s.last()) {
            d
        } else {
            d.push(s.last())
        }
    }
}

/// Whether some ballot names `who` as a candidate.
pub open spec fn is_candidate(ballots: Seq<Votes>, who: Seq<char>) -> bool {
    all_keys(ballots).contains(who)
}

/// A ballot names no candidate account twice.
pub open spec fn accounts_distinct(entries: Seq<(AccountId, usize)>) -> bool {
    forall|i: int, j: int|
        0 <= i < j < entries.len() ==> (#[trigger] entries[i]).0@ != (#[trigger] entries[j]).0@
}

/// The accounts of a share table's rows, in row order.
pub open spec fn table_keys(t: Seq<(AccountId, u128)>) -> Seq<Seq<char>> {
    t.map_values(|p: (AccountId, u128)| p.0@)
}

/// The sum of a share table's values.
pub open spec fn table_sum(t: Seq<(AccountId, u128)>) -> int {
    sum_map(t, |p: (AccountId, u128)| p.1 as int)
}

/// The largest element of a weight schedule (zero when empty).
pub open spec fn seq_max(s: Seq<u128>) -> int
    decreases s.len(),
{
    if s.len() == 0 {
        0
    } else if s.last() as int > seq_max(s.drop_last()) {
        s.last() as int
    } else {
        seq_max(s.drop_last())
    }
}

pub proof fn lemma_seq_max_bound(s: Seq<u128>)
    ensures
        0 <= seq_max(s),
        forall|j: int| 0 <= j < s.len() ==> #[trigger] s[j] <= seq_max(s),
    decreases s.len(),
{
    if s.len() > 0 {
        lemma_seq_max_bound(s.drop_last());
        assert forall|j: int| 0 <= j < s.len() implies #[trigger] s[j] <= seq_max(s) by {
            if j < s.len() - 1 {
                assert(s.drop_last()[j] == s[j]);
            }
        }
    }
}

/// An upper bound on all elements bounds the maximum.
pub proof fn lemma_seq_max_le(s: Seq<u128>, b: int)
    requires
        0 <= b,
        forall|j: int| 0 <= j < s.len() ==> #[trigger] s[j] <= b,
    ensures
        seq_max(s) <= b,
    decreases s.len(),
{
    if s.len() > 0 {
        assert forall|j: int| 0 <= j < s.drop_last().len() implies #[trigger] s.drop_last()[j]
            <= b by {
            assert(s.drop_last()[j] == s[j]);
        }
        lemma_seq_max_le(s.drop_last(), b);
    }
}

/// Every row's value is at most the table's total.
pub proof fn lemma_table_elem_le_sum(t: Seq<(AccountId, u128)>, i: int)
    requires
        0 <= i < t.len(),
    ensures
        t[i].1 as int <= table_sum(t),
{
    lemma_sum_map_remove(t, i, |p: (AccountId, u128)| p.1 as int);
    let rest = t.remove(i);
    lemma_sum_map_bounds(rest, |p: (AccountId, u128)| p.1 as int, u128::MAX as int);
}

/// Deduplication keeps exactly the keys of its input.
pub proof fn lemma_dedup_contains(s: Seq<Seq<char>>, who: Seq<char>)
    ensures
        dedup_keys(s).contains(who) <==> s.contains(who),
    decreases s.len(),
{
    if s.len() > 0 {
        lemma_dedup_contains(s.drop_last(), who);
        let d = dedup_keys(s.drop_last());
        if s.contains(who) {
            let i = choose|i: int| 0 <= i < s.len() && s[i] == who;
            if i < s.len() - 1 {
                assert(s.drop_last()[i] == who);
                assert(d.contains(who));
                if !d.contains(s.last()) {
                    let j = choose|j: int| 0 <= j < d.len() && d[j] == who;
                    assert(d.push(s.last())[j] == who);
                }
            } else {
                assert(who == s.last());
                if !d.contains(s.last()) {
                    assert(d.push(s.last())[d.len() as int] == who);
                }
            }
        }
        if dedup_keys(s).contains(who) {
            let i = choose|i: int| 0 <= i < dedup_keys(s).len() && dedup_keys(s)[i] == who;
            if d.contains(s.last()) {
                assert(d.contains(who));
            } else {
                if i < d.len() {
                    assert(d[i] == who);
                } else {
                    assert(who == s.last());
                }
            }
            assert(s.drop_last().contains(who) || who == s.last());
            if s.drop_last().contains(who) {
                let j = choose|j: int| 0 <= j < s.drop_last().len() && s.drop_last()[j] == who;
                assert(s[j] == who);
            } else {
                assert(s[s.len() - 1] == who);
            }
        }
    }
}

/// Deduplication leaves no key twice.
pub proof fn lemma_dedup_distinct(s: Seq<Seq<char>>)
    ensures
        forall|i: int, j: int|
            0 <= i < j < dedup_keys(s).len() ==> dedup_keys(s)[i] != dedup_keys(s)[j],
    decreases s.len(),
{
    if s.len() > 0 {
        lemma_dedup_distinct(s.drop_last());
        let d = dedup_keys(s.drop_last());
        if !d.contains(s.last()) {
            assert forall|i: int, j: int|
                0 <= i < j < dedup_keys(s).len() implies dedup_keys(s)[i] != dedup_keys(s)[j] by {
                if j < d.len() {
                } else {
                    assert(dedup_keys(s)[j] == s.last());
                    assert(dedup_keys(s)[i] == d[i]);
                    assert(!d.contains(s.last()));
                    assert(d[i] != s.last());
                }
            }
        }
    }
}

/// A candidate named by no entry draws nothing from a ballot.
pub proof fn lemma_contrib_absent(entries: Seq<(AccountId, usize)>, w: Seq<u128>, who: Seq<char>)
    requires
        !ballot_keys(entries).contains(who),
    ensures
        ballot_contrib(entries, w, who) == 0,
{
    assert forall|i: int| 0 <= i < entries.len() implies #[trigger] entries[i].0@ != who by {
        assert(ballot_keys(entries)[i] == entries[i].0@);
    }
    lemma_sum_map_bounds(entries, |e: (AccountId, usize)| entry_weight_for(e, w, who), 0);
    assert(entries.len() * 0 == 0) by (nonlinear_arith);
}

/// A ballot that names each account once draws at most one schedule entry
/// for any one candidate.
pub proof fn lemma_contrib_in_range(entries: Seq<(AccountId, usize)>, w: Seq<u128>, who: Seq<char>)
    requires
        accounts_distinct(entries),
    ensures
        0 <= ballot_contrib(entries, w, who) <= seq_max(w),
{
    lemma_seq_max_bound(w);
    if ballot_keys(entries).contains(who) {
        let m = choose|m: int| 0 <= m < entries.len() && ballot_keys(entries)[m] == who;
        assert(entries[m].0@ == who);
        lemma_sum_map_remove(entries, m, |e: (AccountId, usize)| entry_weight_for(e, w, who));
        let rest = entries.remove(m);
        assert forall|i: int| 0 <= i < rest.len() implies #[trigger] rest[i].0@ != who by {
            if i < m {
                assert(rest[i] == entries[i]);
            } else {
                assert(rest[i] == entries[i + 1]);
            }
        }
        assert forall|i: int| 0 <= i < rest.len() implies !(#[trigger] ballot_keys(rest).contains(
            who,
        ) && ballot_keys(rest)[i] == who) by {
            assert(ballot_keys(rest)[i] == rest[i].0@);
        }
        if ballot_keys(rest).contains(who) {
            let i = choose|i: int| 0 <= i < ballot_keys(rest).len() && ballot_keys(rest)[i] == who;
            assert(ballot_keys(rest)[i] == rest[i].0@);
            assert(false);
        }
        lemma_contrib_absent(rest, w, who);
    } else {
        lemma_contrib_absent(entries, w, who);
    }
}

/// A candidate no ballot names holds no share.
pub proof fn lemma_share_absent(ballots: Seq<Votes>, w: Seq<u128>, who: Seq<char>)
    requires
        !is_candidate(ballots, who),
    ensures
        share_of(ballots, w, who) == 0,
    decreases ballots.len(),
{
    if ballots.len() > 0 {
        let front = ballots.drop_last();
        let ks = all_keys(ballots);
        assert(ks == all_keys(front) + ballot_keys(ballots.last().vote@));
        assert forall|i: int| 0 <= i < all_keys(front).len() implies all_keys(front)[i] != who by {
            assert(ks[i] == all_keys(front)[i]);
        }
        assert forall|i: int|
            0 <= i < ballot_keys(ballots.last().vote@).len() implies ballot_keys(
            ballots.last().vote@,
        )[i] != who by {
            assert(ks[all_keys(front).len() + i] == ballot_keys(ballots.last().vote@)[i]);
        }
        if all_keys(front).contains(who) {
            assert(false);
        }
        if ballot_keys(ballots.last().vote@).contains(who) {
            assert(false);
        }
        lemma_share_absent(front, w, who);
        lemma_contrib_absent(ballots.last().vote@, w, who);
    }
}

/// Each ballot's total share lies between zero and the number of ballots
/// times the largest schedule entry.
pub proof fn lemma_share_in_range(ballots: Seq<Votes>, w: Seq<u128>, who: Seq<char>)
    requires
        forall|i: int| 0 <= i < ballots.len() ==> accounts_distinct(#[trigger] ballots[i].vote@),
    ensures
        0 <= share_of(ballots, w, who) <= ballots.len() * seq_max(w),
{
    assert forall|i: int|
        0 <= i < ballots.len() implies 0 <= (|b: Votes| ballot_contrib(b.vote@, w, who))(
        #[trigger] ballots[i],
    ) <= seq_max(w) by {
        lemma_contrib_in_range(ballots[i].vote@, w, who);
    }
    lemma_sum_map_bounds(ballots, |b: Votes| ballot_contrib(b.vote@, w, who), seq_max(w));
}

pub proof fn lemma_share_step(ballots: Seq<Votes>, w: Seq<u128>, who: Seq<char>, i: int)
    requires
        0 <= i < ballots.len(),
    ensures
        share_of(ballots.take(i + 1), w, who) == share_of(ballots.take(i), w, who)
            + ballot_contrib(ballots[i].vote@, w, who),
{
    assert(ballots.take(i + 1) =~= ballots.take(i).push(ballots[i]));
    lemma_sum_map_push(ballots.take(i), ballots[i], |b: Votes| ballot_contrib(b.vote@, w, who));
}

pub proof fn lemma_ballots_total_step(ballots: Seq<Votes>, w: Seq<u128>, i: int)
    requires
        0 <= i < ballots.len(),
    ensures
        ballots_total(ballots.take(i + 1), w) == ballots_total(ballots.take(i), w) + ballot_total(
            ballots[i].vote@,
            w,
        ),
{
    assert(ballots.take(i + 1) =~= ballots.take(i).push(ballots[i]));
    lemma_sum_map_push(ballots.take(i), ballots[i], |b: Votes| ballot_total(b.vote@, w));
}

pub proof fn lemma_contrib_step(
    entries: Seq<(AccountId, usize)>,
    w: Seq<u128>,
    who: Seq<char>,
    k: int,
)
    requires
        0 <= k < entries.len(),
    ensures
        ballot_contrib(entries.take(k + 1), w, who) == ballot_contrib(entries.take(k), w, who)
            + entry_weight_for(entries[k], w, who),
{
    assert(entries.take(k + 1) =~= entries.take(k).push(entries[k]));
    lemma_sum_map_push(
        entries.take(k),
        entries[k],
        |e: (AccountId, usize)| entry_weight_for(e, w, who),
    );
}

pub proof fn lemma_ballot_total_step(entries: Seq<(AccountId, usize)>, w: Seq<u128>, k: int)
    requires
        0 <= k < entries.len(),
    ensures
        ballot_total(entries.take(k + 1), w) == ballot_total(entries.take(k), w) + entry_weight(
            entries[k],
            w,
        ),
{
    assert(entries.take(k + 1) =~= entries.take(k).push(entries[k]));
    lemma_sum_map_push(entries.take(k), entries[k], |e: (AccountId, usize)| entry_weight(e, w));
}

pub proof fn lemma_all_keys_step(ballots: Seq<Votes>, i: int)
    requires
        0 <= i < ballots.len(),
    ensures
        all_keys(ballots.take(i + 1)) == all_keys(ballots.take(i)) + ballot_keys(
            ballots[i].vote@,
        ),
{
    assert(ballots.take(i + 1).drop_last() =~= ballots.take(i));
    assert(ballots.take(i + 1).last() == ballots[i]);
}

pub proof fn lemma_ballot_keys_step(entries: Seq<(AccountId, usize)>, k: int)
    requires
        0 <= k < entries.len(),
    ensures
        ballot_keys(entries.take(k + 1)) == ballot_keys(entries.take(k)).push(entries[k].0@),
{
    assert(ballot_keys(entries.take(k + 1)) =~= ballot_keys(entries.take(k)).push(entries[k].0@));
}

pub proof fn lemma_dedup_step(s: Seq<Seq<char>>, x: Seq<char>)
    ensures
        dedup_keys(s.push(x)) == (if dedup_keys(s).contains(x) {
            dedup_keys(s)
        } else {
            dedup_keys(s).push(x)
        }),
{
    assert(s.push(x).drop_last() =~= s);
    assert(s.push(x).last() == x);
}

/// Merges all ballots into one share table: one row per candidate, in order
/// of first appearance, holding the candidate's exact share numerator.
/// The combine is a sum, so the shares — though not the row order — are
/// independent of the order of the ballots (`lemma_order_independence`),
/// and the table's total is exactly the total weight the ballots hand out.
pub fn tally_shares(ballots: &Vec<Votes>, w: &Vec<u128>) -> (t: Vec<(AccountId, u128)>)
    requires
        forall|i: int| 0 <= i < ballots@.len() ==> accounts_distinct(#[trigger] ballots@[i].vote@),
        ballots@.len() * seq_max(w@) <= u128::MAX,
    ensures
        table_keys(t@) == dedup_keys(all_keys(ballots@)),
        forall|a: int, b: int|
            0 <= a < b < t@.len() ==> (#[trigger] t@[a]).0@ != (#[trigger] t@[b]).0@,
        forall|a: int|
            0 <= a < t@.len() ==> (#[trigger] t@[a]).1 as int == share_of(ballots@, w@, t@[a].0@),
        table_sum(t@) == ballots_total(ballots@, w@),
{
    let ghost bs = ballots@;
    let mut t: Vec<(AccountId, u128)> = Vec::new();
    proof {
        assert(bs.take(0) =~= Seq::<Votes>::empty());
        assert(all_keys(bs.take(0)) =~= Seq::<Seq<char>>::empty());
        assert(dedup_keys(all_keys(bs.take(0))) =~= Seq::<Seq<char>>::empty());
        assert(table_keys(t@) =~= Seq::<Seq<char>>::empty());
    }
    let mut i: usize = 0;
    while i < ballots.len()
        invariant
            bs == ballots@,
            forall|a: int| 0 <= a < bs.len() ==> accounts_distinct(#[trigger] bs[a].vote@),
            bs.len() * seq_max(w@) <= u128::MAX,
            i <= bs.len(),
            table_keys(t@) == dedup_keys(all_keys(bs.take(i as int))),
            forall|a: int|
                0 <= a < t@.len() ==> (#[trigger] t@[a]).1 as int == share_of(
                    bs.take(i as int),
                    w@,
                    t@[a].0@,
                ),
            table_sum(t@) == ballots_total(bs.take(i as int), w@),
        decreases bs.len() - i,
    {
        let ghost ip = i as int;
        let entries = &ballots[i].vote;
        let ghost es = entries@;
        let mut k: usize = 0;
        proof {
            assert(es.take(0) =~= Seq::<(AccountId, usize)>::empty());
            assert(ballot_keys(es.take(0)) =~= Seq::<Seq<char>>::empty());
            assert(all_keys(bs.take(ip)) + ballot_keys(es.take(0)) =~= all_keys(bs.take(ip)));
            assert forall|a: int| 0 <= a < t@.len() implies (#[trigger] t@[a]).1 as int == share_of(
                bs.take(ip),
                w@,
                t@[a].0@,
            ) + ballot_contrib(es.take(0), w@, t@[a].0@) by {
                assert(ballot_contrib(es.take(0), w@, t@[a].0@) == 0);
            }
            assert(ballot_total(es.take(0), w@) == 0);
        }
        while k < entries.len()
            invariant
                bs == ballots@,
                forall|a: int| 0 <= a < bs.len() ==> accounts_distinct(#[trigger] bs[a].vote@),
                bs.len() * seq_max(w@) <= u128::MAX,
                ip == i,
                0 <= ip < bs.len(),
                es == entries@,
                es == bs[ip].vote@,
                k <= es.len(),
                table_keys(t@) == dedup_keys(
                    all_keys(bs.take(ip)) + ballot_keys(es.take(k as int)),
                ),
                forall|a: int|
                    0 <= a < t@.len() ==> (#[trigger] t@[a]).1 as int == share_of(
                        bs.take(ip),
                        w@,
                        t@[a].0@,
                    ) + ballot_contrib(es.take(k as int), w@, t@[a].0@),
                table_sum(t@) == ballots_total(bs.take(ip), w@) + ballot_total(
                    es.take(k as int),
                    w@,
                ),
            decreases es.len() - k,
        {
            let ghost kp = k as int;
            let ghost prefix = all_keys(bs.take(ip)) + ballot_keys(es.take(kp));
            let ghost who = es[kp].0@;
            let rank = entries[k].1;
            let wgt: u128 = if 1 <= rank && rank <= w.len() {
                w[rank - 1]
            } else {
                0
            };
            proof {
                assert(wgt as int == entry_weight(es[kp], w@));
                lemma_seq_max_bound(w@);
                assert(wgt as int <= seq_max(w@));
                // the current ballot's earlier entries name other accounts,
                // so they have contributed nothing to `who` yet
                assert forall|j: int|
                    0 <= j < ballot_keys(es.take(kp)).len() implies ballot_keys(es.take(kp))[j]
                    != who by {
                    assert(ballot_keys(es.take(kp))[j] == es[j].0@);
                    assert(es[j].0@ != es[kp].0@);
                }
                if ballot_keys(es.take(kp)).contains(who) {
                    assert(false);
                }
                lemma_contrib_absent(es.take(kp), w@, who);
                lemma_share_in_range(bs.take(ip), w@, who);
                assert(bs.take(ip).len() * seq_max(w@) + seq_max(w@) == (ip + 1) * seq_max(w@))
                    by (nonlinear_arith)
                    requires
                        bs.take(ip).len() == ip,
                ;
                vstd::arithmetic::mul::lemma_mul_inequality(ip + 1, bs.len() as int, seq_max(w@));
                assert(share_of(bs.take(ip), w@, who) + wgt <= u128::MAX);
                // the dedup of the keys seen so far grows by `who` exactly
                // when no row holds it yet
                lemma_ballot_keys_step(es, kp);
                assert(all_keys(bs.take(ip)) + ballot_keys(es.take(kp + 1)) =~= prefix.push(who));
                lemma_dedup_step(prefix, who);
            }
            match find_account(&t, &entries[k].0) {
                Option::Some(idx) => {
                    proof {
                        lemma_dedup_distinct(prefix);
                        assert(table_keys(t@)[idx as int] == who);
                        assert(t@[idx as int].1 as int == share_of(bs.take(ip), w@, who)
                            + ballot_contrib(es.take(kp), w@, who));
                    }
                    let cur = t[idx].1;
                    let ghost told = t@;
                    t[idx].1 = cur + wgt;
                    proof {
                        assert(t@ == told.update(idx as int, (told[idx as int].0, (cur + wgt) as u128)));
                        assert(table_keys(t@) =~= table_keys(told));
                        assert(dedup_keys(prefix).contains(who)) by {
                            assert(table_keys(told)[idx as int] == who);
                        }
                        assert(table_keys(t@) == dedup_keys(prefix.push(who)));
                        lemma_sum_map_update(
                            told,
                            idx as int,
                            (told[idx as int].0, (cur + wgt) as u128),
                            |p: (AccountId, u128)| p.1 as int,
                        );
                        lemma_ballot_total_step(es, w@, kp);
                        assert forall|a: int|
                            0 <= a < t@.len() implies (#[trigger] t@[a]).1 as int == share_of(
                            bs.take(ip),
                            w@,
                            t@[a].0@,
                        ) + ballot_contrib(es.take(kp + 1), w@, t@[a].0@) by {
                            lemma_contrib_step(es, w@, t@[a].0@, kp);
                            if a == idx as int {
                                assert(t@[a].0@ == who);
                            } else {
                                assert(t@[a] == told[a]);
                                assert(table_keys(told)[a] == told[a].0@);
                                assert(told[a].0@ != who) by {
                                    lemma_dedup_distinct(prefix);
                                }
                                assert(entry_weight_for(es[kp], w@, t@[a].0@) == 0);
                            }
                        }
                    }
                },
                Option::None => {
                    proof {
                        lemma_dedup_contains(prefix, who);
                        if all_keys(bs.take(ip)).contains(who) {
                            let j = choose|j: int|
                                0 <= j < all_keys(bs.take(ip)).len() && all_keys(bs.take(ip))[j]
                                    == who;
                            assert(prefix[j] == who);
                        }
                        lemma_share_absent(bs.take(ip), w@, who);
                        assert(t@.len() == table_keys(t@).len());
                    }
                    let ghost told = t@;
                    t.push((entries[k].0.clone(), wgt));
                    proof {
                        assert(t@ == told.push((t@[told.len() as int].0, wgt)));
                        assert(t@[told.len() as int].0@ == who);
                        assert(table_keys(t@) =~= table_keys(told).push(who));
                        assert(table_keys(t@) == dedup_keys(prefix.push(who)));
                        lemma_sum_map_push(
                            told,
                            t@[told.len() as int],
                            |p: (AccountId, u128)| p.1 as int,
                        );
                        lemma_ballot_total_step(es, w@, kp);
                        assert forall|a: int|
                            0 <= a < t@.len() implies (#[trigger] t@[a]).1 as int == share_of(
                            bs.take(ip),
                            w@,
                            t@[a].0@,
                        ) + ballot_contrib(es.take(kp + 1), w@, t@[a].0@) by {
                            lemma_contrib_step(es, w@, t@[a].0@, kp);
                            if a == told.len() as int {
                                assert(ballot_contrib(es.take(kp), w@, who) == 0);
                            } else {
                                assert(t@[a] == told[a]);
                                assert(table_keys(told)[a] == told[a].0@);
                                assert(told[a].0@ != who) by {
                                    if table_keys(told).contains(who) {
                                        assert(false);
                                    }
                                }
                                assert(entry_weight_for(es[kp], w@, t@[a].0@) == 0);
                            }
                        }
                    }
                },
            }
            k += 1;
        }
        proof {
            assert(es.take(es.len() as int) =~= es);
            lemma_all_keys_step(bs, ip);
            assert(all_keys(bs.take(ip)) + ballot_keys(es) =~= all_keys(bs.take(ip + 1)));
            assert forall|a: int| 0 <= a < t@.len() implies (#[trigger] t@[a]).1 as int == share_of(
                bs.take(ip + 1),
                w@,
                t@[a].0@,
            ) by {
                lemma_share_step(bs, w@, t@[a].0@, ip);
            }
            lemma_ballots_total_step(bs, w@, ip);
        }
        i += 1;
    }
    proof {
        assert(bs.take(bs.len() as int) =~= bs);
        lemma_dedup_distinct(all_keys(bs));
        assert forall|a: int, b: int|
            0 <= a < b < t@.len() implies (#[trigger] t@[a]).0@ != (#[trigger] t@[b]).0@ by {
            assert(table_keys(t@)[a] == t@[a].0@);
            assert(table_keys(t@)[b] == t@[b].0@);
        }
    }
    t
}

/// Looks a candidate account up in a share table; the index of its row, or
/// `None` when the table has no row for it.
fn find_account(t: &Vec<(AccountId, u128)>, who: &AccountId) -> (r: Option<usize>)
    ensures
        match r {
            Option::Some(i) => i < t@.len() && t@[i as int].0@ == who@,
            Option::None => !table_keys(t@).contains(who@),
        },
{
    let mut i: usize = 0;
    while i < t.len()
        invariant
            i <= t@.len(),
            forall|j: int| 0 <= j < i ==> (#[trigger] t@[j]).0@ != who@,
        decreases t@.len() - i,
    {
        if t[i].0 == *who {
            return Option::Some(i);
        }
        i += 1;
    }
    proof {
        if table_keys(t@).contains(who@) {
            let j = choose|j: int| 0 <= j < table_keys(t@).len() && table_keys(t@)[j] == who@;
            assert(t@[j].0@ == who@);
        }
    }
    Option::None
}

/// The rank values a ballot assigns, in entry order.
pub open spec fn ballot_ranks(entries: Seq<(AccountId, usize)>) -> Seq<usize> {
    entries.map_values(|e: (AccountId, usize)| e.1)
}

/// The ranks `1..=m`, in order.
pub open spec fn full_rank_seq(m: int) -> Seq<usize> {
    Seq::new(m as nat, |j: int| (j + 1) as usize)
}

/// A full permutation ballot for `n` voters: its ranks are exactly
/// `1..=n-1`, each used once, in some order.
pub open spec fn full_ballot(entries: Seq<(AccountId, usize)>, n: int) -> bool {
    ballot_ranks(entries).to_multiset() == full_rank_seq(n - 1).to_multiset()
}

/// The weight a bare rank value draws from the schedule.
pub open spec fn rank_weight(r: usize, w: Seq<u128>) -> int {
    if 1 <= r <= w.len() {
        w[r - 1] as int
    } else {
        0
    }
}

/// A full permutation ballot hands out exactly the whole schedule's sum:
/// each rank appears once, so the ballot's total weight is the sum of all
/// the schedule's entries, whichever candidates carry them.
pub proof fn lemma_full_ballot_total(entries: Seq<(AccountId, usize)>, w: Seq<u128>, n: int)
    requires
        2 <= n,
        n - 1 <= usize::MAX,
        w.len() == n - 1,
        full_ballot(entries, n),
    ensures
        ballot_total(entries, w) == seq_sum(w),
{
    let ranks = ballot_ranks(entries);
    let full = full_rank_seq(n - 1);
    lemma_sum_map_pointwise(
        entries,
        ranks,
        |e: (AccountId, usize)| entry_weight(e, w),
        |r: usize| rank_weight(r, w),
    );
    lemma_sum_map_permutation(ranks, full, |r: usize| rank_weight(r, w));
    assert forall|j: int| 0 <= j < full.len() implies (|r: usize| rank_weight(r, w))(full[j]) == (
    |x: u128| x as int)(w[j]) by {
        assert(full[j] == (j + 1) as usize);
    }
    lemma_sum_map_pointwise(full, w, |r: usize| rank_weight(r, w), |x: u128| x as int);
}

/// Aggregation conservation: when every one of the `n >= 2` ballots is a
/// full permutation over the other voters, the ballots hand out in total
/// exactly `funds * weight_denominator(n)` numerator parts — that is,
/// exactly `funds`, once divided by the common denominator.  Together with
/// `tally_shares`' contract, the share table built from such ballots sums
/// to the whole fund pool.
pub proof fn lemma_aggregation_conservation(ballots: Seq<Votes>, w: Seq<u128>, funds: u128)
    requires
        2 <= ballots.len(),
        ballots.len() <= usize::MAX,
        w.len() == ballots.len() - 1,
        forall|j: int|
            0 <= j < w.len() ==> w[j] == crate::weights::weight_numerator(
                ballots.len() as int,
                funds,
                j,
            ),
        forall|i: int| 0 <= i < ballots.len() ==> full_ballot(#[trigger] ballots[i].vote@, ballots.len() as int),
    ensures
        ballots_total(ballots, w) == funds * crate::weights::weight_denominator(
            ballots.len() as int,
        ),
{
    let n = ballots.len() as int;
    crate::weights::lemma_weight_conservation(w, n, funds);
    let s = seq_sum(w);
    assert forall|i: int|
        0 <= i < ballots.len() implies (|b: Votes| ballot_total(b.vote@, w))(
        #[trigger] ballots[i],
    ) == s by {
        lemma_full_ballot_total(ballots[i].vote@, w, n);
    }
    crate::sums::lemma_sum_map_const(ballots, |b: Votes| ballot_total(b.vote@, w), s);
    assert(n * s == funds * crate::weights::weight_denominator(n)) by {
        assert(n * s == n * (funds * (vstd::arithmetic::power2::pow2((n - 1) as nat) - 1)));
    }
}

/// Distinct values drawn from `1..=u` cannot number more than `u`.
proof fn lemma_distinct_bounded_len(s: Seq<usize>, u: int)
    requires
        0 <= u,
        forall|i: int| 0 <= i < s.len() ==> 1 <= (#[trigger] s[i]) <= u,
        forall|i: int, j: int| 0 <= i < j < s.len() ==> s[i] != s[j],
    ensures
        s.len() <= u,
    decreases u,
{
    if s.len() > 0 {
        assert(1 <= s[0] <= u);
        if exists|i: int| 0 <= i < s.len() && (#[trigger] s[i]) == u {
            let i = choose|i: int| 0 <= i < s.len() && (#[trigger] s[i]) == u;
            let t = s.remove(i);
            assert forall|a: int| 0 <= a < t.len() implies 1 <= (#[trigger] t[a]) <= u - 1 by {
                if a < i {
                    assert(t[a] == s[a]);
                    assert(s[a] != s[i]);
                } else {
                    assert(t[a] == s[a + 1]);
                    assert(s[i] != s[a + 1]);
                }
            }
            assert forall|a: int, b: int| 0 <= a < b < t.len() implies t[a] != t[b] by {
                assert(t[a] == (if a < i {
                    s[a]
                } else {
                    s[a + 1]
                }));
                assert(t[b] == (if b < i {
                    s[b]
                } else {
                    s[b + 1]
                }));
            }
            lemma_distinct_bounded_len(t, u - 1);
        } else {
            assert forall|a: int| 0 <= a < s.len() implies 1 <= (#[trigger] s[a]) <= u - 1 by {
                assert(s[a] != u);
            }
            lemma_distinct_bounded_len(s, u - 1);
        }
    }
}

/// Pigeonhole: `m` distinct values drawn from `1..=m` are exactly the
/// values `1..=m`, as a multiset.
proof fn lemma_distinct_covering_is_permutation(s: Seq<usize>, m: int)
    requires
        0 <= m <= usize::MAX,
        s.len() == m,
        forall|i: int| 0 <= i < s.len() ==> 1 <= (#[trigger] s[i]) <= m,
        forall|i: int, j: int| 0 <= i < j < s.len() ==> s[i] != s[j],
    ensures
        s.to_multiset() == full_rank_seq(m).to_multiset(),
    decreases m,
{
    broadcast use vstd::seq_lib::group_to_multiset_ensures;

    if m == 0 {
        assert(s =~= Seq::<usize>::empty());
        assert(full_rank_seq(0) =~= Seq::<usize>::empty());
    } else {
        if !(exists|i: int| 0 <= i < s.len() && (#[trigger] s[i]) == m) {
            assert forall|a: int| 0 <= a < s.len() implies 1 <= (#[trigger] s[a]) <= m - 1 by {
                assert(s[a] != m);
            }
            lemma_distinct_bounded_len(s, m - 1);
            assert(false);
        }
        let i = choose|i: int| 0 <= i < s.len() && (#[trigger] s[i]) == m;
        let t = s.remove(i);
        assert forall|a: int| 0 <= a < t.len() implies 1 <= (#[trigger] t[a]) <= m - 1 by {
            if a < i {
                assert(t[a] == s[a]);
                assert(s[a] != s[i]);
            } else {
                assert(t[a] == s[a + 1]);
                assert(s[i] != s[a + 1]);
            }
        }
        assert forall|a: int, b: int| 0 <= a < b < t.len() implies t[a] != t[b] by {
            assert(t[a] == (if a < i {
                s[a]
            } else {
                s[a + 1]
            }));
            assert(t[b] == (if b < i {
                s[b]
            } else {
                s[b + 1]
            }));
        }
        lemma_distinct_covering_is_permutation(t, m - 1);
        assert(t.to_multiset() =~= s.to_multiset().remove(s[i]));
        assert(s.contains(s[i]));
        assert(s.to_multiset().count(s[i]) > 0);
        assert(s.to_multiset() =~= t.to_multiset().insert(s[i]));
        assert(full_rank_seq(m).drop_last() =~= full_rank_seq(m - 1));
        assert(full_rank_seq(m) =~= full_rank_seq(m - 1).push(full_rank_seq(m).last()));
        assert(full_rank_seq(m).last() == s[i]);
        assert(full_rank_seq(m).to_multiset() =~= full_rank_seq(m - 1).to_multiset().insert(
            s[i],
        ));
        assert(s.to_multiset() =~= full_rank_seq(m).to_multiset());
    }
}

/// A ballot that ranks exactly `n - 1` candidates, each rank once and in
/// range, is a full permutation ballot: ballot submission validates
/// exactly this, so a validated ballot of the right length carries the
/// conservation hypothesis.
pub proof fn lemma_complete_ballot_is_full(entries: Seq<(AccountId, usize)>, n: int)
    requires
        2 <= n,
        n - 1 <= usize::MAX,
        entries.len() == n - 1,
        forall|i: int| 0 <= i < entries.len() ==> 1 <= (#[trigger] entries[i]).1 <= n - 1,
        forall|i: int, j: int|
            0 <= i < j < entries.len() ==> (#[trigger] entries[i]).1 != (#[trigger] entries[j]).1,
    ensures
        full_ballot(entries, n),
{
    let ranks = ballot_ranks(entries);
    assert forall|i: int| 0 <= i < ranks.len() implies 1 <= (#[trigger] ranks[i]) <= n - 1 by {
        assert(ranks[i] == entries[i].1);
    }
    assert forall|i: int, j: int| 0 <= i < j < ranks.len() implies ranks[i] != ranks[j] by {
        assert(ranks[i] == entries[i].1);
        assert(ranks[j] == entries[j].1);
    }
    lemma_distinct_covering_is_permutation(ranks, n - 1);
}

/// Merge order independence: two ballot sequences holding the same ballots
/// — in any order of submission — give every candidate the same share,
/// name the same candidates, and hand out the same total; the share table
/// they induce is the same mapping.
pub proof fn lemma_order_independence(b1: Seq<Votes>, b2: Seq<Votes>, w: Seq<u128>)
    requires
        b1.to_multiset() == b2.to_multiset(),
    ensures
        forall|who: Seq<char>| share_of(b1, w, who) == share_of(b2, w, who),
        forall|who: Seq<char>| is_candidate(b1, who) <==> is_candidate(b2, who),
        ballots_total(b1, w) == ballots_total(b2, w),
{
    assert forall|who: Seq<char>| share_of(b1, w, who) == share_of(b2, w, who) by {
        lemma_sum_map_permutation(b1, b2, |b: Votes| ballot_contrib(b.vote@, w, who));
    }
    lemma_sum_map_permutation(b1, b2, |b: Votes| ballot_total(b.vote@, w));
    assert forall|who: Seq<char>| is_candidate(b1, who) <==> is_candidate(b2, who) by {
        if is_candidate(b1, who) {
            lemma_candidate_in_other(b1, b2, who);
        }
        if is_candidate(b2, who) {
            lemma_candidate_in_other(b2, b1, who);
        }
    }
}

/// Whether one of the ballot's entries names `who`.
pub open spec fn ballot_names(b: Votes, who: Seq<char>) -> bool {
    exists|j: int| 0 <= j < b.vote@.len() && (#[trigger] b.vote@[j]).0@ == who
}

/// A candidacy is witnessed by some single ballot.
pub proof fn lemma_candidate_witness(ballots: Seq<Votes>, who: Seq<char>)
    ensures
        is_candidate(ballots, who) <==> exists|i: int|
            0 <= i < ballots.len() && ballot_names(#[trigger] ballots[i], who),
    decreases ballots.len(),
{
    if ballots.len() == 0 {
    } else {
        let front = ballots.drop_last();
        let last = ballots.last();
        lemma_candidate_witness(front, who);
        let ks = all_keys(ballots);
        assert(ks == all_keys(front) + ballot_keys(last.vote@));
        if is_candidate(ballots, who) {
            let j = choose|j: int| 0 <= j < ks.len() && ks[j] == who;
            if j < all_keys(front).len() {
                assert(all_keys(front)[j] == who);
                let i = choose|i: int| 0 <= i < front.len() && ballot_names(#[trigger] front[i], who);
                assert(ballots[i] == front[i]);
            } else {
                let jj = j - all_keys(front).len();
                assert(ballot_keys(last.vote@)[jj] == who);
                assert(last.vote@[jj].0@ == who);
                assert(ballot_names(ballots[ballots.len() - 1], who));
            }
        }
        if exists|i: int| 0 <= i < ballots.len() && ballot_names(#[trigger] ballots[i], who) {
            let i = choose|i: int| 0 <= i < ballots.len() && ballot_names(#[trigger] ballots[i], who);
            let j = choose|j: int|
                0 <= j < ballots[i].vote@.len() && (#[trigger] ballots[i].vote@[j]).0@ == who;
            if i < ballots.len() - 1 {
                assert(front[i] == ballots[i]);
                assert(ballot_names(front[i], who));
                assert(is_candidate(front, who));
                let jf = choose|jf: int| 0 <= jf < all_keys(front).len() && all_keys(front)[jf] == who;
                assert(ks[jf] == who);
            } else {
                assert(ballot_keys(last.vote@)[j] == who);
                assert(ks[all_keys(front).len() + j] == who);
            }
        }
    }
}

/// A ballot of `b1` stands somewhere in `b2` when the two hold the same
/// multiset of ballots, so every candidate of the one is a candidate of
/// the other.
proof fn lemma_candidate_in_other(b1: Seq<Votes>, b2: Seq<Votes>, who: Seq<char>)
    requires
        b1.to_multiset() == b2.to_multiset(),
        is_candidate(b1, who),
    ensures
        is_candidate(b2, who),
{
    broadcast use vstd::seq_lib::group_to_multiset_ensures;

    lemma_candidate_witness(b1, who);
    lemma_candidate_witness(b2, who);
    let i = choose|i: int| 0 <= i < b1.len() && ballot_names(#[trigger] b1[i], who);
    assert(b1.to_multiset().count(b1[i]) > 0);
    assert(b2.to_multiset().count(b1[i]) > 0);
    assert(b2.contains(b1[i]));
    let i2 = choose|i2: int| 0 <= i2 < b2.len() && b2[i2] == b1[i];
    assert(ballot_names(b2[i2], who));
}

} // verus!
