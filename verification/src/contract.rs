//! The proposal lifecycle and the operations gated by it.
//!
//! A `Contract` holds the proposal table and the member ledger.  Every
//! operation names its caller and carries the environment it needs (attached
//! deposit, clock reading) as plain arguments; it either performs exactly
//! the change its contract describes or returns the one error its inputs
//! call for, leaving the state untouched.

use crate::settlement::{round_table, rounded, spec_rounded_total};
use crate::tally::{
    accounts_distinct, all_keys, ballots_total, dedup_keys, is_candidate, seq_max, share_of,
    table_keys, table_sum, tally_shares,
};
use crate::types::ShareTable;
use crate::weights::{
    schedule, set_weights, settlement_fits, weight_denominator, weight_numerator,
};
use vstd::arithmetic::power2::pow2;
use crate::types::{proposal_like, votes_like, AccountId, Choicer, Decision, Error, Proposal, ProposalStatus, Votes, VoteType};
use crate::{CREATOR_BOND, MAX_METADATA_SIZE, MAX_TITLE_SIZE, RESERVED_FUNDS, UNIT_SCALE};
use vstd::prelude::*;
use vstd::string::StrSliceExecFns;
use vstd::string::StringExecFns;

verus! {

/// Proposals are looked up by id.
pub open spec fn has_proposal(ps: Seq<Proposal>, id: Seq<char>) -> bool {
    exists|i: int| 0 <= i < ps.len() && (#[trigger] ps[i]).id@ == id
}

/// The index of the proposal with the given id (meaningful only when
/// `has_proposal` holds; unique under well-formedness).
pub open spec fn prop_at(ps: Seq<Proposal>, id: Seq<char>) -> int {
    choose|i: int| 0 <= i < ps.len() && (#[trigger] ps[i]).id@ == id
}

/// Ledger entries are looked up by account.
pub open spec fn has_choicer(cs: Seq<Choicer>, who: Seq<char>) -> bool {
    exists|i: int| 0 <= i < cs.len() && (#[trigger] cs[i]).account_id@ == who
}

/// The index of the ledger entry for the given account (meaningful only
/// when `has_choicer` holds; unique under well-formedness).
pub open spec fn choicer_at(cs: Seq<Choicer>, who: Seq<char>) -> int {
    choose|i: int| 0 <= i < cs.len() && (#[trigger] cs[i]).account_id@ == who
}

/// What ballot submission enforces: every rank in `1..=len`, no rank and
/// no account twice, and the voter not ranking itself.  Ranks then form a
/// permutation of `1..=len`.
pub open spec fn valid_submission(voter: Seq<char>, entries: Seq<(AccountId, usize)>) -> bool {
    &&& accounts_distinct(entries)
    &&& forall|i: int| 0 <= i < entries.len() ==> 1 <= (#[trigger] entries[i]).1 <= entries.len()
    &&& forall|i: int, j: int|
        0 <= i < j < entries.len() ==> (#[trigger] entries[i]).1 != (#[trigger] entries[j]).1
    &&& forall|i: int| 0 <= i < entries.len() ==> (#[trigger] entries[i]).0@ != voter
}

/// A stored ballot satisfies what its submission enforced.
pub open spec fn valid_ballot(b: Votes) -> bool {
    valid_submission(b.from@, b.vote@)
}

/// Decides `valid_submission` for a ballot about to be accepted.
fn check_ballot(voter: &AccountId, entries: &Vec<(AccountId, usize)>) -> (ok: bool)
    ensures
        ok == valid_submission(voter@, entries@),
{
    let n = entries.len();
    let mut i: usize = 0;
    while i < n
        invariant
            n == entries@.len(),
            i <= n,
            forall|a: int, b: int|
                0 <= a < b < i ==> (#[trigger] entries@[a]).0@ != (#[trigger] entries@[b]).0@,
            forall|a: int| 0 <= a < i ==> 1 <= (#[trigger] entries@[a]).1 <= n,
            forall|a: int, b: int|
                0 <= a < b < i ==> (#[trigger] entries@[a]).1 != (#[trigger] entries@[b]).1,
            forall|a: int| 0 <= a < i ==> (#[trigger] entries@[a]).0@ != voter@,
        decreases n - i,
    {
        let rank = entries[i].1;
        if rank < 1 || rank > n {
            return false;
        }
        if entries[i].0 == *voter {
            return false;
        }
        let mut j: usize = 0;
        while j < i
            invariant
                n == entries@.len(),
                j <= i < n,
                forall|b: int| 0 <= b < j ==> (#[trigger] entries@[b]).0@ != entries@[i as int].0@,
                forall|b: int| 0 <= b < j ==> (#[trigger] entries@[b]).1 != entries@[i as int].1,
            decreases i - j,
        {
            if entries[j].0 == entries[i].0 {
                return false;
            }
            if entries[j].1 == entries[i].1 {
                return false;
            }
            j += 1;
        }
        i += 1;
    }
    true
}

/// Every ballot a proposal has accepted is valid.
pub open spec fn wf_proposal(p: Proposal) -> bool {
    forall|i: int| 0 <= i < p.vote_results@.len() ==> valid_ballot(#[trigger] p.vote_results@[i])
}

/// A fresh, zeroed ledger entry for `who`.
pub open spec fn zeroed_entry(c: Choicer, who: Seq<char>) -> bool {
    &&& c.account_id@ == who
    &&& c.total_received == 0
    &&& c.completed_choices == 0
    &&& c.current_choices == 0
    &&& c.proposals_created == 0
    &&& c.total_spending == 0
}

/// The application context: the proposal table and the member ledger.
pub struct Contract {
    pub proposals: Vec<Proposal>,
    pub choicers: Vec<Choicer>,
}

impl Contract {
    /// Well-formedness: ids and accounts are unique keys, and stored
    /// ballots were validated on the way in.
    pub open spec fn wf(self) -> bool {
        &&& forall|i: int, j: int|
            0 <= i < j < self.proposals@.len() ==> (#[trigger] self.proposals@[i]).id@ != (
            #[trigger] self.proposals@[j]).id@
        &&& forall|i: int, j: int|
            0 <= i < j < self.choicers@.len() ==> (#[trigger] self.choicers@[i]).account_id@ != (
            #[trigger] self.choicers@[j]).account_id@
        &&& forall|i: int| 0 <= i < self.proposals@.len() ==> wf_proposal(#[trigger] self.proposals@[i])
    }

    /// An empty contract: no proposals, no members.
    pub fn new() -> (c: Contract)
        ensures
            c.proposals@.len() == 0,
            c.choicers@.len() == 0,
            c.wf(),
    {
        Contract { proposals: Vec::new(), choicers: Vec::new() }
    }

    /// The index of the proposal with the given id, if any.
    fn find_proposal(&self, id: &String) -> (r: Option<usize>)
        ensures
            match r {
                Option::Some(i) => i < self.proposals@.len() && self.proposals@[i as int].id@
                    == id@ && has_proposal(self.proposals@, id@),
                Option::None => !has_proposal(self.proposals@, id@),
            },
    {
        let mut i: usize = 0;
        while i < self.proposals.len()
            invariant
                i <= self.proposals@.len(),
                forall|j: int| 0 <= j < i ==> (#[trigger] self.proposals@[j]).id@ != id@,
            decreases self.proposals@.len() - i,
        {
            if self.proposals[i].id == *id {
                return Option::Some(i);
            }
            i += 1;
        }
        Option::None
    }

    /// The index of the ledger entry for the given account, if any.
    fn find_choicer(&self, who: &AccountId) -> (r: Option<usize>)
        ensures
            match r {
                Option::Some(i) => i < self.choicers@.len() && self.choicers@[i as int].account_id@
                    == who@ && has_choicer(self.choicers@, who@),
                Option::None => !has_choicer(self.choicers@, who@),
            },
    {
        let mut i: usize = 0;
        while i < self.choicers.len()
            invariant
                i <= self.choicers@.len(),
                forall|j: int| 0 <= j < i ==> (#[trigger] self.choicers@[j]).account_id@ != who@,
            decreases self.choicers@.len() - i,
        {
            if self.choicers[i].account_id == *who {
                return Option::Some(i);
            }
            i += 1;
        }
        Option::None
    }

    /// Whether the account has registered a membership.
    pub fn is_a_member(&self, id: AccountId) -> (r: bool)
        ensures
            r == has_choicer(self.choicers@, id@),
    {
        match self.find_choicer(&id) {
            Option::Some(_) => true,
            Option::None => false,
        }
    }

    /// Registers the caller as a member, against a reserved deposit.  An
    /// existing entry is reset.  Fails with `InsufficientCollateral`
    /// exactly when the deposit is below the reserve.
    pub fn create_membership(&mut self, caller: AccountId, deposit: u128) -> (r: Result<(), Error>)
        requires
            old(self).wf(),
        ensures
            final(self).wf(),
            deposit < RESERVED_FUNDS ==> r == Result::<(), Error>::Err(
                Error::InsufficientCollateral,
            ) && *final(self) == *old(self),
            deposit >= RESERVED_FUNDS ==> {
                &&& r is Ok
                &&& final(self).proposals@ == old(self).proposals@
                &&& has_choicer(final(self).choicers@, caller@)
                &&& if has_choicer(old(self).choicers@, caller@) {
                    &&& final(self).choicers@.len() == old(self).choicers@.len()
                    &&& forall|j: int|
                        0 <= j < old(self).choicers@.len() ==> if (
                        #[trigger] old(self).choicers@[j]).account_id@ == caller@ {
                            zeroed_entry(final(self).choicers@[j], caller@)
                        } else {
                            final(self).choicers@[j] == old(self).choicers@[j]
                        }
                } else {
                    &&& final(self).choicers@.len() == old(self).choicers@.len() + 1
                    &&& final(self).choicers@.drop_last() == old(self).choicers@
                    &&& zeroed_entry(final(self).choicers@.last(), caller@)
                }
            },
    {
        if deposit < RESERVED_FUNDS {
            return Result::Err(Error::InsufficientCollateral);
        }
        let entry = Choicer {
            account_id: caller,
            total_received: 0,
            completed_choices: 0,
            current_choices: 0,
            proposals_created: 0,
            total_spending: 0,
        };
        match self.find_choicer(&entry.account_id) {
            Option::Some(i) => {
                self.choicers[i] = entry;
                proof {
                    assert(has_choicer(self.choicers@, old(self).choicers@[i as int].account_id@));
                }
            },
            Option::None => {
                self.choicers.push(entry);
                proof {
                    assert(self.choicers@.drop_last() =~= old(self).choicers@);
                    assert(has_choicer(
                        self.choicers@,
                        self.choicers@[old(self).choicers@.len() as int].account_id@,
                    ));
                }
            },
        }
        Result::Ok(())
    }
    /// Opens a funded contest.  The caller must be a member, attach at
    /// least the creator bond, and attach strictly more than the fund
    /// amount; the fund amount must itself reach the bond, and the texts
    /// must fit their size limits.  The proposal id is derived from the
    /// creator's account.
    pub fn create_proposal(
        &mut self,
        caller: AccountId,
        deposit: u128,
        now: u64,
        vote_type: VoteType,
        title: String,
        funds: u128,
        max_decisions: u16,
        metadata: String,
    ) -> (r: Result<String, Error>)
        requires
            old(self).wf(),
            forall|j: int|
                0 <= j < old(self).choicers@.len() && (#[trigger] old(
                    self,
                ).choicers@[j]).account_id@ == caller@ ==> old(self).choicers@[j].current_choices
                    < u16::MAX && old(self).choicers@[j].proposals_created < u16::MAX,
        ensures
            final(self).wf(),
            r is Err ==> *final(self) == *old(self),
            create_proposal_outcome(
                *old(self),
                *final(self),
                r,
                caller@,
                deposit,
                now,
                vote_type,
                title@,
                funds,
                max_decisions,
                metadata@,
            ),
    {
        let ci = match self.find_choicer(&caller) {
            Option::None => {
                return Result::Err(Error::NotAMember);
            },
            Option::Some(ci) => ci,
        };
        proof {
            lemma_choicer_at_unique(self.choicers@, caller@, ci as int);
        }
        if deposit < CREATOR_BOND {
            return Result::Err(Error::InsufficientCollateral);
        }
        if funds < CREATOR_BOND {
            return Result::Err(Error::InsufficientCollateral);
        }
        if deposit <= funds {
            return Result::Err(Error::InsufficientCollateral);
        }
        if title.as_str().unicode_len() > MAX_TITLE_SIZE || metadata.as_str().unicode_len()
            > MAX_METADATA_SIZE {
            return Result::Err(Error::InvalidSize);
        }
        let proposal_id = caller.clone().concat("001");
        let proposal = Proposal {
            status: ProposalStatus::Open,
            vote_type,
            id: proposal_id.clone(),
            title,
            funds,
            owner: caller,
            metadata,
            max_decisions,
            decisions: Vec::new(),
            vote_results: Vec::new(),
            start_time: now,
            settled: false,
        };
        let cur = self.choicers[ci].current_choices;
        self.choicers[ci].current_choices = cur + 1;
        let pc = self.choicers[ci].proposals_created;
        self.choicers[ci].proposals_created = pc + 1;
        match self.find_proposal(&proposal_id) {
            Option::Some(pi) => {
                proof {
                    lemma_prop_at_unique(self.proposals@, proposal_id@, pi as int);
                }
                self.proposals[pi] = proposal;
            },
            Option::None => {
                self.proposals.push(proposal);
                proof {
                    assert(self.proposals@.drop_last() =~= old(self).proposals@);
                }
            },
        }
        Result::Ok(proposal_id)
    }

    /// Adjusts an `Open` proposal's fund amount, owner-only; the new
    /// amount is given in whole tokens and stored in smallest units.
    pub fn change_funds(&mut self, caller: AccountId, proposal_id: String, new_funds: u128) -> (r:
        Result<(), Error>)
        requires
            old(self).wf(),
            new_funds * UNIT_SCALE <= u128::MAX,
        ensures
            final(self).wf(),
            r is Err ==> *final(self) == *old(self),
            if !has_proposal(old(self).proposals@, proposal_id@) {
                r == Result::<(), Error>::Err(Error::UnknownProposal)
            } else {
                let i = prop_at(old(self).proposals@, proposal_id@);
                let p = old(self).proposals@[i];
                if p.status != ProposalStatus::Open {
                    r == Result::<(), Error>::Err(Error::WrongLifecycleState)
                } else if p.owner@ != caller@ {
                    r == Result::<(), Error>::Err(Error::NotOwner)
                } else {
                    &&& r is Ok
                    &&& final(self).choicers@ == old(self).choicers@
                    &&& final(self).proposals@ == old(self).proposals@.update(
                        i,
                        Proposal { funds: (new_funds * UNIT_SCALE) as u128, ..p },
                    )
                }
            },
    {
        let i = match self.find_proposal(&proposal_id) {
            Option::None => {
                return Result::Err(Error::UnknownProposal);
            },
            Option::Some(i) => i,
        };
        proof {
            lemma_prop_at_unique(self.proposals@, proposal_id@, i as int);
        }
        if !(matches!(self.proposals[i].status, ProposalStatus::Open)) {
            return Result::Err(Error::WrongLifecycleState);
        }
        if !(self.proposals[i].owner == caller) {
            return Result::Err(Error::NotOwner);
        }
        self.proposals[i].funds = crate::ntoy(new_funds);
        proof {
            assert(final(self).proposals@[i as int].vote_results@ == old(
                self,
            ).proposals@[i as int].vote_results@);
        }
        Result::Ok(())
    }

    /// Attaches a decision to an `Open` proposal.  Member-only; the
    /// submitter's in-flight engagement count grows by one.
    pub fn submit_decision(&mut self, caller: AccountId, proposal_id: String, metadata: String) -> (r:
        Result<(), Error>)
        requires
            old(self).wf(),
            forall|j: int|
                0 <= j < old(self).choicers@.len() && (#[trigger] old(
                    self,
                ).choicers@[j]).account_id@ == caller@ ==> old(self).choicers@[j].current_choices
                    < u16::MAX,
        ensures
            final(self).wf(),
            r is Err ==> *final(self) == *old(self),
            if !has_choicer(old(self).choicers@, caller@) {
                r == Result::<(), Error>::Err(Error::NotAMember)
            } else if !has_proposal(old(self).proposals@, proposal_id@) {
                r == Result::<(), Error>::Err(Error::UnknownProposal)
            } else {
                let pi = prop_at(old(self).proposals@, proposal_id@);
                let ci = choicer_at(old(self).choicers@, caller@);
                let p = old(self).proposals@[pi];
                if p.status != ProposalStatus::Open {
                    r == Result::<(), Error>::Err(Error::WrongLifecycleState)
                } else {
                    &&& r is Ok
                    &&& final(self).proposals@.len() == old(self).proposals@.len()
                    &&& forall|j: int|
                        0 <= j < old(self).proposals@.len() && j != pi ==> final(self).proposals@[j]
                            == #[trigger] old(self).proposals@[j]
                    &&& final(self).proposals@[pi].decisions@.len() == p.decisions@.len() + 1
                    &&& final(self).proposals@[pi].decisions@.drop_last() == p.decisions@
                    &&& final(self).proposals@[pi].decisions@.last().performer@ == caller@
                    &&& final(self).proposals@[pi].decisions@.last().metadata@ == metadata@
                    &&& final(self).proposals@[pi] == Proposal {
                        decisions: final(self).proposals@[pi].decisions,
                        ..p
                    }
                    &&& final(self).choicers@.len() == old(self).choicers@.len()
                    &&& bumped_submitter(old(self).choicers@[ci], final(self).choicers@[ci])
                    &&& forall|j: int|
                        0 <= j < old(self).choicers@.len() && j != ci ==> final(self).choicers@[j]
                            == #[trigger] old(self).choicers@[j]
                }
            },
    {
        let ci = match self.find_choicer(&caller) {
            Option::None => {
                return Result::Err(Error::NotAMember);
            },
            Option::Some(ci) => ci,
        };
        proof {
            lemma_choicer_at_unique(self.choicers@, caller@, ci as int);
        }
        let pi = match self.find_proposal(&proposal_id) {
            Option::None => {
                return Result::Err(Error::UnknownProposal);
            },
            Option::Some(pi) => pi,
        };
        proof {
            lemma_prop_at_unique(self.proposals@, proposal_id@, pi as int);
        }
        if !(matches!(self.proposals[pi].status, ProposalStatus::Open)) {
            return Result::Err(Error::WrongLifecycleState);
        }
        let decision = Decision { performer: caller, metadata };
        let cur = self.choicers[ci].current_choices;
        self.choicers[ci].current_choices = cur + 1;
        self.proposals[pi].decisions.push(decision);
        proof {
            assert(final(self).proposals@[pi as int].decisions@.drop_last() =~= old(
                self,
            ).proposals@[pi as int].decisions@);
            assert(final(self).proposals@[pi as int].vote_results@ == old(
                self,
            ).proposals@[pi as int].vote_results@);
        }
        Result::Ok(())
    }

    /// Casts a ranked ballot on a proposal in its voting stage.  The
    /// ballot must rank each named candidate once with the ranks
    /// `1..=len`, and may not rank the voter itself; anything else is
    /// `MalformedBallot`.
    pub fn vote(&mut self, caller: AccountId, proposal_id: String, vote: Vec<(AccountId, usize)>) -> (r:
        Result<(), Error>)
        requires
            old(self).wf(),
        ensures
            final(self).wf(),
            r is Err ==> *final(self) == *old(self),
            if !has_choicer(old(self).choicers@, caller@) {
                r == Result::<(), Error>::Err(Error::NotAMember)
            } else if !has_proposal(old(self).proposals@, proposal_id@) {
                r == Result::<(), Error>::Err(Error::UnknownProposal)
            } else {
                let pi = prop_at(old(self).proposals@, proposal_id@);
                let p = old(self).proposals@[pi];
                if p.status != ProposalStatus::Vote {
                    r == Result::<(), Error>::Err(Error::WrongLifecycleState)
                } else if !valid_submission(caller@, vote@) {
                    r == Result::<(), Error>::Err(Error::MalformedBallot)
                } else {
                    &&& r is Ok
                    &&& final(self).choicers@ == old(self).choicers@
                    &&& final(self).proposals@.len() == old(self).proposals@.len()
                    &&& forall|j: int|
                        0 <= j < old(self).proposals@.len() && j != pi ==> final(self).proposals@[j]
                            == #[trigger] old(self).proposals@[j]
                    &&& final(self).proposals@[pi].vote_results@.len() == p.vote_results@.len() + 1
                    &&& final(self).proposals@[pi].vote_results@.drop_last() == p.vote_results@
                    &&& final(self).proposals@[pi].vote_results@.last().from@ == caller@
                    &&& final(self).proposals@[pi].vote_results@.last().vote@ == vote@
                    &&& final(self).proposals@[pi] == Proposal {
                        vote_results: final(self).proposals@[pi].vote_results,
                        ..p
                    }
                }
            },
    {
        if !self.is_a_member_ref(&caller) {
            return Result::Err(Error::NotAMember);
        }
        let pi = match self.find_proposal(&proposal_id) {
            Option::None => {
                return Result::Err(Error::UnknownProposal);
            },
            Option::Some(pi) => pi,
        };
        proof {
            lemma_prop_at_unique(self.proposals@, proposal_id@, pi as int);
        }
        if !(matches!(self.proposals[pi].status, ProposalStatus::Vote)) {
            return Result::Err(Error::WrongLifecycleState);
        }
        if !check_ballot(&caller, &vote) {
            return Result::Err(Error::MalformedBallot);
        }
        let choice = Votes { from: caller, vote };
        self.proposals[pi].vote_results.push(choice);
        proof {
            assert(final(self).proposals@[pi as int].vote_results@.drop_last() =~= old(
                self,
            ).proposals@[pi as int].vote_results@);
            assert forall|j: int|
                0 <= j < final(self).proposals@[pi as int].vote_results@.len() implies valid_ballot(
                #[trigger] final(self).proposals@[pi as int].vote_results@[j],
            ) by {
                if j < old(self).proposals@[pi as int].vote_results@.len() {
                    assert(final(self).proposals@[pi as int].vote_results@[j] == old(
                        self,
                    ).proposals@[pi as int].vote_results@[j]);
                }
            }
        }
        Result::Ok(())
    }

    /// Aggregates all ballots of a `Payout`-stage proposal into its share
    /// table: every (candidate, rank) pair becomes the schedule numerator
    /// for that rank, summed per candidate across ballots.
    pub fn calculate_vote_results(&self, proposal_id: String) -> (r: Result<ShareTable, Error>)
        requires
            self.wf(),
            fits_for(*self, proposal_id@),
        ensures
            calc_outcome(*self, proposal_id@, r),
    {
        let pi = match self.find_proposal(&proposal_id) {
            Option::None => {
                return Result::Err(Error::UnknownProposal);
            },
            Option::Some(pi) => pi,
        };
        proof {
            lemma_prop_at_unique(self.proposals@, proposal_id@, pi as int);
        }
        if !(matches!(self.proposals[pi].status, ProposalStatus::Payout)) {
            return Result::Err(Error::WrongLifecycleState);
        }
        let n = self.proposals[pi].vote_results.len();
        if n < 2 {
            return Result::Err(Error::MalformedBallot);
        }
        let ghost bs = self.proposals@[pi as int].vote_results@;
        let mut i: usize = 0;
        while i < n
            invariant
                has_proposal(self.proposals@, proposal_id@),
                prop_at(self.proposals@, proposal_id@) == pi,
                self.proposals@[pi as int].status == ProposalStatus::Payout,
                self.proposals@[pi as int].vote_results@ == bs,
                pi < self.proposals@.len(),
                n == bs.len(),
                i <= n,
                2 <= n,
                forall|a: int, k: int|
                    0 <= a < i && 0 <= k < bs[a].vote@.len() ==> 1 <= (#[trigger] bs[a].vote@[k]).1
                        <= n - 1,
            decreases n - i,
        {
            let m = self.proposals[pi].vote_results[i].vote.len();
            let mut k: usize = 0;
            while k < m
                invariant
                    has_proposal(self.proposals@, proposal_id@),
                    prop_at(self.proposals@, proposal_id@) == pi,
                    self.proposals@[pi as int].status == ProposalStatus::Payout,
                    self.proposals@[pi as int].vote_results@ == bs,
                    pi < self.proposals@.len(),
                    n == bs.len(),
                    2 <= n,
                    0 <= i < n,
                    m == bs[i as int].vote@.len(),
                    k <= m,
                    forall|kk: int| 0 <= kk < k ==> 1 <= (#[trigger] bs[i as int].vote@[kk]).1 <= n
                        - 1,
                decreases m - k,
            {
                let rk = self.proposals[pi].vote_results[i].vote[k].1;
                if rk < 1 || rk > n - 1 {
                    proof {
                        assert(!(1 <= bs[i as int].vote@[k as int].1 <= n - 1));
                        assert(!ranks_in_range(bs, n as int));
                    }
                    return Result::Err(Error::MalformedBallot);
                }
                k += 1;
            }
            i += 1;
        }
        let fu = crate::yton(self.proposals[pi].funds);
        let ghost nn = n as int;
        proof {
            assert(settlement_fits(nn, fu));
            assert(pow2((nn - 2) as nat) * fu <= nn * (pow2((nn - 2) as nat) * fu))
                by (nonlinear_arith)
                requires
                    nn >= 1,
                    pow2((nn - 2) as nat) * fu >= 0,
            ;
        }
        let w = set_weights(n, fu);
        proof {
            assert forall|a: int| 0 <= a < bs.len() implies accounts_distinct(
                #[trigger] bs[a].vote@,
            ) by {
                assert(valid_ballot(bs[a]));
            }
            assert forall|j: int| 0 <= j < w@.len() implies #[trigger] w@[j] <= pow2(
                (nn - 2) as nat,
            ) * fu by {
                assert(w@[j] == weight_numerator(nn, fu, j));
                if j > 0 {
                    vstd::arithmetic::power2::lemma_pow2_strictly_increases(
                        (nn - 2 - j) as nat,
                        (nn - 2) as nat,
                    );
                }
                vstd::arithmetic::mul::lemma_mul_inequality(
                    pow2((nn - 2 - j) as nat) as int,
                    pow2((nn - 2) as nat) as int,
                    fu as int,
                );
            }
            crate::tally::lemma_seq_max_le(w@, pow2((nn - 2) as nat) * fu);
            vstd::arithmetic::mul::lemma_mul_inequality(
                seq_max(w@),
                pow2((nn - 2) as nat) * fu,
                nn,
            );
            assert(seq_max(w@) * nn == nn * seq_max(w@)) by (nonlinear_arith);
            assert((pow2((nn - 2) as nat) * fu) * nn == nn * (pow2((nn - 2) as nat) * fu))
                by (nonlinear_arith);
            assert(bs.len() * seq_max(w@) <= u128::MAX);
        }
        let entries = tally_shares(&self.proposals[pi].vote_results, &w);
        let p2 = crate::weights::pow2_u128(n - 1);
        proof {
            crate::weights::lemma_weight_denominator_pos(nn);
            vstd::arithmetic::power2::lemma_pow2_pos((nn - 1) as nat);
            assert(p2 >= 1);
            assert((nn * (pow2((nn - 1) as nat) - 1)) == weight_denominator(nn));
            assert(nn * ((p2 - 1) as int) == weight_denominator(nn));
            assert(weight_denominator(nn) <= u128::MAX);
        }
        let d = (n as u128) * (p2 - 1);
        proof {
            assert(d as int == weight_denominator(nn));
            assert forall|j: int| 0 <= j < w@.len() implies #[trigger] w@[j] == schedule(
                nn,
                fu,
            )[j] by {
                assert(w@[j] == weight_numerator(nn, fu, j));
                assert(w@[j] <= u128::MAX);
            }
            assert(w@ =~= schedule(nn, fu));
        }
        Result::Ok(ShareTable { entries, denom: d })
    }

    /// Settles a `Payout`-stage proposal once: aggregates its ballots,
    /// rounds every candidate's share to whole units, refuses the whole
    /// settlement if the rounded total would exceed the pool, and
    /// otherwise updates every candidate's and the owner's ledger entry,
    /// marks the proposal settled, and returns the transfer list for the
    /// host to issue, in a deterministic order (candidates by first
    /// appearance across the ballots).  Whatever rounding leaves of the
    /// pool is withheld: the remainder is neither issued nor returned to
    /// the owner, whose ledger is debited only the rounded total.
    pub fn payout(&mut self, proposal_id: String) -> (r: Result<Vec<(AccountId, u128)>, Error>)
        requires
            old(self).wf(),
            fits_for(*old(self), proposal_id@),
            payout_room(*old(self), proposal_id@),
        ensures
            final(self).wf(),
            r is Err ==> *final(self) == *old(self),
            payout_outcome(*old(self), *final(self), r, proposal_id@),
    {
        let pi = match self.find_proposal(&proposal_id) {
            Option::None => {
                return Result::Err(Error::UnknownProposal);
            },
            Option::Some(pi) => pi,
        };
        proof {
            lemma_prop_at_unique(self.proposals@, proposal_id@, pi as int);
        }
        if !(matches!(self.proposals[pi].status, ProposalStatus::Payout)) {
            return Result::Err(Error::WrongLifecycleState);
        }
        if self.proposals[pi].settled {
            return Result::Err(Error::WrongLifecycleState);
        }
        let ghost p0 = self.proposals@[pi as int];
        let ghost bs = p0.vote_results@;
        let ghost nn = bs.len() as int;
        let ghost fug = funds_units(p0);
        let ghost w = schedule(nn, fug);
        let ghost dg = weight_denominator(nn);
        let st = match self.calculate_vote_results(proposal_id) {
            Result::Err(e) => {
                return Result::Err(e);
            },
            Result::Ok(st) => st,
        };
        let fu = crate::yton(self.proposals[pi].funds);
        proof {
            crate::weights::lemma_weight_denominator_pos(nn);
            assert(settlement_fits(nn, fug));
        }
        let (transfers, total) = match round_table(&st.entries, st.denom, fu) {
            Result::Err(e) => {
                proof {
                    crate::settlement::lemma_rounded_total_by_candidate(st.entries@, bs, w, dg);
                }
                return Result::Err(e);
            },
            Result::Ok(pair) => pair,
        };
        proof {
            crate::settlement::lemma_rounded_total_by_candidate(st.entries@, bs, w, dg);
            assert(table_keys(transfers@) =~= table_keys(st.entries@));
            assert forall|i: int| 0 <= i < transfers@.len() implies (#[trigger] transfers@[i]).1
                <= fu by {
                crate::tally::lemma_table_elem_le_sum(transfers@, i);
            }
            assert forall|i: int| 0 <= i < transfers@.len() implies (#[trigger] transfers@[i]).1
                as int == rounded(share_of(bs, w, transfers@[i].0@), dg) by {
                assert(transfers@[i].0@ == st.entries@[i].0@);
            }
            crate::tally::lemma_dedup_distinct(all_keys(bs));
            assert forall|a: int, b: int|
                0 <= a < b < transfers@.len() implies (#[trigger] transfers@[a]).0@ != (
            #[trigger] transfers@[b]).0@ by {
                assert(table_keys(transfers@)[a] == transfers@[a].0@);
                assert(table_keys(transfers@)[b] == transfers@[b].0@);
            }
            assert forall|i: int| 0 <= i < transfers@.len() implies is_candidate(
                bs,
                (#[trigger] transfers@[i]).0@,
            ) by {
                assert(table_keys(transfers@)[i] == transfers@[i].0@);
                crate::tally::lemma_dedup_contains(all_keys(bs), transfers@[i].0@);
            }
        }
        let mut m: usize = 0;
        while m < transfers.len()
            invariant
                *self == *old(self),
                old(self).wf(),
                has_proposal(old(self).proposals@, proposal_id@),
                prop_at(old(self).proposals@, proposal_id@) == pi,
                0 <= pi < old(self).proposals@.len(),
                p0 == old(self).proposals@[pi as int],
                bs == p0.vote_results@,
                nn == bs.len() as int,
                w == schedule(nn, fug),
                dg == weight_denominator(nn),
                fug == funds_units(p0),
                p0.status == ProposalStatus::Payout,
                !p0.settled,
                nn >= 2,
                ranks_in_range(bs, nn),
                spec_rounded_total(bs, w, dg) <= fug,
                m <= transfers@.len(),
                forall|i: int|
                    0 <= i < transfers@.len() ==> is_candidate(bs, (#[trigger] transfers@[i]).0@),
                forall|j: int|
                    0 <= j < m ==> has_choicer(self.choicers@, (#[trigger] transfers@[j]).0@),
            decreases transfers@.len() - m,
        {
            match self.find_choicer(&transfers[m].0) {
                Option::None => {
                    proof {
                        assert(is_candidate(bs, transfers@[m as int].0@) && !has_choicer(
                            old(self).choicers@,
                            transfers@[m as int].0@,
                        ));
                    }
                    return Result::Err(Error::UnknownAccount);
                },
                Option::Some(_) => {},
            }
            m += 1;
        }
        let oi = match self.find_choicer(&self.proposals[pi].owner) {
            Option::None => {
                return Result::Err(Error::UnknownAccount);
            },
            Option::Some(oi) => oi,
        };
        proof {
            assert forall|who: Seq<char>| is_candidate(bs, who) implies has_choicer(
                old(self).choicers@,
                who,
            ) by {
                crate::tally::lemma_dedup_contains(all_keys(bs), who);
                let j = choose|j: int|
                    0 <= j < dedup_keys(all_keys(bs)).len() && dedup_keys(all_keys(bs))[j] == who;
                assert(table_keys(transfers@)[j] == transfers@[j].0@);
            }
        }
        let ghost cs0 = self.choicers@;
        let ghost totg = total as int;
        let mut m2: usize = 0;
        while m2 < transfers.len()
            invariant
                old(self).wf(),
                payout_room(*old(self), proposal_id@),
                has_proposal(old(self).proposals@, proposal_id@),
                prop_at(old(self).proposals@, proposal_id@) == pi,
                0 <= pi < old(self).proposals@.len(),
                p0 == old(self).proposals@[pi as int],
                bs == p0.vote_results@,
                w == schedule(nn, fug),
                dg == weight_denominator(nn),
                fug == funds_units(p0),
                fu == fug,
                cs0 == old(self).choicers@,
                self.proposals@ == old(self).proposals@,
                self.choicers@.len() == cs0.len(),
                m2 <= transfers@.len(),
                forall|a: int, b: int|
                    0 <= a < b < transfers@.len() ==> (#[trigger] transfers@[a]).0@ != (
                    #[trigger] transfers@[b]).0@,
                forall|i: int|
                    0 <= i < transfers@.len() ==> (#[trigger] transfers@[i]).1 as int == rounded(
                        share_of(bs, w, transfers@[i].0@),
                        dg,
                    ),
                forall|i: int| 0 <= i < transfers@.len() ==> (#[trigger] transfers@[i]).1 <= fu,
                forall|i: int|
                    0 <= i < transfers@.len() ==> is_candidate(bs, (#[trigger] transfers@[i]).0@),
                forall|j: int|
                    0 <= j < transfers@.len() ==> has_choicer(cs0, (#[trigger] transfers@[j]).0@),
                forall|j: int|
                    0 <= j < cs0.len() ==> (#[trigger] self.choicers@[j]).account_id@
                        == cs0[j].account_id@,
                forall|j: int|
                    0 <= j < cs0.len() ==> if table_keys(transfers@.take(m2 as int)).contains(
                        (#[trigger] cs0[j]).account_id@,
                    ) {
                        credited(
                            cs0[j],
                            self.choicers@[j],
                            rounded(share_of(bs, w, cs0[j].account_id@), dg),
                        )
                    } else {
                        self.choicers@[j] == cs0[j]
                    },
            decreases transfers@.len() - m2,
        {
            let ghost keym = transfers@[m2 as int].0@;
            let idx = match self.find_choicer(&transfers[m2].0) {
                Option::None => {
                    proof {
                        let j = choose|j: int|
                            0 <= j < cs0.len() && (#[trigger] cs0[j]).account_id@ == keym;
                        assert(self.choicers@[j].account_id@ == keym);
                        assert(false);
                    }
                    return Result::Err(Error::UnknownAccount);
                },
                Option::Some(idx) => idx,
            };
            proof {
                // this row's account has not been credited yet: its key is
                // not among the keys already processed
                if table_keys(transfers@.take(m2 as int)).contains(keym) {
                    let a = choose|a: int|
                        0 <= a < m2 && table_keys(transfers@.take(m2 as int))[a] == keym;
                    assert(transfers@[a].0@ == keym);
                    assert(false);
                }
                assert(self.choicers@[idx as int] == cs0[idx as int]);
                lemma_choicer_at_unique(old(self).choicers@, keym, idx as int);
                assert(is_candidate(bs, cs0[idx as int].account_id@));
            }
            let amount = transfers[m2].1;
            let c = self.choicers[idx].completed_choices;
            self.choicers[idx].completed_choices = c + 1;
            let cc = self.choicers[idx].current_choices;
            self.choicers[idx].current_choices = cc - 1;
            let tr = self.choicers[idx].total_received;
            self.choicers[idx].total_received = tr + amount;
            proof {
                assert(table_keys(transfers@.take(m2 as int + 1)) =~= table_keys(
                    transfers@.take(m2 as int),
                ).push(keym));
                assert forall|j: int|
                    0 <= j < cs0.len() implies if table_keys(
                    transfers@.take(m2 as int + 1),
                ).contains((#[trigger] cs0[j]).account_id@) {
                    credited(
                        cs0[j],
                        self.choicers@[j],
                        rounded(share_of(bs, w, cs0[j].account_id@), dg),
                    )
                } else {
                    self.choicers@[j] == cs0[j]
                } by {
                    let key_j = cs0[j].account_id@;
                    let ks1 = table_keys(transfers@.take(m2 as int + 1));
                    let ks0 = table_keys(transfers@.take(m2 as int));
                    if ks1.contains(key_j) {
                        let a = choose|a: int| 0 <= a < ks1.len() && ks1[a] == key_j;
                        if a < ks0.len() {
                            assert(ks0[a] == key_j);
                            assert(ks0.contains(key_j));
                            assert(j != idx);
                        } else {
                            assert(key_j == keym);
                            assert(j == idx) by {
                                if j != idx {
                                    assert(cs0[j].account_id@ != cs0[idx as int].account_id@);
                                }
                            }
                        }
                    } else {
                        assert(!ks0.contains(key_j)) by {
                            if ks0.contains(key_j) {
                                let a = choose|a: int| 0 <= a < ks0.len() && ks0[a] == key_j;
                                assert(ks1[a] == key_j);
                            }
                        }
                        assert(j != idx) by {
                            assert(ks1[ks0.len() as int] == keym);
                        }
                    }
                }
            }
            m2 += 1;
        }
        proof {
            assert(transfers@.take(transfers@.len() as int) =~= transfers@);
        }
        let c = self.choicers[oi].completed_choices;
        self.choicers[oi].completed_choices = c + 1;
        let cc = self.choicers[oi].current_choices;
        self.choicers[oi].current_choices = cc - 1;
        let ts = self.choicers[oi].total_spending;
        self.choicers[oi].total_spending = ts + total;
        self.proposals[pi].settled = true;
        proof {
            crate::tally::lemma_dedup_contains(all_keys(bs), cs0[oi as int].account_id@);
            assert forall|j: int|
                0 <= j < cs0.len() implies ledger_settled(
                #[trigger] cs0[j],
                final(self).choicers@[j],
                is_candidate(bs, cs0[j].account_id@),
                cs0[j].account_id@ == p0.owner@,
                rounded(share_of(bs, w, cs0[j].account_id@), dg),
                totg,
            ) by {
                let key_j = cs0[j].account_id@;
                crate::tally::lemma_dedup_contains(all_keys(bs), key_j);
                if j != oi as int {
                    assert(cs0[j].account_id@ != cs0[oi as int].account_id@) by {
                        if j < oi as int {
                        } else {
                        }
                    }
                    assert(key_j != p0.owner@);
                    if is_candidate(bs, key_j) {
                        assert(table_keys(transfers@).contains(key_j));
                    } else {
                        if table_keys(transfers@).contains(key_j) {
                            let a = choose|a: int|
                                0 <= a < table_keys(transfers@).len() && table_keys(transfers@)[a]
                                    == key_j;
                            assert(transfers@[a].0@ == key_j);
                        }
                    }
                } else {
                    assert(key_j == p0.owner@);
                    if is_candidate(bs, key_j) {
                        assert(table_keys(transfers@).contains(key_j));
                    } else {
                        if table_keys(transfers@).contains(key_j) {
                            let a = choose|a: int|
                                0 <= a < table_keys(transfers@).len() && table_keys(transfers@)[a]
                                    == key_j;
                            assert(transfers@[a].0@ == key_j);
                        }
                    }
                }
            }
            assert(final(self).proposals@ =~= old(self).proposals@.update(
                pi as int,
                Proposal { settled: true, ..p0 },
            ));
            assert forall|i: int|
                0 <= i < final(self).proposals@.len() implies wf_proposal(
                #[trigger] final(self).proposals@[i],
            ) by {
                if i != pi as int {
                    assert(final(self).proposals@[i] == old(self).proposals@[i]);
                } else {
                    assert(final(self).proposals@[i].vote_results@ == p0.vote_results@);
                }
            }
        }
        Result::Ok(transfers)
    }

    /// Whether the account has registered a membership (borrowed form).
    fn is_a_member_ref(&self, id: &AccountId) -> (r: bool)
        ensures
            r == has_choicer(self.choicers@, id@),
    {
        match self.find_choicer(id) {
            Option::Some(_) => true,
            Option::None => false,
        }
    }

    /// Copies of all ballots cast so far; legal once voting has started.
    pub fn view_vote_board(&self, proposal_id: String) -> (r: Result<Vec<Votes>, Error>)
        requires
            self.wf(),
        ensures
            match r {
                Result::Ok(bs) => {
                    &&& has_proposal(self.proposals@, proposal_id@)
                    &&& self.proposals@[prop_at(self.proposals@, proposal_id@)].status
                        != ProposalStatus::Open
                    &&& bs@.len() == self.proposals@[prop_at(
                        self.proposals@,
                        proposal_id@,
                    )].vote_results@.len()
                    &&& forall|i: int|
                        0 <= i < bs@.len() ==> votes_like(
                            #[trigger] bs@[i],
                            self.proposals@[prop_at(self.proposals@, proposal_id@)].vote_results@[i],
                        )
                },
                Result::Err(e) => {
                    if !has_proposal(self.proposals@, proposal_id@) {
                        e == Error::UnknownProposal
                    } else {
                        e == Error::WrongLifecycleState && self.proposals@[prop_at(
                            self.proposals@,
                            proposal_id@,
                        )].status == ProposalStatus::Open
                    }
                },
            },
    {
        let pi = match self.find_proposal(&proposal_id) {
            Option::None => {
                return Result::Err(Error::UnknownProposal);
            },
            Option::Some(pi) => pi,
        };
        proof {
            lemma_prop_at_unique(self.proposals@, proposal_id@, pi as int);
        }
        if matches!(self.proposals[pi].status, ProposalStatus::Open) {
            return Result::Err(Error::WrongLifecycleState);
        }
        Result::Ok(clone_votes_vec(&self.proposals[pi].vote_results))
    }

    /// The decisions attached to a proposal, or `UnknownProposal`.
    pub fn view_decisions(&self, proposal_id: String) -> (r: Result<Vec<Decision>, Error>)
        requires
            self.wf(),
        ensures
            match r {
                Result::Ok(ds) => has_proposal(self.proposals@, proposal_id@) && ds@
                    == self.proposals@[prop_at(self.proposals@, proposal_id@)].decisions@,
                Result::Err(e) => e == Error::UnknownProposal && !has_proposal(
                    self.proposals@,
                    proposal_id@,
                ),
            },
    {
        match self.find_proposal(&proposal_id) {
            Option::None => Result::Err(Error::UnknownProposal),
            Option::Some(i) => {
                let ds = clone_decisions(&self.proposals[i].decisions);
                proof {
                    lemma_prop_at_unique(self.proposals@, proposal_id@, i as int);
                }
                Result::Ok(ds)
            },
        }
    }

    /// Whether the proposal is still collecting decisions, or
    /// `UnknownProposal`.
    pub fn is_active_proposal(&self, proposal_id: String) -> (r: Result<bool, Error>)
        requires
            self.wf(),
        ensures
            match r {
                Result::Ok(b) => has_proposal(self.proposals@, proposal_id@) && b == (
                self.proposals@[prop_at(self.proposals@, proposal_id@)].status
                    == ProposalStatus::Open),
                Result::Err(e) => e == Error::UnknownProposal && !has_proposal(
                    self.proposals@,
                    proposal_id@,
                ),
            },
    {
        match self.find_proposal(&proposal_id) {
            Option::None => Result::Err(Error::UnknownProposal),
            Option::Some(i) => {
                proof {
                    lemma_prop_at_unique(self.proposals@, proposal_id@, i as int);
                }
                Result::Ok(matches!(self.proposals[i].status, ProposalStatus::Open))
            },
        }
    }

    /// Copies of all proposals still in `Open`, in table order.
    pub fn view_active_proposals(&self) -> (r: Vec<Proposal>)
        ensures
            r@.len() == self.proposals@.filter(
                |p: Proposal| p.status == ProposalStatus::Open,
            ).len(),
            forall|i: int|
                0 <= i < r@.len() ==> proposal_like(
                    #[trigger] r@[i],
                    self.proposals@.filter(|p: Proposal| p.status == ProposalStatus::Open)[i],
                ),
    {
        let mut r: Vec<Proposal> = Vec::new();
        let mut i: usize = 0;
        proof {
            reveal(Seq::filter);
            assert(self.proposals@.take(0) =~= Seq::<Proposal>::empty());
        }
        while i < self.proposals.len()
            invariant
                i <= self.proposals@.len(),
                r@.len() == self.proposals@.take(i as int).filter(
                    |p: Proposal| p.status == ProposalStatus::Open,
                ).len(),
                forall|j: int|
                    0 <= j < r@.len() ==> proposal_like(
                        #[trigger] r@[j],
                        self.proposals@.take(i as int).filter(
                            |p: Proposal| p.status == ProposalStatus::Open,
                        )[j],
                    ),
            decreases self.proposals@.len() - i,
        {
            proof {
                reveal(Seq::filter);
                assert(self.proposals@.take(i as int + 1).drop_last() =~= self.proposals@.take(
                    i as int,
                ));
                assert(self.proposals@.take(i as int + 1).last() == self.proposals@[i as int]);
            }
            if matches!(self.proposals[i].status, ProposalStatus::Open) {
                let p = clone_proposal(&self.proposals[i]);
                r.push(p);
            }
            i += 1;
        }
        proof {
            assert(self.proposals@.take(self.proposals@.len() as int) =~= self.proposals@);
        }
        r
    }

    /// Moves an `Open` proposal into its voting stage.  Owner-only.
    pub fn start_election(&mut self, caller: AccountId, proposal_id: String) -> (r: Result<
        (),
        Error,
    >)
        requires
            old(self).wf(),
        ensures
            final(self).wf(),
            r is Err ==> *final(self) == *old(self),
            lifecycle_outcome(
                *old(self),
                *final(self),
                r,
                proposal_id@,
                caller@,
                ProposalStatus::Open,
                ProposalStatus::Vote,
            ),
    {
        self.transition(caller, proposal_id, ProposalStatus::Open, ProposalStatus::Vote)
    }

    /// Closes voting and moves the proposal into `Payout`.  Owner-only.
    pub fn finish_election(&mut self, caller: AccountId, proposal_id: String) -> (r: Result<
        (),
        Error,
    >)
        requires
            old(self).wf(),
        ensures
            final(self).wf(),
            r is Err ==> *final(self) == *old(self),
            lifecycle_outcome(
                *old(self),
                *final(self),
                r,
                proposal_id@,
                caller@,
                ProposalStatus::Vote,
                ProposalStatus::Payout,
            ),
    {
        self.transition(caller, proposal_id, ProposalStatus::Vote, ProposalStatus::Payout)
    }

    /// The shared body of the two lifecycle transitions: the proposal must
    /// exist, stand exactly in `from`, and be moved by its owner.
    fn transition(
        &mut self,
        caller: AccountId,
        proposal_id: String,
        from: ProposalStatus,
        to: ProposalStatus,
    ) -> (r: Result<(), Error>)
        requires
            old(self).wf(),
            from != to,
        ensures
            final(self).wf(),
            r is Err ==> *final(self) == *old(self),
            lifecycle_outcome(*old(self), *final(self), r, proposal_id@, caller@, from, to),
    {
        let i = match self.find_proposal(&proposal_id) {
            Option::None => {
                return Result::Err(Error::UnknownProposal);
            },
            Option::Some(i) => i,
        };
        proof {
            lemma_prop_at_unique(self.proposals@, proposal_id@, i as int);
        }
        if !(self.proposals[i].status == from) {
            return Result::Err(Error::WrongLifecycleState);
        }
        if !(self.proposals[i].owner == caller) {
            return Result::Err(Error::NotOwner);
        }
        self.proposals[i].status = to;
        proof {
            assert(final(self).proposals@[i as int].vote_results@ == old(
                self,
            ).proposals@[i as int].vote_results@);
        }
        Result::Ok(())
    }
}

/// Every rank of every ballot lies in `1..=n-1`, for `n` voters: what the
/// engine needs of the ballots at settlement time.
pub open spec fn ranks_in_range(ballots: Seq<Votes>, n: int) -> bool {
    forall|i: int, k: int|
        0 <= i < ballots.len() && 0 <= k < ballots[i].vote@.len() ==> 1 <= (
        #[trigger] ballots[i].vote@[k]).1 <= n - 1
}

/// The proposal's fund pool in whole units.
pub open spec fn funds_units(p: Proposal) -> u128 {
    (p.funds / UNIT_SCALE) as u128
}

/// The machine limits settlement asks of its caller: where the proposal
/// exists, has reached `Payout` and holds at least two ballots, the voter
/// count and fund amount must fit the schedule arithmetic.
pub open spec fn fits_for(c: Contract, id: Seq<char>) -> bool {
    has_proposal(c.proposals@, id) ==> {
        let p = c.proposals@[prop_at(c.proposals@, id)];
        (p.status == ProposalStatus::Payout && p.vote_results@.len() >= 2) ==> settlement_fits(
            p.vote_results@.len() as int,
            funds_units(p),
        )
    }
}

/// What a computed share table states: the schedule's common denominator,
/// one row per candidate in order of first appearance, each row the
/// candidate's exact share numerator, the rows summing to the ballots'
/// total weight.
pub open spec fn share_table_ok(st: ShareTable, ballots: Seq<Votes>, fu: u128) -> bool {
    let n = ballots.len() as int;
    let w = schedule(n, fu);
    &&& st.denom as int == weight_denominator(n)
    &&& table_keys(st.entries@) == dedup_keys(all_keys(ballots))
    &&& forall|i: int|
        0 <= i < st.entries@.len() ==> (#[trigger] st.entries@[i]).1 as int == share_of(
            ballots,
            w,
            st.entries@[i].0@,
        )
    &&& table_sum(st.entries@) == ballots_total(ballots, w)
}

/// The outcome aggregation owes: the proposal must exist and stand in
/// `Payout`; fewer than two ballots, or any rank outside `1..=n-1`, is a
/// malformed ballot set; otherwise the share table is computed exactly.
pub open spec fn calc_outcome(c: Contract, id: Seq<char>, r: Result<ShareTable, Error>) -> bool {
    if !has_proposal(c.proposals@, id) {
        r == Result::<ShareTable, Error>::Err(Error::UnknownProposal)
    } else {
        let p = c.proposals@[prop_at(c.proposals@, id)];
        let n = p.vote_results@.len() as int;
        if p.status != ProposalStatus::Payout {
            r == Result::<ShareTable, Error>::Err(Error::WrongLifecycleState)
        } else if n < 2 {
            r == Result::<ShareTable, Error>::Err(Error::MalformedBallot)
        } else if !ranks_in_range(p.vote_results@, n) {
            r == Result::<ShareTable, Error>::Err(Error::MalformedBallot)
        } else {
            match r {
                Result::Ok(st) => share_table_ok(st, p.vote_results@, funds_units(p)),
                Result::Err(_) => false,
            }
        }
    }
}

/// A candidate's ledger entry after its transfer is issued: one engagement
/// completed, one fewer in flight, the rounded share received.
pub open spec fn credited(o: Choicer, n: Choicer, amount: int) -> bool {
    &&& n.account_id@ == o.account_id@
    &&& n.total_received == o.total_received + amount
    &&& n.completed_choices == o.completed_choices + 1
    &&& n.current_choices == o.current_choices - 1
    &&& n.proposals_created == o.proposals_created
    &&& n.total_spending == o.total_spending
}

/// A ledger entry after settlement, by the two roles the account may have
/// played: a candidate receives its rounded share, the owner pays the
/// rounded total, each role completing one engagement.
pub open spec fn ledger_settled(
    o: Choicer,
    n: Choicer,
    cand: bool,
    own: bool,
    amount: int,
    total: int,
) -> bool {
    &&& n.account_id@ == o.account_id@
    &&& n.total_received == o.total_received + (if cand {
        amount
    } else {
        0
    })
    &&& n.completed_choices == o.completed_choices + (if cand {
        1 as int
    } else {
        0
    }) + (if own {
        1 as int
    } else {
        0
    })
    &&& n.current_choices == o.current_choices - (if cand {
        1 as int
    } else {
        0
    }) - (if own {
        1 as int
    } else {
        0
    })
    &&& n.proposals_created == o.proposals_created
    &&& n.total_spending == o.total_spending + (if own {
        total
    } else {
        0
    })
}

/// The counter room settlement asks of its caller: every ledger entry it
/// will touch can take one more completed engagement per role, has an
/// in-flight engagement to complete, and can absorb up to the whole pool.
pub open spec fn payout_room(c: Contract, id: Seq<char>) -> bool {
    has_proposal(c.proposals@, id) ==> {
        let p = c.proposals@[prop_at(c.proposals@, id)];
        forall|j: int|
            0 <= j < c.choicers@.len() ==> {
                let o = #[trigger] c.choicers@[j];
                let cand = is_candidate(p.vote_results@, o.account_id@);
                let own = o.account_id@ == p.owner@;
                (cand || own) ==> {
                    &&& o.completed_choices + (if cand {
                        1 as int
                    } else {
                        0
                    }) + (if own {
                        1 as int
                    } else {
                        0
                    }) <= u16::MAX
                    &&& o.current_choices >= (if cand {
                        1 as int
                    } else {
                        0
                    }) + (if own {
                        1 as int
                    } else {
                        0
                    })
                    &&& (cand ==> o.total_received + funds_units(p) <= u128::MAX)
                    &&& (own ==> o.total_spending + funds_units(p) <= u128::MAX)
                }
            }
    }
}

/// The outcome settlement owes.  Checks run in order: the proposal must
/// exist, stand in `Payout` and not be settled yet; the ballots must be at
/// least two with every rank in range; the rounded total must not exceed
/// the pool (fund-safety: nothing is issued otherwise); every candidate
/// and the owner must hold a ledger entry.  On success the transfer list
/// is returned — one rounded share per candidate, in order of first
/// appearance, summing to at most the pool — the ledger entries of the
/// candidates and the owner are settled, and the proposal is marked
/// settled, which makes it terminal.
pub open spec fn payout_outcome(
    pre: Contract,
    post: Contract,
    r: Result<Vec<(AccountId, u128)>, Error>,
    id: Seq<char>,
) -> bool {
    if !has_proposal(pre.proposals@, id) {
        r == Result::<Vec<(AccountId, u128)>, Error>::Err(Error::UnknownProposal)
    } else {
        let pi = prop_at(pre.proposals@, id);
        let p = pre.proposals@[pi];
        let ballots = p.vote_results@;
        let n = ballots.len() as int;
        let fu = funds_units(p);
        if p.status != ProposalStatus::Payout || p.settled {
            r == Result::<Vec<(AccountId, u128)>, Error>::Err(Error::WrongLifecycleState)
        } else if n < 2 || !ranks_in_range(ballots, n) {
            r == Result::<Vec<(AccountId, u128)>, Error>::Err(Error::MalformedBallot)
        } else {
            let w = schedule(n, fu);
            let d = weight_denominator(n);
            let total = spec_rounded_total(ballots, w, d);
            if total > fu {
                r == Result::<Vec<(AccountId, u128)>, Error>::Err(Error::InsufficientFunds)
            } else if (exists|who: Seq<char>|
                is_candidate(ballots, who) && !has_choicer(pre.choicers@, who)) || !has_choicer(
                pre.choicers@,
                p.owner@,
            ) {
                r == Result::<Vec<(AccountId, u128)>, Error>::Err(Error::UnknownAccount)
            } else {
                match r {
                    Result::Err(_) => false,
                    Result::Ok(ts) => {
                        &&& table_keys(ts@) == dedup_keys(all_keys(ballots))
                        &&& forall|i: int|
                            0 <= i < ts@.len() ==> (#[trigger] ts@[i]).1 as int == rounded(
                                share_of(ballots, w, ts@[i].0@),
                                d,
                            )
                        &&& table_sum(ts@) == total
                        &&& total <= fu
                        &&& post.proposals@ == pre.proposals@.update(
                            pi,
                            Proposal { settled: true, ..p },
                        )
                        &&& post.choicers@.len() == pre.choicers@.len()
                        &&& forall|j: int|
                            0 <= j < pre.choicers@.len() ==> ledger_settled(
                                #[trigger] pre.choicers@[j],
                                post.choicers@[j],
                                is_candidate(ballots, pre.choicers@[j].account_id@),
                                pre.choicers@[j].account_id@ == p.owner@,
                                rounded(share_of(ballots, w, pre.choicers@[j].account_id@), d),
                                total,
                            )
                    },
                }
            }
        }
    }
}

/// The creator's ledger entry after a proposal of theirs is accepted: one
/// more in-flight engagement, one more proposal created.
pub open spec fn bumped_creator(o: Choicer, n: Choicer) -> bool {
    &&& n.account_id@ == o.account_id@
    &&& n.total_received == o.total_received
    &&& n.completed_choices == o.completed_choices
    &&& n.current_choices == o.current_choices + 1
    &&& n.proposals_created == o.proposals_created + 1
    &&& n.total_spending == o.total_spending
}

/// A submitter's ledger entry after a decision of theirs is accepted: one
/// more in-flight engagement.
pub open spec fn bumped_submitter(o: Choicer, n: Choicer) -> bool {
    &&& n.account_id@ == o.account_id@
    &&& n.total_received == o.total_received
    &&& n.completed_choices == o.completed_choices
    &&& n.current_choices == o.current_choices + 1
    &&& n.proposals_created == o.proposals_created
    &&& n.total_spending == o.total_spending
}

/// The proposal record a successful `create_proposal` stores.
pub open spec fn fresh_proposal(
    p: Proposal,
    id: Seq<char>,
    vote_type: VoteType,
    title: Seq<char>,
    funds: u128,
    owner: Seq<char>,
    metadata: Seq<char>,
    max_decisions: u16,
    now: u64,
) -> bool {
    &&& p.status == ProposalStatus::Open
    &&& p.vote_type == vote_type
    &&& p.id@ == id
    &&& p.title@ == title
    &&& p.funds == funds
    &&& p.owner@ == owner
    &&& p.metadata@ == metadata
    &&& p.max_decisions == max_decisions
    &&& p.decisions@.len() == 0
    &&& p.vote_results@.len() == 0
    &&& p.start_time == now
    &&& !p.settled
}

/// The outcome `create_proposal` owes.  Checks run in order: membership,
/// attached bond, minimum fund amount, collateral covering the fund
/// amount, then sizes; on success the proposal is stored under the id
/// derived from the creator's account (replacing a previous proposal of
/// theirs under the same id), and the creator's ledger entry is bumped.
pub open spec fn create_proposal_outcome(
    pre: Contract,
    post: Contract,
    r: Result<String, Error>,
    caller: Seq<char>,
    deposit: u128,
    now: u64,
    vote_type: VoteType,
    title: Seq<char>,
    funds: u128,
    max_decisions: u16,
    metadata: Seq<char>,
) -> bool {
    if !has_choicer(pre.choicers@, caller) {
        r == Result::<String, Error>::Err(Error::NotAMember)
    } else if deposit < CREATOR_BOND {
        r == Result::<String, Error>::Err(Error::InsufficientCollateral)
    } else if funds < CREATOR_BOND {
        r == Result::<String, Error>::Err(Error::InsufficientCollateral)
    } else if deposit <= funds {
        r == Result::<String, Error>::Err(Error::InsufficientCollateral)
    } else if title.len() > MAX_TITLE_SIZE || metadata.len() > MAX_METADATA_SIZE {
        r == Result::<String, Error>::Err(Error::InvalidSize)
    } else {
        let id = caller + "001"@;
        let ci = choicer_at(pre.choicers@, caller);
        &&& match r {
            Result::Ok(rid) => rid@ == id,
            Result::Err(_) => false,
        }
        &&& post.choicers@.len() == pre.choicers@.len()
        &&& bumped_creator(pre.choicers@[ci], post.choicers@[ci])
        &&& forall|j: int|
            0 <= j < pre.choicers@.len() && j != ci ==> post.choicers@[j] == #[trigger] pre.choicers@[j]
        &&& if has_proposal(pre.proposals@, id) {
            let pi = prop_at(pre.proposals@, id);
            &&& post.proposals@.len() == pre.proposals@.len()
            &&& fresh_proposal(
                post.proposals@[pi],
                id,
                vote_type,
                title,
                funds,
                caller,
                metadata,
                max_decisions,
                now,
            )
            &&& forall|j: int|
                0 <= j < pre.proposals@.len() && j != pi ==> post.proposals@[j] == #[trigger] pre.proposals@[j]
        } else {
            &&& post.proposals@.len() == pre.proposals@.len() + 1
            &&& post.proposals@.drop_last() == pre.proposals@
            &&& fresh_proposal(
                post.proposals@.last(),
                id,
                vote_type,
                title,
                funds,
                caller,
                metadata,
                max_decisions,
                now,
            )
        }
    }
}

/// The outcome a lifecycle transition owes: `UnknownProposal`, then
/// `WrongLifecycleState` unless the proposal stands exactly in `from`,
/// then `NotOwner`; on success only the status changes, to `to`.
pub open spec fn lifecycle_outcome(
    pre: Contract,
    post: Contract,
    r: Result<(), Error>,
    id: Seq<char>,
    caller: Seq<char>,
    from: ProposalStatus,
    to: ProposalStatus,
) -> bool {
    if !has_proposal(pre.proposals@, id) {
        r == Result::<(), Error>::Err(Error::UnknownProposal)
    } else {
        let i = prop_at(pre.proposals@, id);
        let p = pre.proposals@[i];
        if p.status != from {
            r == Result::<(), Error>::Err(Error::WrongLifecycleState)
        } else if p.owner@ != caller {
            r == Result::<(), Error>::Err(Error::NotOwner)
        } else {
            &&& r is Ok
            &&& post.choicers@ == pre.choicers@
            &&& post.proposals@.len() == pre.proposals@.len()
            &&& post.proposals@ == pre.proposals@.update(
                i,
                Proposal { status: to, ..pre.proposals@[i] },
            )
        }
    }
}

/// `prop_at` picks the one index holding the id.
pub proof fn lemma_prop_at_unique(ps: Seq<Proposal>, id: Seq<char>, i: int)
    requires
        forall|a: int, b: int|
            0 <= a < b < ps.len() ==> (#[trigger] ps[a]).id@ != (#[trigger] ps[b]).id@,
        0 <= i < ps.len(),
        ps[i].id@ == id,
    ensures
        has_proposal(ps, id),
        prop_at(ps, id) == i,
{
    let j = prop_at(ps, id);
    if j != i {
        if j < i {
            assert(ps[j].id@ != ps[i].id@);
        } else {
            assert(ps[i].id@ != ps[j].id@);
        }
    }
}

/// `choicer_at` picks the one index holding the account.
pub proof fn lemma_choicer_at_unique(cs: Seq<Choicer>, who: Seq<char>, i: int)
    requires
        forall|a: int, b: int|
            0 <= a < b < cs.len() ==> (#[trigger] cs[a]).account_id@ != (#[trigger] cs[b]).account_id@,
        0 <= i < cs.len(),
        cs[i].account_id@ == who,
    ensures
        has_choicer(cs, who),
        choicer_at(cs, who) == i,
{
    let j = choicer_at(cs, who);
    if j != i {
        if j < i {
            assert(cs[j].account_id@ != cs[i].account_id@);
        } else {
            assert(cs[i].account_id@ != cs[j].account_id@);
        }
    }
}

/// A value-equal copy of a decision.
fn clone_decision(d: &Decision) -> (r: Decision)
    ensures
        r == *d,
{
    Decision { performer: d.performer.clone(), metadata: d.metadata.clone() }
}

/// A value-equal copy of a decision list.
fn clone_decisions(ds: &Vec<Decision>) -> (r: Vec<Decision>)
    ensures
        r@ == ds@,
{
    let mut r: Vec<Decision> = Vec::new();
    let mut i: usize = 0;
    while i < ds.len()
        invariant
            i <= ds@.len(),
            r@ =~= ds@.take(i as int),
        decreases ds@.len() - i,
    {
        r.push(clone_decision(&ds[i]));
        proof {
            assert(r@ =~= ds@.take(i as int + 1));
        }
        i += 1;
    }
    proof {
        assert(ds@.take(ds@.len() as int) =~= ds@);
    }
    r
}

/// A value-equal copy of a ballot.
fn clone_votes(b: &Votes) -> (r: Votes)
    ensures
        votes_like(r, *b),
{
    let mut entries: Vec<(AccountId, usize)> = Vec::new();
    let mut i: usize = 0;
    while i < b.vote.len()
        invariant
            i <= b.vote@.len(),
            entries@ =~= b.vote@.take(i as int),
        decreases b.vote@.len() - i,
    {
        entries.push((b.vote[i].0.clone(), b.vote[i].1));
        proof {
            assert(entries@ =~= b.vote@.take(i as int + 1));
        }
        i += 1;
    }
    proof {
        assert(b.vote@.take(b.vote@.len() as int) =~= b.vote@);
    }
    Votes { from: b.from.clone(), vote: entries }
}

/// A value-equal copy of a ballot list.
fn clone_votes_vec(bs: &Vec<Votes>) -> (r: Vec<Votes>)
    ensures
        r@.len() == bs@.len(),
        forall|i: int| 0 <= i < bs@.len() ==> votes_like(#[trigger] r@[i], bs@[i]),
{
    let mut r: Vec<Votes> = Vec::new();
    let mut i: usize = 0;
    while i < bs.len()
        invariant
            i <= bs@.len(),
            r@.len() == i,
            forall|j: int| 0 <= j < i ==> votes_like(#[trigger] r@[j], bs@[j]),
        decreases bs@.len() - i,
    {
        r.push(clone_votes(&bs[i]));
        i += 1;
    }
    r
}

/// A value-equal copy of a proposal.
fn clone_proposal(p: &Proposal) -> (r: Proposal)
    ensures
        proposal_like(r, *p),
{
    Proposal {
        status: p.status,
        vote_type: p.vote_type,
        id: p.id.clone(),
        title: p.title.clone(),
        funds: p.funds,
        owner: p.owner.clone(),
        metadata: p.metadata.clone(),
        max_decisions: p.max_decisions,
        decisions: clone_decisions(&p.decisions),
        vote_results: clone_votes_vec(&p.vote_results),
        start_time: p.start_time,
        settled: p.settled,
    }
}

} // verus!
