//! The data model: proposals, decisions, ballots, member ledger entries,
//! and the errors the engine reports.
//!
//! Values of these types hold plain data only; every rule about them lives
//! in the contracts of the operations that produce and consume them.
//! Equality of text fields is always meant up to their character sequences,
//! so the spec predicates here compare views, never `String` values.

use vstd::prelude::*;

verus! {

/// An account is named by a plain string.
pub type AccountId = String;

/// Lifecycle state of a proposal.  Transitions only ever move forward:
/// `Open` to `Vote` to `Payout`.
#[derive(Clone, Copy, Debug, PartialEq, Eq, Structural)]
pub enum ProposalStatus {
    Open,
    Vote,
    Payout,
}

/// What kind of contest a proposal runs.
#[derive(Clone, Copy, Debug, PartialEq, Eq, Structural)]
pub enum VoteType {
    PerformerElection,
    ProjectElection,
}

/// A caller-visible failure of one operation.
#[derive(Clone, Copy, Debug, PartialEq, Eq, Structural)]
pub enum Error {
    /// The caller has not registered a membership.
    NotAMember,
    /// The attached deposit is below the required bond, or does not cover
    /// the proposal's fund amount.
    InsufficientCollateral,
    /// A title or metadata text exceeds its size limit.
    InvalidSize,
    /// The operation is not legal in the proposal's current lifecycle state.
    WrongLifecycleState,
    /// Only the proposal's owner may perform this operation.
    NotOwner,
    /// No proposal carries the given id.
    UnknownProposal,
    /// A settlement recipient has no ledger entry.
    UnknownAccount,
    /// The rounded payout total would exceed the proposal's fund pool.
    InsufficientFunds,
    /// A ballot's ranks are not a permutation of `1..=len`, rank a voter
    /// twice or the voter itself, or do not fit the final voter count.
    MalformedBallot,
}

/// A candidate submission attached to a proposal while it is `Open`.
#[derive(Clone, Debug)]
pub struct Decision {
    pub performer: AccountId,
    pub metadata: String,
}

/// One voter's ballot: an ordering of the other voters, best first, as a
/// map from candidate account to rank (1 is best).
#[derive(Clone, Debug)]
pub struct Votes {
    pub from: AccountId,
    pub vote: Vec<(AccountId, usize)>,
}

/// A funded contest: candidate decisions are collected while `Open`,
/// ballots while in `Vote`, and the fund pool is settled in `Payout`.
#[derive(Clone, Debug)]
pub struct Proposal {
    pub status: ProposalStatus,
    pub vote_type: VoteType,
    pub id: String,
    pub title: String,
    /// Fund pool attached to the proposal, in smallest currency units.
    pub funds: u128,
    pub owner: AccountId,
    pub metadata: String,
    pub max_decisions: u16,
    pub decisions: Vec<Decision>,
    pub vote_results: Vec<Votes>,
    pub start_time: u64,
    /// Set once settlement has run; a settled proposal is terminal.
    pub settled: bool,
}

/// A member's ledger entry: running totals of funds received and spent,
/// and counts of completed and in-flight engagements.
#[derive(Clone, Debug)]
pub struct Choicer {
    pub account_id: AccountId,
    /// Whole units received as a ranked candidate.
    pub total_received: u128,
    pub completed_choices: u16,
    pub current_choices: u16,
    pub proposals_created: u16,
    /// Whole units spent as a proposal owner.
    pub total_spending: u128,
}

/// The aggregated share table of one settlement: each candidate's share
/// is `entries[i].1 / denom` of the pool, held exactly as a numerator
/// over the schedule's common denominator.
#[derive(Debug)]
pub struct ShareTable {
    pub entries: Vec<(AccountId, u128)>,
    pub denom: u128,
}

/// Two ballots hold the same data (`Votes` values themselves cannot be
/// compared with `==` in specifications, since a fresh copy's entry vector
/// is a distinct vector value).
pub open spec fn votes_like(a: Votes, b: Votes) -> bool {
    a.from@ == b.from@ && a.vote@ == b.vote@
}

/// Two proposals hold the same data, up to `votes_like` on their ballots.
pub open spec fn proposal_like(a: Proposal, b: Proposal) -> bool {
    &&& a.status == b.status
    &&& a.vote_type == b.vote_type
    &&& a.id@ == b.id@
    &&& a.title@ == b.title@
    &&& a.funds == b.funds
    &&& a.owner@ == b.owner@
    &&& a.metadata@ == b.metadata@
    &&& a.max_decisions == b.max_decisions
    &&& a.decisions@ == b.decisions@
    &&& a.vote_results@.len() == b.vote_results@.len()
    &&& forall|i: int|
        0 <= i < a.vote_results@.len() ==> votes_like(
            #[trigger] a.vote_results@[i],
            b.vote_results@[i],
        )
    &&& a.start_time == b.start_time
    &&& a.settled == b.settled
}

} // verus!
