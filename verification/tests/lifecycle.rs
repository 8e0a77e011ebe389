//! Lifecycle gating: every stage-bound operation fails with
//! `WrongLifecycleState` in every other stage, and the other error kinds
//! come exactly when their conditions hold.

use rankfund::contract::Contract;
use rankfund::types::{Error, VoteType};

const DEPOSIT: u128 = 1_050_000_000_000_000_000_000_000_000;
const TEN_TOKENS: u128 = 10_000_000_000_000_000_000_000_000;
const PID: &str = "owner.near001";

fn s(x: &str) -> String {
    x.to_string()
}

/// A contract with an owner, members a and b, and one proposal in `Open`.
fn opened() -> Contract {
    let mut c = Contract::new();
    c.create_membership(s("owner.near"), DEPOSIT).unwrap();
    c.create_membership(s("a.near"), DEPOSIT).unwrap();
    c.create_membership(s("b.near"), DEPOSIT).unwrap();
    c.create_proposal(
        s("owner.near"),
        DEPOSIT,
        7,
        VoteType::PerformerElection,
        s("title"),
        TEN_TOKENS,
        4,
        s("meta"),
    )
    .unwrap();
    c
}

/// The `opened` contract moved to `Vote`, with decisions from a and b.
fn voting() -> Contract {
    let mut c = opened();
    c.submit_decision(s("a.near"), s(PID), s("da")).unwrap();
    c.submit_decision(s("b.near"), s(PID), s("db")).unwrap();
    c.start_election(s("owner.near"), s(PID)).unwrap();
    c
}

/// The `voting` contract with both ballots cast, moved to `Payout`.
fn paying() -> Contract {
    let mut c = voting();
    c.vote(s("a.near"), s(PID), vec![(s("b.near"), 1)]).unwrap();
    c.vote(s("b.near"), s(PID), vec![(s("a.near"), 1)]).unwrap();
    c.finish_election(s("owner.near"), s(PID)).unwrap();
    c
}

#[test]
fn submit_decision_only_while_open() {
    let mut c = voting();
    assert_eq!(c.submit_decision(s("a.near"), s(PID), s("x")).unwrap_err(), Error::WrongLifecycleState);
    let mut c = paying();
    assert_eq!(c.submit_decision(s("a.near"), s(PID), s("x")).unwrap_err(), Error::WrongLifecycleState);
}

#[test]
fn change_funds_only_while_open() {
    let mut c = voting();
    assert_eq!(c.change_funds(s("owner.near"), s(PID), 20).unwrap_err(), Error::WrongLifecycleState);
    let mut c = paying();
    assert_eq!(c.change_funds(s("owner.near"), s(PID), 20).unwrap_err(), Error::WrongLifecycleState);
    let mut c = opened();
    c.change_funds(s("owner.near"), s(PID), 20).unwrap();
}

#[test]
fn vote_only_while_voting() {
    let mut c = opened();
    assert_eq!(
        c.vote(s("a.near"), s(PID), vec![(s("b.near"), 1)]).unwrap_err(),
        Error::WrongLifecycleState
    );
    let mut c = paying();
    assert_eq!(
        c.vote(s("a.near"), s(PID), vec![(s("b.near"), 1)]).unwrap_err(),
        Error::WrongLifecycleState
    );
}

#[test]
fn vote_board_closed_while_open() {
    let c = opened();
    assert_eq!(c.view_vote_board(s(PID)).unwrap_err(), Error::WrongLifecycleState);
    let c = voting();
    assert_eq!(c.view_vote_board(s(PID)).unwrap().len(), 0);
    let c = paying();
    assert_eq!(c.view_vote_board(s(PID)).unwrap().len(), 2);
}

#[test]
fn payout_only_in_payout_stage_and_once() {
    let mut c = opened();
    assert_eq!(c.payout(s(PID)).unwrap_err(), Error::WrongLifecycleState);
    let mut c = voting();
    assert_eq!(c.payout(s(PID)).unwrap_err(), Error::WrongLifecycleState);
    let mut c = paying();
    c.payout(s(PID)).unwrap();
    assert_eq!(c.payout(s(PID)).unwrap_err(), Error::WrongLifecycleState);
}

#[test]
fn transitions_move_only_forward() {
    let mut c = voting();
    assert_eq!(c.start_election(s("owner.near"), s(PID)).unwrap_err(), Error::WrongLifecycleState);
    let mut c = paying();
    assert_eq!(c.start_election(s("owner.near"), s(PID)).unwrap_err(), Error::WrongLifecycleState);
    assert_eq!(c.finish_election(s("owner.near"), s(PID)).unwrap_err(), Error::WrongLifecycleState);
    let mut c = opened();
    assert_eq!(c.finish_election(s("owner.near"), s(PID)).unwrap_err(), Error::WrongLifecycleState);
}

#[test]
fn owner_gates() {
    let mut c = opened();
    assert_eq!(c.change_funds(s("a.near"), s(PID), 20).unwrap_err(), Error::NotOwner);
    assert_eq!(c.start_election(s("a.near"), s(PID)).unwrap_err(), Error::NotOwner);
    let mut c = voting();
    assert_eq!(c.finish_election(s("a.near"), s(PID)).unwrap_err(), Error::NotOwner);
}

#[test]
fn membership_and_collateral_gates() {
    let mut c = Contract::new();
    assert_eq!(
        c.create_membership(s("x.near"), 1).unwrap_err(),
        Error::InsufficientCollateral
    );
    assert_eq!(
        c.create_proposal(
            s("x.near"),
            DEPOSIT,
            0,
            VoteType::PerformerElection,
            s("t"),
            TEN_TOKENS,
            1,
            s("m")
        )
        .unwrap_err(),
        Error::NotAMember
    );
    c.create_membership(s("x.near"), DEPOSIT).unwrap();
    // bond below the minimum
    assert_eq!(
        c.create_proposal(
            s("x.near"),
            1,
            0,
            VoteType::PerformerElection,
            s("t"),
            TEN_TOKENS,
            1,
            s("m")
        )
        .unwrap_err(),
        Error::InsufficientCollateral
    );
    // fund amount below the minimum
    assert_eq!(
        c.create_proposal(
            s("x.near"),
            DEPOSIT,
            0,
            VoteType::PerformerElection,
            s("t"),
            1,
            1,
            s("m")
        )
        .unwrap_err(),
        Error::InsufficientCollateral
    );
    // deposit not strictly above the fund amount
    assert_eq!(
        c.create_proposal(
            s("x.near"),
            TEN_TOKENS,
            0,
            VoteType::PerformerElection,
            s("t"),
            TEN_TOKENS,
            1,
            s("m")
        )
        .unwrap_err(),
        Error::InsufficientCollateral
    );
    let mut c2 = opened();
    assert_eq!(
        c2.submit_decision(s("nobody.near"), s(PID), s("d")).unwrap_err(),
        Error::NotAMember
    );
    let mut c3 = voting();
    assert_eq!(
        c3.vote(s("nobody.near"), s(PID), vec![(s("a.near"), 1)]).unwrap_err(),
        Error::NotAMember
    );
}

#[test]
fn size_limits() {
    let mut c = Contract::new();
    c.create_membership(s("x.near"), DEPOSIT).unwrap();
    let long_title = "t".repeat(21);
    assert_eq!(
        c.create_proposal(
            s("x.near"),
            DEPOSIT,
            0,
            VoteType::PerformerElection,
            long_title,
            TEN_TOKENS,
            1,
            s("m")
        )
        .unwrap_err(),
        Error::InvalidSize
    );
    let long_meta = "m".repeat(151);
    assert_eq!(
        c.create_proposal(
            s("x.near"),
            DEPOSIT,
            0,
            VoteType::PerformerElection,
            s("t"),
            TEN_TOKENS,
            1,
            long_meta
        )
        .unwrap_err(),
        Error::InvalidSize
    );
}

#[test]
fn unknown_proposal_everywhere() {
    let mut c = opened();
    assert_eq!(c.view_decisions(s("nope")).unwrap_err(), Error::UnknownProposal);
    assert_eq!(c.is_active_proposal(s("nope")).unwrap_err(), Error::UnknownProposal);
    assert_eq!(c.view_vote_board(s("nope")).unwrap_err(), Error::UnknownProposal);
    assert_eq!(c.change_funds(s("owner.near"), s("nope"), 20).unwrap_err(), Error::UnknownProposal);
    assert_eq!(c.submit_decision(s("a.near"), s("nope"), s("d")).unwrap_err(), Error::UnknownProposal);
    assert_eq!(
        c.vote(s("a.near"), s("nope"), vec![(s("b.near"), 1)]).unwrap_err(),
        Error::UnknownProposal
    );
    assert_eq!(c.start_election(s("owner.near"), s("nope")).unwrap_err(), Error::UnknownProposal);
    assert_eq!(c.finish_election(s("owner.near"), s("nope")).unwrap_err(), Error::UnknownProposal);
    assert_eq!(c.payout(s("nope")).unwrap_err(), Error::UnknownProposal);
    assert_eq!(c.calculate_vote_results(s("nope")).unwrap_err(), Error::UnknownProposal);
}

#[test]
fn malformed_ballots_are_rejected_at_submission() {
    let mut c = voting();
    // rank zero
    assert_eq!(
        c.vote(s("a.near"), s(PID), vec![(s("b.near"), 0)]).unwrap_err(),
        Error::MalformedBallot
    );
    // rank above the ballot's length
    assert_eq!(
        c.vote(s("a.near"), s(PID), vec![(s("b.near"), 2)]).unwrap_err(),
        Error::MalformedBallot
    );
    // a rank used twice
    assert_eq!(
        c.vote(s("a.near"), s(PID), vec![(s("b.near"), 1), (s("owner.near"), 1)]).unwrap_err(),
        Error::MalformedBallot
    );
    // an account ranked twice
    assert_eq!(
        c.vote(s("a.near"), s(PID), vec![(s("b.near"), 1), (s("b.near"), 2)]).unwrap_err(),
        Error::MalformedBallot
    );
    // the voter ranking itself
    assert_eq!(
        c.vote(s("a.near"), s(PID), vec![(s("a.near"), 1)]).unwrap_err(),
        Error::MalformedBallot
    );
}

#[test]
fn settlement_rejects_short_or_oversized_ballot_sets() {
    // a single ballot cannot be weighted
    let mut c = voting();
    c.vote(s("a.near"), s(PID), vec![(s("b.near"), 1)]).unwrap();
    c.finish_election(s("owner.near"), s(PID)).unwrap();
    assert_eq!(c.payout(s(PID)).unwrap_err(), Error::MalformedBallot);

    // a ballot ranking more candidates than there are voters carries a
    // rank outside 1..=n-1
    let mut c = voting();
    c.vote(s("a.near"), s(PID), vec![(s("b.near"), 1), (s("owner.near"), 2)]).unwrap();
    c.vote(s("b.near"), s(PID), vec![(s("a.near"), 1)]).unwrap();
    c.finish_election(s("owner.near"), s(PID)).unwrap();
    assert_eq!(c.payout(s(PID)).unwrap_err(), Error::MalformedBallot);
}

#[test]
fn settlement_requires_candidates_to_be_members() {
    let mut c = voting();
    c.vote(s("a.near"), s(PID), vec![(s("stranger.near"), 1)]).unwrap();
    c.vote(s("b.near"), s(PID), vec![(s("a.near"), 1)]).unwrap();
    c.finish_election(s("owner.near"), s(PID)).unwrap();
    assert_eq!(c.payout(s(PID)).unwrap_err(), Error::UnknownAccount);
}
