//! One full contest: an owner funds a proposal, seven members submit
//! decisions and rank one another, and settlement splits the pool.

use rankfund::contract::Contract;
use rankfund::types::{Choicer, VoteType};

const DEPOSIT: u128 = 1_050_000_000_000_000_000_000_000_000;
const TEN_TOKENS: u128 = 10_000_000_000_000_000_000_000_000;

fn s(x: &str) -> String {
    x.to_string()
}

fn ledger<'a>(c: &'a Contract, who: &str) -> &'a Choicer {
    c.choicers
        .iter()
        .find(|e| e.account_id == who)
        .expect("no ledger entry")
}

#[test]
fn test_create_proposals() {
    let mut contract = Contract::new();
    contract.create_membership(s("creator.near"), DEPOSIT).unwrap();
    contract
        .create_proposal(
            s("creator.near"),
            DEPOSIT,
            0,
            VoteType::ProjectElection,
            s("create logo"),
            TEN_TOKENS,
            10,
            s("we need logo for us"),
        )
        .unwrap();
    contract.change_funds(s("creator.near"), s("creator.near001"), 200).unwrap();
    assert_eq!(contract.view_active_proposals().len(), 1);

    let participants = [
        "participant_1.near",
        "participant_2.near",
        "participant_3.near",
        "participant_4.near",
        "participant_5.near",
        "participant_6.near",
        "participant_7.near",
    ];
    for (k, who) in participants.iter().enumerate() {
        contract.create_membership(s(who), DEPOSIT).unwrap();
        assert!(contract.is_active_proposal(s("creator.near001")).unwrap());
        assert!(contract.is_a_member(s(who)));
        contract
            .submit_decision(s(who), s("creator.near001"), format!("metadadalink{}", k + 1))
            .unwrap();
    }
    assert!(!contract.is_a_member(s("stranger.near")));
    let decisions = contract.view_decisions(s("creator.near001")).unwrap();
    assert_eq!(decisions.len(), 7);
    assert_eq!(decisions[0].performer, "participant_1.near");
    assert_eq!(decisions[0].metadata, "metadadalink1");
    assert_eq!(decisions[6].metadata, "metadadalink7");

    contract.start_election(s("creator.near"), s("creator.near001")).unwrap();

    let ballots: [(&str, [(&str, usize); 6]); 7] = [
        (
            "participant_1.near",
            [
                ("participant_2.near", 1),
                ("participant_3.near", 2),
                ("participant_7.near", 3),
                ("participant_4.near", 4),
                ("participant_6.near", 5),
                ("participant_5.near", 6),
            ],
        ),
        (
            "participant_2.near",
            [
                ("participant_1.near", 1),
                ("participant_3.near", 2),
                ("participant_4.near", 3),
                ("participant_5.near", 4),
                ("participant_6.near", 5),
                ("participant_7.near", 6),
            ],
        ),
        (
            "participant_3.near",
            [
                ("participant_2.near", 1),
                ("participant_7.near", 2),
                ("participant_1.near", 3),
                ("participant_4.near", 4),
                ("participant_6.near", 5),
                ("participant_5.near", 6),
            ],
        ),
        (
            "participant_4.near",
            [
                ("participant_7.near", 1),
                ("participant_2.near", 2),
                ("participant_1.near", 3),
                ("participant_3.near", 4),
                ("participant_6.near", 5),
                ("participant_5.near", 6),
            ],
        ),
        (
            "participant_5.near",
            [
                ("participant_1.near", 1),
                ("participant_6.near", 2),
                ("participant_7.near", 3),
                ("participant_3.near", 4),
                ("participant_4.near", 5),
                ("participant_2.near", 6),
            ],
        ),
        (
            "participant_6.near",
            [
                ("participant_1.near", 1),
                ("participant_5.near", 2),
                ("participant_7.near", 3),
                ("participant_3.near", 4),
                ("participant_4.near", 5),
                ("participant_2.near", 6),
            ],
        ),
        (
            "participant_7.near",
            [
                ("participant_1.near", 1),
                ("participant_6.near", 2),
                ("participant_5.near", 3),
                ("participant_3.near", 4),
                ("participant_4.near", 5),
                ("participant_2.near", 6),
            ],
        ),
    ];
    for (voter, ranking) in ballots.iter() {
        let ballot: Vec<(String, usize)> =
            ranking.iter().map(|(a, r)| (s(a), *r)).collect();
        contract.vote(s(voter), s("creator.near001"), ballot).unwrap();
    }
    assert_eq!(contract.view_vote_board(s("creator.near001")).unwrap().len(), 7);

    contract.finish_election(s("creator.near"), s("creator.near001")).unwrap();
    let transfers = contract.payout(s("creator.near001")).unwrap();

    // candidates in order of first appearance across the ballots, each
    // with its rounded share of the 200-unit pool
    let expected: [(&str, u128); 7] = [
        ("participant_2.near", 38),
        ("participant_3.near", 22),
        ("participant_7.near", 33),
        ("participant_4.near", 10),
        ("participant_6.near", 18),
        ("participant_5.near", 14),
        ("participant_1.near", 65),
    ];
    assert_eq!(transfers.len(), expected.len());
    for (got, want) in transfers.iter().zip(expected.iter()) {
        assert_eq!(got.0, want.0);
        assert_eq!(got.1, want.1);
    }
    let total: u128 = transfers.iter().map(|t| t.1).sum();
    assert_eq!(total, 200);

    // the consistent favourite outruns the consistent last place
    let first = transfers.iter().find(|t| t.0 == "participant_1.near").unwrap().1;
    let last = transfers.iter().find(|t| t.0 == "participant_4.near").unwrap().1;
    assert!(first > 3 * last);

    // every participant's ledger shows one completed engagement and none
    // in flight
    for who in participants.iter() {
        let e = ledger(&contract, who);
        assert_eq!(e.completed_choices, 1);
        assert_eq!(e.current_choices, 0);
    }
    let owner = ledger(&contract, "creator.near");
    assert_eq!(owner.completed_choices, 1);
    assert_eq!(owner.current_choices, 0);
    assert_eq!(owner.total_spending, 200);
    assert_eq!(owner.proposals_created, 1);
    for (who, amount) in expected.iter() {
        assert_eq!(ledger(&contract, who).total_received, *amount);
    }

    // settlement is terminal: a second run is rejected
    assert!(contract.payout(s("creator.near001")).is_err());
}

#[test]
fn exact_share_table_before_rounding() {
    let mut contract = Contract::new();
    contract.create_membership(s("creator.near"), DEPOSIT).unwrap();
    contract
        .create_proposal(
            s("creator.near"),
            DEPOSIT,
            0,
            VoteType::PerformerElection,
            s("title"),
            TEN_TOKENS,
            4,
            s("meta"),
        )
        .unwrap();
    contract.change_funds(s("creator.near"), s("creator.near001"), 200).unwrap();
    for who in ["a.near", "b.near", "c.near"] {
        contract.create_membership(s(who), DEPOSIT).unwrap();
        contract.submit_decision(s(who), s("creator.near001"), s("x")).unwrap();
    }
    contract.start_election(s("creator.near"), s("creator.near001")).unwrap();
    contract
        .vote(s("a.near"), s("creator.near001"), vec![(s("b.near"), 1), (s("c.near"), 2)])
        .unwrap();
    contract
        .vote(s("b.near"), s("creator.near001"), vec![(s("c.near"), 1), (s("a.near"), 2)])
        .unwrap();
    contract
        .vote(s("c.near"), s("creator.near001"), vec![(s("a.near"), 1), (s("b.near"), 2)])
        .unwrap();
    contract.finish_election(s("creator.near"), s("creator.near001")).unwrap();

    // n = 3: weights 400, 200 over denominator 3 * (2^2 - 1) = 9; each
    // candidate is ranked first once and second once: 600 parts each,
    // 1800 parts in all — exactly 200 units, conserved before rounding
    let st = contract.calculate_vote_results(s("creator.near001")).unwrap();
    assert_eq!(st.denom, 9);
    assert_eq!(st.entries.len(), 3);
    for e in st.entries.iter() {
        assert_eq!(e.1, 600);
    }
    let sum: u128 = st.entries.iter().map(|e| e.1).sum();
    assert_eq!(sum, 200 * 9);

    // 600/9 = 66.67 rounds to 67 each: 201 > 200, so settlement must
    // refuse the table rather than overdraw the pool
    let err = contract.payout(s("creator.near001")).unwrap_err();
    assert_eq!(err, rankfund::types::Error::InsufficientFunds);
}
