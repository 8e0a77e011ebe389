//! The numeric engine on its own: weight schedule, unit conversion, and
//! order independence of the ballot merge.

use rankfund::contract::Contract;
use rankfund::types::VoteType;
use rankfund::weights::set_weights;
use rankfund::{ntoy, yton, UNIT_SCALE};

const DEPOSIT: u128 = 1_050_000_000_000_000_000_000_000_000;
const TEN_TOKENS: u128 = 10_000_000_000_000_000_000_000_000;

fn s(x: &str) -> String {
    x.to_string()
}

#[test]
fn schedule_for_seven_voters() {
    let w = set_weights(7, 200);
    assert_eq!(w, vec![6400, 3200, 1600, 800, 400, 200]);
}

#[test]
fn schedule_halves_rank_by_rank() {
    let w = set_weights(5, 96);
    assert_eq!(w, vec![768, 384, 192, 96]);
    for j in 0..w.len() - 1 {
        assert_eq!(w[j], 2 * w[j + 1]);
    }
}

#[test]
fn schedule_conserves_one_voter_share() {
    // the numerators sum to funds * (2^(n-1) - 1), so over the common
    // denominator n * (2^(n-1) - 1) the schedule is exactly funds / n
    let n: u128 = 7;
    let funds: u128 = 200;
    let w = set_weights(n as usize, funds);
    let sum: u128 = w.iter().sum();
    assert_eq!(sum, funds * 63);
    assert_eq!(n * sum, funds * (n * 63));
}

#[test]
fn unit_conversion_round_trip() {
    assert_eq!(yton(UNIT_SCALE), 1);
    assert_eq!(yton(UNIT_SCALE - 1), 0);
    assert_eq!(ntoy(200), 200 * UNIT_SCALE);
    assert_eq!(yton(ntoy(17)), 17);
}

fn contract_with_ballots(order: &[usize]) -> Contract {
    let mut c = Contract::new();
    c.create_membership(s("owner.near"), DEPOSIT).unwrap();
    for who in ["a.near", "b.near", "c.near", "d.near"] {
        c.create_membership(s(who), DEPOSIT).unwrap();
    }
    c.create_proposal(
        s("owner.near"),
        DEPOSIT,
        0,
        VoteType::PerformerElection,
        s("t"),
        TEN_TOKENS,
        8,
        s("m"),
    )
    .unwrap();
    c.change_funds(s("owner.near"), s("owner.near001"), 120).unwrap();
    for who in ["a.near", "b.near", "c.near", "d.near"] {
        c.submit_decision(s(who), s("owner.near001"), s("d")).unwrap();
    }
    c.start_election(s("owner.near"), s("owner.near001")).unwrap();
    let ballots: [(&str, [(&str, usize); 3]); 4] = [
        ("a.near", [("b.near", 1), ("c.near", 2), ("d.near", 3)]),
        ("b.near", [("c.near", 1), ("a.near", 2), ("d.near", 3)]),
        ("c.near", [("a.near", 1), ("d.near", 2), ("b.near", 3)]),
        ("d.near", [("b.near", 1), ("a.near", 2), ("c.near", 3)]),
    ];
    for &i in order {
        let (voter, ranking) = &ballots[i];
        let ballot: Vec<(String, usize)> = ranking.iter().map(|(a, r)| (s(a), *r)).collect();
        c.vote(s(voter), s("owner.near001"), ballot).unwrap();
    }
    c.finish_election(s("owner.near"), s("owner.near001")).unwrap();
    c
}

#[test]
fn merge_order_independence() {
    let orders: [[usize; 4]; 4] = [[0, 1, 2, 3], [3, 2, 1, 0], [2, 0, 3, 1], [1, 3, 0, 2]];
    let mut tables: Vec<Vec<(String, u128)>> = Vec::new();
    for order in orders.iter() {
        let c = contract_with_ballots(order);
        let st = c.calculate_vote_results(s("owner.near001")).unwrap();
        assert_eq!(st.denom, 4 * 7);
        let mut rows = st.entries.clone();
        rows.sort();
        tables.push(rows);
    }
    for t in tables.iter().skip(1) {
        assert_eq!(t, &tables[0]);
    }
}
