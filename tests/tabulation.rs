use report_pipeline::tabulate::{tabulate_rcv, RoundResult};

fn names(v: &[&str]) -> Vec<String> {
    v.iter().map(|s| s.to_string()).collect()
}

fn tally(r: &RoundResult) -> Vec<(String, u64)> {
    r.tally.clone()
}

fn total(r: &RoundResult) -> u64 {
    r.tally.iter().map(|e| e.1).sum()
}

#[test]
fn batch_elimination_then_last_standing_wins() {
    let ballots = vec![
        names(&["A", "B"]),
        names(&["A", "B"]),
        names(&["B", "C"]),
        names(&["C"]),
    ];
    let res = tabulate_rcv(&ballots, &names(&["A", "B", "C"]));
    assert_eq!(res.rounds.len(), 2);
    let r1 = &res.rounds[0];
    assert_eq!(r1.round, 1);
    assert_eq!(
        tally(r1),
        vec![("A".to_string(), 2), ("B".to_string(), 1), ("C".to_string(), 1)]
    );
    assert_eq!(r1.eliminated, names(&["B", "C"]));
    let r2 = &res.rounds[1];
    assert_eq!(r2.round, 2);
    assert_eq!(tally(r2), vec![("A".to_string(), 2)]);
    assert!(r2.eliminated.is_empty());
    assert_eq!(res.winner, Some("A".to_string()));
}

#[test]
fn two_of_three_is_a_majority() {
    let ballots = vec![names(&["A"]), names(&["B"]), names(&["B"])];
    let res = tabulate_rcv(&ballots, &names(&["A", "B", "C"]));
    assert_eq!(res.rounds.len(), 1);
    assert!(res.rounds[0].eliminated.is_empty());
    assert_eq!(res.winner, Some("B".to_string()));
}

#[test]
fn majority_wins_in_first_round() {
    let ballots = vec![names(&["A"]), names(&["A"]), names(&["A"]), names(&["B"])];
    let res = tabulate_rcv(&ballots, &names(&["A", "B"]));
    assert_eq!(res.rounds.len(), 1);
    assert_eq!(res.winner, Some("A".to_string()));
    assert!(res.rounds[0].eliminated.is_empty());
}

#[test]
fn all_tied_eliminates_everyone_without_winner() {
    let ballots = vec![names(&["A"]), names(&["B"])];
    let res = tabulate_rcv(&ballots, &names(&["A", "B"]));
    assert_eq!(res.rounds.len(), 1);
    assert_eq!(res.rounds[0].eliminated, names(&["A", "B"]));
    assert_eq!(res.winner, None);
}

#[test]
fn zero_vote_candidates_are_listed_and_eliminated() {
    let ballots = vec![names(&["A"]), names(&["B"]), names(&["B"]), names(&["A", "B"])];
    let res = tabulate_rcv(&ballots, &names(&["A", "B", "C"]));
    assert_eq!(
        tally(&res.rounds[0]),
        vec![("A".to_string(), 2), ("B".to_string(), 2), ("C".to_string(), 0)]
    );
    assert_eq!(res.rounds[0].eliminated, names(&["C"]));
    assert_eq!(
        tally(&res.rounds[1]),
        vec![("A".to_string(), 2), ("B".to_string(), 2)]
    );
    assert_eq!(res.rounds[1].eliminated, names(&["A", "B"]));
    assert_eq!(res.winner, None);
}

#[test]
fn tie_between_last_two_eliminates_both() {
    let ballots = vec![names(&["B"]), names(&["A"])];
    let res = tabulate_rcv(&ballots, &names(&["B", "A", "C"]));
    assert_eq!(res.rounds.len(), 2);
    assert_eq!(res.rounds[0].eliminated, names(&["C"]));
    assert_eq!(res.rounds[1].eliminated, names(&["B", "A"]));
    assert_eq!(res.winner, None);
}

#[test]
fn no_candidates_gives_one_empty_round() {
    let res = tabulate_rcv(&vec![names(&["A"])], &vec![]);
    assert_eq!(res.rounds.len(), 1);
    assert!(res.rounds[0].tally.is_empty());
    assert_eq!(res.winner, None);
}

#[test]
fn round_totals_never_grow() {
    let ballots = vec![
        names(&["A", "D"]),
        names(&["B"]),
        names(&["C", "A"]),
        names(&["D"]),
        names(&["A"]),
        names(&["B", "A"]),
        names(&["E"]),
    ];
    let res = tabulate_rcv(&ballots, &names(&["A", "B", "C", "D", "E"]));
    assert!(res.rounds.len() >= 2);
    for w in res.rounds.windows(2) {
        assert!(total(&w[1]) <= total(&w[0]));
    }
}

#[test]
fn eliminated_and_winner_partition_candidates() {
    let ballots = vec![
        names(&["A", "B"]),
        names(&["A", "B"]),
        names(&["B", "C"]),
        names(&["C"]),
    ];
    let all = names(&["A", "B", "C"]);
    let res = tabulate_rcv(&ballots, &all);
    let mut seen: Vec<String> = Vec::new();
    for r in &res.rounds {
        for e in &r.eliminated {
            assert!(!seen.contains(e));
            seen.push(e.clone());
        }
    }
    let w = res.winner.clone().unwrap();
    assert!(!seen.contains(&w));
    seen.push(w);
    seen.sort();
    assert_eq!(seen, all);
}

#[test]
fn duplicate_candidate_names_count_once() {
    let ballots = vec![names(&["A"]), names(&["A"]), names(&["B"])];
    let res = tabulate_rcv(&ballots, &names(&["A", "B", "A"]));
    assert_eq!(
        tally(&res.rounds[0]),
        vec![("A".to_string(), 2), ("B".to_string(), 1)]
    );
    assert_eq!(res.winner, Some("A".to_string()));
}
