use report_pipeline::model::{Ballot, CandidateId, Choice};
use report_pipeline::normalize::maine_normalizer;

#[test]
fn test_pass_through() {
    let c1 = Choice::Vote(CandidateId(1));
    let c2 = Choice::Vote(CandidateId(2));
    let c3 = Choice::Vote(CandidateId(3));
    let b = Ballot::new("1".into(), vec![c1, c2, c3]);

    let normalized = maine_normalizer(b);
    assert_eq!(
        vec![CandidateId(1), CandidateId(2), CandidateId(3)],
        normalized.choices()
    );
    assert_eq!(false, normalized.overvoted);
    assert_eq!("1", normalized.id);
}

#[test]
fn test_remove_duplicate() {
    let c1 = Choice::Vote(CandidateId(1));
    let c2 = Choice::Vote(CandidateId(2));
    let b = Ballot::new("1".into(), vec![c1, c2, c1]);

    let normalized = maine_normalizer(b);
    assert_eq!(vec![CandidateId(1), CandidateId(2)], normalized.choices());
    assert_eq!(false, normalized.overvoted);
    assert_eq!("1", normalized.id);
}

#[test]
fn test_remove_multiple() {
    let c1 = Choice::Vote(CandidateId(1));
    let b = Ballot::new("1".into(), vec![c1, c1, c1, c1]);

    let normalized = maine_normalizer(b);
    assert_eq!(vec![CandidateId(1)], normalized.choices());
    assert_eq!(false, normalized.overvoted);
    assert_eq!("1", normalized.id);
}

#[test]
fn test_undervote() {
    let c1 = Choice::Vote(CandidateId(1));
    let c2 = Choice::Vote(CandidateId(2));
    let b = Ballot::new("1".into(), vec![c1, Choice::Undervote, c2]);

    let normalized = maine_normalizer(b);
    assert_eq!(vec![CandidateId(1), CandidateId(2)], normalized.choices());
    assert_eq!(false, normalized.overvoted);
    assert_eq!("1", normalized.id);
}

#[test]
fn test_overvote() {
    let c1 = Choice::Vote(CandidateId(1));
    let c2 = Choice::Vote(CandidateId(2));
    let b = Ballot::new("1".into(), vec![c1, Choice::Overvote, c2]);

    let normalized = maine_normalizer(b);
    assert_eq!(vec![CandidateId(1)], normalized.choices());
    assert_eq!(true, normalized.overvoted);
    assert_eq!("1", normalized.id);
}

#[test]
fn test_two_skipped_vote() {
    let c1 = Choice::Vote(CandidateId(1));
    let c2 = Choice::Vote(CandidateId(2));
    let b = Ballot::new(
        "1".into(),
        vec![c1, Choice::Undervote, Choice::Undervote, c2],
    );

    let normalized = maine_normalizer(b);
    assert_eq!(vec![CandidateId(1)], normalized.choices());
    assert_eq!(false, normalized.overvoted);
    assert_eq!("1", normalized.id);
}

#[test]
fn test_two_nonsequential_skipped_vote() {
    let c1 = Choice::Vote(CandidateId(1));
    let c2 = Choice::Vote(CandidateId(2));
    let c3 = Choice::Vote(CandidateId(3));
    let b = Ballot::new(
        "1".into(),
        vec![c1, Choice::Undervote, c2, Choice::Undervote, c3],
    );

    let normalized = maine_normalizer(b);
    assert_eq!(
        vec![CandidateId(1), CandidateId(2), CandidateId(3)],
        normalized.choices()
    );
    assert_eq!(false, normalized.overvoted);
    assert_eq!("1", normalized.id);
}

#[test]
fn two_skips_exhaust_before_later_vote() {
    let b = Ballot::new(
        "b7".into(),
        vec![
            Choice::Vote(CandidateId(1)),
            Choice::Undervote,
            Choice::Undervote,
            Choice::Vote(CandidateId(2)),
        ],
    );
    let n = maine_normalizer(b);
    assert_eq!(vec![CandidateId(1)], n.choices());
    assert!(!n.overvoted);
    assert_eq!("b7", n.id);
}

#[test]
fn overvote_stops_and_flags() {
    let b = Ballot::new(
        "b8".into(),
        vec![
            Choice::Vote(CandidateId(1)),
            Choice::Overvote,
            Choice::Vote(CandidateId(2)),
        ],
    );
    let n = maine_normalizer(b);
    assert_eq!(vec![CandidateId(1)], n.choices());
    assert!(n.overvoted);
}

#[test]
fn normalizing_twice_changes_nothing() {
    let b = Ballot::new(
        "x".into(),
        vec![
            Choice::Vote(CandidateId(4)),
            Choice::Vote(CandidateId(2)),
            Choice::Vote(CandidateId(4)),
            Choice::Undervote,
            Choice::Vote(CandidateId(9)),
            Choice::Vote(CandidateId(2)),
        ],
    );
    let once = maine_normalizer(b);
    assert_eq!(
        vec![CandidateId(4), CandidateId(2), CandidateId(9)],
        once.choices()
    );
    let again = maine_normalizer(Ballot::new(
        once.id.clone(),
        once.choices().into_iter().map(Choice::Vote).collect(),
    ));
    assert_eq!(once.choices(), again.choices());
    assert!(!again.overvoted);
}

#[test]
fn empty_ballot_normalizes_to_nothing() {
    let n = maine_normalizer(Ballot::new("e".into(), vec![]));
    assert!(n.choices().is_empty());
    assert!(!n.overvoted);
}

#[test]
fn leading_overvote_keeps_nothing() {
    let n = maine_normalizer(Ballot::new(
        "o".into(),
        vec![Choice::Overvote, Choice::Vote(CandidateId(1))],
    ));
    assert!(n.choices().is_empty());
    assert!(n.overvoted);
}
