use report_pipeline::discover::{parse_jurisdiction_info, spreadsheet_files};
use report_pipeline::metadata::TabulationOptions as MetadataOptions;
use report_pipeline::model::CandidateType;
use report_pipeline::records::{CandidateInfo, ChoiceInfo, IngestionStage};
use report_pipeline::reports::{ballot_ranking, ResultSummary, TabulationMethod, TabulationOptions};
use report_pipeline::tabulate::tabulate_rcv;

fn cand(id: i64, name: &str) -> CandidateInfo {
    CandidateInfo {
        id,
        contest_id: 1,
        external_id: None,
        name: name.to_string(),
        candidate_type: CandidateType::Regular,
    }
}

fn choice(rank: i64, kind: &str, candidate: Option<i64>) -> ChoiceInfo {
    ChoiceInfo {
        id: rank,
        ballot_id: 1,
        candidate_id: candidate,
        rank_position: rank,
        choice_type: kind.to_string(),
    }
}

#[test]
fn ranking_sorts_and_skips_non_candidates() {
    let cands = vec![cand(10, "Ada"), cand(20, "Bo"), cand(30, "Cy")];
    let choices = vec![
        choice(3, "candidate", Some(10)),
        choice(1, "candidate", Some(30)),
        choice(2, "undervote", None),
        choice(4, "candidate", Some(99)),
        choice(5, "overvote", None),
        choice(2, "candidate", Some(20)),
    ];
    assert_eq!(
        ballot_ranking(&choices, &cands),
        vec!["Cy".to_string(), "Bo".to_string(), "Ada".to_string()]
    );
}

#[test]
fn ranking_of_empty_ballot() {
    assert!(ballot_ranking(&vec![], &vec![cand(1, "A")]).is_empty());
}

#[test]
fn summary_of_tabulation() {
    let ballots = vec![vec!["A".to_string()], vec!["A".to_string()], vec!["B".to_string()]];
    let res = tabulate_rcv(&ballots, &vec!["A".to_string(), "B".to_string()]);
    let s = ResultSummary::of(&res, 3);
    assert_eq!(s.winner, Some("A".to_string()));
    assert_eq!(s.total_rounds, 1);
    assert_eq!(s.total_ballots, 3);
}

#[test]
fn jurisdiction_info_by_path() {
    assert_eq!(
        parse_jurisdiction_info("us/ny/nyc"),
        ("New York City".to_string(), "city".to_string())
    );
    assert_eq!(
        parse_jurisdiction_info("us/ca/sfo"),
        ("San Francisco".to_string(), "city".to_string())
    );
    assert_eq!(
        parse_jurisdiction_info("us/me"),
        ("Maine".to_string(), "state".to_string())
    );
    assert_eq!(
        parse_jurisdiction_info("us/xx"),
        ("Unknown".to_string(), "unknown".to_string())
    );
}

#[test]
fn spreadsheets_listed_in_order() {
    let names: Vec<String> = ["b.xlsx", "a.csv", "a.xlsx", "xlsx", "c.xlsx.gz"]
        .iter()
        .map(|s| s.to_string())
        .collect();
    assert_eq!(
        spreadsheet_files(&names),
        vec!["b.xlsx".to_string(), "a.xlsx".to_string()]
    );
}

#[test]
fn stage_and_type_names() {
    assert_eq!(IngestionStage::Discovery.name(), "discovery");
    assert_eq!(IngestionStage::FileReading.name(), "file_reading");
    assert_eq!(IngestionStage::DatabaseInsertion.name(), "database_insertion");
    assert_eq!(IngestionStage::Validation.name(), "validation");
    assert_eq!(IngestionStage::Complete.name(), "complete");
    assert_eq!(CandidateType::Regular.name(), "Regular");
    assert_eq!(CandidateType::WriteIn.name(), "WriteIn");
    assert_eq!(CandidateType::QualifiedWriteIn.name(), "QualifiedWriteIn");
}

#[test]
fn default_options() {
    let t = TabulationOptions::default();
    assert_eq!(t.method, TabulationMethod::InstantRunoff);
    assert!(t.eager_elimination);
    assert!(!t.exhaust_on_duplicate_rankings);
    assert_eq!(MetadataOptions::default().eager, Some(true));
}
