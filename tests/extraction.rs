use std::collections::HashMap;

use report_pipeline::extract::{
    choice_of_cell, column_layout, read_ballots, read_election, CellFault, ExtractError,
    ReaderOptions, Sheet,
};
use report_pipeline::model::{CandidateId, CandidateType, Choice};
use report_pipeline::pattern::{keep_flagged, select_files};
use report_pipeline::resolver::CandidateMap;

fn strings(v: &[&str]) -> Vec<String> {
    v.iter().map(|s| s.to_string()).collect()
}

fn pairs(v: &[(&str, &str)]) -> Vec<(String, String)> {
    v.iter().map(|(a, b)| (a.to_string(), b.to_string())).collect()
}

fn table() -> HashMap<u32, String> {
    let mut t = HashMap::new();
    t.insert(101, "Ada".to_string());
    t.insert(202, "Bo".to_string());
    t
}

fn header() -> Vec<String> {
    strings(&[
        "Cast Vote Record",
        "DEM Mayor Choice 2 of 3 Citywide (2)",
        "DEM Mayor Choice 1 of 3 Citywide (2)",
        "DEM Council Member Choice 1 of 3 District (07)",
        "Precinct",
    ])
}

fn options() -> ReaderOptions {
    ReaderOptions::from_params(&pairs(&[
        ("officeName", "DEM Mayor"),
        ("jurisdictionName", "Citywide"),
        ("candidatesFile", "c.xlsx"),
        ("cvrPattern", "2025P1V.+\\.xlsx"),
    ]))
    .unwrap()
}

#[test]
fn options_from_params() {
    let o = options();
    assert_eq!(o.office_name, "DEM Mayor");
    assert_eq!(o.jurisdiction_name, "Citywide");
    assert_eq!(o.candidates_file, "c.xlsx");
    assert_eq!(o.cvr_pattern, "2025P1V.+\\.xlsx");
}

#[test]
fn missing_param_is_named() {
    let r = ReaderOptions::from_params(&pairs(&[("officeName", "X"), ("cvrPattern", "p")]));
    match r {
        Err(ExtractError::MissingParameter(k)) => assert_eq!(k, "jurisdictionName"),
        _ => panic!("expected a missing parameter"),
    }
}

#[test]
fn layout_orders_ranks() {
    let l = column_layout(&header(), "DEM Mayor", "Citywide").unwrap();
    assert_eq!(l.id_column, 0);
    assert_eq!(l.rank_columns, vec![2, 1]);
}

#[test]
fn layout_without_id_column() {
    let h = strings(&["DEM Mayor Choice 1 of 3 Citywide (2)"]);
    assert!(matches!(
        column_layout(&h, "DEM Mayor", "Citywide"),
        Err(ExtractError::MissingIdColumn)
    ));
}

#[test]
fn layout_rank_out_of_range() {
    let h = strings(&["Cast Vote Record", "X", "DEM Mayor Choice 6 of 3 Citywide (2)"]);
    assert!(matches!(
        column_layout(&h, "DEM Mayor", "Citywide"),
        Err(ExtractError::RankOutOfRange { column: 2 })
    ));
}

#[test]
fn cells_classify() {
    let t = table();
    let mut m = CandidateMap::new();
    assert_eq!(choice_of_cell("undervote", &t, &mut m), Ok(Choice::Undervote));
    assert_eq!(choice_of_cell("overvote", &t, &mut m), Ok(Choice::Overvote));
    assert_eq!(
        choice_of_cell("202", &t, &mut m),
        Ok(Choice::Vote(CandidateId(0)))
    );
    assert_eq!(
        choice_of_cell("Write-in", &t, &mut m),
        Ok(Choice::Vote(CandidateId(1)))
    );
    assert_eq!(
        choice_of_cell("202", &t, &mut m),
        Ok(Choice::Vote(CandidateId(0)))
    );
    assert_eq!(choice_of_cell("303", &t, &mut m), Err(CellFault::Unknown(303)));
    assert_eq!(choice_of_cell("abc", &t, &mut m), Err(CellFault::NotACode));
    let cands = m.into_vec();
    assert_eq!(cands.len(), 2);
    assert_eq!(cands[0].name, "Bo");
    assert_eq!(cands[0].candidate_type, CandidateType::Regular);
    assert_eq!(cands[1].name, "Write-in");
    assert_eq!(cands[1].candidate_type, CandidateType::WriteIn);
}

#[test]
fn rows_become_ballots() {
    let l = column_layout(&header(), "DEM Mayor", "Citywide").unwrap();
    let rows = vec![
        strings(&["r1", "202", "101", "x", "p"]),
        strings(&["r2", "undervote", "Write-in", "x", "p"]),
    ];
    let mut m = CandidateMap::new();
    let bs = read_ballots(&rows, &l, &table(), &mut m).unwrap();
    assert_eq!(bs.len(), 2);
    assert_eq!(bs[0].id, "r1");
    assert_eq!(
        bs[0].choices,
        vec![Choice::Vote(CandidateId(0)), Choice::Vote(CandidateId(1))]
    );
    assert_eq!(bs[1].id, "r2");
    assert_eq!(
        bs[1].choices,
        vec![Choice::Vote(CandidateId(2)), Choice::Undervote]
    );
}

#[test]
fn short_row_is_an_error() {
    let l = column_layout(&header(), "DEM Mayor", "Citywide").unwrap();
    let rows = vec![strings(&["r1", "202", "101"]), strings(&["r2", "101"])];
    let mut m = CandidateMap::new();
    assert!(matches!(
        read_ballots(&rows, &l, &table(), &mut m),
        Err(ExtractError::MissingCell { row: 1, column: 2 })
    ));
}

#[test]
fn unknown_code_is_an_error() {
    let l = column_layout(&header(), "DEM Mayor", "Citywide").unwrap();
    let rows = vec![strings(&["r1", "202", "999"])];
    let mut m = CandidateMap::new();
    assert!(matches!(
        read_ballots(&rows, &l, &table(), &mut m),
        Err(ExtractError::UnknownCandidate { row: 0, code: 999 })
    ));
}

#[test]
fn bad_code_is_an_error() {
    let l = column_layout(&header(), "DEM Mayor", "Citywide").unwrap();
    let rows = vec![strings(&["r1", "202", "1.5"])];
    let mut m = CandidateMap::new();
    assert!(matches!(
        read_ballots(&rows, &l, &table(), &mut m),
        Err(ExtractError::InvalidCandidateCode { row: 0, column: 2 })
    ));
}

#[test]
fn election_across_files() {
    let s1 = Sheet {
        header: header(),
        rows: vec![strings(&["a", "undervote", "101", "", ""])],
    };
    let s2 = Sheet {
        header: strings(&["DEM Mayor Choice 1 of 3 Citywide (2)", "Cast Vote Record"]),
        rows: vec![strings(&["202", "b"]), strings(&["101", "c"])],
    };
    let e = read_election(&vec![s1, s2], &options(), &table()).unwrap();
    assert_eq!(e.candidates.len(), 2);
    assert_eq!(e.candidates[0].name, "Ada");
    assert_eq!(e.candidates[1].name, "Bo");
    assert_eq!(e.ballots.len(), 3);
    assert_eq!(e.ballots[0].id, "a");
    assert_eq!(
        e.ballots[0].choices,
        vec![Choice::Vote(CandidateId(0)), Choice::Undervote]
    );
    assert_eq!(e.ballots[1].id, "b");
    assert_eq!(e.ballots[1].choices, vec![Choice::Vote(CandidateId(1))]);
    assert_eq!(e.ballots[2].choices, vec![Choice::Vote(CandidateId(0))]);
}

#[test]
fn file_selection_is_anchored() {
    let names = strings(&[
        "2025P1V1_ELE1.xlsx",
        "x2025P1V1_ELE1.xlsx",
        "2025P1V2_ELE2.xlsx",
        "2025P1V1_ELE1.xlsx.bak",
        "2025P2V1_ELE1.xlsx",
    ]);
    let sel = select_files("2025P1V.+\\.xlsx", &names).unwrap();
    assert_eq!(sel, strings(&["2025P1V1_ELE1.xlsx", "2025P1V2_ELE2.xlsx"]));
}

#[test]
fn invalid_file_pattern() {
    assert!(matches!(
        select_files("2025P(", &strings(&["a"])),
        Err(ExtractError::InvalidFilePattern)
    ));
}

#[test]
fn flagged_names_kept_in_order() {
    let names = strings(&["a", "b", "c", "d"]);
    assert_eq!(
        keep_flagged(&names, &vec![true, false, false, true]),
        strings(&["a", "d"])
    );
    assert!(keep_flagged(&names, &vec![false; 4]).is_empty());
}
