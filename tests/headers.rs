use report_pipeline::header::{parse_header, HeaderError};

#[test]
fn borough_president_header_parses() {
    let h = parse_header("DEM Borough President Choice 1 of 4 New York (026918)")
        .unwrap()
        .unwrap();
    assert_eq!(h.office, "DEM Borough President");
    assert_eq!(h.rank, 1);
    assert_eq!(h.total, 4);
    assert_eq!(h.jurisdiction, "York");
    assert_eq!(h.code, "026918");
}

#[test]
fn single_word_jurisdiction() {
    let h = parse_header("DEM Mayor Choice 3 of 5 Citywide (2)").unwrap().unwrap();
    assert_eq!(h.office, "DEM Mayor");
    assert_eq!(h.rank, 3);
    assert_eq!(h.total, 5);
    assert_eq!(h.jurisdiction, "Citywide");
    assert_eq!(h.code, "2");
}

#[test]
fn non_matching_headers_are_ignored() {
    assert!(parse_header("Cast Vote Record").unwrap().is_none());
    assert!(parse_header("Precinct").unwrap().is_none());
    assert!(parse_header("DEM Mayor choice 1 of 5 Citywide (2)").unwrap().is_none());
    assert!(parse_header("DEM Mayor Choice 1 of 5 Citywide (x2)").unwrap().is_none());
    assert!(parse_header("DEM Mayor Choice 1 of 5 Citywide 2").unwrap().is_none());
    assert!(parse_header("").unwrap().is_none());
}

#[test]
fn rank_out_of_range_is_an_error() {
    assert!(matches!(
        parse_header("DEM Mayor Choice 7 of 5 Citywide (2)"),
        Err(HeaderError::RankOutOfRange)
    ));
    assert!(matches!(
        parse_header("DEM Mayor Choice 0 of 5 Citywide (2)"),
        Err(HeaderError::RankOutOfRange)
    ));
    assert!(matches!(
        parse_header("DEM Mayor Choice 12 of 5 Citywide (2)"),
        Err(HeaderError::RankOutOfRange)
    ));
    assert!(matches!(
        parse_header("DEM Mayor Choice 1 of 9 Citywide (2)"),
        Err(HeaderError::RankOutOfRange)
    ));
}
