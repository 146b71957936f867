use report_pipeline::discover::{
    contests_from_headers, cvr_pattern, decimal, extract_p_number, find_candidate_file,
    generate_office_id, get_jurisdiction_kind, get_jurisdiction_name, loader_params,
    office_id_from_lowercase, p_group_files, parse_contest_header, parse_u32,
};
use report_pipeline::text::{replace_text, same_text};

fn strings(v: &[&str]) -> Vec<String> {
    v.iter().map(|s| s.to_string()).collect()
}

#[test]
fn office_id_for_borough_president() {
    assert_eq!(
        generate_office_id("DEM Borough President", "Manhattan", "026918"),
        "borough-president-manhattan-026918"
    );
}

#[test]
fn office_id_citywide_has_no_place() {
    assert_eq!(generate_office_id("DEM Mayor", "Citywide", "2"), "mayor-2");
}

#[test]
fn office_id_from_lowercase_exact() {
    assert_eq!(
        office_id_from_lowercase("dem council member", "District", "district", "07"),
        "council-member-district-07"
    );
    assert_eq!(
        office_id_from_lowercase("dem public advocate", "Citywide", "citywide", "1"),
        "public-advocate-1"
    );
}

#[test]
fn lowercasing_applies_to_both_names() {
    assert_eq!(
        generate_office_id("DEM ÉLU Président", "Queens", "9"),
        "élu-président-queens-9"
    );
}

#[test]
fn contest_header_builds_contest() {
    let c = parse_contest_header("DEM Borough President Choice 1 of 4 New York (026918)", 3)
        .unwrap();
    assert_eq!(c.office_id, "borough-president-york-026918");
    assert_eq!(c.office_name, "DEM Borough President");
    assert_eq!(c.office_name_pattern, "DEM Borough President");
    assert_eq!(c.jurisdiction_name, "York");
    assert_eq!(c.jurisdiction_code, "026918");
    assert_eq!(c.p_group, 3);
}

#[test]
fn contest_header_needs_first_rank() {
    assert!(parse_contest_header("DEM Mayor Choice 2 of 5 Citywide (2)", 1).is_none());
    assert!(parse_contest_header("DEM Mayor Choice 9 of 5 Citywide (2)", 1).is_none());
    assert!(parse_contest_header("Cast Vote Record", 1).is_none());
}

#[test]
fn contests_are_deduplicated_by_office_id() {
    let headers = strings(&[
        "Cast Vote Record",
        "DEM Mayor Choice 1 of 5 Citywide (2)",
        "DEM Mayor Choice 2 of 5 Citywide (2)",
        "DEM Mayor Choice 1 of 5 Citywide (2)",
        "REP Mayor Choice 1 of 5 Citywide (3)",
        "DEM Council Member Choice 1 of 5 District (07)",
    ]);
    let cs = contests_from_headers(&headers, 2);
    assert_eq!(cs.len(), 2);
    assert_eq!(cs[0].office_id, "mayor-2");
    assert_eq!(cs[1].office_id, "council-member-district-07");
    assert!(cs.iter().all(|c| c.p_group == 2));
}

#[test]
fn p_number_from_file_name() {
    assert_eq!(extract_p_number("2025P1V1_ELE1.xlsx"), Some(1));
    assert_eq!(extract_p_number("x2025P12V1_ELE1.xlsx"), Some(12));
    assert_eq!(extract_p_number("2025P+4V1.xlsx"), Some(4));
    assert_eq!(extract_p_number("2025PV1_ELE1.xlsx"), None);
    assert_eq!(extract_p_number("2025P1_ELE1.xlsx"), None);
    assert_eq!(extract_p_number("2024P1V1_ELE1.xlsx"), None);
    assert_eq!(extract_p_number("2025P99999999999V1.xlsx"), None);
}

#[test]
fn parse_u32_like_std() {
    let p = |s: &str| parse_u32(&s.chars().collect());
    assert_eq!(p("0"), Some(0));
    assert_eq!(p("4294967295"), Some(u32::MAX));
    assert_eq!(p("4294967296"), None);
    assert_eq!(p("+7"), Some(7));
    assert_eq!(p("+"), None);
    assert_eq!(p(""), None);
    assert_eq!(p("-1"), None);
    assert_eq!(p("1a"), None);
}

#[test]
fn group_files_sorted_by_number() {
    let names = strings(&[
        "2025P3V1_ELE1.xlsx",
        "2025P3V2_ELE1.xlsx",
        "2025CandidacyID_To_Name.xlsx",
        "2025P1V1_ELE1.xlsx",
        "2025P2V1_ELE1.xlsx",
    ]);
    let groups = p_group_files(&names);
    assert_eq!(
        groups,
        vec![
            (1, "2025P1V1_ELE1.xlsx".to_string()),
            (2, "2025P2V1_ELE1.xlsx".to_string()),
            (3, "2025P3V1_ELE1.xlsx".to_string()),
        ]
    );
}

#[test]
fn candidate_file_found() {
    let names = strings(&["a.csv", "x_CandidacyID_To_Name.csv", "2025P_CandidacyID_To_Name.xlsx", "b_CandidacyID_To_Name.xlsx"]);
    assert_eq!(
        find_candidate_file(&names),
        Some("2025P_CandidacyID_To_Name.xlsx".to_string())
    );
    assert_eq!(find_candidate_file(&strings(&["a.xlsx"])), None);
}

#[test]
fn group_pattern_text() {
    assert_eq!(cvr_pattern(4), "2025P4V.+\\.xlsx");
    assert_eq!(decimal(0), "0");
    assert_eq!(decimal(4294967295), "4294967295");
}

#[test]
fn loader_params_of_contest() {
    let c = parse_contest_header("DEM Mayor Choice 1 of 5 Citywide (2)", 5).unwrap();
    let ps = loader_params(&c, "cands.xlsx");
    assert_eq!(
        ps,
        vec![
            ("candidatesFile".to_string(), "cands.xlsx".to_string()),
            ("cvrPattern".to_string(), "2025P5V.+\\.xlsx".to_string()),
            ("jurisdictionName".to_string(), "Citywide".to_string()),
            ("officeName".to_string(), "DEM Mayor".to_string()),
        ]
    );
}

#[test]
fn jurisdiction_names_and_kinds() {
    assert_eq!(get_jurisdiction_name("us/ny/nyc"), "New York City");
    assert_eq!(get_jurisdiction_name("us/me"), "Unknown Jurisdiction");
    assert_eq!(get_jurisdiction_kind("us/ny/nyc"), "city");
    assert_eq!(get_jurisdiction_kind("us/ca/sfo"), "unknown");
}

#[test]
fn text_helpers() {
    assert_eq!(replace_text("a b  c", " ", "-"), "a-b--c");
    assert_eq!(replace_text("dem dem x", "dem ", ""), "x");
    assert_eq!(replace_text("aaa", "aa", "b"), "ba");
    assert!(same_text("abc", "abc"));
    assert!(!same_text("abc", "abd"));
}
