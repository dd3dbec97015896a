use team_solver::csv_parser::{parse_csv, rows_from_records};
use team_solver::solver::{solve, SolverConfig};

#[test]
fn parses_headers_and_rows() {
    let (headers, rows) = parse_csv("Name,Choice 1\nAda,P1\nBob,P2\n").expect("parses");
    assert_eq!(headers, vec!["Name".to_string(), "Choice 1".to_string()]);
    assert_eq!(rows.len(), 2);
    assert_eq!(rows[0].get(&"Name".to_string()), Some(&"Ada".to_string()));
    assert_eq!(rows[1].get(&"Choice 1".to_string()), Some(&"P2".to_string()));
}

#[test]
fn record_of_wrong_length_is_skipped() {
    let (_, rows) = parse_csv("a,b\n1,2\n3\n4,5\n").expect("parses");
    assert_eq!(rows.len(), 2);
    assert_eq!(rows[1].get(&"a".to_string()), Some(&"4".to_string()));
}

#[test]
fn quoted_fields() {
    let (_, rows) = parse_csv("a,b\n\"x, y\",\"z\"\n").expect("parses");
    assert_eq!(rows[0].get(&"a".to_string()), Some(&"x, y".to_string()));
    assert_eq!(rows[0].get(&"b".to_string()), Some(&"z".to_string()));
}

#[test]
fn empty_text_has_no_rows() {
    let (headers, rows) = parse_csv("").expect("parses");
    assert!(headers.is_empty());
    assert!(rows.is_empty());
}

#[test]
fn later_header_wins() {
    let headers = vec!["a".to_string(), "a".to_string()];
    let records = vec![Some(vec!["1".to_string(), "2".to_string()]), None, Some(vec!["3".to_string()])];
    let rows = rows_from_records(&headers, &records);
    assert_eq!(rows.len(), 1);
    assert_eq!(rows[0].get(&"a".to_string()), Some(&"2".to_string()));
}

#[test]
fn extra_fields_are_ignored() {
    let headers = vec!["a".to_string()];
    let records = vec![Some(vec!["1".to_string(), "2".to_string()])];
    let rows = rows_from_records(&headers, &records);
    assert_eq!(rows.len(), 1);
    assert_eq!(rows[0].get(&"a".to_string()), Some(&"1".to_string()));
}

#[test]
fn parse_and_solve_small_table() {
    let text = "Name,NetID,Project Pitched,First,Second\nS1,n1,P1,P1,P2\nS2,n2,,P1,P2\nS3,n3,,P2,P1\nS4,n4,,P2,P1\n";
    let (_, rows) = parse_csv(text).expect("parses");
    let config = SolverConfig {
        name_col: "Name".to_string(),
        netid_col: "NetID".to_string(),
        pitcher_col: "Project Pitched".to_string(),
        preference_cols: vec!["First".to_string(), "Second".to_string()],
        teammate_cols: vec![],
        min_team_size: 2,
        max_team_size: 2,
    };
    let t = solve(&config, &rows).expect("solution");
    assert_eq!(t.get("P1").unwrap(), &vec!["S1".to_string(), "S2".to_string()]);
    assert_eq!(t.get("P2").unwrap(), &vec!["S3".to_string(), "S4".to_string()]);
}

const PREFERENCES_CSV: &str = "\
Timestamp,Name,NetID,Project Pitched,First (1) Choice,Second (2)  Choice,Third (3) Choice,Fourth (4) Choice,Fifth (5) Choice,Team Member #1 UW NetID,Team Member #2 UW NetID,Team Member #3 UW NetID
1,S1,n1,Alpha,Alpha,Beta,Gamma,,,n2,,
2,S2,n2,,Alpha,Gamma,Beta,,,n1,,
3,S3,n3,,Alpha,Beta,,,,,,
4,S4,n4,,Alpha,Gamma,Beta,,,,,
5,S5,n5,Beta,Beta,Alpha,,,,n6,n7,
6,S6,n6,,Beta,Gamma,,,,n5,,
7,S7,n7,,Beta,Alpha,Gamma,,,,,
8,S8,n8,,Beta,Gamma,,,,,,
9,S9,n9,,Gamma,Alpha,Beta,,,,,
10,S10,n10,,Gamma,Beta,,,,n11,,
11,S11,n11,,Gamma,Alpha,,,,n10,,
12,S12,n12,,Gamma,Beta,Alpha,,,,,
";

#[test]
fn test_full_dataset() {
    let csv_text = PREFERENCES_CSV;
    let (_headers, data) = parse_csv(csv_text).expect("Should parse CSV");

    let config = SolverConfig {
        name_col: "Name".to_string(),
        netid_col: "NetID".to_string(),
        pitcher_col: "Project Pitched".to_string(),
        preference_cols: vec![
            "First (1) Choice".to_string(),
            "Second (2)  Choice".to_string(),
            "Third (3) Choice".to_string(),
            "Fourth (4) Choice".to_string(),
            "Fifth (5) Choice".to_string(),
        ],
        teammate_cols: vec![
            "Team Member #1 UW NetID".to_string(),
            "Team Member #2 UW NetID".to_string(),
            "Team Member #3 UW NetID".to_string(),
        ],
        min_team_size: 4,
        max_team_size: 6,
    };

    let result = solve(&config, &data);
    assert!(result.is_some(), "Should find a feasible solution for the full dataset");

    let assignments = result.unwrap();
    let total_assigned: usize = assignments.entries().iter().map(|(_, m)| m.len()).sum();
    assert_eq!(total_assigned, data.len(), "Every student should be assigned to a project");
}
