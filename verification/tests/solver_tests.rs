use team_solver::row::Row;
use team_solver::solver::{build_student, collect_projects, solve, SolverConfig};
use team_solver::assignment::assign_teams;
use team_solver::solver::Student;

fn create_test_config() -> SolverConfig {
    SolverConfig {
        name_col: "Name".to_string(),
        netid_col: "NetID".to_string(),
        pitcher_col: "Project Pitched".to_string(),
        preference_cols: vec!["Choice 1".to_string(), "Choice 2".to_string()],
        teammate_cols: vec!["Teammate".to_string()],
        min_team_size: 2,
        max_team_size: 3,
    }
}

fn row(cells: &[(&str, &str)]) -> Row {
    let mut r = Row::new();
    for (k, v) in cells {
        r.insert(k.to_string(), v.to_string());
    }
    r
}

fn student(name: &str, choices: &[&str], is_pitcher: bool) -> Student {
    Student {
        name: name.to_string(),
        netid: String::new(),
        choices: choices.iter().map(|c| c.to_string()).collect(),
        teammates: Vec::new(),
        is_pitcher,
    }
}

#[test]
fn test_basic_assignment() {
    let config = create_test_config();
    let mut data = Vec::new();

    let students = vec![
        ("S1", "n1", "P1", "P2"),
        ("S2", "n2", "P1", "P2"),
        ("S3", "n3", "P2", "P1"),
        ("S4", "n4", "P2", "P1"),
    ];

    for (name, id, c1, c2) in students {
        let mut row = Row::new();
        row.insert("Name".to_string(), name.to_string());
        row.insert("NetID".to_string(), id.to_string());
        row.insert("Choice 1".to_string(), c1.to_string());
        row.insert("Choice 2".to_string(), c2.to_string());
        data.push(row);
    }

    let result = solve(&config, &data).expect("Should find a solution");
    assert_eq!(result.len(), 2);
    assert!(result.contains_key("P1"));
    assert!(result.contains_key("P2"));
    assert_eq!(result.get("P1").unwrap().len(), 2);
    assert_eq!(result.get("P2").unwrap().len(), 2);
}

#[test]
fn test_pitcher_constraint() {
    let mut config = create_test_config();
    config.min_team_size = 2;

    let mut data = Vec::new();
    // S1 pitches P1. P1 MUST be active and S1 MUST be in it.
    let mut row1 = Row::new();
    row1.insert("Name".to_string(), "S1".to_string());
    row1.insert("NetID".to_string(), "n1".to_string());
    row1.insert("Project Pitched".to_string(), "P1".to_string());
    row1.insert("Choice 1".to_string(), "P1".to_string());
    data.push(row1);

    let mut row2 = Row::new();
    row2.insert("Name".to_string(), "S2".to_string());
    row2.insert("NetID".to_string(), "n2".to_string());
    row2.insert("Choice 1".to_string(), "P1".to_string());
    data.push(row2);

    let result = solve(&config, &data).expect("Should solve");
    assert!(result.contains_key("P1"));
    let members = result.get("P1").unwrap();
    assert!(members.contains(&"S1".to_string()));
}

#[test]
fn build_student_reads_cells_in_column_order() {
    let config = create_test_config();
    let r = row(&[
        ("Name", "Ada"),
        ("NetID", "ada1"),
        ("Project Pitched", "P2"),
        ("Choice 1", ""),
        ("Choice 2", "P2"),
        ("Teammate", "bob2"),
    ]);
    let s = build_student(&config, &r);
    assert_eq!(s.name, "Ada");
    assert_eq!(s.netid, "ada1");
    assert_eq!(s.choices, vec!["P2".to_string()]);
    assert_eq!(s.teammates, vec!["bob2".to_string()]);
    // The blank first choice is left out, so the pitched project is the first choice.
    assert!(s.is_pitcher);
}

#[test]
fn build_student_missing_columns_are_empty() {
    let config = create_test_config();
    let s = build_student(&config, &row(&[("Choice 2", "P1")]));
    assert_eq!(s.name, "");
    assert_eq!(s.netid, "");
    assert_eq!(s.choices, vec!["P1".to_string()]);
    assert!(s.teammates.is_empty());
    assert!(!s.is_pitcher);
}

#[test]
fn pitcher_needs_matching_first_choice() {
    let config = create_test_config();
    let s = build_student(
        &config,
        &row(&[("Project Pitched", "P1"), ("Choice 1", "P2"), ("Choice 2", "P1")]),
    );
    assert!(!s.is_pitcher);
}

#[test]
fn projects_in_order_of_first_mention() {
    let students = vec![
        student("A", &["P3", "P1"], false),
        student("B", &["P1", "P2"], false),
        student("C", &["P3"], false),
    ];
    let projects = collect_projects(&students);
    assert_eq!(projects, vec!["P3".to_string(), "P1".to_string(), "P2".to_string()]);
}

#[test]
fn too_many_pitchers_gives_none() {
    // Three pitchers of P1 with max 2: P1 cannot hold them all.
    let students = vec![
        student("A", &["P1"], true),
        student("B", &["P1"], true),
        student("C", &["P1"], true),
    ];
    assert!(assign_teams(&students, 1, 2).is_none());
}

#[test]
fn full_team_sends_student_to_next_choice() {
    let students = vec![
        student("A", &["P1", "P2"], false),
        student("B", &["P1", "P2"], false),
        student("C", &["P1", "P2"], false),
    ];
    let t = assign_teams(&students, 1, 2).expect("all placed");
    assert_eq!(t.len(), 2);
    assert_eq!(t.get("P1").unwrap(), &vec!["A".to_string(), "B".to_string()]);
    assert_eq!(t.get("P2").unwrap(), &vec!["C".to_string()]);
}

#[test]
fn second_choice_with_room_is_used() {
    // P3 is nobody's first choice, but C ranked it and it has room.
    let students = vec![
        student("A", &["P1", "P2"], false),
        student("B", &["P1", "P3"], false),
        student("C", &["P1", "P3"], false),
    ];
    let t = assign_teams(&students, 1, 2).expect("all placed");
    assert_eq!(t.len(), 2);
    assert_eq!(t.get("P1").unwrap(), &vec!["A".to_string(), "B".to_string()]);
    assert_eq!(t.get("P3").unwrap(), &vec!["C".to_string()]);
    assert!(!t.contains_key("P2"));
}

#[test]
fn fewest_students_outside_their_choices() {
    // Only one of A, B, C can join D on P2 without leaving P1 too small;
    // the answer keeps everyone at a ranked project.
    let students = vec![
        student("A", &["P1", "P2"], false),
        student("B", &["P1"], false),
        student("C", &["P1"], false),
        student("D", &["P2"], false),
    ];
    let t = assign_teams(&students, 2, 2).expect("all placed");
    assert_eq!(t.get("P1").unwrap(), &vec!["B".to_string(), "C".to_string()]);
    assert_eq!(t.get("P2").unwrap(), &vec!["A".to_string(), "D".to_string()]);
}

#[test]
fn student_without_room_in_choices_takes_first_project_with_room() {
    let students = vec![
        student("A", &["P1"], false),
        student("B", &["P1"], false),
        student("C", &["P1"], false),
        student("D", &["P2"], false),
    ];
    let t = assign_teams(&students, 1, 2).expect("all placed");
    assert_eq!(t.get("P1").unwrap(), &vec!["A".to_string(), "B".to_string()]);
    assert_eq!(t.get("P2").unwrap(), &vec!["C".to_string(), "D".to_string()]);
}

#[test]
fn student_who_ranked_nothing_needs_a_ranked_project() {
    let students = vec![
        student("A", &["P1"], false),
        student("B", &["P1"], false),
        student("C", &[], false),
    ];
    assert!(assign_teams(&students, 1, 2).is_none());
    let t = assign_teams(&students, 1, 3).expect("all placed");
    assert_eq!(t.get("P1").unwrap(), &vec!["A".to_string(), "B".to_string(), "C".to_string()]);
}

#[test]
fn lone_choice_joins_larger_team() {
    // A team of C alone would be under the minimum, so C joins P1.
    let students = vec![
        student("A", &["P1"], false),
        student("B", &["P1"], false),
        student("C", &["P2"], false),
    ];
    let t = assign_teams(&students, 2, 3).expect("all placed");
    assert_eq!(t.len(), 1);
    assert_eq!(t.get("P1").unwrap(), &vec!["A".to_string(), "B".to_string(), "C".to_string()]);
    assert!(!t.contains_key("P2"));
}

#[test]
fn no_room_anywhere_gives_none() {
    let students = vec![
        student("A", &["P1"], false),
        student("B", &["P1"], false),
    ];
    assert!(assign_teams(&students, 1, 1).is_none());
}

#[test]
fn first_choices_fill_their_project_as_far_as_sizes_allow() {
    let students = vec![
        student("A", &["P1", "P2"], false),
        student("B", &["P1", "P2"], false),
        student("C", &["P1", "P2"], false),
        student("D", &["P1", "P2"], false),
        student("E", &["P1", "P2"], false),
    ];
    let t = assign_teams(&students, 2, 3).expect("all placed");
    assert_eq!(t.get("P1").unwrap(), &vec!["A".to_string(), "B".to_string(), "C".to_string()]);
    assert_eq!(t.get("P2").unwrap(), &vec!["D".to_string(), "E".to_string()]);
}

fn four_rows(c1: &str, c2: &str, pitched: &str) -> Vec<Row> {
    (1..5)
        .map(|i| {
            let name = format!("S{}", i);
            let id = format!("n{}", i);
            row(&[
                ("Name", name.as_str()),
                ("NetID", id.as_str()),
                ("Choice 1", c1),
                ("Choice 2", c2),
                ("Project Pitched", pitched),
            ])
        })
        .collect()
}

#[test]
fn same_preferences_split_into_two_valid_teams() {
    let config = create_test_config();
    let t = solve(&config, &four_rows("P1", "P2", "")).expect("a 2 + 2 split exists");
    assert_eq!(t.len(), 2);
    assert_eq!(t.get("P1").unwrap(), &vec!["S1".to_string(), "S2".to_string()]);
    assert_eq!(t.get("P2").unwrap(), &vec!["S3".to_string(), "S4".to_string()]);
}

#[test]
fn more_pitchers_than_max_gives_none() {
    let config = create_test_config();
    assert!(solve(&config, &four_rows("P1", "", "P1")).is_none());
}

#[test]
fn nothing_ranked_gives_none() {
    let config = create_test_config();
    let data = vec![row(&[("Name", "S1")]), row(&[("Name", "S2")])];
    assert!(solve(&config, &data).is_none());
}

#[test]
fn no_students_gives_empty_answer() {
    let config = create_test_config();
    let t = solve(&config, &[]).expect("nothing to place");
    assert_eq!(t.len(), 0);
    assert!(!t.contains_key("P1"));
    assert!(t.get("P1").is_none());
}

#[test]
fn every_student_appears_once_in_answer() {
    let config = SolverConfig {
        name_col: "Name".to_string(),
        netid_col: "NetID".to_string(),
        pitcher_col: "Pitch".to_string(),
        preference_cols: vec!["C1".to_string(), "C2".to_string()],
        teammate_cols: vec![],
        min_team_size: 2,
        max_team_size: 3,
    };
    let data: Vec<Row> = (0..8)
        .map(|i| {
            let name = format!("S{}", i);
            let c1 = if i % 2 == 0 { "A" } else { "B" };
            row(&[("Name", name.as_str()), ("C1", c1), ("C2", "C")])
        })
        .collect();
    let t = solve(&config, &data).expect("solution");
    let mut all: Vec<String> = t.entries().iter().flat_map(|(_, m)| m.clone()).collect();
    all.sort();
    let mut want: Vec<String> = (0..8).map(|i| format!("S{}", i)).collect();
    want.sort();
    assert_eq!(all, want);
    for (_, members) in t.entries() {
        assert!(members.len() >= 2 && members.len() <= 3);
    }
}
