use team_solver::lp_model::{
    first_index, netid_index, pitcher_links, sorted_projects, teammate_pairs, teams_from_solution,
};
use team_solver::solver::Student;

fn student(name: &str, netid: &str, choices: &[&str], mates: &[&str], is_pitcher: bool) -> Student {
    Student {
        name: name.to_string(),
        netid: netid.to_string(),
        choices: choices.iter().map(|c| c.to_string()).collect(),
        teammates: mates.iter().map(|c| c.to_string()).collect(),
        is_pitcher,
    }
}

fn texts(v: &[&str]) -> Vec<String> {
    v.iter().map(|s| s.to_string()).collect()
}

#[test]
fn projects_are_sorted_and_distinct() {
    let students = vec![
        student("A", "a", &["Zeta", "Alpha"], &[], false),
        student("B", "b", &["Beta", "Alpha"], &[], false),
    ];
    assert_eq!(sorted_projects(&students), texts(&["Alpha", "Beta", "Zeta"]));
}

#[test]
fn sort_orders_by_code_point() {
    let students = vec![student("A", "a", &["b", "B", "a", "ab"], &[], false)];
    assert_eq!(sorted_projects(&students), texts(&["B", "a", "ab", "b"]));
}

#[test]
fn first_index_finds_first_match() {
    let v = texts(&["x", "y", "x"]);
    assert_eq!(first_index(&v, &"x".to_string()), Some(0));
    assert_eq!(first_index(&v, &"y".to_string()), Some(1));
    assert_eq!(first_index(&v, &"z".to_string()), None);
}

#[test]
fn netid_index_takes_last_duplicate() {
    let students = vec![
        student("A", "n1", &[], &[], false),
        student("B", "n2", &[], &[], false),
        student("C", "n1", &[], &[], false),
    ];
    assert_eq!(netid_index(&students, &"n1".to_string()), Some(2));
    assert_eq!(netid_index(&students, &"n2".to_string()), Some(1));
    assert_eq!(netid_index(&students, &"n3".to_string()), None);
}

#[test]
fn teammate_pairs_only_forward() {
    let students = vec![
        student("A", "a", &[], &["b", "c", "zz"], false),
        student("B", "b", &[], &["a"], false),
        student("C", "c", &[], &["b"], false),
    ];
    // B asks for A (earlier) and C asks for B (earlier): both skipped.
    assert_eq!(teammate_pairs(&students), vec![(0, 1), (0, 2)]);
}

#[test]
fn pitcher_links_use_project_positions() {
    let students = vec![
        student("A", "a", &["P2"], &[], true),
        student("B", "b", &["P1"], &[], false),
        student("C", "c", &["P9"], &[], true),
    ];
    let projects = texts(&["P1", "P2"]);
    assert_eq!(pitcher_links(&students, &projects), vec![(0, 1)]);
}

#[test]
fn solution_becomes_teams() {
    let students = vec![
        student("A", "a", &[], &[], false),
        student("B", "b", &[], &[], false),
        student("C", "c", &[], &[], false),
    ];
    let projects = texts(&["P1", "P2", "P3"]);
    let active = vec![true, false, true];
    let chosen = vec![
        vec![false, false, true],
        vec![true, false, false],
        vec![false, false, true],
    ];
    let t = teams_from_solution(&students, &projects, &active, &chosen);
    assert_eq!(t.len(), 2);
    assert_eq!(t.get("P1").unwrap(), &texts(&["B"]));
    assert_eq!(t.get("P3").unwrap(), &texts(&["A", "C"]));
    assert!(!t.contains_key("P2"));
}
