use team_solver::row::Row;

#[test]
fn insert_then_get() {
    let mut r = Row::new();
    assert!(r.get(&"a".to_string()).is_none());
    r.insert("a".to_string(), "1".to_string());
    r.insert("b".to_string(), "2".to_string());
    assert_eq!(r.get(&"a".to_string()), Some(&"1".to_string()));
    assert_eq!(r.get(&"b".to_string()), Some(&"2".to_string()));
    assert!(r.get(&"c".to_string()).is_none());
}

#[test]
fn insert_replaces_cell() {
    let mut r = Row::new();
    r.insert("a".to_string(), "1".to_string());
    r.insert("a".to_string(), "3".to_string());
    assert_eq!(r.get(&"a".to_string()), Some(&"3".to_string()));
}
