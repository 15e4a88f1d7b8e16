use rs_pmtxt2merged::strmap::StrMap;

#[test]
fn insert_replaces_in_place() {
    let mut m = StrMap::new();
    assert!(m.is_empty());
    m.insert("a".to_string(), "1".to_string());
    m.insert("b".to_string(), "2".to_string());
    m.insert("a".to_string(), "3".to_string());
    assert_eq!(2, m.len());
    assert_eq!(Some("3"), m.get("a"));
    assert_eq!(Some("2"), m.get("b"));
    assert_eq!(None, m.get("c"));
    let names: Vec<&str> = m.entries().iter().map(|(k, _)| k.as_str()).collect();
    assert_eq!(vec!["a", "b"], names);
}

#[test]
fn extend_lets_other_win() {
    let mut m = StrMap::new();
    m.insert("a".to_string(), "1".to_string());
    m.insert("b".to_string(), "2".to_string());
    let mut o = StrMap::new();
    o.insert("b".to_string(), "x".to_string());
    o.insert("c".to_string(), "y".to_string());
    m.extend(o);
    assert_eq!(3, m.len());
    assert_eq!(Some("1"), m.get("a"));
    assert_eq!(Some("x"), m.get("b"));
    assert_eq!(Some("y"), m.get("c"));
}

#[test]
fn clone_keeps_entries() {
    let mut m = StrMap::new();
    m.insert("é".to_string(), "ü".to_string());
    let c = m.clone();
    assert_eq!(Some("ü"), c.get("é"));
    assert_eq!(None, c.get("e"));
}
