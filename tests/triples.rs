use sage_triples::Triple;

#[test]
fn test_triple() {
    let triple = Triple::new(
        "simon".to_string(),
        "plays".to_string(),
        "tennis".to_string(),
    );
    assert_eq!(triple.subject(), "simon");
    assert_eq!(triple.relation(), "plays");
    assert_eq!(triple.object(), "tennis");
}

#[test]
fn triple_renders_with_separators() {
    let triple = Triple::new("simon".to_string(), "plays".to_string(), "tennis".to_string());
    assert_eq!(triple.render(), "(simon -- plays -- tennis)");
}

#[test]
fn triple_accepts_empty_labels() {
    let triple = Triple::new(String::new(), String::new(), String::new());
    assert_eq!(triple.subject(), "");
    assert_eq!(triple.render(), "( --  -- )");
}

#[test]
fn triples_compare_by_all_three_labels() {
    let a = Triple::new("a".to_string(), "r".to_string(), "b".to_string());
    let b = Triple::new("a".to_string(), "r".to_string(), "b".to_string());
    let c = Triple::new("a".to_string(), "s".to_string(), "b".to_string());
    assert!(a == b);
    assert!(a != c);
}
