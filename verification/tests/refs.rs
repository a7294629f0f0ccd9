use fvcs::refs::{current_commit, parse_head, resolve_rev, sorted_ref_names, Head, RevError};

#[test]
fn head_parsing() {
    assert!(matches!(parse_head("refs/heads/main\n"), Head::Branch(b) if b == "main"));
    assert!(matches!(parse_head("  abc123 "), Head::Detached(h) if h == "abc123"));
}

#[test]
fn current_commit_follows_head() {
    let b = Head::Branch("main".to_string());
    assert_eq!(current_commit(&b, Some("t".to_string())), Some("t".to_string()));
    assert_eq!(current_commit(&b, None), None);
    let d = Head::Detached("abc".to_string());
    assert_eq!(current_commit(&d, None), Some("abc".to_string()));
}

#[test]
fn ref_names_sorted() {
    let v = vec!["main".to_string(), "feature".to_string(), "b".to_string(), "main".to_string()];
    assert_eq!(sorted_ref_names(v), vec!["b", "feature", "main", "main"]);
    assert!(sorted_ref_names(vec![]).is_empty());
}

#[test]
fn revisions_resolve() {
    let files = vec![
        "abcd1234aaaa.json".to_string(),
        "abcd9999bbbb.json".to_string(),
        "ffff0000cccc.json".to_string(),
    ];
    // a branch wins, its reference text trimmed
    assert_eq!(resolve_rev("main", Some("h1\n".to_string()), Some("h2".to_string()), false, &files), Ok("h1".to_string()));
    // then a tag
    assert_eq!(resolve_rev("release-1", None, Some(" h2 ".to_string()), false, &files), Ok("h2".to_string()));
    // a unique hash prefix
    assert_eq!(resolve_rev("ffff", None, None, false, &files), Ok("ffff0000cccc".to_string()));
    // an ambiguous one
    assert_eq!(resolve_rev("abcd", None, None, false, &files), Err(RevError::Ambiguous));
    // too short, or not hexadecimal
    assert_eq!(resolve_rev("abc", None, None, false, &files), Err(RevError::Unknown));
    assert_eq!(resolve_rev("zzzz", None, None, false, &files), Err(RevError::Unknown));
    // a full hash that is stored
    let full = "a".repeat(64);
    assert_eq!(resolve_rev(&full, None, None, true, &files), Ok(full.clone()));
}

#[test]
fn head_reads_back_as_set() {
    match fvcs::refs::parse_head(&fvcs::refs::branch_head_text("feature/x")) {
        fvcs::refs::Head::Branch(b) => assert_eq!(b, "feature/x"),
        other => panic!("{other:?}"),
    }
    match fvcs::refs::parse_head("0123abcd") {
        fvcs::refs::Head::Detached(h) => assert_eq!(h, "0123abcd"),
        other => panic!("{other:?}"),
    }
}
