use fvcs::readme::{readme_text, README_FOOTER};

#[test]
fn readme_full() {
    let t = readme_text("CoolAvatar", Some("A very cool avatar"), &vec!["Ann".to_string(), "Bo".to_string()]);
    assert_eq!(t, format!("# CoolAvatar\n\nA very cool avatar\n\nby Ann, Bo\n\n{README_FOOTER}"));
    assert!(t.ends_with("from avatar.json*\n"));
}

#[test]
fn readme_minimal() {
    assert_eq!(readme_text("X", None, &vec![]), format!("# X\n\n{README_FOOTER}"));
    assert_eq!(readme_text("X", Some(""), &vec!["Solo".to_string()]), format!("# X\n\nby Solo\n\n{README_FOOTER}"));
}
