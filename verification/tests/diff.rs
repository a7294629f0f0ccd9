use fvcs::diff::{changed_paths, file_diff, is_text, ChangeKind, FileDiff};
use fvcs::strmap::StrMap;

#[test]
fn text_detection() {
    assert!(is_text(b"local x = 1\n"));
    assert!(is_text(b""));
    assert!(!is_text(b"ab\0cd"));
    let mut late_zero = vec![b'a'; 9000];
    late_zero[8500] = 0;
    assert!(is_text(&late_zero));
    late_zero[8191] = 0;
    assert!(!is_text(&late_zero));
}

#[test]
fn changed_paths_in_order() {
    let mut old = StrMap::new();
    old.insert("same.lua".to_string(), b"x".to_vec());
    old.insert("edit.lua".to_string(), b"1".to_vec());
    old.insert("gone.lua".to_string(), b"g".to_vec());
    let mut new = StrMap::new();
    new.insert("same.lua".to_string(), b"x".to_vec());
    new.insert("edit.lua".to_string(), b"2".to_vec());
    new.insert("added.lua".to_string(), b"a".to_vec());
    assert_eq!(changed_paths(&old, &new), vec!["added.lua", "edit.lua", "gone.lua"]);
    assert!(changed_paths(&old, &old).is_empty());
}

#[test]
fn file_diffs() {
    let a = b"local x = 1\n".to_vec();
    let b = b"local x = 2\n".to_vec();
    let (kind, d) = file_diff("a", "b", "Init.lua", Some(&a), Some(&b));
    assert_eq!(kind, ChangeKind::Changed);
    match d {
        FileDiff::Text(t) => {
            assert!(t.starts_with("--- a/Init.lua\n+++ b/Init.lua\n"));
            assert!(t.contains("-local x = 1\n"));
            assert!(t.contains("+local x = 2\n"));
        }
        FileDiff::Binary => panic!("expected a text diff"),
    }
    let (kind, d) = file_diff("a", "b", "new.lua", None, Some(&b));
    assert_eq!(kind, ChangeKind::New);
    assert!(matches!(d, FileDiff::Text(_)));
    let bin = vec![0u8, 1, 2];
    let (kind, d) = file_diff("a", "b", "x.bin", Some(&bin), None);
    assert_eq!(kind, ChangeKind::Deleted);
    assert!(matches!(d, FileDiff::Binary));
    let bad_utf8 = vec![0xffu8, 0xfe];
    let (_, d) = file_diff("a", "b", "x", Some(&bad_utf8), Some(&a));
    assert!(matches!(d, FileDiff::Binary));
}
