use fvcs::index::IndexEntry;
use fvcs::status::{classify, WorkFile};
use fvcs::strmap::StrMap;

fn entry(hash: &str) -> IndexEntry {
    IndexEntry { hash: hash.into(), size: 1, mtime: 0 }
}

fn work(hash: &str) -> WorkFile {
    WorkFile { hash: hash.into() }
}

#[test]
fn classify_all_buckets() {
    let mut head = StrMap::new();
    head.insert("same.lua".to_string(), "a".to_string());
    head.insert("tweak.lua".to_string(), "a".to_string());
    head.insert("gone.lua".to_string(), "a".to_string());
    head.insert("dirty.lua".to_string(), "d".to_string());
    head.insert("deleted.lua".to_string(), "e".to_string());

    let mut index = StrMap::new();
    index.insert("same.lua".to_string(), entry("a"));
    index.insert("tweak.lua".to_string(), entry("b"));
    index.insert("fresh.lua".to_string(), entry("c"));
    index.insert("dirty.lua".to_string(), entry("d"));
    index.insert("deleted.lua".to_string(), entry("e"));

    let mut wd = StrMap::new();
    wd.insert("same.lua".to_string(), work("a"));
    wd.insert("tweak.lua".to_string(), work("b"));
    wd.insert("fresh.lua".to_string(), work("c"));
    wd.insert("dirty.lua".to_string(), work("X"));
    wd.insert("loose.lua".to_string(), work("u"));

    let s = classify(&head, &index, &wd);
    assert_eq!(s.staged_new, vec!["fresh.lua"]);
    assert_eq!(s.staged_modified, vec!["tweak.lua"]);
    assert_eq!(s.staged_deleted, vec!["gone.lua"]);
    assert_eq!(s.unstaged_modified, vec!["dirty.lua"]);
    assert_eq!(s.unstaged_deleted, vec!["deleted.lua"]);
    assert_eq!(s.untracked, vec!["loose.lua"]);
    assert!(!s.is_clean());
}

#[test]
fn in_sync_trees_are_clean() {
    let mut head = StrMap::new();
    head.insert("a.lua".to_string(), "h".to_string());
    let mut index = StrMap::new();
    index.insert("a.lua".to_string(), entry("h"));
    let mut wd = StrMap::new();
    wd.insert("a.lua".to_string(), work("h"));
    let s = classify(&head, &index, &wd);
    assert!(s.is_clean());
    assert!(s.untracked.is_empty());
    // an untracked file alone does not make the tree dirty
    wd.insert("b.lua".to_string(), work("x"));
    let s = classify(&head, &index, &wd);
    assert!(s.is_clean());
    assert_eq!(s.untracked, vec!["b.lua"]);
}
