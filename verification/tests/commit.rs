use fvcs::commit::{check_commit, commit_hash, same_tree, Commit, CommitError};
use fvcs::index::{Index, IndexEntry};
use fvcs::strmap::StrMap;

#[test]
fn commits_record_what_they_are_given() {
    let mut tree = StrMap::new();
    tree.insert("Init.lua".to_string(), "abc123".to_string());
    let c = Commit::new(tree, None, "initial".to_string(), "tester".to_string()).expect("clock");
    assert_eq!(c.message, "initial");
    assert_eq!(c.author, "tester");
    assert!(c.parent.is_none());
    assert_eq!(c.tree.get("Init.lua").map(|s| s.as_str()), Some("abc123"));
    assert!(!c.timestamp.is_empty());
    assert_eq!(commit_hash(b"{}"), fvcs::object::hash_bytes(b"{}"));
}

#[test]
fn commit_checks() {
    let mut ix = Index::new();
    ix.entries.insert("a.lua".to_string(), IndexEntry { hash: "h".into(), size: 1, mtime: 0 });
    let tree = ix.tree();
    assert_eq!(tree.get("a.lua").map(|s| s.as_str()), Some("h"));
    assert_eq!(check_commit(0, None, &tree), Err(CommitError::NothingStaged));
    assert_eq!(check_commit(1, None, &tree), Ok(()));
    assert_eq!(check_commit(1, Some(&ix.tree()), &tree), Err(CommitError::TreeUnchanged));
    let mut other = StrMap::new();
    other.insert("a.lua".to_string(), "h2".to_string());
    assert!(!same_tree(&other, &tree));
    assert_eq!(check_commit(1, Some(&other), &tree), Ok(()));
}

#[test]
fn commits_stamped_at_a_given_time() {
    let c = Commit::at(StrMap::new(), Some("p".to_string()), "m".to_string(), "a".to_string(), 1_609_459_200, 0).unwrap();
    assert_eq!(c.timestamp, "2021-01-01T00:00:00+00:00");
    assert_eq!(c.parent.as_deref(), Some("p"));
    let d = Commit::at(StrMap::new(), None, "m".to_string(), "a".to_string(), 86_400 + 61, 500_000_000).unwrap();
    assert_eq!(d.timestamp, "1970-01-02T00:01:01.500+00:00");
    assert!(Commit::at(StrMap::new(), None, "m".to_string(), "a".to_string(), i64::MAX, 0).is_none());
}

#[test]
fn dates_by_the_calendar() {
    assert_eq!(fvcs::clock::date_at(0).as_deref(), Some("1970-01-01"));
    assert_eq!(fvcs::clock::date_at(1_709_251_199).as_deref(), Some("2024-02-29"));
    assert!(fvcs::clock::date_at(i64::MAX).is_none());
    let today = fvcs::clock::today_utc().unwrap();
    assert_eq!(today.len(), 10);
    assert!(fvcs::clock::now_unix().unwrap().0 > 1_600_000_000);
}
