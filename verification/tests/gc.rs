use fvcs::gc::{commit_hash_of, GcPass, GcStats, ObjectFate, RepoSize};
use fvcs::history::HistoryWalk;
use fvcs::strmap::StrMap;

#[test]
fn commit_file_names() {
    assert_eq!(commit_hash_of("abc.json"), "abc");
    assert_eq!(commit_hash_of("abc.json.json"), "abc");
    assert_eq!(commit_hash_of("abc"), "abc");
    assert_eq!(commit_hash_of(".json"), "");
}

#[test]
fn gc_keeps_reachable_and_young() {
    let mut walk = HistoryWalk::new(vec!["c1".to_string()]);
    assert_eq!(walk.next().as_deref(), Some("c1"));
    walk.report(None);
    assert_eq!(walk.next(), None);
    assert!(walk.is_over());

    let mut pass = GcPass::new();
    pass.repo_scanned();
    assert_eq!(pass.commit_file("c1.json", &walk).as_deref(), Some("c1"));
    assert_eq!(pass.commit_file("old.json", &walk), None);
    let mut tree = StrMap::new();
    tree.insert("keep.lua".to_string(), "ab12".to_string());
    pass.mark_tree(&tree);

    assert_eq!(pass.object_file("ab", "12", Some(10_000), 1), ObjectFate::Keep);
    assert_eq!(pass.object_file("cd", "34", Some(0), 5), ObjectFate::Keep);
    assert_eq!(pass.object_file("ef", "56", Some(10), 5), ObjectFate::Remove);
    assert_eq!(pass.object_file("ef", "78", None, 5), ObjectFate::Remove);
    pass.object_removed(7);
    pass.object_removed(3);
    let s: GcStats = pass.finish();
    assert_eq!(s.repos_scanned, 1);
    assert_eq!(s.commits_removed, 1);
    assert_eq!(s.objects_kept, 2);
    assert_eq!(s.objects_removed, 2);
    assert_eq!(s.bytes_freed, 10);
}

#[test]
fn repo_size_counts_objects_once() {
    let mut size = RepoSize::new();
    let mut t1 = StrMap::new();
    t1.insert("a".to_string(), "h1".to_string());
    t1.insert("b".to_string(), "h2".to_string());
    let mut t2 = StrMap::new();
    t2.insert("a".to_string(), "h1".to_string());
    size.add_commit(100, Some(&t1));
    size.add_commit(50, Some(&t2));
    size.add_commit(10, None);
    assert_eq!(size.object_list(), vec!["h1", "h2"]);
    size.add_object(1);
    size.add_object(2);
    assert_eq!(size.bytes(), 163);
}

#[test]
fn default_stats_are_zero() {
    let s = GcStats::default();
    assert_eq!((s.repos_scanned, s.commits_removed, s.objects_removed, s.objects_kept, s.bytes_freed), (0, 0, 0, 0, 0));
}
