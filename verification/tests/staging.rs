use fvcs::history::HistoryWalk;
use fvcs::ignore::Ignore;
use fvcs::index::IndexEntry;
use fvcs::strmap::StrMap;
use fvcs::workflow::{
    admits, pull_may_advance, restore_staged, stage_argument, staged_sources, AddError, HistoryCopy, RestoreError,
    WorkflowError,
};

fn entry(hash: &str) -> IndexEntry {
    IndexEntry { hash: hash.into(), size: 1, mtime: 0 }
}

fn index_of(paths: &[(&str, &str)]) -> StrMap<IndexEntry> {
    let mut m = StrMap::new();
    for (p, h) in paths {
        m.insert(p.to_string(), entry(h));
    }
    m
}

fn set_of(paths: &[&str]) -> StrMap<()> {
    let mut m = StrMap::new();
    for p in paths {
        m.insert(p.to_string(), ());
    }
    m
}

fn hash_at(m: &StrMap<IndexEntry>, p: &str) -> Option<String> {
    m.get(p).map(|e| e.hash.clone())
}

#[test]
fn adding_a_folder_stages_files_and_deletions() {
    let mut ix = index_of(&[("src/a.lua", "h1"), ("src/gone.lua", "h2"), ("other.lua", "h3")]);
    let present = set_of(&["src/a.lua", "other.lua"]);
    let ignore = Ignore::parse("*.tmp\n");
    let found = vec![
        ("src/a.lua".to_string(), entry("n1")),
        ("src/b.lua".to_string(), entry("n2")),
        ("src/x.tmp".to_string(), entry("n3")),
    ];
    let r = stage_argument(&mut ix, Some("src"), "", true, &present, &found, &ignore);
    assert_eq!(r, Ok(2));
    assert_eq!(hash_at(&ix, "src/a.lua").as_deref(), Some("n1"));
    assert_eq!(hash_at(&ix, "src/b.lua").as_deref(), Some("n2"));
    assert_eq!(hash_at(&ix, "src/gone.lua"), None);
    assert_eq!(hash_at(&ix, "src/x.tmp"), None);
    assert_eq!(hash_at(&ix, "other.lua").as_deref(), Some("h3"));
}

#[test]
fn adding_the_whole_tree_skips_the_data_folder() {
    let mut ix = index_of(&[("gone.lua", "h")]);
    let ignore = Ignore::parse("");
    let found = vec![(".fvcs/HEAD".to_string(), entry("x")), ("a.lua".to_string(), entry("y"))];
    assert_eq!(stage_argument(&mut ix, Some(""), "", true, &set_of(&[]), &found, &ignore), Ok(1));
    assert_eq!(ix.len(), 1);
    assert_eq!(hash_at(&ix, "a.lua").as_deref(), Some("y"));
}

#[test]
fn adding_a_deleted_path_stages_its_deletion() {
    let ignore = Ignore::parse("");
    let mut ix = index_of(&[("a.lua", "h1"), ("lib/x.lua", "h2"), ("lib/y.lua", "h3"), ("libz.lua", "h4")]);
    let present = set_of(&["a.lua", "libz.lua"]);
    assert_eq!(stage_argument(&mut ix, None, "lib", false, &present, &vec![], &ignore), Ok(0));
    assert_eq!(ix.len(), 2);
    assert!(ix.contains_key("libz.lua"));
    let mut ix2 = index_of(&[("a.lua", "h1")]);
    assert_eq!(stage_argument(&mut ix2, None, "a.lua", false, &set_of(&[]), &vec![], &ignore), Ok(0));
    assert_eq!(ix2.len(), 0);
}

#[test]
fn adding_a_missing_untracked_path_is_refused() {
    let ignore = Ignore::parse("");
    let mut ix = index_of(&[("a.lua", "h1")]);
    let present = set_of(&["a.lua"]);
    assert_eq!(stage_argument(&mut ix, None, "nope.lua", false, &present, &vec![], &ignore), Err(AddError::NotFound));
    assert_eq!(stage_argument(&mut ix, None, "a.lua", false, &present, &vec![], &ignore), Err(AddError::NotFound));
    assert_eq!(hash_at(&ix, "a.lua").as_deref(), Some("h1"));
}

#[test]
fn later_found_entry_wins_and_admission() {
    let ignore = Ignore::parse("/build\n");
    assert!(admits("src/build/a.lua", &ignore));
    assert!(!admits("build/a.lua", &ignore));
    assert!(!admits(".fvcs/index", &ignore));
    let mut ix = StrMap::new();
    let found = vec![("f.lua".to_string(), entry("one")), ("f.lua".to_string(), entry("two"))];
    assert_eq!(stage_argument(&mut ix, None, "f.lua", true, &set_of(&[]), &found, &ignore), Ok(2));
    assert_eq!(hash_at(&ix, "f.lua").as_deref(), Some("two"));
}

#[test]
fn restoring_staged_state_from_head() {
    let mut ix = index_of(&[("a.lua", "new"), ("added.lua", "x")]);
    let mut head = StrMap::new();
    head.insert("a.lua".to_string(), "old".to_string());
    head.insert("b.lua".to_string(), "hb".to_string());
    let mut sizes = StrMap::new();
    sizes.insert("a.lua".to_string(), 7u64);
    sizes.insert("b.lua".to_string(), 9u64);
    let targets = vec!["a.lua".to_string(), "added.lua".to_string(), "b.lua".to_string()];
    restore_staged(&mut ix, &head, &sizes, &targets);
    let a = ix.get("a.lua").unwrap();
    assert_eq!((a.hash.as_str(), a.size, a.mtime), ("old", 7, 0));
    assert!(!ix.contains_key("added.lua"));
    assert_eq!(ix.get("b.lua").unwrap().size, 9);
}

#[test]
fn restoring_work_files_needs_staged_content() {
    let ix = index_of(&[("a.lua", "ha"), ("b.lua", "hb")]);
    let ok = staged_sources(&ix, &vec!["b.lua".to_string(), "a.lua".to_string()]).unwrap();
    assert_eq!(ok, vec!["hb".to_string(), "ha".to_string()]);
    let err = staged_sources(&ix, &vec!["a.lua".to_string(), "c.lua".to_string(), "d.lua".to_string()]);
    assert_eq!(err, Err(RestoreError::NotStaged("c.lua".to_string())));
}

#[test]
fn pull_refuses_diverged_history() {
    let mut walk = HistoryWalk::new(vec!["r2".to_string()]);
    while let Some(h) = walk.next() {
        walk.report(if h == "r2" { Some("r1".to_string()) } else { None });
    }
    assert_eq!(pull_may_advance(&walk, "r1"), Ok(()));
    assert_eq!(pull_may_advance(&walk, "l1"), Err(WorkflowError::Diverged));
}

#[test]
fn history_copy_decisions() {
    let mut copy = HistoryCopy::new();
    let mut tree = StrMap::new();
    tree.insert("a.lua".to_string(), "o1".to_string());
    tree.insert("b.lua".to_string(), "o2".to_string());
    tree.insert("c.lua".to_string(), "o1".to_string());
    let have = set_of(&["o2"]);
    let s = copy.step(false, &tree, &have);
    assert!(s.write_commit);
    assert_eq!(s.objects, vec!["o1".to_string()]);
    let t = copy.step(true, &tree, &set_of(&["o1", "o2"]));
    assert!(!t.write_commit);
    assert!(t.objects.is_empty());
    assert_eq!(copy.copied(), 1);
}
