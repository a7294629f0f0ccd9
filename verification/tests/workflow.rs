use fvcs::config::Lib;
use fvcs::index::IndexEntry;
use fvcs::refs::Head;
use fvcs::status::{classify, WorkFile};
use fvcs::strmap::StrMap;
use fvcs::workflow::{
    add_scope_covers, current_branch, ensure_clean, lib_source_key, lib_target, local_lib_hash, parse_setting,
    paths_to_remove, pull_step, push_allowed, restore_targets, sync_step, PullStep, Setting, SyncStep, WorkflowError,
};

fn entry(hash: &str) -> IndexEntry {
    IndexEntry { hash: hash.into(), size: 1, mtime: 0 }
}

#[test]
fn add_scopes() {
    assert!(add_scope_covers(Some("Libs"), "", "Libs/a.lua"));
    assert!(!add_scope_covers(Some("Libs"), "", "Libsx/a.lua"));
    assert!(add_scope_covers(Some(""), "", "anything"));
    assert!(add_scope_covers(None, "Init.lua", "Init.lua"));
    assert!(!add_scope_covers(None, "Init.lua", "Other.lua"));
}

#[test]
fn restore_selection() {
    let mut index = StrMap::new();
    index.insert("a/x.lua".to_string(), entry("1"));
    index.insert("b.lua".to_string(), entry("2"));
    let mut head = StrMap::new();
    head.insert("a/y.lua".to_string(), "3".to_string());
    head.insert("b.lua".to_string(), "2".to_string());
    assert_eq!(restore_targets(&vec![Some("a".to_string())], &index, &head), vec!["a/x.lua", "a/y.lua"]);
    assert_eq!(restore_targets(&vec![None], &index, &head), vec!["a/x.lua", "a/y.lua", "b.lua"]);
    assert!(restore_targets(&vec![Some("c".to_string())], &index, &head).is_empty());
}

#[test]
fn checkout_removals() {
    let mut head = StrMap::new();
    head.insert("keep.lua".to_string(), "1".to_string());
    head.insert("old.lua".to_string(), "2".to_string());
    let mut index = StrMap::new();
    index.insert("staged.lua".to_string(), entry("3"));
    let mut target = StrMap::new();
    target.insert("keep.lua".to_string(), "1".to_string());
    assert_eq!(paths_to_remove(&head, &index, &target), vec!["old.lua", "staged.lua"]);
}

fn lib(sub: Option<&str>) -> Lib {
    Lib { name: "FOXAPI".to_string(), source: "/src".to_string(), subdir: sub.map(|s| s.to_string()), token: None }
}

#[test]
fn library_paths() {
    assert_eq!(lib_target(&lib(Some("modules")), "modules/foxpat.lua").as_deref(), Some("FOXAPI/foxpat.lua"));
    assert_eq!(lib_target(&lib(Some("modules")), "other/junk.lua"), None);
    assert_eq!(lib_target(&lib(None), "other/junk.lua").as_deref(), Some("FOXAPI/other/junk.lua"));
    assert_eq!(lib_source_key(&lib(Some("modules")), "FOXAPI/foxpat.lua").as_deref(), Some("modules/foxpat.lua"));
    assert_eq!(lib_source_key(&lib(None), "Other/x.lua"), None);
}

#[test]
fn local_library_hash() {
    let mut wd = StrMap::new();
    wd.insert("FOXAPI/foxpat.lua".to_string(), WorkFile { hash: "h1".to_string() });
    wd.insert("Init.lua".to_string(), WorkFile { hash: "h2".to_string() });
    let mut tree = StrMap::new();
    tree.insert("modules/foxpat.lua".to_string(), "h1".to_string());
    assert_eq!(local_lib_hash(&wd, &lib(Some("modules"))), Some(fvcs::registry::lib_hash(&tree)));
    let empty: StrMap<WorkFile> = StrMap::new();
    assert_eq!(local_lib_hash(&empty, &lib(None)), None);
}

#[test]
fn push_and_pull_rules() {
    assert!(push_allowed(false, false, false));
    assert!(push_allowed(true, true, true));
    assert!(!push_allowed(true, false, true));
    assert!(!push_allowed(true, true, false));
    assert!(matches!(pull_step(None, Some("a".into())), PullStep::NoRemoteBranch));
    assert!(matches!(pull_step(Some("a".into()), Some("a".into())), PullStep::UpToDate));
    assert!(matches!(pull_step(Some("b".into()), Some("a".into())), PullStep::FastForward(t) if t == "b"));
    assert!(matches!(pull_step(Some("b".into()), None), PullStep::Adopt(t) if t == "b"));
}

#[test]
fn sync_respects_local_edits() {
    let hashes = vec!["new".to_string(), "old".to_string()];
    assert_eq!(sync_step("", &hashes, None, false), SyncStep::NoSource);
    assert_eq!(sync_step("src", &hashes, Some("new"), false), SyncStep::Current);
    assert_eq!(sync_step("src", &hashes, Some("old"), false), SyncStep::Fetch { overwrite_edits: false });
    assert_eq!(sync_step("src", &hashes, Some("mine"), false), SyncStep::KeepEdits);
    assert_eq!(sync_step("src", &hashes, Some("mine"), true), SyncStep::Fetch { overwrite_edits: true });
    assert_eq!(sync_step("src", &hashes, None, false), SyncStep::Fetch { overwrite_edits: false });
}

#[test]
fn guards() {
    let empty_head: StrMap<String> = StrMap::new();
    let mut index = StrMap::new();
    index.insert("a.lua".to_string(), entry("1"));
    let wd: StrMap<WorkFile> = StrMap::new();
    let s = classify(&empty_head, &index, &wd);
    assert_eq!(ensure_clean(&s), Err(WorkflowError::Dirty));
    let clean = classify(&empty_head, &StrMap::new(), &wd);
    assert_eq!(ensure_clean(&clean), Ok(()));
    assert_eq!(current_branch(&Head::Branch("main".into())), Ok("main".to_string()));
    assert_eq!(current_branch(&Head::Detached("abc".into())), Err(WorkflowError::Detached));
    assert_eq!(parse_setting("user.name"), Some(Setting::UserName));
    assert_eq!(parse_setting("user.email"), Some(Setting::UserEmail));
    assert_eq!(parse_setting("user.nick"), None);
}
