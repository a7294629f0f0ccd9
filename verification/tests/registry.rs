use fvcs::registry::{lib_hash, record_version, Registry, RegistryLib, MAX_HASHES};
use fvcs::strmap::StrMap;

#[test]
fn lib_hash_stable_and_order_independent() {
    let mut a = StrMap::new();
    a.insert("x.lua".to_string(), "1".to_string());
    a.insert("y.lua".to_string(), "2".to_string());
    let mut b = StrMap::new();
    b.insert("y.lua".to_string(), "2".to_string());
    b.insert("x.lua".to_string(), "1".to_string());
    assert_eq!(lib_hash(&a), lib_hash(&b));
    b.insert("z.lua".to_string(), "3".to_string());
    assert_ne!(lib_hash(&a), lib_hash(&b));
}

#[test]
fn lib_hash_is_hash_of_lines() {
    let mut a = StrMap::new();
    a.insert("x.lua".to_string(), "1".to_string());
    a.insert("a.lua".to_string(), "2".to_string());
    assert_eq!(lib_hash(&a), fvcs::object::hash_bytes(b"a.lua:2\nx.lua:1\n"));
    let empty: StrMap<String> = StrMap::new();
    assert_eq!(lib_hash(&empty), fvcs::object::hash_bytes(b""));
}

fn lib(name: &str, hashes: &[&str]) -> RegistryLib {
    RegistryLib {
        name: name.to_string(),
        description: None,
        source: "src".to_string(),
        subdir: None,
        hashes: hashes.iter().map(|h| h.to_string()).collect(),
    }
}

#[test]
fn record_version_puts_new_hash_first() {
    let mut reg = Registry { updated: "2026-01-01".to_string(), libs: vec![lib("A", &["h1", "h0"])] };
    record_version(&mut reg, "A".to_string(), "h2".to_string(), Some("desc".to_string()));
    assert_eq!(reg.libs[0].hashes, vec!["h2", "h1", "h0"]);
    assert_eq!(reg.libs[0].description.as_deref(), Some("desc"));
    assert_eq!(reg.libs[0].source, "src");
    // the newest again: nothing changes
    record_version(&mut reg, "A".to_string(), "h2".to_string(), None);
    assert_eq!(reg.libs[0].hashes, vec!["h2", "h1", "h0"]);
    assert_eq!(reg.libs[0].description.as_deref(), Some("desc"));
}

#[test]
fn record_version_adds_unknown_library() {
    let mut reg = Registry { updated: String::new(), libs: vec![lib("A", &["h1"])] };
    record_version(&mut reg, "B".to_string(), "hb".to_string(), None);
    assert_eq!(reg.libs.len(), 2);
    assert_eq!(reg.libs[1].name, "B");
    assert_eq!(reg.libs[1].source, "");
    assert!(reg.libs[1].subdir.is_none());
    assert_eq!(reg.libs[1].hashes, vec!["hb"]);
}

#[test]
fn record_version_keeps_at_most_max_hashes() {
    let many: Vec<String> = (0..MAX_HASHES).map(|i| format!("h{i}")).collect();
    let refs: Vec<&str> = many.iter().map(|s| s.as_str()).collect();
    let mut reg = Registry { updated: String::new(), libs: vec![lib("A", &refs)] };
    record_version(&mut reg, "A".to_string(), "new".to_string(), None);
    assert_eq!(reg.libs[0].hashes.len(), MAX_HASHES);
    assert_eq!(reg.libs[0].hashes[0], "new");
    assert_eq!(reg.libs[0].hashes[MAX_HASHES - 1], format!("h{}", MAX_HASHES - 2));
}
