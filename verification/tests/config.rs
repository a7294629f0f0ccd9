use fvcs::config::{add_lib, find_lib, libs_path, remove_lib, valid_visibility, Config, ConfigError, Lib, Remote};
use fvcs::global_config::{server_key, GlobalConfig, User};
use fvcs::strmap::StrMap;

#[test]
fn remotes() {
    let mut c = Config::new();
    c.add_remote("origin".to_string(), "/hub".to_string(), None);
    assert_eq!(c.pick_remote_name(None), "origin");
    c.add_remote("srv".to_string(), "https://h/r".to_string(), Some("tok".to_string()));
    let r = c.remotes.get("srv").unwrap();
    assert_eq!(r.url(), "https://h/r");
    assert_eq!(r.token().map(|t| t.as_str()), Some("tok"));
    assert!(matches!(c.remotes.get("origin"), Some(Remote::Plain(u)) if u == "/hub"));
    assert_eq!(c.pick_remote_name(Some("x".to_string())), "x");
    assert_eq!(c.remove_remote("origin"), Ok(()));
    assert_eq!(c.remove_remote("origin"), Err(ConfigError::NoSuchRemote));
    // the only remote is picked
    assert_eq!(c.pick_remote_name(None), "srv");
}

#[test]
fn visibilities() {
    assert!(valid_visibility("public"));
    assert!(valid_visibility("private"));
    assert!(!valid_visibility("Public"));
}

fn lib(name: &str) -> Lib {
    Lib { name: name.to_string(), source: "/src".to_string(), subdir: None, token: None }
}

#[test]
fn libraries() {
    let mut libs = Vec::new();
    assert!(add_lib(&mut libs, lib("A")).is_ok());
    assert!(add_lib(&mut libs, lib("B")).is_ok());
    assert!(add_lib(&mut libs, lib("A")).is_err());
    assert_eq!(find_lib(&libs, "B"), Some(1));
    assert!(remove_lib(&mut libs, "A").is_ok());
    assert!(remove_lib(&mut libs, "A").is_err());
    assert_eq!(libs.len(), 1);
    assert_eq!(libs[0].name, "B");
    assert_eq!(libs_path("/av"), "/av/.fvcslibs");
}

#[test]
fn server_keys_and_tokens() {
    assert_eq!(server_key("https://host/repo/"), "https://host");
    assert_eq!(server_key("https://host"), "https://host");
    assert_eq!(server_key("http://h/x"), "http://h/x");
    let mut servers = StrMap::new();
    servers.insert("https://host".to_string(), "tok".to_string());
    let g = GlobalConfig { user: User { name: Some("Ann".into()), email: Some("a@x".into()) }, servers };
    assert_eq!(g.token_for("https://host/some-repo").map(|t| t.as_str()), Some("tok"));
    assert_eq!(g.token_for("https://other/r"), None);
    assert_eq!(g.author().as_deref(), Some("Ann <a@x>"));
    assert_eq!(GlobalConfig::path("/home/ann"), "/home/ann/.fvcsconfig");
    let anon = GlobalConfig { user: User { name: None, email: Some("a@x".into()) }, servers: StrMap::new() };
    assert_eq!(anon.author(), None);
}

#[test]
fn token_found_for_base_repo_and_trailing_slash() {
    let mut servers = StrMap::new();
    servers.insert("http://figs.example".to_string(), "t1".to_string());
    let g = GlobalConfig { user: User { name: None, email: None }, servers };
    for url in ["http://figs.example", "http://figs.example/av", "http://figs.example/av/"] {
        assert_eq!(g.token_for(url).map(|t| t.as_str()), Some("t1"));
    }
}

#[test]
fn no_readme_is_remembered() {
    let mut c = Config::new();
    assert!(c.generates_readme());
    assert!(!c.note_no_readme(false));
    assert!(c.generates_readme());
    assert!(c.note_no_readme(true));
    assert!(!c.generates_readme());
    assert!(!c.note_no_readme(true));
    assert!(!c.note_no_readme(false));
    assert!(!c.generates_readme());
}
