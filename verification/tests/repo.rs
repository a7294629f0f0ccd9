use fvcs::repo::{is_internal, join, path_components, Repository};

#[test]
fn repository_paths() {
    let r = Repository { root: "/home/a/avatar".to_string() };
    assert_eq!(r.fvcs(), "/home/a/avatar/.fvcs");
    assert_eq!(r.objects(), "/home/a/avatar/.fvcs/objects");
    assert_eq!(r.commits(), "/home/a/avatar/.fvcs/commits");
    assert_eq!(r.heads(), "/home/a/avatar/.fvcs/refs/heads");
    assert_eq!(r.tags(), "/home/a/avatar/.fvcs/refs/tags");
    assert_eq!(r.head_file(), "/home/a/avatar/.fvcs/HEAD");
    assert_eq!(r.index_file(), "/home/a/avatar/.fvcs/index");
    assert_eq!(r.abs("Libs/x.lua"), "/home/a/avatar/Libs/x.lua");
}

#[test]
fn relative_paths() {
    let r = Repository { root: "/home/a/avatar".to_string() };
    assert_eq!(r.rel("/home/a/avatar/Libs/x.lua").as_deref(), Some("Libs/x.lua"));
    assert_eq!(r.rel("/home/a/avatar").as_deref(), Some(""));
    assert_eq!(r.rel("/home/a/avatar2/x"), None);
    assert_eq!(r.rel("/elsewhere"), None);
    let w = Repository { root: "C:\\av".to_string() };
    assert_eq!(w.rel("C:\\av/sub\\f.lua").as_deref(), Some("sub/f.lua"));
}

#[test]
fn internal_paths() {
    assert!(is_internal(".fvcs"));
    assert!(is_internal(".fvcs/HEAD"));
    assert!(!is_internal(".fvcsignore"));
    assert!(!is_internal("a/.fvcs"));
    assert_eq!(join("/a/", "b"), "/a/b");
    assert_eq!(join("/a", "b"), "/a/b");
}

#[test]
fn relative_paths_by_components() {
    let r = Repository { root: "/a/b".to_string() };
    assert_eq!(r.rel("/a/./b/x").as_deref(), Some("x"));
    assert_eq!(r.rel("/a/b/").as_deref(), Some(""));
    assert_eq!(r.rel("/a//b//x/./y/").as_deref(), Some("x/y"));
    assert_eq!(r.rel("/a/bc/x"), None);
    assert_eq!(r.rel("a/b/x"), None);
    let t = Repository { root: "/a/b/".to_string() };
    assert_eq!(t.rel("/a/b/Libs/x.lua").as_deref(), Some("Libs/x.lua"));
    let d = Repository { root: ".".to_string() };
    assert_eq!(d.rel("./Libs/").as_deref(), Some("Libs"));
    assert_eq!(d.rel("Libs"), None);
}

#[test]
fn relative_of_absolute_round_trip() {
    let r = Repository { root: "/home/a/avatar".to_string() };
    for p in ["x.lua", "Libs/a/b.lua", "..x/y", ".hidden"] {
        assert_eq!(r.rel(&r.abs(p)).as_deref(), Some(p));
    }
}

#[test]
fn path_components_of_paths() {
    assert_eq!(path_components("/a//b/./c/"), vec!["a", "b", "c"]);
    assert_eq!(path_components("./a"), vec![".", "a"]);
    assert_eq!(path_components("a/."), vec!["a"]);
    assert!(path_components("/").is_empty());
}
