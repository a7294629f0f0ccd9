use fvcs::glob::wildcard;
use fvcs::ignore::Ignore;

#[test]
fn wildcard_basics() {
    assert!(wildcard("*.lua", "init.lua"));
    assert!(!wildcard("*.lua", "texture.png"));
    assert!(wildcard("cache/*", "cache/a.bin"));
    assert!(wildcard("foo?", "foob"));
}

#[test]
fn segment_matching() {
    let ig = Ignore {
        patterns: vec!["*.tmp".into(), "build".into()],
    };
    assert!(ig.is_ignored("src/x.tmp"));
    assert!(ig.is_ignored("deep/nested/build/file.rs"));
    assert!(!ig.is_ignored("src/main.rs"));
}

#[test]
fn wildcard_edges() {
    assert!(wildcard("", ""));
    assert!(!wildcard("", "a"));
    assert!(wildcard("*", ""));
    assert!(wildcard("a*b*c", "aXXbYYc"));
    assert!(!wildcard("a*b*c", "aXXbYY"));
    assert!(!wildcard("?", ""));
    assert!(wildcard("**", "anything/at/all"));
}

#[test]
fn parse_skips_comments_and_blank_lines() {
    let ig = Ignore::parse("# comment\n\n  *.tmp  \n/cache/\nbuild\n");
    assert_eq!(ig.patterns, vec!["*.tmp".to_string(), "/cache/".to_string(), "build".to_string()]);
    assert!(ig.is_ignored("notes.tmp"));
    assert!(ig.is_ignored("cache/blob.bin"));
    assert!(!ig.is_ignored("a/cache/b"));
    assert!(!ig.is_ignored("cachex/b"));
}

#[test]
fn folder_patterns() {
    assert!(fvcs::ignore::matches("cache/", "cache"));
    assert!(fvcs::ignore::matches("cache/", "x/cache/y"));
    assert!(fvcs::ignore::matches("a/b/", "a/b/c.lua"));
    assert!(fvcs::ignore::matches("a/b/", "a/b"));
    assert!(!fvcs::ignore::matches("a/b/", "x/a/b/c.lua"));
    assert!(fvcs::ignore::matches("src/*.lua", "src/x.lua"));
    assert!(!fvcs::ignore::matches("src/*.lua", "lib/src/x.lua"));
}

#[test]
fn leading_slash_anchors_at_root() {
    let ig = Ignore::parse("/build\n");
    assert_eq!(ig.patterns, vec!["/build".to_string()]);
    assert!(ig.is_ignored("build"));
    assert!(ig.is_ignored("build/a.lua"));
    assert!(!ig.is_ignored("src/build/a.lua"));
    assert!(!ig.is_ignored("builder.lua"));
}

#[test]
fn anchored_patterns() {
    assert!(fvcs::ignore::matches("/*.log", "x.log"));
    assert!(!fvcs::ignore::matches("/x.log", "a/x.log"));
    assert!(fvcs::ignore::matches("/out/", "out/a"));
    assert!(fvcs::ignore::matches("/out/", "out"));
    assert!(!fvcs::ignore::matches("/out/", "a/out/b"));
    let ig = Ignore::parse("///deep\n");
    assert_eq!(ig.patterns, vec!["/deep".to_string()]);
}
