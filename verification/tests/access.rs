use fvcs::access::{
    client_ip, hash_password, new_repo_meta, owner_check, pol_challenge, pol_difficulty_for, pol_sign, push_verdict,
    quota_allows, read_access, valid_credentials, valid_repo_name, write_access, AccessError, PolAnswer, PolGuard,
    PushVerdict, RateLimiter, RepoMeta, WriteTarget,
};
use fvcs::object::hash_bytes;
use fvcs::pol::try_solve;

#[test]
fn repo_names() {
    assert!(valid_repo_name("cool-avatar"));
    assert!(valid_repo_name("a.b_c-9"));
    assert!(!valid_repo_name(""));
    assert!(!valid_repo_name("a..b"));
    assert!(!valid_repo_name("../etc"));
    assert!(!valid_repo_name("a/b"));
    assert!(!valid_repo_name("é"));
}

#[test]
fn credentials() {
    assert!(valid_credentials("al", "secret"));
    assert!(!valid_credentials("a", "secret"));
    assert!(!valid_credentials("al", "short"));
    assert!(!valid_credentials("bad name", "password123"));
    assert!(!valid_credentials("al.ice", "password123"));
    assert!(valid_credentials("bot-1_x", "password123"));
    // the password length counts bytes
    assert!(valid_credentials("al", "ééé"));
}

#[test]
fn password_and_signature_hashes() {
    assert_eq!(hash_password("salt", "pw"), hash_bytes(b"salt:pw"));
    assert_eq!(pol_sign("k", "p.1.2"), hash_bytes(b"k:p.1.2"));
    assert_ne!(hash_password("salt", "pw"), hash_password("salt2", "pw"));
    // a wrong password does not give the stored hash
    let stored = hash_password("s4lt", "password123");
    assert_eq!(hash_password("s4lt", "password123"), stored);
    assert_ne!(hash_password("s4lt", "wrongpass"), stored);
}

#[test]
fn client_addresses() {
    assert_eq!(client_ip(false, Some("1.2.3.4"), "9.9.9.9".into()), "9.9.9.9");
    assert_eq!(client_ip(true, Some(" 1.2.3.4 , 5.6.7.8"), "9.9.9.9".into()), "1.2.3.4");
    assert_eq!(client_ip(true, Some("  ,5.6.7.8"), "9.9.9.9".into()), "9.9.9.9");
    assert_eq!(client_ip(true, None, "9.9.9.9".into()), "9.9.9.9");
}

#[test]
fn adaptive_difficulty() {
    assert_eq!(pol_difficulty_for(18, 0, 8), 18);
    assert_eq!(pol_difficulty_for(18, 3, 8), 21);
    assert_eq!(pol_difficulty_for(18, 30, 8), 26);
}

#[test]
fn push_quota() {
    assert!(quota_allows(0, 1000));
    assert!(quota_allows(200, 199));
    assert!(!quota_allows(200, 200));
}

#[test]
fn registration_is_rate_limited_in_window() {
    let mut r = RateLimiter::new();
    for i in 0..5u64 {
        assert!(!r.hit("register", "1.1.1.1", 100 + i, 3600, 5));
    }
    assert!(r.hit("register", "1.1.1.1", 110, 3600, 5));
    // another address has its own bucket
    assert!(!r.hit("register", "2.2.2.2", 110, 3600, 5));
    assert_eq!(r.recent("register", "1.1.1.1"), 5);
    // an hour later the old hits have expired
    assert!(!r.hit("register", "1.1.1.1", 100 + 3600 + 10, 3600, 5));
    assert_eq!(r.recent("register", "1.1.1.1"), 1);
    // no limit
    assert!(!r.hit("login", "1.1.1.1", 0, 3600, 0));
    assert_eq!(r.recent("login", "1.1.1.1"), 0);
}

fn meta(owner: &str, visibility: &str) -> RepoMeta {
    RepoMeta { owner: owner.to_string(), visibility: visibility.to_string() }
}

#[test]
fn private_by_default() {
    let m = new_repo_meta("alice");
    assert_eq!(m.visibility, "private");
    assert_eq!(m.owner, "alice");
    assert_eq!(read_access("r", true, Some(&m), Some("alice"), false), Ok(()));
    assert_eq!(read_access("r", true, Some(&m), Some("bob"), false), Err(AccessError::NotFound));
    assert_eq!(read_access("r", true, Some(&m), None, false), Err(AccessError::NotFound));
    assert_eq!(read_access("r", true, Some(&m), Some("bob"), true), Ok(()));
    assert_eq!(read_access("r", true, Some(&meta("alice", "public")), None, false), Ok(()));
    assert_eq!(read_access("r", true, None, None, false), Ok(()));
    assert_eq!(read_access("r", false, None, None, false), Err(AccessError::NotFound));
    assert_eq!(read_access("a..b", true, None, None, false), Err(AccessError::BadRequest));
}

#[test]
fn write_rights() {
    let m = meta("alice", "public");
    assert_eq!(write_access("r", None, Some(&m), false, true), Err(AccessError::Unauthorized));
    assert_eq!(write_access("r", Some("bob"), Some(&m), false, true), Err(AccessError::Forbidden));
    assert_eq!(write_access("r", Some("bob"), Some(&m), true, true), Ok(WriteTarget::Existing));
    assert_eq!(write_access("r", Some("alice"), Some(&m), false, true), Ok(WriteTarget::Existing));
    assert_eq!(write_access("r", Some("alice"), Some(&m), false, false), Err(AccessError::NotFound));
    assert_eq!(write_access("r", Some("bob"), None, false, false), Ok(WriteTarget::Create));
    assert_eq!(write_access("", Some("bob"), None, false, false), Err(AccessError::BadRequest));
}

#[test]
fn only_owner_manages() {
    assert_eq!(owner_check(Some("alice"), Some("alice")), Ok(()));
    assert_eq!(owner_check(Some("bob"), Some("alice")), Err(AccessError::Forbidden));
    assert_eq!(owner_check(None, Some("alice")), Err(AccessError::Unauthorized));
    assert_eq!(owner_check(Some("bob"), None), Err(AccessError::NotFound));
}

#[test]
fn push_verdicts() {
    assert_eq!(push_verdict(None, "t", false, 0, 0), PushVerdict::Accept);
    assert_eq!(push_verdict(Some("t"), "t", false, 0, 0), PushVerdict::Accept);
    assert_eq!(push_verdict(Some("old"), "t", true, 0, 0), PushVerdict::Accept);
    assert_eq!(push_verdict(Some("other"), "t", false, 0, 0), PushVerdict::Conflict);
    assert_eq!(push_verdict(None, "t", false, 100, 101), PushVerdict::TooLarge);
    assert_eq!(push_verdict(None, "t", false, 100, 100), PushVerdict::Accept);
    assert_eq!(push_verdict(None, "t", false, 0, 1_000_000), PushVerdict::Accept);
}

#[test]
fn issued_challenge_is_accepted_once() {
    let c = pol_challenge("secret", "abcd", 1000, 4);
    let payload = "abcd.1600.4";
    assert_eq!(c, format!("{payload}.{}", pol_sign("secret", payload)));
    let nonce = try_solve(&c, 4).unwrap();
    let answer = PolAnswer { challenge: c.clone(), nonce };
    let mut g = PolGuard::new();
    assert!(g.check("secret", 4, Some(&answer), 1200));
    // replay refused
    assert!(!g.check("secret", 4, Some(&answer), 1300));
}

#[test]
fn bad_answers_refused() {
    let mut g = PolGuard::new();
    // no proof of life asked
    assert!(g.check("secret", 0, None, 0));
    assert!(!g.check("secret", 4, None, 0));
    let c = pol_challenge("secret", "abcd", 1000, 4);
    let nonce = try_solve(&c, 4).unwrap();
    // expired
    let late = PolAnswer { challenge: c.clone(), nonce };
    assert!(!g.check("secret", 4, Some(&late), 1601));
    // another server's secret
    assert!(!g.check("other", 4, Some(&late), 1200));
    // easier than asked
    assert!(!g.check("secret", 5, Some(&late), 1200));
    // malformed
    let junk = PolAnswer { challenge: "a.b.c".to_string(), nonce };
    assert!(!g.check("secret", 4, Some(&junk), 1200));
    // still usable after those refusals
    assert!(g.check("secret", 4, Some(&late), 1200));
}

#[test]
fn random_hex_text() {
    let a = fvcs::access::random_hex(16).unwrap();
    let b = fvcs::access::random_hex(16).unwrap();
    assert_eq!(a.len(), 32);
    assert!(a.chars().all(|c| c.is_ascii_hexdigit() && !c.is_ascii_uppercase()));
    assert_ne!(a, b);
    assert_eq!(fvcs::access::random_hex(0).unwrap(), "");
}

#[test]
fn fresh_challenge_round_trip() {
    let c = fvcs::access::issue_challenge("k", 4).unwrap();
    let parts: Vec<&str> = c.split('.').collect();
    assert_eq!(parts.len(), 4);
    assert_eq!(parts[0].len(), 32);
    assert_eq!(parts[2], "4");
    let nonce = try_solve(&c, 4).unwrap();
    let answer = PolAnswer { challenge: c.clone(), nonce };
    let mut g = PolGuard::new();
    assert!(g.check_now("k", 4, Some(&answer)));
    assert!(!g.check_now("k", 4, Some(&answer)));
}

#[test]
fn tokens_are_stored_hashed() {
    let t = "0123abcd";
    let d = fvcs::access::token_digest(t);
    assert_eq!(d, fvcs::object::hash_bytes(t.as_bytes()));
    assert_ne!(d, t);
    assert_eq!(d.len(), 64);
    assert_ne!(fvcs::access::token_digest("0123abce"), d);
}

#[test]
fn rate_limit_over_a_run_of_requests() {
    let mut r = RateLimiter::new();
    let mut let_through = 0;
    for t in [0u64, 10, 20, 30, 40] {
        if !r.hit("login", "1.2.3.4", t, 100, 3) {
            let_through += 1;
        }
    }
    assert_eq!(let_through, 3);
    assert!(!r.hit("login", "1.2.3.4", 111, 100, 3));
    assert!(!r.hit("login", "5.6.7.8", 111, 100, 3));
}

#[test]
fn daily_quota_over_a_run_of_pushes() {
    let mut count = 0i64;
    let mut allowed = 0;
    for _ in 0..10 {
        if quota_allows(3, count) {
            count += 1;
            allowed += 1;
        }
    }
    assert_eq!(allowed, 3);
    assert!(quota_allows(0, 1_000));
}
