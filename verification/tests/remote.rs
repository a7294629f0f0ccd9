use fvcs::access::{AccessError, PushVerdict};
use fvcs::remote::{
    access_status_code, account_url, auth_reply, fetch_reply, is_http_url, pol_to_solve, push_status_code,
    repo_api_base, send_reply, split_repo_url, AuthReply, FetchReply, SendReply,
};

#[test]
fn http_urls() {
    assert!(is_http_url("http://host/repo"));
    assert!(is_http_url("https://host/repo"));
    assert!(!is_http_url("/tmp/hub"));
    assert!(!is_http_url("httpx://a"));
}

#[test]
fn server_urls_split() {
    let sr = split_repo_url("https://host:8080/cool-avatar/").unwrap();
    assert_eq!(sr.server, "https://host:8080");
    assert_eq!(sr.repo, "cool-avatar");
    assert_eq!(repo_api_base(&sr), "https://host:8080/v1/repos/cool-avatar");
    assert!(split_repo_url("nohost").is_none());
    assert_eq!(account_url("https://host//", "login"), "https://host/v1/login");
}

#[test]
fn replies() {
    assert_eq!(auth_reply(201), AuthReply::Token);
    assert_eq!(auth_reply(401), AuthReply::WrongPassword);
    assert_eq!(auth_reply(409), AuthReply::NameTaken);
    assert_eq!(auth_reply(403), AuthReply::RegistrationClosed);
    assert_eq!(auth_reply(429), AuthReply::RateLimited);
    assert_eq!(auth_reply(500), AuthReply::ServerError);
    assert_eq!(fetch_reply(200), FetchReply::Found);
    assert_eq!(fetch_reply(404), FetchReply::Missing);
    assert_eq!(fetch_reply(403), FetchReply::TokenRejected);
    assert_eq!(send_reply(204), SendReply::Done);
    assert_eq!(send_reply(409), SendReply::Conflict);
    assert_eq!(send_reply(413), SendReply::TooLarge);
    assert_eq!(send_reply(429), SendReply::RateLimited);
    assert_eq!(send_reply(418), SendReply::ServerError);
}

#[test]
fn client_reads_server_verdicts() {
    assert_eq!(send_reply(push_status_code(PushVerdict::Conflict)), SendReply::Conflict);
    assert_eq!(send_reply(push_status_code(PushVerdict::TooLarge)), SendReply::TooLarge);
    assert_eq!(send_reply(push_status_code(PushVerdict::Accept)), SendReply::Done);
    assert_eq!(send_reply(access_status_code(AccessError::Forbidden)), SendReply::TokenRejected);
    assert_eq!(fetch_reply(access_status_code(AccessError::NotFound)), FetchReply::Missing);
}

#[test]
fn puzzles_to_solve() {
    assert_eq!(pol_to_solve("c", 18), Some(18));
    assert_eq!(pol_to_solve("", 18), None);
    assert_eq!(pol_to_solve("c", 0), None);
    assert_eq!(pol_to_solve("c", 1 << 32), None);
}
