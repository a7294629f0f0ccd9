use vstd::prelude::*;

use crate::access::{AccessError, PushVerdict};
use crate::global_config::{last_index_of, trim_trailing_slashes, trimmed_len};
use crate::text::{chars_of, has_prefix, push_str, starts_with, string_of_range};

verus! {

/// Whether a remote is reached over HTTP(S) (else it is a folder).
pub open spec fn is_http_url_spec(url: Seq<char>) -> bool {
    has_prefix(url, seq!['h', 't', 't', 'p', ':', '/', '/']) || has_prefix(url, seq!['h', 't', 't', 'p', 's', ':', '/', '/'])
}

/// Whether `url` names a server remote: it starts with `http://` or `https://`.
pub fn is_http_url(url: &str) -> (b: bool)
    ensures
        b == is_http_url_spec(url@),
{
    proof {
        reveal_strlit("http://");
        reveal_strlit("https://");
        assert("http://"@ =~= seq!['h', 't', 't', 'p', ':', '/', '/']);
        assert("https://"@ =~= seq!['h', 't', 't', 'p', 's', ':', '/', '/']);
    }
    starts_with(url, "http://") || starts_with(url, "https://")
}

/// A server remote: the server's address and the repository's name on it.
pub struct ServerRepo {
    pub server: String,
    pub repo: String,
}

/// How a server remote's URL splits: trailing `/` removed, the server is what
/// comes before the last `/` and the repository what comes after it.
pub open spec fn server_repo_spec(url: Seq<char>) -> Option<(Seq<char>, Seq<char>)> {
    let t = trim_trailing_slashes(url);
    match last_index_of(t, '/') {
        Some(k) => Some((t.take(k), t.skip(k + 1))),
        None => None,
    }
}

/// Splits a server remote's URL (`https://host/repo-name`) into server and
/// repository name; `None` when it holds no `/`.
pub fn split_repo_url(url: &str) -> (r: Option<ServerRepo>)
    ensures
        match server_repo_spec(url@) {
            Some((s, n)) => r matches Some(sr) && sr.server@ == s && sr.repo@ == n,
            None => r is None,
        },
{
    let cs = chars_of(url);
    let n = trimmed_len(&cs);
    let ghost t = cs@.take(n as int);
    let mut k = n;
    assert(t.take(n as int) == t);
    while k > 0 && cs[k - 1] != '/'
        invariant
            k <= n <= cs.len(),
            t == cs@.take(n as int),
            last_index_of(t, '/') == last_index_of(t.take(k as int), '/'),
        decreases k,
    {
        assert(t.take(k as int).drop_last() == t.take(k - 1));
        k -= 1;
    }
    if k == 0 {
        assert(t.take(0).len() == 0);
        return None;
    }
    let split = k - 1;
    assert(t.take(k as int).last() == '/');
    assert(last_index_of(t, '/') == Some(split as int));
    let server = string_of_range(&cs, 0, split);
    let repo = string_of_range(&cs, k, n);
    assert(server@ =~= t.take(split as int));
    assert(repo@ =~= t.skip(k as int));
    Some(ServerRepo { server, repo })
}

/// Where a server repository's API lives: `server/v1/repos/repo`.
pub open spec fn repo_api_base_spec(server: Seq<char>, repo: Seq<char>) -> Seq<char> {
    server + seq!['/', 'v', '1', '/', 'r', 'e', 'p', 'o', 's', '/'] + repo
}

/// The API address of a server repository.
pub fn repo_api_base(sr: &ServerRepo) -> (b: String)
    ensures
        b@ == repo_api_base_spec(sr.server@, sr.repo@),
{
    proof {
        reveal_strlit("/v1/repos/");
        assert("/v1/repos/"@ =~= seq!['/', 'v', '1', '/', 'r', 'e', 'p', 'o', 's', '/']);
    }
    let mut b = String::new();
    push_str(&mut b, sr.server.as_str());
    push_str(&mut b, "/v1/repos/");
    push_str(&mut b, sr.repo.as_str());
    assert(b@ =~= repo_api_base_spec(sr.server@, sr.repo@));
    b
}

/// An account endpoint of a server: `server/v1/endpoint`, trailing `/` of the
/// server address removed.
pub open spec fn account_url_spec(server: Seq<char>, endpoint: Seq<char>) -> Seq<char> {
    trim_trailing_slashes(server) + seq!['/', 'v', '1', '/'] + endpoint
}

/// The address of an account endpoint (`login`, `register`, `pol`).
pub fn account_url(server: &str, endpoint: &str) -> (u: String)
    ensures
        u@ == account_url_spec(server@, endpoint@),
{
    proof {
        reveal_strlit("/v1/");
        assert("/v1/"@ =~= seq!['/', 'v', '1', '/']);
    }
    let cs = chars_of(server);
    let n = trimmed_len(&cs);
    let mut u = string_of_range(&cs, 0, n);
    push_str(&mut u, "/v1/");
    push_str(&mut u, endpoint);
    assert(u@ =~= account_url_spec(server@, endpoint@));
    u
}

/// The difficulty of a proof-of-life puzzle to solve before registering, when
/// the server sent a non-empty challenge with a difficulty that, cut to 32
/// bits, is not zero.
pub fn pol_to_solve(challenge: &str, difficulty: u64) -> (d: Option<u32>)
    ensures
        d == (if challenge@.len() > 0 && (difficulty as u32) > 0 { Some(difficulty as u32) } else { None }),
{
    let bits = difficulty as u32;
    if !challenge.is_empty() && bits > 0 { Some(bits) } else { None }
}

// ---------------------------------------------------------------------------
// What the server's answers mean to the client.

/// How the server answered a login or registration.
#[derive(Debug, Clone, Copy, PartialEq, Eq)]
pub enum AuthReply {
    Token,
    WrongPassword,
    NameTaken,
    RegistrationClosed,
    RateLimited,
    ServerError,
}

/// Reads the status of a login or registration answer.
pub fn auth_reply(status: u16) -> (r: AuthReply)
    ensures
        r == (if status == 200 || status == 201 {
            AuthReply::Token
        } else if status == 401 {
            AuthReply::WrongPassword
        } else if status == 409 {
            AuthReply::NameTaken
        } else if status == 403 {
            AuthReply::RegistrationClosed
        } else if status == 429 {
            AuthReply::RateLimited
        } else {
            AuthReply::ServerError
        }),
{
    if status == 200 || status == 201 {
        AuthReply::Token
    } else if status == 401 {
        AuthReply::WrongPassword
    } else if status == 409 {
        AuthReply::NameTaken
    } else if status == 403 {
        AuthReply::RegistrationClosed
    } else if status == 429 {
        AuthReply::RateLimited
    } else {
        AuthReply::ServerError
    }
}

/// How the server answered a read.
#[derive(Debug, Clone, Copy, PartialEq, Eq)]
pub enum FetchReply {
    Found,
    Missing,
    TokenRejected,
    ServerError,
}

/// Reads the status of an answer to a read.
pub fn fetch_reply(status: u16) -> (r: FetchReply)
    ensures
        r == (if status == 200 {
            FetchReply::Found
        } else if status == 404 {
            FetchReply::Missing
        } else if status == 401 || status == 403 {
            FetchReply::TokenRejected
        } else {
            FetchReply::ServerError
        }),
{
    if status == 200 {
        FetchReply::Found
    } else if status == 404 {
        FetchReply::Missing
    } else if status == 401 || status == 403 {
        FetchReply::TokenRejected
    } else {
        FetchReply::ServerError
    }
}

/// How the server answered a write.
#[derive(Debug, Clone, Copy, PartialEq, Eq)]
pub enum SendReply {
    Done,
    TokenRejected,
    Conflict,
    RateLimited,
    TooLarge,
    ServerError,
}

/// Reads the status of an answer to a write.
pub fn send_reply(status: u16) -> (r: SendReply)
    ensures
        r == send_reply_spec(status),
{
    if status == 200 || status == 201 || status == 204 {
        SendReply::Done
    } else if status == 401 || status == 403 {
        SendReply::TokenRejected
    } else if status == 409 {
        SendReply::Conflict
    } else if status == 429 {
        SendReply::RateLimited
    } else if status == 413 {
        SendReply::TooLarge
    } else {
        SendReply::ServerError
    }
}

/// The HTTP status with which the server refuses a request.
pub open spec fn access_status(e: AccessError) -> u16 {
    match e {
        AccessError::BadRequest => 400,
        AccessError::Unauthorized => 401,
        AccessError::Forbidden => 403,
        AccessError::NotFound => 404,
    }
}

/// The HTTP status with which the server refuses a request.
pub fn access_status_code(e: AccessError) -> (s: u16)
    ensures
        s == access_status(e),
{
    match e {
        AccessError::BadRequest => 400,
        AccessError::Unauthorized => 401,
        AccessError::Forbidden => 403,
        AccessError::NotFound => 404,
    }
}

/// The HTTP status with which the server answers a branch update.
pub open spec fn push_status(v: PushVerdict) -> u16 {
    match v {
        PushVerdict::Accept => 204,
        PushVerdict::Conflict => 409,
        PushVerdict::TooLarge => 413,
    }
}

/// The HTTP status with which the server answers a branch update.
pub fn push_status_code(v: PushVerdict) -> (s: u16)
    ensures
        s == push_status(v),
{
    match v {
        PushVerdict::Accept => 204,
        PushVerdict::Conflict => 409,
        PushVerdict::TooLarge => 413,
    }
}

/// The status the server sends when a rate limit or the push quota is hit.
pub const TOO_MANY_REQUESTS: u16 = 429;

/// What the server decides about a push, the client reads back as such: an
/// accepted update as done, a conflict as a conflict (pull first), a size
/// refusal as too large, a limit as rate limiting, and a refusal for want of
/// rights or of a token as a rejected token.
pub proof fn lemma_client_reads_push_answers(v: PushVerdict, e: AccessError)
    ensures
        v == PushVerdict::Accept ==> send_reply_spec(push_status(v)) == SendReply::Done,
        v == PushVerdict::Conflict ==> send_reply_spec(push_status(v)) == SendReply::Conflict,
        v == PushVerdict::TooLarge ==> send_reply_spec(push_status(v)) == SendReply::TooLarge,
        send_reply_spec(TOO_MANY_REQUESTS) == SendReply::RateLimited,
        (e == AccessError::Unauthorized || e == AccessError::Forbidden) ==> send_reply_spec(access_status(e)) == SendReply::TokenRejected,
{
}

/// The client's reading of a write's status (what `send_reply` returns).
pub open spec fn send_reply_spec(status: u16) -> SendReply {
    if status == 200 || status == 201 || status == 204 {
        SendReply::Done
    } else if status == 401 || status == 403 {
        SendReply::TokenRejected
    } else if status == 409 {
        SendReply::Conflict
    } else if status == 429 {
        SendReply::RateLimited
    } else if status == 413 {
        SendReply::TooLarge
    } else {
        SendReply::ServerError
    }
}

} // verus!
