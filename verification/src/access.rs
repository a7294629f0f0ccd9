use std::collections::VecDeque;

use vstd::prelude::*;
use vstd::utf8::encode_utf8;

use crate::clock::now_unix;
use crate::fields::{lemma_split_cons, lemma_split_first, lemma_split_single, split_char, split_on};
use crate::number::{
    all_digits, i64_string, int_text, is_digit, lemma_decimal_digits, lemma_i64_text_roundtrip, lemma_u32_text_roundtrip,
    parse_i64, parse_signed_spec, parse_u32, parse_unsigned_spec,
};
use crate::object::{content_hash, hash_bytes};
use crate::pol::{pol_solved, verify};
use crate::strmap::StrMap;
use crate::text::{
    chars_of, decimal, decimal_string, hex_digit, hex_lower, push_char, push_str, str_eq, trim, trim_str, utf8_len_upto,
};

verus! {

/// An ASCII letter or digit.
pub open spec fn is_ascii_alnum(c: char) -> bool {
    ('a' <= c && c <= 'z') || ('A' <= c && c <= 'Z') || ('0' <= c && c <= '9')
}

/// A character allowed in a repository name on the server.
pub open spec fn repo_name_char(c: char) -> bool {
    is_ascii_alnum(c) || c == '-' || c == '_' || c == '.'
}

/// Whether `s` holds two dots in a row.
pub open spec fn has_double_dot(s: Seq<char>) -> bool {
    exists|i: int| 0 <= i && i + 1 < s.len() && #[trigger] s[i] == '.' && s[i + 1] == '.'
}

/// A repository name the server serves: not empty, no `..`, and only ASCII
/// letters, digits, `-`, `_` and `.`.
pub open spec fn valid_repo_name_spec(s: Seq<char>) -> bool {
    &&& s.len() > 0
    &&& !has_double_dot(s)
    &&& forall|i: int| 0 <= i < s.len() ==> repo_name_char(#[trigger] s[i])
}

/// Whether `name` is a repository name the server accepts.
pub fn valid_repo_name(name: &str) -> (b: bool)
    ensures
        b == valid_repo_name_spec(name@),
{
    let cs = chars_of(name);
    if cs.len() == 0 {
        return false;
    }
    let mut i: usize = 0;
    while i < cs.len()
        invariant
            i <= cs@.len(),
            cs@ == name@,
            forall|m: int| 0 <= m < i ==> repo_name_char(#[trigger] cs@[m]),
            forall|m: int| 0 <= m && m + 1 < i ==> !(#[trigger] cs@[m] == '.' && cs@[m + 1] == '.'),
        decreases cs.len() - i,
    {
        let c = cs[i];
        let ok = ('a' <= c && c <= 'z') || ('A' <= c && c <= 'Z') || ('0' <= c && c <= '9') || c == '-' || c == '_'
            || c == '.';
        if !ok {
            return false;
        }
        if i > 0 && c == '.' && cs[i - 1] == '.' {
            assert(cs@[i - 1] == '.' && cs@[(i - 1) + 1] == '.');
            return false;
        }
        i += 1;
    }
    true
}

/// A character allowed in a user name.
pub open spec fn user_name_char(c: char) -> bool {
    is_ascii_alnum(c) || c == '-' || c == '_'
}

/// What registration asks of new credentials: a user name of at least two
/// bytes made of ASCII letters, digits, `-` and `_`, and a password of at
/// least six bytes.
pub open spec fn valid_credentials_spec(username: Seq<char>, password: Seq<char>) -> bool {
    &&& encode_utf8(username).len() >= 2
    &&& forall|i: int| 0 <= i < username.len() ==> user_name_char(#[trigger] username[i])
    &&& encode_utf8(password).len() >= 6
}

/// Whether a user name and password may be registered.
pub fn valid_credentials(username: &str, password: &str) -> (b: bool)
    ensures
        b == valid_credentials_spec(username@, password@),
{
    let us = chars_of(username);
    if utf8_len_upto(&us, 2) < 2 {
        return false;
    }
    let mut i: usize = 0;
    while i < us.len()
        invariant
            i <= us@.len(),
            us@ == username@,
            forall|m: int| 0 <= m < i ==> user_name_char(#[trigger] us@[m]),
        decreases us.len() - i,
    {
        let c = us[i];
        if !(('a' <= c && c <= 'z') || ('A' <= c && c <= 'Z') || ('0' <= c && c <= '9') || c == '-' || c == '_') {
            return false;
        }
        i += 1;
    }
    let ps = chars_of(password);
    utf8_len_upto(&ps, 6) >= 6
}

/// The server's keyed digest: the content hash of the UTF-8 text `key:text`.
pub open spec fn keyed_hash_spec(key: Seq<char>, text: Seq<char>) -> Seq<char> {
    content_hash(encode_utf8(key + seq![':'] + text))
}

fn keyed_hash(key: &str, text: &str) -> (out: String)
    ensures
        out@ == keyed_hash_spec(key@, text@),
{
    let mut s = String::new();
    push_str(&mut s, key);
    push_char(&mut s, ':');
    push_str(&mut s, text);
    assert(s@ =~= key@ + seq![':'] + text@);
    hash_bytes(s.as_str().as_bytes())
}

/// The stored form of a password: the keyed digest of the password under its salt.
pub fn hash_password(salt: &str, password: &str) -> (out: String)
    ensures
        out@ == keyed_hash_spec(salt@, password@),
{
    keyed_hash(salt, password)
}

/// The form in which a bearer token is stored: the content hash of its text, so
/// that what is stored does not itself sign anyone in.
pub fn token_digest(token: &str) -> (out: String)
    ensures
        out@ == content_hash(encode_utf8(token@)),
{
    hash_bytes(token.as_bytes())
}

/// The signature of a proof-of-life payload under the server secret.
pub fn pol_sign(secret: &str, payload: &str) -> (out: String)
    ensures
        out@ == keyed_hash_spec(secret@, payload@),
{
    keyed_hash(secret, payload)
}

/// The address a request is counted against: the first entry of the
/// forwarded-for header, trimmed, when proxy headers are trusted and it is not
/// empty; the peer address otherwise.
pub open spec fn client_ip_spec(use_proxy_headers: bool, forwarded: Option<Seq<char>>, peer: Seq<char>) -> Seq<char> {
    match forwarded {
        Some(f) => if use_proxy_headers && trim(split_on(f, ',')[0]).len() > 0 {
            trim(split_on(f, ',')[0])
        } else {
            peer
        },
        None => peer,
    }
}

/// The address a request is counted against (see `client_ip_spec`).
pub fn client_ip(use_proxy_headers: bool, forwarded: Option<&str>, peer: String) -> (ip: String)
    ensures
        ip@ == client_ip_spec(use_proxy_headers, match forwarded { Some(f) => Some(f@), None => None }, peer@),
{
    if use_proxy_headers {
        if let Some(f) = forwarded {
            let parts = split_char(f, ',');
            proof {
                lemma_split_first(f@, ',');
            }
            let ip = trim_str(parts[0].as_str());
            if !ip.as_str().is_empty() {
                return ip;
            }
        }
    }
    peer
}

/// The proof-of-life difficulty asked of an address: the base difficulty plus
/// one bit per recent registration from it, at most `adaptive_max` more.
pub open spec fn pol_difficulty_spec(base: u32, recent: usize, adaptive_max: u32) -> int {
    let r = recent as u32;
    base + if r < adaptive_max { r } else { adaptive_max }
}

/// The proof-of-life difficulty for an address with `recent` registrations.
pub fn pol_difficulty_for(base: u32, recent: usize, adaptive_max: u32) -> (d: u32)
    requires
        pol_difficulty_spec(base, recent, adaptive_max) <= u32::MAX,
    ensures
        d == pol_difficulty_spec(base, recent, adaptive_max),
{
    let r = recent as u32;
    let extra = if r < adaptive_max { r } else { adaptive_max };
    base + extra
}

/// Whether an account may push again today: always when there is no daily
/// limit (`0`), else while today's count is below the limit.
pub fn quota_allows(max_per_day: i64, count_today: i64) -> (b: bool)
    ensures
        b == (max_per_day == 0 || count_today < max_per_day),
{
    max_per_day == 0 || count_today < max_per_day
}

/// How many of `n` push attempts by one account in one day are allowed, when each
/// is decided by `quota_allows` on the count of those allowed before it.
pub open spec fn pushes_allowed(max_per_day: i64, n: nat) -> int
    decreases n,
{
    if n == 0 {
        0
    } else {
        let c = pushes_allowed(max_per_day, (n - 1) as nat);
        if max_per_day == 0 || c < max_per_day { c + 1 } else { c }
    }
}

/// A daily limit holds: with a limit `max_per_day > 0`, however many attempts an
/// account makes in one day, at most `max_per_day` of them are allowed; with no
/// limit, all are.
pub proof fn lemma_quota_holds(max_per_day: i64, n: nat)
    requires
        max_per_day >= 0,
    ensures
        max_per_day > 0 ==> pushes_allowed(max_per_day, n) <= max_per_day,
        max_per_day > 0 && n <= max_per_day ==> pushes_allowed(max_per_day, n) == n,
        max_per_day == 0 ==> pushes_allowed(max_per_day, n) == n,
    decreases n,
{
    if n > 0 {
        lemma_quota_holds(max_per_day, (n - 1) as nat);
    }
}

// ---------------------------------------------------------------------------
// Who may do what.

/// Why the server refuses a request on a repository.
#[derive(Debug, Clone, Copy, PartialEq, Eq)]
pub enum AccessError {
    /// The repository name is not acceptable.
    BadRequest,
    /// No valid token came with the request.
    Unauthorized,
    /// The user has no right to this.
    Forbidden,
    /// No such repository, or none the user may see.
    NotFound,
}

/// The server's record of a repository: its owner and its visibility.
pub struct RepoMeta {
    pub owner: String,
    pub visibility: String,
}

/// The visibility of a repository that nobody made public.
pub open spec fn private_text() -> Seq<char> {
    seq!['p', 'r', 'i', 'v', 'a', 't', 'e']
}

/// The record of a repository that `owner` creates by pushing to it: private.
pub fn new_repo_meta(owner: &str) -> (m: RepoMeta)
    ensures
        m.owner@ == owner@,
        m.visibility@ == private_text(),
{
    proof {
        reveal_strlit("private");
        assert("private"@ =~= private_text());
    }
    RepoMeta { owner: owner.to_string(), visibility: "private".to_string() }
}

/// The view of an optional record: owner and visibility as text.
pub open spec fn meta_view(meta: Option<&RepoMeta>) -> Option<(Seq<char>, Seq<char>)> {
    match meta {
        Some(m) => Some((m.owner@, m.visibility@)),
        None => None,
    }
}

/// The view of an optional user name.
pub open spec fn user_view(user: Option<&str>) -> Option<Seq<char>> {
    match user {
        Some(u) => Some(u@),
        None => None,
    }
}

/// Whether a user may read a repository: one without a record, or not private,
/// is open to all; a private one only to its owner and collaborators.
pub open spec fn read_allowed_spec(meta: Option<(Seq<char>, Seq<char>)>, user: Option<Seq<char>>, collaborator: bool) -> bool {
    match meta {
        None => true,
        Some((owner, visibility)) => visibility != private_text() || match user {
            Some(u) => u == owner || collaborator,
            None => false,
        },
    }
}

/// Whether a request may read repository `name`: refused as a bad request for
/// a bad name, and as not found when there is no such repository or the user
/// may not see it. `collaborator` says whether the user is one of the
/// repository's collaborators.
pub fn read_access(name: &str, repo_exists: bool, meta: Option<&RepoMeta>, user: Option<&str>, collaborator: bool) -> (r: Result<(), AccessError>)
    ensures
        !valid_repo_name_spec(name@) ==> r == Err::<(), AccessError>(AccessError::BadRequest),
        valid_repo_name_spec(name@) && !repo_exists ==> r == Err::<(), AccessError>(AccessError::NotFound),
        valid_repo_name_spec(name@) && repo_exists ==> (r is Ok <==> read_allowed_spec(meta_view(meta), user_view(user), collaborator)),
        valid_repo_name_spec(name@) && repo_exists && r is Err ==> r == Err::<(), AccessError>(AccessError::NotFound),
{
    if !valid_repo_name(name) {
        return Err(AccessError::BadRequest);
    }
    if !repo_exists {
        return Err(AccessError::NotFound);
    }
    proof {
        reveal_strlit("private");
        assert("private"@ =~= private_text());
    }
    match meta {
        None => Ok(()),
        Some(m) => {
            if !str_eq(m.visibility.as_str(), "private") {
                return Ok(());
            }
            let allowed = match user {
                Some(u) => str_eq(u, m.owner.as_str()) || collaborator,
                None => false,
            };
            if allowed { Ok(()) } else { Err(AccessError::NotFound) }
        },
    }
}

/// What a permitted write goes to.
#[derive(Debug, Clone, Copy, PartialEq, Eq)]
pub enum WriteTarget {
    /// A repository that has a record.
    Existing,
    /// A new repository, which the user creates and owns.
    Create,
}

/// Whether a request may write to repository `name`: a bad name is a bad
/// request; without a user it is unauthorized; a recorded repository takes
/// writes from its owner and collaborators only, and must exist; an
/// unrecorded one is created for the user.
pub fn write_access(name: &str, user: Option<&str>, meta: Option<&RepoMeta>, collaborator: bool, repo_exists: bool) -> (r: Result<WriteTarget, AccessError>)
    ensures
        !valid_repo_name_spec(name@) ==> r == Err::<WriteTarget, AccessError>(AccessError::BadRequest),
        valid_repo_name_spec(name@) && user is None ==> r == Err::<WriteTarget, AccessError>(AccessError::Unauthorized),
        valid_repo_name_spec(name@) && user is Some ==> match meta {
            None => r == Ok::<WriteTarget, AccessError>(WriteTarget::Create),
            Some(m) => if user->0@ != m.owner@ && !collaborator {
                r == Err::<WriteTarget, AccessError>(AccessError::Forbidden)
            } else if !repo_exists {
                r == Err::<WriteTarget, AccessError>(AccessError::NotFound)
            } else {
                r == Ok::<WriteTarget, AccessError>(WriteTarget::Existing)
            },
        },
{
    if !valid_repo_name(name) {
        return Err(AccessError::BadRequest);
    }
    let u = match user {
        Some(u) => u,
        None => return Err(AccessError::Unauthorized),
    };
    match meta {
        None => Ok(WriteTarget::Create),
        Some(m) => {
            if !str_eq(u, m.owner.as_str()) && !collaborator {
                Err(AccessError::Forbidden)
            } else if !repo_exists {
                Err(AccessError::NotFound)
            } else {
                Ok(WriteTarget::Existing)
            }
        },
    }
}

/// Whether a request may change a repository's settings or delete it: only
/// its owner may; without a user it is unauthorized, without a record not found.
pub fn owner_check(user: Option<&str>, owner: Option<&str>) -> (r: Result<(), AccessError>)
    ensures
        user is None ==> r == Err::<(), AccessError>(AccessError::Unauthorized),
        user is Some && owner is None ==> r == Err::<(), AccessError>(AccessError::NotFound),
        user is Some && owner is Some ==> (r is Ok <==> user->0@ == owner->0@),
        user is Some && owner is Some && r is Err ==> r == Err::<(), AccessError>(AccessError::Forbidden),
{
    let u = match user {
        Some(u) => u,
        None => return Err(AccessError::Unauthorized),
    };
    match owner {
        None => Err(AccessError::NotFound),
        Some(o) => if str_eq(u, o) { Ok(()) } else { Err(AccessError::Forbidden) },
    }
}

/// A repository that a user creates by pushing is private: nobody but its owner
/// (and the collaborators the owner adds) can read it.
pub proof fn lemma_private_by_default(owner: Seq<char>, other: Seq<char>)
    requires
        other != owner,
    ensures
        read_allowed_spec(Some((owner, private_text())), Some(owner), false),
        !read_allowed_spec(Some((owner, private_text())), Some(other), false),
        !read_allowed_spec(Some((owner, private_text())), None, false),
        read_allowed_spec(Some((owner, private_text())), Some(other), true),
{
}

/// What the server does with a branch update that passed the access checks.
#[derive(Debug, Clone, Copy, PartialEq, Eq)]
pub enum PushVerdict {
    /// Move the branch.
    Accept,
    /// The branch has moved on to a commit the pushed tip does not descend from.
    Conflict,
    /// The repository would grow past the size limit.
    TooLarge,
}

/// Decides a branch update: a conflict when the branch is at another commit
/// that is not an ancestor of the new tip; too large when there is a size limit
/// (non-zero) and the repository at the new tip exceeds it; accepted otherwise.
pub fn push_verdict(current: Option<&str>, new_tip: &str, current_is_ancestor: bool, max_repo_bytes: u64, repo_bytes: u64) -> (v: PushVerdict)
    ensures
        v == (if (match current { Some(c) => c@ != new_tip@ && !current_is_ancestor, None => false }) {
            PushVerdict::Conflict
        } else if max_repo_bytes > 0 && repo_bytes > max_repo_bytes {
            PushVerdict::TooLarge
        } else {
            PushVerdict::Accept
        }),
{
    let conflict = match current {
        Some(c) => !str_eq(c, new_tip) && !current_is_ancestor,
        None => false,
    };
    if conflict {
        PushVerdict::Conflict
    } else if max_repo_bytes > 0 && repo_bytes > max_repo_bytes {
        PushVerdict::TooLarge
    } else {
        PushVerdict::Accept
    }
}

// ---------------------------------------------------------------------------
// Rate limits.

/// The hits of a bucket that are still counted at time `now`: from the front,
/// hits more than `window` older than `now` are dropped.
pub open spec fn unexpired(hits: Seq<u64>, now: int, window: int) -> Seq<u64>
    decreases hits.len(),
{
    if hits.len() > 0 && now - hits[0] > window {
        unexpired(hits.drop_first(), now, window)
    } else {
        hits
    }
}

/// A bucket after a request at time `now` under a limit of `max > 0` per
/// `window`: its unexpired hits, and `now` too unless they already number `max`.
pub open spec fn step_bucket(hits: Seq<u64>, now: u64, window: u64, max: usize) -> Seq<u64> {
    let live = unexpired(hits, now as int, window as int);
    if live.len() >= max { live } else { live.push(now) }
}

/// The bucket that counts requests of one kind from one address: `kind:ip`.
pub open spec fn rate_key(kind: Seq<char>, ip: Seq<char>) -> Seq<char> {
    kind + seq![':'] + ip
}

/// Sliding-window request counters, one bucket per kind of request and address.
pub struct RateLimiter {
    buckets: StrMap<VecDeque<u64>>,
}

impl RateLimiter {
    /// The times of the hits recorded in a bucket, oldest first.
    pub closed spec fn hits(&self, key: Seq<char>) -> Seq<u64> {
        if self.buckets@.contains_key(key) {
            self.buckets@[key]@
        } else {
            Seq::empty()
        }
    }

    /// Counters with nothing recorded.
    pub fn new() -> (r: RateLimiter)
        ensures
            forall|k: Seq<char>| #[trigger] r.hits(k) == Seq::<u64>::empty(),
    {
        RateLimiter { buckets: StrMap::new() }
    }

    /// How many hits the bucket of `kind` and `ip` holds, expired ones included.
    pub fn recent(&self, kind: &str, ip: &str) -> (n: usize)
        ensures
            n == self.hits(rate_key(kind@, ip@)).len(),
    {
        let key = bucket_key(kind, ip);
        match self.buckets.get(key.as_str()) {
            Some(v) => v.len(),
            None => 0,
        }
    }

    /// Counts a request at time `now` against at most `max` per `window`
    /// (`0`: no limit): hits older than the window leave the bucket; when the
    /// bucket is full the request is limited and not recorded, otherwise it is.
    pub fn hit(&mut self, kind: &str, ip: &str, now: u64, window: u64, max: usize) -> (limited: bool)
        ensures
            max == 0 ==> !limited,
            max == 0 ==> forall|k: Seq<char>| #[trigger] final(self).hits(k) == old(self).hits(k),
            max > 0 ==> limited == (unexpired(old(self).hits(rate_key(kind@, ip@)), now as int, window as int).len() >= max),
            max > 0 ==> final(self).hits(rate_key(kind@, ip@)) == step_bucket(old(self).hits(rate_key(kind@, ip@)), now, window, max),
            forall|k: Seq<char>| k != rate_key(kind@, ip@) ==> #[trigger] final(self).hits(k) == old(self).hits(k),
    {
        if max == 0 {
            return false;
        }
        let key = bucket_key(kind, ip);
        let ghost old_map = self.buckets@;
        let mut hits: VecDeque<u64> = match self.buckets.remove(key.as_str()) {
            Some(v) => v,
            None => VecDeque::new(),
        };
        let ghost h = hits@;
        assert(h == old(self).hits(key@));
        while hits.len() > 0 && now >= hits[0] && now - hits[0] > window
            invariant
                unexpired(h, now as int, window as int) == unexpired(hits@, now as int, window as int),
            decreases hits.len(),
        {
            let ghost before = hits@;
            hits.pop_front();
            assert(hits@ =~= before.drop_first());
        }
        assert(hits@ == unexpired(h, now as int, window as int));
        let limited = hits.len() >= max;
        if !limited {
            hits.push_back(now);
        }
        self.buckets.insert(key, hits);
        proof {
            assert forall|k: Seq<char>| k != rate_key(kind@, ip@) implies #[trigger] self.hits(k) == old(self).hits(k) by {
                assert(self.buckets@ == old_map.remove(key@).insert(key@, hits));
            }
        }
        limited
    }
}

fn bucket_key(kind: &str, ip: &str) -> (key: String)
    ensures
        key@ == rate_key(kind@, ip@),
{
    let mut key = String::new();
    push_str(&mut key, kind);
    push_char(&mut key, ':');
    push_str(&mut key, ip);
    assert(key@ =~= rate_key(kind@, ip@));
    key
}

proof fn lemma_unexpired_len(hits: Seq<u64>, now: int, window: int)
    ensures
        unexpired(hits, now, window).len() <= hits.len(),
    decreases hits.len(),
{
    if hits.len() > 0 && now - hits[0] > window {
        lemma_unexpired_len(hits.drop_first(), now, window);
    }
}

/// The bucket after requests at the times `ts`, one after another, starting empty.
pub open spec fn bucket_after(ts: Seq<u64>, window: u64, max: usize) -> Seq<u64>
    decreases ts.len(),
{
    if ts.len() == 0 {
        Seq::empty()
    } else {
        step_bucket(bucket_after(ts.drop_last(), window, max), ts.last(), window, max)
    }
}

/// Whether the request at `ts[i]` is limited, after those before it.
pub open spec fn refused_at(ts: Seq<u64>, window: u64, max: usize, i: int) -> bool {
    unexpired(bucket_after(ts.take(i), window, max), ts[i] as int, window as int).len() >= max
}

/// How many of the first `n` requests were let through and lie within `window`
/// before time `t`.
pub open spec fn accepted_within(ts: Seq<u64>, window: u64, max: usize, n: int, t: int) -> int
    decreases n,
{
    if n <= 0 {
        0
    } else {
        accepted_within(ts, window, max, n - 1, t)
            + if !refused_at(ts, window, max, n - 1) && t - ts[n - 1] <= window { 1int } else { 0int }
    }
}

pub open spec fn nondecreasing(ts: Seq<u64>) -> bool {
    forall|i: int, j: int| 0 <= i <= j < ts.len() ==> ts[i] <= ts[j]
}

/// A limit of `max` requests per `window` holds over any run of requests on one
/// bucket, made in time order from an empty bucket: up to any request let
/// through, at most `max` requests let through lie within one window.
pub proof fn lemma_rate_limit_holds(ts: Seq<u64>, window: u64, max: usize)
    requires
        max > 0,
        nondecreasing(ts),
    ensures
        forall|i: int| 0 <= i < ts.len() && !refused_at(ts, window, max, i) ==> #[trigger] accepted_within(ts, window, max, i + 1, ts[i] as int) <= max,
{
    assert forall|i: int| 0 <= i < ts.len() && !refused_at(ts, window, max, i) implies #[trigger] accepted_within(ts, window, max, i + 1, ts[i] as int) <= max by {
        lemma_run_bound(ts, window, max, i + 1, ts[i] as int);
        let b = bucket_after(ts.take(i + 1), window, max);
        lemma_unexpired_len(b, ts[i] as int, window as int);
    }
}

proof fn lemma_run_bound(ts: Seq<u64>, window: u64, max: usize, n: int, t: int)
    requires
        max > 0,
        nondecreasing(ts),
        0 <= n <= ts.len(),
        n > 0 ==> t >= ts[n - 1],
    ensures
        bucket_after(ts.take(n), window, max).len() <= max,
        accepted_within(ts, window, max, n, t) <= unexpired(bucket_after(ts.take(n), window, max), t, window as int).len(),
    decreases n,
{
    if n > 0 {
        let m = n - 1;
        let now = ts[m];
        if m > 0 {
            assert(ts[m - 1] <= ts[m]);
        }
        lemma_run_bound(ts, window, max, m, t);
        let b = bucket_after(ts.take(m), window, max);
        assert(ts.take(n).drop_last() =~= ts.take(m));
        assert(ts.take(n).last() == now);
        let live = unexpired(b, now as int, window as int);
        lemma_unexpired_len(b, now as int, window as int);
        lemma_unexpired_twice(b, now as int, t, window as int);
        lemma_unexpired_push(live, now, t, window as int);
    }
}

/// What has expired at one time has expired at any later time.
proof fn lemma_unexpired_twice(b: Seq<u64>, now: int, t: int, window: int)
    requires
        now <= t,
    ensures
        unexpired(unexpired(b, now, window), t, window) == unexpired(b, t, window),
    decreases b.len(),
{
    if b.len() > 0 && now - b[0] > window {
        lemma_unexpired_twice(b.drop_first(), now, t, window);
    }
}

/// A hit added at the end stays counted while it is inside the window.
proof fn lemma_unexpired_push(s: Seq<u64>, x: u64, t: int, window: int)
    ensures
        unexpired(s.push(x), t, window).len() >= unexpired(s, t, window).len(),
        t - x <= window ==> unexpired(s.push(x), t, window) == unexpired(s, t, window).push(x),
    decreases s.len(),
{
    if s.len() == 0 {
        assert(s.push(x) =~= seq![x]);
        if t - x > window {
            assert(seq![x].drop_first() =~= Seq::<u64>::empty());
        }
        assert(Seq::<u64>::empty().push(x) =~= seq![x]);
    } else {
        assert(s.push(x)[0] == s[0]);
        if t - s[0] > window {
            assert(s.push(x).drop_first() =~= s.drop_first().push(x));
            lemma_unexpired_push(s.drop_first(), x, t, window);
        }
    }
}

/// A bucket used with one limit never holds more than that many hits: a hit
/// on a bucket within the limit leaves it within the limit.
pub proof fn lemma_hit_keeps_bound(hits: Seq<u64>, now: u64, window: u64, max: usize)
    requires
        max > 0,
        hits.len() <= max,
    ensures
        ({
            let live = unexpired(hits, now as int, window as int);
            (if live.len() >= max { live } else { live.push(now) }).len() <= max
        }),
{
    lemma_unexpired_len(hits, now as int, window as int);
}

/// When every recorded hit is inside the window and the bucket is full, the
/// next request is limited: the request after `max` others within one window
/// is refused.
pub proof fn lemma_full_window_refuses(hits: Seq<u64>, now: u64, window: u64, max: usize)
    requires
        max > 0,
        hits.len() >= max,
        forall|i: int| 0 <= i < hits.len() ==> now - #[trigger] hits[i] <= window,
    ensures
        unexpired(hits, now as int, window as int).len() >= max,
{
    assert(hits.len() > 0 ==> now - hits[0] <= window);
}

// ---------------------------------------------------------------------------
// Proof of life.

/// A proof-of-life answer: the challenge as issued and the nonce found for it.
pub struct PolAnswer {
    pub challenge: String,
    pub nonce: u64,
}

/// The payload of a challenge split at its dots: the first three pieces.
pub open spec fn pol_payload_spec(parts: Seq<Seq<char>>) -> Seq<char> {
    parts[0] + seq!['.'] + parts[1] + seq!['.'] + parts[2]
}

/// A challenge as the server issues it: `rand.expiry.difficulty.signature`,
/// the signature being the keyed digest of the first three pieces.
pub open spec fn pol_signature_ok(secret: Seq<char>, challenge: Seq<char>) -> bool {
    let parts = split_on(challenge, '.');
    parts.len() == 4 && keyed_hash_spec(secret, pol_payload_spec(parts)) == parts[3]
}

/// The numbers of a signed challenge are readable, its difficulty is at least
/// the server's, it has not expired, and the nonce solves it at its difficulty.
pub open spec fn pol_numbers_ok(base: u32, challenge: Seq<char>, nonce: u64, now: int) -> bool {
    let parts = split_on(challenge, '.');
    match (parse_signed_spec(parts[1]), parse_unsigned_spec(parts[2])) {
        (Some(e), Some(d)) => {
            &&& i64::MIN <= e <= i64::MAX
            &&& d <= u32::MAX
            &&& d >= base
            &&& now <= e
            &&& pol_solved(challenge, nonce, d as u32)
        },
        _ => false,
    }
}

/// The marks of used payloads that are remembered at time `now`: those made
/// less than ten minutes before.
pub open spec fn live_marks(marks: Seq<(Seq<char>, i64)>, now: int) -> Seq<(Seq<char>, i64)>
    decreases marks.len(),
{
    if marks.len() == 0 {
        marks
    } else {
        let rest = live_marks(marks.drop_last(), now);
        if now - marks.last().1 < 600 {
            rest.push(marks.last())
        } else {
            rest
        }
    }
}

/// Whether `payload` is among the marks.
pub open spec fn marked(marks: Seq<(Seq<char>, i64)>, payload: Seq<char>) -> bool {
    exists|i: int| 0 <= i < marks.len() && #[trigger] marks[i].0 == payload
}

/// Whether the server accepts an answer: correctly signed, not used in the last
/// ten minutes, and its numbers check out.
pub open spec fn pol_accepts(secret: Seq<char>, base: u32, challenge: Seq<char>, nonce: u64, now: int, marks: Seq<(Seq<char>, i64)>) -> bool {
    &&& pol_signature_ok(secret, challenge)
    &&& !marked(live_marks(marks, now), pol_payload_spec(split_on(challenge, '.')))
    &&& pol_numbers_ok(base, challenge, nonce, now)
}

/// The marks after a check: a correctly signed answer makes old marks be
/// forgotten, and an accepted one is marked as used.
pub open spec fn marks_after(secret: Seq<char>, base: u32, challenge: Seq<char>, nonce: u64, now: i64, marks: Seq<(Seq<char>, i64)>) -> Seq<(Seq<char>, i64)> {
    if !pol_signature_ok(secret, challenge) {
        marks
    } else if pol_accepts(secret, base, challenge, nonce, now as int, marks) {
        live_marks(marks, now as int).push((pol_payload_spec(split_on(challenge, '.')), now))
    } else {
        live_marks(marks, now as int)
    }
}

/// The server's memory of the proof-of-life payloads already used.
pub struct PolGuard {
    used: Vec<(String, i64)>,
}

impl PolGuard {
    /// The used payloads with the time each was used, in order of use.
    pub closed spec fn marks(&self) -> Seq<(Seq<char>, i64)> {
        self.used@.map_values(|e: (String, i64)| (e.0@, e.1))
    }

    /// A guard that remembers nothing.
    pub fn new() -> (g: PolGuard)
        ensures
            g.marks() == Seq::<(Seq<char>, i64)>::empty(),
    {
        let g = PolGuard { used: Vec::new() };
        assert(g.marks() =~= Seq::<(Seq<char>, i64)>::empty());
        g
    }

    /// Checks a registration's proof of life at time `now` (seconds): always
    /// passes when the server asks for none (`base_difficulty` 0), fails
    /// without an answer, and otherwise passes when `pol_accepts` holds, the
    /// answer being remembered as used.
    pub fn check(&mut self, secret: &str, base_difficulty: u32, answer: Option<&PolAnswer>, now: i64) -> (ok: bool)
        ensures
            base_difficulty == 0 ==> ok && final(self).marks() == old(self).marks(),
            base_difficulty != 0 && answer is None ==> !ok && final(self).marks() == old(self).marks(),
            base_difficulty != 0 && answer is Some ==> ok == pol_accepts(secret@, base_difficulty, answer->0.challenge@, answer->0.nonce, now as int, old(self).marks()),
            base_difficulty != 0 && answer is Some ==> final(self).marks() == marks_after(secret@, base_difficulty, answer->0.challenge@, answer->0.nonce, now, old(self).marks()),
    {
        if base_difficulty == 0 {
            return true;
        }
        let a = match answer {
            Some(a) => a,
            None => return false,
        };
        let ghost c = a.challenge@;
        let parts = split_char(a.challenge.as_str(), '.');
        if parts.len() != 4 {
            return false;
        }
        let mut payload = String::new();
        push_str(&mut payload, parts[0].as_str());
        push_char(&mut payload, '.');
        push_str(&mut payload, parts[1].as_str());
        push_char(&mut payload, '.');
        push_str(&mut payload, parts[2].as_str());
        let ghost ps = split_on(c, '.');
        assert(payload@ =~= pol_payload_spec(ps)) by {
            assert(parts@[0]@ == ps[0]);
            assert(parts@[1]@ == ps[1]);
            assert(parts@[2]@ == ps[2]);
        }
        let signature = pol_sign(secret, payload.as_str());
        assert(parts@[3]@ == ps[3]);
        if !str_eq(signature.as_str(), parts[3].as_str()) {
            return false;
        }
        self.forget_old(now);
        if self.is_marked(payload.as_str()) {
            return false;
        }
        assert(parts@[1]@ == ps[1]);
        assert(parts@[2]@ == ps[2]);
        let expiry = parse_i64(parts[1].as_str());
        let difficulty = parse_u32(parts[2].as_str());
        let (expiry, difficulty) = match (expiry, difficulty) {
            (Some(e), Some(d)) => (e, d),
            _ => return false,
        };
        if difficulty < base_difficulty {
            return false;
        }
        if now > expiry {
            return false;
        }
        if !verify(a.challenge.as_str(), a.nonce, difficulty) {
            return false;
        }
        let ghost before = self.used@;
        self.used.push((payload, now));
        assert(self.marks() =~= before.map_values(|e: (String, i64)| (e.0@, e.1)).push((pol_payload_spec(ps), now)));
        true
    }

    /// Checks a registration's proof of life against the current time (see
    /// `check`): whatever time the clock gives, the answer is judged and
    /// remembered as `check` does at that time; when the clock gives no usable
    /// time, an answer is refused and nothing is remembered.
    pub fn check_now(&mut self, secret: &str, base_difficulty: u32, answer: Option<&PolAnswer>) -> (ok: bool)
        ensures
            base_difficulty == 0 ==> ok && final(self).marks() == old(self).marks(),
            base_difficulty != 0 && answer is None ==> !ok && final(self).marks() == old(self).marks(),
            base_difficulty != 0 && answer is Some ==> (exists|t: i64| #![trigger marks_after(secret@, base_difficulty, answer->0.challenge@, answer->0.nonce, t, old(self).marks())]
                ok == pol_accepts(secret@, base_difficulty, answer->0.challenge@, answer->0.nonce, t as int, old(self).marks())
                && final(self).marks() == marks_after(secret@, base_difficulty, answer->0.challenge@, answer->0.nonce, t, old(self).marks()))
                || (!ok && final(self).marks() == old(self).marks()),
    {
        if base_difficulty == 0 || answer.is_none() {
            return self.check(secret, base_difficulty, answer, 0);
        }
        match now_unix() {
            Some((now, _)) => self.check(secret, base_difficulty, answer, now),
            None => false,
        }
    }

    /// Forgets the payloads used ten minutes or more before `now`.
    fn forget_old(&mut self, now: i64)
        ensures
            final(self).marks() == live_marks(old(self).marks(), now as int),
    {
        let ghost m = self.marks();
        let mut kept: Vec<(String, i64)> = Vec::new();
        let mut i: usize = 0;
        proof {
            assert(m.take(0) =~= Seq::<(Seq<char>, i64)>::empty());
            assert(kept@.map_values(|e: (String, i64)| (e.0@, e.1)) =~= Seq::<(Seq<char>, i64)>::empty());
        }
        while i < self.used.len()
            invariant
                i <= self.used@.len(),
                m == self.marks(),
                m.len() == self.used@.len(),
                kept@.map_values(|e: (String, i64)| (e.0@, e.1)) == live_marks(m.take(i as int), now as int),
            decreases self.used.len() - i,
        {
            let at = self.used[i].1;
            let ghost before = kept@;
            proof {
                assert(m.take(i + 1).drop_last() =~= m.take(i as int));
                assert(m.take(i + 1).last() == m[i as int]);
                assert(m[i as int] == (self.used@[i as int].0@, self.used@[i as int].1));
            }
            if (now as i128) - (at as i128) < 600 {
                let p = self.used[i].0.clone();
                kept.push((p, at));
                assert(kept@.map_values(|e: (String, i64)| (e.0@, e.1)) =~= before.map_values(|e: (String, i64)| (e.0@, e.1)).push(m[i as int]));
            }
            i += 1;
        }
        assert(m.take(i as int) =~= m);
        self.used = kept;
    }

    fn is_marked(&self, payload: &str) -> (b: bool)
        ensures
            b == marked(self.marks(), payload@),
    {
        let mut i: usize = 0;
        while i < self.used.len()
            invariant
                i <= self.used@.len(),
                forall|j: int| 0 <= j < i ==> self.marks()[j].0 != payload@,
            decreases self.used.len() - i,
        {
            if str_eq(self.used[i].0.as_str(), payload) {
                assert(self.marks()[i as int].0 == payload@);
                return true;
            }
            i += 1;
        }
        false
    }
}

/// `getrandom::fill`: overwrites the buffer with bytes from the system's
/// random source, or reports `false` when the source fails; an empty buffer
/// asks nothing of the source and always succeeds. Which bytes it gives is
/// not stated.
#[verifier::external_body]
fn fill_random(buf: &mut Vec<u8>) -> (ok: bool)
    ensures
        final(buf)@.len() == old(buf)@.len(),
        old(buf)@.len() == 0 ==> ok,
{
    getrandom::fill(buf.as_mut_slice()).is_ok()
}

/// `n` random bytes as lower-case hexadecimal text, for salts, tokens and the
/// random part of challenges; `None` when the system has no randomness to give.
/// The text is two digits per byte, so it never holds a dot. No bytes are
/// always to be had: for `n == 0` the result is the empty text.
pub fn random_hex(n: usize) -> (r: Option<String>)
    ensures
        n == 0 ==> (r matches Some(s) && s@.len() == 0),
        r matches Some(s) ==> exists|b: Seq<u8>| b.len() == n && s@ == #[trigger] hex_lower(b),
        r matches Some(s) ==> s@.len() == 2 * n && !s@.contains('.'),
{
    let mut buf: Vec<u8> = Vec::new();
    let mut k: usize = 0;
    while k < n
        invariant
            k <= n,
            buf@.len() == k,
        decreases n - k,
    {
        buf.push(0);
        k += 1;
    }
    if !fill_random(&mut buf) {
        return None;
    }
    let s = crate::object::hex_encode(buf.as_slice());
    proof {
        lemma_hex_no_dot(buf@);
    }
    Some(s)
}

/// How long an issued challenge stays valid, in seconds.
pub const POL_TTL_SECS: i64 = 600;

/// The payload of a challenge issued at `issued` (seconds) for `difficulty`
/// bits: `rand.expiry.difficulty`, expiring ten minutes later.
pub open spec fn issued_payload(rand: Seq<char>, issued: int, difficulty: u32) -> Seq<char> {
    rand + seq!['.'] + int_text(issued + 600) + seq!['.'] + decimal(difficulty as nat)
}

/// A challenge as issued: its payload, a dot, and the payload's signature.
pub open spec fn issued_challenge(secret: Seq<char>, rand: Seq<char>, issued: int, difficulty: u32) -> Seq<char> {
    let payload = issued_payload(rand, issued, difficulty);
    payload + seq!['.'] + keyed_hash_spec(secret, payload)
}

/// Issues a challenge at time `now` (seconds) with the random part `rand`.
pub fn pol_challenge(secret: &str, rand: &str, now: i64, difficulty: u32) -> (c: String)
    requires
        now + POL_TTL_SECS <= i64::MAX,
    ensures
        c@ == issued_challenge(secret@, rand@, now as int, difficulty),
{
    let expiry = now + POL_TTL_SECS;
    let mut payload = String::new();
    push_str(&mut payload, rand);
    push_char(&mut payload, '.');
    push_str(&mut payload, i64_string(expiry).as_str());
    push_char(&mut payload, '.');
    push_str(&mut payload, decimal_string(difficulty as u64).as_str());
    assert(payload@ =~= issued_payload(rand@, now as int, difficulty));
    let signature = pol_sign(secret, payload.as_str());
    let mut c = payload;
    push_char(&mut c, '.');
    push_str(&mut c, signature.as_str());
    assert(c@ =~= issued_challenge(secret@, rand@, now as int, difficulty));
    c
}

/// Issues a challenge now: sixteen fresh random bytes in hexadecimal as its
/// random part, expiring ten minutes from the current time, signed under the
/// secret. `None` when the system has no randomness to give, or when the
/// clock is so far on that the expiry would not fit.
pub fn issue_challenge(secret: &str, difficulty: u32) -> (r: Option<String>)
    ensures
        r matches Some(c) ==> exists|rand: Seq<char>, t: i64| #![trigger issued_challenge(secret@, rand, t as int, difficulty)]
            rand.len() == 32 && !rand.contains('.') && t + 600 <= i64::MAX && c@ == issued_challenge(secret@, rand, t as int, difficulty),
{
    let rand = match random_hex(16) {
        Some(r) => r,
        None => return None,
    };
    let now = match now_unix() {
        Some((t, _)) => t,
        None => return None,
    };
    if now > i64::MAX - POL_TTL_SECS {
        return None;
    }
    let c = pol_challenge(secret, rand.as_str(), now, difficulty);
    assert(c@ == issued_challenge(secret@, rand@, now as int, difficulty));
    Some(c)
}

proof fn lemma_digits_no_dot(s: Seq<char>)
    requires
        all_digits(s),
    ensures
        !s.contains('.'),
{
    if s.contains('.') {
        let i = choose|i: int| 0 <= i < s.len() && s[i] == '.';
        assert(is_digit(s[i]));
    }
}

proof fn lemma_int_text_no_dot(n: int)
    ensures
        !int_text(n).contains('.'),
{
    if n < 0 {
        let m = (-n) as nat;
        lemma_decimal_digits(m);
        lemma_digits_no_dot(decimal(m));
        let t = int_text(n);
        if t.contains('.') {
            let i = choose|i: int| 0 <= i < t.len() && t[i] == '.';
            assert(t[i] == decimal(m)[i - 1]);
            assert(decimal(m).contains('.'));
        }
    } else {
        lemma_decimal_digits(n as nat);
        lemma_digits_no_dot(decimal(n as nat));
    }
}

proof fn lemma_hex_no_dot(bytes: Seq<u8>)
    ensures
        !hex_lower(bytes).contains('.'),
    decreases bytes.len(),
{
    if bytes.len() > 0 {
        lemma_hex_no_dot(bytes.drop_last());
        let a = hex_lower(bytes.drop_last());
        let b = seq![hex_digit((bytes.last() / 16) as nat), hex_digit((bytes.last() % 16) as nat)];
        let t = hex_lower(bytes);
        assert(t == a + b);
        if t.contains('.') {
            let i = choose|i: int| 0 <= i < t.len() && t[i] == '.';
            if i < a.len() {
                assert(a[i] == t[i]);
                assert(a.contains('.'));
            } else {
                assert(t[i] == b[i - a.len()]);
            }
        }
    }
}

/// How an issued challenge splits at its dots: its random part, its expiry,
/// its difficulty and its signature, the numbers reading back as written.
proof fn lemma_issued_parts(secret: Seq<char>, rand: Seq<char>, issued: i64, difficulty: u32)
    requires
        !rand.contains('.'),
        issued + 600 <= i64::MAX,
    ensures
        ({
            let parts = split_on(issued_challenge(secret, rand, issued as int, difficulty), '.');
            &&& parts.len() == 4
            &&& pol_payload_spec(parts) == issued_payload(rand, issued as int, difficulty)
            &&& parts[3] == keyed_hash_spec(secret, issued_payload(rand, issued as int, difficulty))
            &&& parse_signed_spec(parts[1]) == Some(issued + 600)
            &&& parse_unsigned_spec(parts[2]) == Some(difficulty as nat)
        }),
{
    let e = int_text(issued + 600);
    let d = decimal(difficulty as nat);
    let payload = issued_payload(rand, issued as int, difficulty);
    let sig = keyed_hash_spec(secret, payload);
    let c = issued_challenge(secret, rand, issued as int, difficulty);
    lemma_int_text_no_dot(issued + 600);
    lemma_decimal_digits(difficulty as nat);
    lemma_digits_no_dot(d);
    lemma_hex_no_dot(crate::object::sha256_digest(encode_utf8(secret + seq![':'] + payload)));
    assert(c =~= rand + seq!['.'] + (e + seq!['.'] + (d + seq!['.'] + sig)));
    lemma_split_cons(rand, e + seq!['.'] + (d + seq!['.'] + sig), '.');
    lemma_split_cons(e, d + seq!['.'] + sig, '.');
    lemma_split_cons(d, sig, '.');
    lemma_split_single(sig, '.');
    let parts = split_on(c, '.');
    assert(parts =~= seq![rand, e, d, sig]);
    assert(pol_payload_spec(parts) =~= payload);
    lemma_i64_text_roundtrip((issued + 600) as i64);
    lemma_u32_text_roundtrip(difficulty);
}

/// A challenge the server issued, answered before it expires with a nonce
/// that solves it, at a difficulty the server still asks for and with its
/// payload not used before, is accepted.
pub proof fn lemma_issued_challenge_accepted(
    secret: Seq<char>,
    rand: Seq<char>,
    issued: i64,
    difficulty: u32,
    base: u32,
    nonce: u64,
    now: int,
    marks: Seq<(Seq<char>, i64)>,
)
    requires
        !rand.contains('.'),
        issued + 600 <= i64::MAX,
        base <= difficulty,
        now <= issued + 600,
        pol_solved(issued_challenge(secret, rand, issued as int, difficulty), nonce, difficulty),
        !marked(live_marks(marks, now), issued_payload(rand, issued as int, difficulty)),
    ensures
        pol_accepts(secret, base, issued_challenge(secret, rand, issued as int, difficulty), nonce, now, marks),
{
    lemma_issued_parts(secret, rand, issued, difficulty);
}

/// An issued challenge expires: ten minutes after it was issued no answer to
/// it is accepted, whatever the nonce.
pub proof fn lemma_issued_challenge_expires(
    secret: Seq<char>,
    rand: Seq<char>,
    issued: i64,
    difficulty: u32,
    base: u32,
    nonce: u64,
    now: int,
    marks: Seq<(Seq<char>, i64)>,
)
    requires
        !rand.contains('.'),
        issued + 600 <= i64::MAX,
        now > issued + 600,
    ensures
        !pol_accepts(secret, base, issued_challenge(secret, rand, issued as int, difficulty), nonce, now, marks),
{
    lemma_issued_parts(secret, rand, issued, difficulty);
}

/// A challenge signed under another secret is refused: an answer is accepted
/// only when its challenge carries the signature of the server's secret.
pub proof fn lemma_unsigned_refused(secret: Seq<char>, base: u32, challenge: Seq<char>, nonce: u64, now: int, marks: Seq<(Seq<char>, i64)>)
    requires
        split_on(challenge, '.').len() == 4,
        split_on(challenge, '.')[3] != keyed_hash_spec(secret, pol_payload_spec(split_on(challenge, '.'))),
    ensures
        !pol_accepts(secret, base, challenge, nonce, now, marks),
        marks_after(secret, base, challenge, nonce, now as i64, marks) == marks,
{
}

/// An accepted answer cannot be used again while it is remembered: within ten
/// minutes of its acceptance the same challenge is refused, whatever the nonce.
pub proof fn lemma_answer_used_once(
    secret: Seq<char>,
    base: u32,
    challenge: Seq<char>,
    nonce: u64,
    accepted_at: i64,
    marks: Seq<(Seq<char>, i64)>,
    later: int,
    other_nonce: u64,
)
    requires
        pol_accepts(secret, base, challenge, nonce, accepted_at as int, marks),
        accepted_at <= later < accepted_at + 600,
    ensures
        !pol_accepts(secret, base, challenge, other_nonce, later, marks_after(secret, base, challenge, nonce, accepted_at, marks)),
{
    let payload = pol_payload_spec(split_on(challenge, '.'));
    let after = marks_after(secret, base, challenge, nonce, accepted_at, marks);
    let x = (payload, accepted_at);
    assert(after == live_marks(marks, accepted_at as int).push(x));
    assert(after.drop_last() =~= live_marks(marks, accepted_at as int));
    let live = live_marks(after, later);
    assert(live == live_marks(after.drop_last(), later).push(x));
    assert(live[live.len() - 1].0 == payload);
}

} // verus!
