use vstd::prelude::*;
use vstd::utf8::encode_utf8;

use crate::repo::{join, path_join};
use crate::strmap::StrMap;
use crate::text::{chars_of, char_width, lemma_encode_utf8_len, owned, push_str, string_of_range, utf8_len, utf8_longer_than};

verus! {

/// The identity that commits are signed with.
#[derive(Debug)]
pub struct User {
    pub name: Option<String>,
    pub email: Option<String>,
}

/// Settings kept in the user's home folder: the identity and a login token per server.
pub struct GlobalConfig {
    pub user: User,
    pub servers: StrMap<String>,
}

/// `s` without its trailing `/` characters.
pub open spec fn trim_trailing_slashes(s: Seq<char>) -> Seq<char>
    decreases s.len(),
{
    if s.len() > 0 && s.last() == '/' {
        trim_trailing_slashes(s.drop_last())
    } else {
        s
    }
}

/// Position of the last `c` in `s`.
pub open spec fn last_index_of(s: Seq<char>, c: char) -> Option<int>
    decreases s.len(),
{
    if s.len() == 0 {
        None
    } else if s.last() == c {
        Some(s.len() - 1)
    } else {
        last_index_of(s.drop_last(), c)
    }
}

/// The server part of a repository URL, under which login tokens are kept:
/// trailing `/` removed, then everything from the last `/` on cut off when
/// that `/` lies more than `"https://".len()` bytes in.
pub open spec fn server_key_spec(url: Seq<char>) -> Seq<char> {
    let t = trim_trailing_slashes(url);
    match last_index_of(t, '/') {
        Some(k) => if encode_utf8(t.take(k)).len() > 8 { t.take(k) } else { t },
        None => t,
    }
}

/// How the commit author is written: `name <email>`, or the bare name.
pub open spec fn author_spec(name: Option<Seq<char>>, email: Option<Seq<char>>) -> Option<Seq<char>> {
    match (name, email) {
        (Some(n), Some(e)) => Some(n + seq![' ', '<'] + e + seq!['>']),
        (Some(n), None) => Some(n),
        _ => None,
    }
}

pub open spec fn opt_view(o: Option<String>) -> Option<Seq<char>> {
    match o {
        Some(s) => Some(s@),
        None => None,
    }
}

/// The length of `cs` without its trailing `/` characters.
pub(crate) fn trimmed_len(cs: &Vec<char>) -> (n: usize)
    ensures
        n <= cs.len(),
        cs@.take(n as int) == trim_trailing_slashes(cs@),
{
    let mut n = cs.len();
    assert(cs@.take(n as int) == cs@);
    while n > 0 && cs[n - 1] == '/'
        invariant
            n <= cs.len(),
            trim_trailing_slashes(cs@) == trim_trailing_slashes(cs@.take(n as int)),
        decreases n,
    {
        assert(cs@.take(n as int).drop_last() == cs@.take(n - 1));
        n -= 1;
    }
    n
}

/// The key under which the token for `url`'s server is kept.
pub fn server_key(url: &str) -> (k: String)
    ensures
        k@ == server_key_spec(url@),
{
    let cs = chars_of(url);
    let n = trimmed_len(&cs);
    let ghost t = cs@.take(n as int);
    let mut k = n;
    assert(t.take(n as int) == t);
    assert(cs@.subrange(0, n as int) == t);
    while k > 0 && cs[k - 1] != '/'
        invariant
            k <= n <= cs.len(),
            t == cs@.take(n as int),
            last_index_of(t, '/') == last_index_of(t.take(k as int), '/'),
        decreases k,
    {
        assert(t.take(k as int).drop_last() == t.take(k - 1));
        k -= 1;
    }
    if k == 0 {
        assert(t.take(0).len() == 0);
        return string_of_range(&cs, 0, n);
    }
    let split = k - 1;
    assert(t.take(k as int).last() == '/');
    assert(last_index_of(t, '/') == Some(split as int));
    assert(t.take(k as int).take(split as int) == t.take(split as int));
    let head = string_of_range(&cs, 0, split);
    assert(head@ == t.take(split as int));
    assert(cs@.take(split as int) == t.take(split as int));
    if utf8_longer_than(&cs, split, 8) {
        head
    } else {
        string_of_range(&cs, 0, n)
    }
}

/// The login token kept for a server is the one found for its base URL
/// `scheme://host`, for the URL of any of its repositories, `scheme://host/repo`,
/// and for that URL with a trailing `/`: all three have the base URL as their key.
pub proof fn lemma_server_key_of_repo_url(scheme: Seq<char>, host: Seq<char>, repo: Seq<char>)
    requires
        scheme == seq!['h', 't', 't', 'p'] || scheme == seq!['h', 't', 't', 'p', 's'],
        host.len() > 0,
        !host.contains('/'),
        scheme.len() + 3 + host.len() > 8,
        repo.len() > 0,
        !repo.contains('/'),
    ensures
        ({
            let base = scheme + seq![':', '/', '/'] + host;
            &&& server_key_spec(base) == base
            &&& server_key_spec(base + seq!['/'] + repo) == base
            &&& server_key_spec(base + seq!['/'] + repo + seq!['/']) == base
        }),
{
    let head = scheme + seq![':', '/'];
    let base = scheme + seq![':', '/', '/'] + host;
    let url = base + seq!['/'] + repo;
    assert(base =~= head + seq!['/'] + host);
    assert(host.last() != '/') by {
        assert(host.contains(host.last()) && host[host.len() - 1] == host.last());
    }
    assert(repo.last() != '/') by {
        assert(repo[repo.len() - 1] == repo.last());
    }
    assert(base.last() == host.last());
    assert(url.last() == repo.last());
    assert(trim_trailing_slashes(base) == base);
    assert(trim_trailing_slashes(url) == url);
    assert((url + seq!['/']).drop_last() =~= url);
    assert(trim_trailing_slashes(url + seq!['/']) == url);
    lemma_last_index_after(head, '/', host);
    lemma_last_index_after(base, '/', repo);
    assert(base.take(head.len() as int) =~= head);
    assert(url.take(base.len() as int) =~= base);
    lemma_ascii_utf8_len(head);
    lemma_encode_utf8_len(head);
    lemma_encode_utf8_len(base);
    lemma_utf8_len_at_least(base);
}

/// In `a + [c] + b` with no `c` in `b`, the last `c` is the one after `a`.
proof fn lemma_last_index_after(a: Seq<char>, c: char, b: Seq<char>)
    requires
        !b.contains(c),
    ensures
        last_index_of(a + seq![c] + b, c) == Some(a.len() as int),
    decreases b.len(),
{
    let s = a + seq![c] + b;
    if b.len() == 0 {
        assert(s.last() == c);
    } else {
        assert(b[b.len() - 1] != c);
        assert(s.last() == b.last());
        assert(s.drop_last() =~= a + seq![c] + b.drop_last());
        assert(!b.drop_last().contains(c)) by {
            if b.drop_last().contains(c) {
                let i = choose|i: int| 0 <= i < b.drop_last().len() && b.drop_last()[i] == c;
                assert(b[i] == c);
            }
        }
        lemma_last_index_after(a, c, b.drop_last());
    }
}

proof fn lemma_ascii_utf8_len(s: Seq<char>)
    requires
        forall|i: int| 0 <= i < s.len() ==> (s[i] as u32) <= 0x7f,
    ensures
        utf8_len(s) == s.len(),
    decreases s.len(),
{
    if s.len() > 0 {
        assert(s.last() == s[s.len() - 1]);
        lemma_ascii_utf8_len(s.drop_last());
    }
}

proof fn lemma_utf8_len_at_least(s: Seq<char>)
    ensures
        utf8_len(s) >= s.len(),
    decreases s.len(),
{
    if s.len() > 0 {
        assert(char_width(s.last()) >= 1);
        lemma_utf8_len_at_least(s.drop_last());
    }
}

impl GlobalConfig {
    /// Where the settings file lies in the home folder `home`.
    pub fn path(home: &str) -> (p: String)
        ensures
            p@ == path_join(home@, seq!['.', 'f', 'v', 'c', 's', 'c', 'o', 'n', 'f', 'i', 'g']),
    {
        proof { reveal_strlit(".fvcsconfig"); }
        join(home, ".fvcsconfig")
    }

    /// The token stored for the server of `url`.
    pub fn token_for(&self, url: &str) -> (t: Option<&String>)
        ensures
            match t {
                Some(v) => self.servers@.contains_key(server_key_spec(url@)) && *v == self.servers@[server_key_spec(url@)],
                None => !self.servers@.contains_key(server_key_spec(url@)),
            },
    {
        let key = server_key(url);
        self.servers.get(key.as_str())
    }

    /// The author line for commits, when a name is set.
    pub fn author(&self) -> (a: Option<String>)
        ensures
            opt_view(a) == author_spec(opt_view(self.user.name), opt_view(self.user.email)),
    {
        match (&self.user.name, &self.user.email) {
            (Some(name), Some(email)) => {
                let mut out = owned(name.as_str());
                proof { reveal_strlit(" <"); reveal_strlit(">"); }
                push_str(&mut out, " <");
                push_str(&mut out, email.as_str());
                push_str(&mut out, ">");
                Some(out)
            },
            (Some(name), None) => Some(owned(name.as_str())),
            _ => None,
        }
    }
}

} // verus!
