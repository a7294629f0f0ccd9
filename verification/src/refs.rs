use vstd::prelude::*;
use vstd::utf8::encode_utf8;

use crate::repo::{join, path_join, Repository};
use crate::text::{
    chars_of, has_prefix, has_suffix, is_ws, owned, push_str, seq_lt, starts_with, str_eq, str_lt, string_of_range, trim, trim_end, trim_start, trim_str,
    utf8_len_upto,
};

verus! {

/// What is checked out: a branch, or a commit on its own.
#[derive(Debug, Clone)]
pub enum Head {
    Branch(String),
    Detached(String),
}

/// Text that opens a branch reference in the HEAD file.
pub open spec fn heads_ref_prefix() -> Seq<char> {
    seq!['r', 'e', 'f', 's', '/', 'h', 'e', 'a', 'd', 's', '/']
}

impl Head {
    /// Whether HEAD is the branch `name`.
    pub fn is_branch(&self, name: &str) -> (b: bool)
        ensures
            b == (self matches Head::Branch(n) && n@ == name@),
    {
        match self {
            Head::Branch(n) => str_eq(n.as_str(), name),
            Head::Detached(_) => false,
        }
    }
}

/// The checkout that a HEAD file's text names: trimmed, a branch when it opens
/// with `refs/heads/`, a commit hash otherwise.
pub fn parse_head(text: &str) -> (h: Head)
    ensures
        has_prefix(trim(text@), heads_ref_prefix()) ==> (h matches Head::Branch(n)
            && n@ == trim(text@).skip(heads_ref_prefix().len() as int)),
        !has_prefix(trim(text@), heads_ref_prefix()) ==> (h matches Head::Detached(c) && c@ == trim(text@)),
{
    let t = trim_str(text);
    proof {
        reveal_strlit("refs/heads/");
        assert("refs/heads/"@ =~= heads_ref_prefix());
    }
    if starts_with(t.as_str(), "refs/heads/") {
        let cs = chars_of(t.as_str());
        let name = string_of_range(&cs, 11, cs.len());
        assert(name@ == trim(text@).skip(11));
        Head::Branch(name)
    } else {
        Head::Detached(t)
    }
}

/// HEAD reads back as it was set: the text written for branch `b` parses as
/// that branch, and a commit hash `h` written on its own parses as that commit.
/// (Surrounding white space is trimmed on reading, so the names must have none.)
pub proof fn lemma_head_reads_back(b: Seq<char>, h: Seq<char>)
    requires
        b.len() == 0 || !is_ws(b.last()),
        h.len() == 0 || (!is_ws(h[0]) && !is_ws(h.last())),
        !has_prefix(h, heads_ref_prefix()),
    ensures
        has_prefix(trim(heads_ref_prefix() + b), heads_ref_prefix()),
        trim(heads_ref_prefix() + b).skip(heads_ref_prefix().len() as int) == b,
        trim(h) == h,
        !has_prefix(trim(h), heads_ref_prefix()),
{
    let t = heads_ref_prefix() + b;
    assert(t[0] == 'r');
    assert(trim_start(t) == t);
    if b.len() > 0 {
        assert(t.last() == b.last());
    } else {
        assert(t.last() == '/');
    }
    assert(trim_end(t) == t);
    assert(t.take(heads_ref_prefix().len() as int) =~= heads_ref_prefix());
    assert(t.skip(heads_ref_prefix().len() as int) =~= b);
    if h.len() > 0 {
        assert(trim_start(h) == h);
        assert(trim_end(h) == h);
    }
}

/// The text a HEAD file holds when the branch `name` is checked out.
pub fn branch_head_text(name: &str) -> (t: String)
    ensures
        t@ == heads_ref_prefix() + name@,
{
    proof {
        reveal_strlit("refs/heads/");
        assert("refs/heads/"@ =~= heads_ref_prefix());
    }
    let mut t = owned("refs/heads/");
    push_str(&mut t, name);
    t
}

/// The file holding the tip of branch `name`.
pub fn branch_path(repo: &Repository, name: &str) -> (p: String)
    ensures
        p@ == path_join(repo.heads_spec(), name@),
{
    join(repo.heads().as_str(), name)
}

/// The file holding tag `name`.
pub fn tag_path(repo: &Repository, name: &str) -> (p: String)
    ensures
        p@ == path_join(repo.tags_spec(), name@),
{
    join(repo.tags().as_str(), name)
}

/// The file holding the commit record `hash`.
pub fn commit_path(repo: &Repository, hash: &str) -> (p: String)
    ensures
        p@ == path_join(repo.commits_spec(), hash@ + seq!['.', 'j', 's', 'o', 'n']),
{
    proof {
        reveal_strlit(".json");
        assert(".json"@ =~= seq!['.', 'j', 's', 'o', 'n']);
    }
    let mut name = owned(hash);
    push_str(&mut name, ".json");
    join(repo.commits().as_str(), name.as_str())
}

/// Ways a revision fails to resolve.
#[derive(Debug, Clone, Copy, PartialEq, Eq)]
pub enum RevError {
    /// More than one commit starts with the given hex prefix.
    Ambiguous,
    /// No branch, tag or commit goes by that name.
    Unknown,
}

/// Whether `c` is an ASCII hexadecimal digit.
pub open spec fn is_hex_char(c: char) -> bool {
    ('0' <= c && c <= '9') || ('a' <= c && c <= 'f') || ('A' <= c && c <= 'F')
}

/// Whether `rev` can stand for a commit hash prefix: at least 4 bytes, all
/// hexadecimal digits.
pub open spec fn prefix_candidate(rev: Seq<char>) -> bool {
    encode_utf8(rev).len() >= 4 && forall|i: int| 0 <= i < rev.len() ==> is_hex_char(#[trigger] rev[i])
}

/// The text `.json`, which ends the name of a stored commit record.
pub open spec fn json_suffix() -> Seq<char> {
    seq!['.', 'j', 's', 'o', 'n']
}

/// The commit hashes among the commit file names `files` that begin with `rev`.
pub open spec fn prefix_matches(files: Seq<Seq<char>>, rev: Seq<char>) -> Seq<Seq<char>>
    decreases files.len(),
{
    if files.len() == 0 {
        seq![]
    } else {
        let before = prefix_matches(files.drop_last(), rev);
        let f = files.last();
        if has_suffix(f, json_suffix()) && has_prefix(f.take(f.len() - 5), rev) {
            before.push(f.take(f.len() - 5))
        } else {
            before
        }
    }
}

/// Prefix matching finds exactly the stored commits whose hash begins with the
/// whole revision text: every hash it gives begins with `rev` and is the name of
/// a stored `.json` record, and every stored record whose name begins with `rev`
/// is found.
pub proof fn lemma_prefix_matches_exact(files: Seq<Seq<char>>, rev: Seq<char>)
    ensures
        forall|i: int| 0 <= i < prefix_matches(files, rev).len() ==> has_prefix(#[trigger] prefix_matches(files, rev)[i], rev)
            && files.contains(prefix_matches(files, rev)[i] + json_suffix()),
        forall|f: Seq<char>| files.contains(f) && has_suffix(f, json_suffix()) && has_prefix(f.take(f.len() - 5), rev)
            ==> #[trigger] prefix_matches(files, rev).contains(f.take(f.len() - 5)),
    decreases files.len(),
{
    if files.len() > 0 {
        let init = files.drop_last();
        lemma_prefix_matches_exact(init, rev);
        let before = prefix_matches(init, rev);
        let ms = prefix_matches(files, rev);
        let last = files.last();
        assert forall|x: Seq<char>| init.contains(x) implies files.contains(x) by {
            let j = choose|j: int| 0 <= j < init.len() && init[j] == x;
            assert(files[j] == x);
        }
        assert(files.contains(last)) by {
            assert(files[files.len() - 1] == last);
        }
        if has_suffix(last, json_suffix()) {
            assert(last.take(last.len() - 5) + json_suffix() =~= last);
        }
        assert forall|i: int| 0 <= i < ms.len() implies has_prefix(#[trigger] ms[i], rev)
            && files.contains(ms[i] + json_suffix()) by {
            if i < before.len() {
                assert(ms[i] == before[i]);
            }
        }
        assert forall|f: Seq<char>| files.contains(f) && has_suffix(f, json_suffix()) && has_prefix(f.take(f.len() - 5), rev)
            implies #[trigger] ms.contains(f.take(f.len() - 5)) by {
            let j = choose|j: int| 0 <= j < files.len() && files[j] == f;
            if j < files.len() - 1 {
                assert(init[j] == f);
                assert(init.contains(f));
                assert(prefix_matches(init, rev).contains(f.take(f.len() - 5)));
                let k = choose|k: int| 0 <= k < before.len() && before[k] == f.take(f.len() - 5);
                assert(ms[k] == before[k]);
            } else {
                assert(ms[ms.len() - 1] == f.take(f.len() - 5));
            }
        }
    }
}

/// A hash prefix resolves to a commit only when exactly one stored commit's
/// hash begins with the whole prefix, and then to that commit.
pub proof fn lemma_prefix_resolves(rev: Seq<char>, commit_known: bool, files: Seq<Seq<char>>)
    requires
        prefix_candidate(rev),
        !(encode_utf8(rev).len() == 64 && commit_known),
    ensures
        resolve_spec(rev, None, None, commit_known, files) matches Ok(h) ==> has_prefix(h, rev)
            && files.contains(h + json_suffix()),
{
    lemma_prefix_matches_exact(files, rev);
    let ms = prefix_matches(files, rev);
    if ms.len() == 1 {
        assert(has_prefix(ms[0], rev));
    }
}

/// What a revision names: a branch tip, else a tag, else a full commit hash that
/// is stored, else the one stored commit whose hash begins with it.
pub open spec fn resolve_spec(
    rev: Seq<char>,
    branch: Option<Seq<char>>,
    tag: Option<Seq<char>>,
    commit_known: bool,
    files: Seq<Seq<char>>,
) -> Result<Seq<char>, RevError> {
    match branch {
        Some(b) => Ok(trim(b)),
        None => match tag {
            Some(t) => Ok(trim(t)),
            None => if encode_utf8(rev).len() == 64 && commit_known {
                Ok(rev)
            } else if prefix_candidate(rev) {
                let ms = prefix_matches(files, rev);
                if ms.len() == 1 {
                    Ok(ms[0])
                } else if ms.len() == 0 {
                    Err(RevError::Unknown)
                } else {
                    Err(RevError::Ambiguous)
                }
            } else {
                Err(RevError::Unknown)
            },
        },
    }
}

pub open spec fn opt_str(o: Option<String>) -> Option<Seq<char>> {
    match o {
        Some(s) => Some(s@),
        None => None,
    }
}

/// Whether `rev` is spelled like a hash prefix, so that the stored commits must
/// be listed to resolve it.
pub fn is_prefix_candidate(rev: &str) -> (b: bool)
    ensures
        b == prefix_candidate(rev@),
{
    let cs = chars_of(rev);
    if utf8_len_upto(&cs, 4) < 4 {
        return false;
    }
    let mut i: usize = 0;
    while i < cs.len()
        invariant
            cs@ == rev@,
            i <= cs.len(),
            forall|m: int| 0 <= m < i ==> is_hex_char(#[trigger] rev@[m]),
        decreases cs.len() - i,
    {
        let c = cs[i];
        if !(('0' <= c && c <= '9') || ('a' <= c && c <= 'f') || ('A' <= c && c <= 'F')) {
            return false;
        }
        i += 1;
    }
    true
}

/// Whether `rev` is as long as a full hash (64 bytes).
pub fn is_full_hash_length(rev: &str) -> (b: bool)
    ensures
        b == (encode_utf8(rev@).len() == 64),
{
    let cs = chars_of(rev);
    utf8_len_upto(&cs, 64) == 64
}

/// The commit hashes among the file names `files` that begin with `rev`.
pub fn find_prefix_matches(files: &Vec<String>, rev: &str) -> (ms: Vec<String>)
    ensures
        ms@.map_values(|s: String| s@) == prefix_matches(files@.map_values(|s: String| s@), rev@),
{
    let ghost fs = files@.map_values(|s: String| s@);
    let mut ms: Vec<String> = Vec::new();
    let mut i: usize = 0;
    proof {
        reveal_strlit(".json");
        assert(".json"@ =~= json_suffix());
    }
    while i < files.len()
        invariant
            i <= files@.len(),
            fs == files@.map_values(|s: String| s@),
            ".json"@ == json_suffix(),
            ms@.map_values(|s: String| s@) == prefix_matches(fs.take(i as int), rev@),
        decreases files.len() - i,
    {
        let cs = chars_of(files[i].as_str());
        proof {
            assert(fs.take(i + 1).drop_last() == fs.take(i as int));
            assert(fs.take(i + 1).last() == files@[i as int]@);
        }
        if cs.len() >= 5 {
            let tail = string_of_range(&cs, cs.len() - 5, cs.len());
            let stem = string_of_range(&cs, 0, cs.len() - 5);
            assert(cs@.subrange(cs.len() - 5, cs.len() as int) == cs@.skip(cs.len() - 5));
            assert(cs@.subrange(0, cs.len() - 5) == cs@.take(cs.len() - 5));
            if str_eq(tail.as_str(), ".json") && starts_with(stem.as_str(), rev) {
                let ghost before = ms@.map_values(|s: String| s@);
                ms.push(stem);
                assert(ms@.map_values(|s: String| s@) == before.push(cs@.take(cs.len() - 5)));
            }
        }
        i += 1;
    }
    assert(fs.take(files@.len() as int) == fs);
    ms
}

/// Resolves a revision from what the repository holds under that name: the
/// branch file's text, the tag file's text, whether a commit record of that full
/// hash exists, and the names of the commit files (needed only for a hash prefix).
pub fn resolve_rev(
    rev: &str,
    branch_text: Option<String>,
    tag_text: Option<String>,
    commit_known: bool,
    commit_files: &Vec<String>,
) -> (r: Result<String, RevError>)
    ensures
        match r {
            Ok(h) => resolve_spec(rev@, opt_str(branch_text), opt_str(tag_text), commit_known,
                commit_files@.map_values(|s: String| s@)) == Ok::<Seq<char>, RevError>(h@),
            Err(e) => resolve_spec(rev@, opt_str(branch_text), opt_str(tag_text), commit_known,
                commit_files@.map_values(|s: String| s@)) == Err::<Seq<char>, RevError>(e),
        },
{
    if let Some(b) = branch_text {
        return Ok(trim_str(b.as_str()));
    }
    if let Some(t) = tag_text {
        return Ok(trim_str(t.as_str()));
    }
    if is_full_hash_length(rev) && commit_known {
        return Ok(owned(rev));
    }
    if is_prefix_candidate(rev) {
        let mut ms = find_prefix_matches(commit_files, rev);
        if ms.len() == 1 {
            let m = ms.pop().unwrap();
            return Ok(m);
        } else if ms.len() == 0 {
            return Err(RevError::Unknown);
        } else {
            return Err(RevError::Ambiguous);
        }
    }
    Err(RevError::Unknown)
}

/// The commit HEAD stands at: on a branch, the branch's tip as read from its
/// reference (`None` before the first commit); when detached, the commit itself.
pub fn current_commit(head: &Head, branch_tip: Option<String>) -> (c: Option<String>)
    ensures
        match head {
            Head::Branch(_) => c == branch_tip,
            Head::Detached(h) => c matches Some(x) && x@ == h@,
        },
{
    match head {
        Head::Branch(_) => branch_tip,
        Head::Detached(h) => Some(h.clone()),
    }
}

/// Whether the names are in order (equal names may stand side by side).
pub open spec fn names_sorted(names: Seq<Seq<char>>) -> bool {
    forall|i: int, j: int| 0 <= i < j < names.len() ==> !seq_lt(#[trigger] names[j], #[trigger] names[i])
}

/// The names of a reference folder in order, as branch and tag listings show
/// them: the same names, sorted.
pub fn sorted_ref_names(names: Vec<String>) -> (out: Vec<String>)
    ensures
        names_sorted(out@.map_values(|s: String| s@)),
        out@.map_values(|s: String| s@).to_multiset() == names@.map_values(|s: String| s@).to_multiset(),
{
    broadcast use vstd::seq_lib::group_to_multiset_ensures;
    let ghost nv = names@.map_values(|s: String| s@);
    let mut out: Vec<String> = Vec::new();
    let mut k: usize = 0;
    proof {
        assert(nv.take(0) =~= Seq::<Seq<char>>::empty());
        assert(out@.map_values(|s: String| s@) =~= Seq::<Seq<char>>::empty());
    }
    while k < names.len()
        invariant
            k <= names@.len(),
            nv == names@.map_values(|s: String| s@),
            names_sorted(out@.map_values(|s: String| s@)),
            out@.map_values(|s: String| s@).to_multiset() == nv.take(k as int).to_multiset(),
        decreases names.len() - k,
    {
        let x = names[k].clone();
        let ghost ov = out@.map_values(|s: String| s@);
        let mut p: usize = 0;
        while p < out.len() && !str_lt(x.as_str(), out[p].as_str())
            invariant
                p <= out@.len(),
                ov == out@.map_values(|s: String| s@),
                forall|i: int| 0 <= i < p ==> !seq_lt(x@, #[trigger] ov[i]),
            decreases out.len() - p,
        {
            p += 1;
        }
        let ghost xv = x@;
        out.insert(p, x);
        proof {
            let nov = out@.map_values(|s: String| s@);
            assert(nov =~= ov.insert(p as int, xv));
            assert forall|i: int, j: int| 0 <= i < j < nov.len() implies !seq_lt(#[trigger] nov[j], #[trigger] nov[i]) by {
                if j < p {
                    assert(nov[i] == ov[i] && nov[j] == ov[j]);
                } else if j == p {
                    assert(nov[i] == ov[i]);
                } else if i < p {
                    assert(nov[i] == ov[i] && nov[j] == ov[j - 1]);
                } else if i == p {
                    assert(nov[i] == xv && nov[j] == ov[j - 1]);
                    assert(seq_lt(xv, ov[p as int]));
                    if seq_lt(ov[j - 1], xv) {
                        if j - 1 > p {
                            assert(!seq_lt(ov[j - 1], ov[p as int]));
                        }
                        crate::strmap::lemma_seq_lt_transitive(ov[j - 1], xv, ov[p as int]);
                        crate::strmap::lemma_seq_lt_irreflexive(ov[p as int]);
                    }
                } else {
                    assert(nov[i] == ov[i - 1] && nov[j] == ov[j - 1]);
                }
            }
            assert(nov.remove(p as int) =~= ov);
            assert(nov[p as int] == xv);
            nov.to_multiset_ensures();
            assert(nov.remove(p as int).to_multiset() =~= nov.to_multiset().remove(nov[p as int]));
            assert(nov.to_multiset().remove(xv) == ov.to_multiset());
            assert(nov.contains(xv));
            assert(nov.to_multiset().count(xv) > 0);
            assert(nov.to_multiset() =~= ov.to_multiset().insert(xv));
            assert(xv == nv[k as int]);
            assert(nv.take(k + 1) =~= nv.take(k as int).push(xv));
            nv.take(k as int).to_multiset_ensures();
            assert(nv.take(k as int).push(xv).to_multiset() =~= nv.take(k as int).to_multiset().insert(xv));
        }
        k += 1;
    }
    assert(nv.take(k as int) =~= nv);
    out
}

} // verus!
