use vstd::prelude::*;

use crate::clock::{now_unix, rfc3339_of, rfc3339_text, MAX_CALENDAR_SECS};
use crate::index::hashes_of;
use crate::object::{content_hash, hash_bytes};
use crate::registry::text_pairs;
use crate::strmap::{lemma_pairs_lookup_all, lemma_sorted_unique, pairs_to_map, sorted_keys, StrMap};
use crate::text::str_eq;

verus! {

/// One recorded version: the tree of file hashes, the commit it follows, and
/// who recorded it when and why.
pub struct Commit {
    pub tree: StrMap<String>,
    pub parent: Option<String>,
    pub message: String,
    pub author: String,
    pub timestamp: String,
}

impl Commit {
    /// A commit of `tree` after `parent`, stamped with the time `secs` seconds and
    /// `nanos` nanoseconds after 1970 in RFC 3339; `None` where that time has no
    /// such text.
    pub fn at(tree: StrMap<String>, parent: Option<String>, message: String, author: String, secs: i64, nanos: u32) -> (r: Option<Commit>)
        ensures
            r is Some <==> rfc3339_text(secs, nanos) is Some,
            0 <= secs <= MAX_CALENDAR_SECS && nanos < 1_000_000_000 ==> r is Some,
            r matches Some(c) ==> c.tree == tree && c.parent == parent && c.message == message && c.author == author
                && rfc3339_text(secs, nanos) == Some(c.timestamp@),
    {
        match rfc3339_of(secs, nanos) {
            Some(timestamp) => Some(Commit { tree, parent, message, author, timestamp }),
            None => None,
        }
    }

    /// A commit of `tree` after `parent`, stamped with the current time; `None`
    /// when the system clock gives no usable time.
    pub fn new(tree: StrMap<String>, parent: Option<String>, message: String, author: String) -> (r: Option<Commit>)
        ensures
            r matches Some(c) ==> c.tree == tree && c.parent == parent && c.message == message && c.author == author
                && exists|t: i64, n: u32| 0 <= t && n < 1_000_000_000 && #[trigger] rfc3339_text(t, n) == Some(c.timestamp@),
    {
        match now_unix() {
            Some((secs, nanos)) => Commit::at(tree, parent, message, author, secs, nanos),
            None => None,
        }
    }
}

/// The name a commit is stored under: the content hash of its serialized record.
pub fn commit_hash(json: &[u8]) -> (h: String)
    ensures
        h@ == content_hash(json@),
{
    hash_bytes(json)
}

/// Whether two trees list the same files with the same hashes.
pub fn same_tree(a: &StrMap<String>, b: &StrMap<String>) -> (r: bool)
    ensures
        r == (hashes_of(a@) == hashes_of(b@)),
{
    proof {
        use_type_invariant(a);
        use_type_invariant(b);
        lemma_text_pairs_describe(*a);
        lemma_text_pairs_describe(*b);
    }
    let ghost pa = text_pairs(a.pairs());
    let ghost pb = text_pairs(b.pairs());
    if a.len() != b.len() {
        proof {
            if hashes_of(a@) == hashes_of(b@) {
                lemma_sorted_unique(pa, pb);
            }
        }
        return false;
    }
    let mut i: usize = 0;
    while i < a.len()
        invariant
            a.pairs().len() == b.pairs().len(),
            pa == text_pairs(a.pairs()),
            pb == text_pairs(b.pairs()),
            sorted_keys(pa),
            sorted_keys(pb),
            pairs_to_map(pa) == hashes_of(a@),
            pairs_to_map(pb) == hashes_of(b@),
            i <= a.pairs().len(),
            forall|m: int| 0 <= m < i ==> pa[m] == pb[m],
        decreases a.pairs().len() - i,
    {
        let (ka, va) = a.pair_at(i);
        let (kb, vb) = b.pair_at(i);
        if !str_eq(ka.as_str(), kb.as_str()) || !str_eq(va.as_str(), vb.as_str()) {
            proof {
                assert(pa[i as int] != pb[i as int]);
                if hashes_of(a@) == hashes_of(b@) {
                    lemma_sorted_unique(pa, pb);
                }
            }
            return false;
        }
        i += 1;
    }
    assert(pa =~= pb);
    true
}

/// A tree's text pairs are sorted and describe its hashes.
pub proof fn lemma_text_pairs_describe(t: StrMap<String>)
    requires
        sorted_keys(t.pairs()),
    ensures
        sorted_keys(text_pairs(t.pairs())),
        pairs_to_map(text_pairs(t.pairs())) == hashes_of(t@),
{
    let ps = t.pairs();
    let tp = text_pairs(ps);
    lemma_pairs_lookup_all(ps);
    assert(sorted_keys(tp)) by {
        assert forall|i: int, j: int| 0 <= i < j < tp.len() implies crate::text::seq_lt(#[trigger] tp[i].0, #[trigger] tp[j].0) by {
            assert(tp[i].0 == ps[i].0 && tp[j].0 == ps[j].0);
        }
    }
    lemma_pairs_lookup_all(tp);
    assert forall|k: Seq<char>| #[trigger] pairs_to_map(tp).contains_key(k) <==> hashes_of(t@).contains_key(k) by {
        if crate::strmap::has_key(tp, k) {
            let i = choose|i: int| 0 <= i < tp.len() && #[trigger] tp[i].0 == k;
            assert(ps[i].0 == k);
        }
        if t@.contains_key(k) {
            let i = choose|i: int| 0 <= i < ps.len() && #[trigger] ps[i].0 == k;
            assert(tp[i].0 == k);
        }
    }
    assert forall|k: Seq<char>| #[trigger] pairs_to_map(tp).contains_key(k) implies pairs_to_map(tp)[k] == hashes_of(t@)[k] by {
        let i = choose|i: int| 0 <= i < tp.len() && #[trigger] tp[i].0 == k;
        assert(ps[i].0 == k);
    }
    assert(pairs_to_map(tp) =~= hashes_of(t@));
}

/// Why a commit is refused.
#[derive(Debug, Clone, Copy, PartialEq, Eq)]
pub enum CommitError {
    /// Nothing is staged.
    NothingStaged,
    /// The staged tree is the tree of the commit it would follow.
    TreeUnchanged,
}

/// Whether a commit of `tree` may be recorded: something must be staged, and the
/// tree must differ from the parent's tree when there is a parent.
pub fn check_commit(staged: usize, parent_tree: Option<&StrMap<String>>, tree: &StrMap<String>) -> (r: Result<(), CommitError>)
    ensures
        staged == 0 ==> r == Err::<(), CommitError>(CommitError::NothingStaged),
        staged != 0 && (parent_tree matches Some(p) && hashes_of(p@) == hashes_of(tree@))
            ==> r == Err::<(), CommitError>(CommitError::TreeUnchanged),
        staged != 0 && !(parent_tree matches Some(p) && hashes_of(p@) == hashes_of(tree@)) ==> r is Ok,
{
    if staged == 0 {
        return Err(CommitError::NothingStaged);
    }
    match parent_tree {
        Some(p) => {
            if same_tree(p, tree) {
                Err(CommitError::TreeUnchanged)
            } else {
                Ok(())
            }
        },
        None => Ok(()),
    }
}

} // verus!
