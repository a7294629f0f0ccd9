use vstd::prelude::*;

use crate::index::IndexEntry;
use crate::strmap::{has_key, lemma_pairs_lookup_all, StrMap};

verus! {

/// A file of the work tree, by the hash of its content.
#[derive(Debug, Clone)]
pub struct WorkFile {
    pub hash: String,
}

/// How the work tree and staging area differ from the checked-out commit.
#[derive(Debug)]
pub struct Status {
    pub staged_new: Vec<String>,
    pub staged_modified: Vec<String>,
    pub staged_deleted: Vec<String>,
    pub unstaged_modified: Vec<String>,
    pub unstaged_deleted: Vec<String>,
    pub untracked: Vec<String>,
}

/// A list of strings as character sequences.
pub open spec fn strs(v: Seq<String>) -> Seq<Seq<char>> {
    v.map_values(|s: String| s@)
}

/// The keys of `ps`, in order, whose pair passes `keep`.
pub open spec fn keys_where<V>(ps: Seq<(Seq<char>, V)>, keep: spec_fn(Seq<char>, V) -> bool) -> Seq<Seq<char>>
    decreases ps.len(),
{
    if ps.len() == 0 {
        seq![]
    } else {
        let before = keys_where(ps.drop_last(), keep);
        if keep(ps.last().0, ps.last().1) {
            before.push(ps.last().0)
        } else {
            before
        }
    }
}

pub proof fn lemma_keys_where_step<V>(ps: Seq<(Seq<char>, V)>, i: int, keep: spec_fn(Seq<char>, V) -> bool)
    requires
        0 <= i < ps.len(),
    ensures
        keys_where(ps.take(i + 1), keep) == if keep(ps[i].0, ps[i].1) {
            keys_where(ps.take(i), keep).push(ps[i].0)
        } else {
            keys_where(ps.take(i), keep)
        },
{
    assert(ps.take(i + 1).drop_last() == ps.take(i));
    assert(ps.take(i + 1).last() == ps[i]);
}

pub proof fn lemma_keys_where_empty<V>(ps: Seq<(Seq<char>, V)>, keep: spec_fn(Seq<char>, V) -> bool)
    ensures
        keys_where(ps, keep).len() == 0 <==> forall|j: int| 0 <= j < ps.len() ==> !keep(#[trigger] ps[j].0, ps[j].1),
    decreases ps.len(),
{
    if ps.len() > 0 {
        lemma_keys_where_empty(ps.drop_last(), keep);
        if keys_where(ps, keep).len() == 0 {
            assert forall|j: int| 0 <= j < ps.len() implies !keep(#[trigger] ps[j].0, ps[j].1) by {
                if j < ps.len() - 1 {
                    assert(ps.drop_last()[j] == ps[j]);
                }
            }
        } else {
            if forall|j: int| 0 <= j < ps.len() ==> !keep(#[trigger] ps[j].0, ps[j].1) {
                assert forall|j: int| 0 <= j < ps.drop_last().len() implies !keep(#[trigger] ps.drop_last()[j].0, ps.drop_last()[j].1) by {
                    assert(ps.drop_last()[j] == ps[j]);
                }
                assert(!keep(ps[ps.len() - 1].0, ps[ps.len() - 1].1));
            }
        }
    }
}

/// Staged paths that the commit does not have.
pub open spec fn staged_new_spec(head: Map<Seq<char>, String>) -> spec_fn(Seq<char>, IndexEntry) -> bool {
    |k: Seq<char>, e: IndexEntry| !head.contains_key(k)
}

/// Staged paths whose content differs from the commit's.
pub open spec fn staged_modified_spec(head: Map<Seq<char>, String>) -> spec_fn(Seq<char>, IndexEntry) -> bool {
    |k: Seq<char>, e: IndexEntry| head.contains_key(k) && head[k]@ != e.hash@
}

/// Staged paths missing from the work tree.
pub open spec fn unstaged_deleted_spec(work: Map<Seq<char>, WorkFile>) -> spec_fn(Seq<char>, IndexEntry) -> bool {
    |k: Seq<char>, e: IndexEntry| !work.contains_key(k)
}

/// Staged paths whose work tree content differs from the staged one.
pub open spec fn unstaged_modified_spec(work: Map<Seq<char>, WorkFile>) -> spec_fn(Seq<char>, IndexEntry) -> bool {
    |k: Seq<char>, e: IndexEntry| work.contains_key(k) && work[k].hash@ != e.hash@
}

/// Paths that are not staged.
pub open spec fn not_staged_spec<V>(index: Map<Seq<char>, IndexEntry>) -> spec_fn(Seq<char>, V) -> bool {
    |k: Seq<char>, v: V| !index.contains_key(k)
}

impl Status {
    /// Nothing staged or changed (untracked files do not count).
    pub open spec fn clean_spec(&self) -> bool {
        &&& self.staged_new@.len() == 0
        &&& self.staged_modified@.len() == 0
        &&& self.staged_deleted@.len() == 0
        &&& self.unstaged_modified@.len() == 0
        &&& self.unstaged_deleted@.len() == 0
    }

    /// Whether nothing is staged or changed; untracked files do not count.
    pub fn is_clean(&self) -> (b: bool)
        ensures
            b == self.clean_spec(),
    {
        self.staged_new.len() == 0 && self.staged_modified.len() == 0
            && self.staged_deleted.len() == 0 && self.unstaged_modified.len() == 0
            && self.unstaged_deleted.len() == 0
    }
}

/// What `classify` reports for a commit tree, staging area and work tree:
/// each list in path order.
pub open spec fn classify_spec(
    s: Status,
    head: StrMap<String>,
    index: StrMap<IndexEntry>,
    workdir: StrMap<WorkFile>,
) -> bool {
    &&& strs(s.staged_new@) == keys_where(index.pairs(), staged_new_spec(head@))
    &&& strs(s.staged_modified@) == keys_where(index.pairs(), staged_modified_spec(head@))
    &&& strs(s.staged_deleted@) == keys_where(head.pairs(), not_staged_spec::<String>(index@))
    &&& strs(s.unstaged_modified@) == keys_where(index.pairs(), unstaged_modified_spec(workdir@))
    &&& strs(s.unstaged_deleted@) == keys_where(index.pairs(), unstaged_deleted_spec(workdir@))
    &&& strs(s.untracked@) == keys_where(workdir.pairs(), not_staged_spec::<WorkFile>(index@))
}

/// The keys of `m` that `other` lacks, in key order.
fn keys_missing_from<V, W>(m: &StrMap<V>, other: &StrMap<W>) -> (out: Vec<String>)
    ensures
        strs(out@) == keys_where(m.pairs(), not_staged_spec_w::<V, W>(other@)),
{
    let mut out: Vec<String> = Vec::new();
    let n = m.len();
    let mut i: usize = 0;
    while i < n
        invariant
            n == m.pairs().len(),
            i <= n,
            strs(out@) == keys_where(m.pairs().take(i as int), not_staged_spec_w::<V, W>(other@)),
        decreases n - i,
    {
        let (path, _) = m.pair_at(i);
        proof {
            lemma_keys_where_step(m.pairs(), i as int, not_staged_spec_w::<V, W>(other@));
        }
        if !other.contains_key(path.as_str()) {
            let ghost before = out@;
            out.push(path.clone());
            assert(strs(out@) == strs(before).push(path@));
        }
        i += 1;
    }
    assert(m.pairs().take(n as int) == m.pairs());
    out
}

/// Keys that another map lacks.
pub open spec fn not_staged_spec_w<V, W>(other: Map<Seq<char>, W>) -> spec_fn(Seq<char>, V) -> bool {
    |k: Seq<char>, v: V| !other.contains_key(k)
}

/// Compares the commit tree, the staging area and the work tree.
pub fn classify(
    head: &StrMap<String>,
    index: &StrMap<IndexEntry>,
    workdir: &StrMap<WorkFile>,
) -> (s: Status)
    ensures
        classify_spec(s, *head, *index, *workdir),
{
    let mut staged_new: Vec<String> = Vec::new();
    let mut staged_modified: Vec<String> = Vec::new();
    let mut unstaged_modified: Vec<String> = Vec::new();
    let mut unstaged_deleted: Vec<String> = Vec::new();
    let n = index.len();
    let ghost ps = index.pairs();
    let mut i: usize = 0;
    while i < n
        invariant
            n == ps.len(),
            ps == index.pairs(),
            i <= n,
            strs(staged_new@) == keys_where(ps.take(i as int), staged_new_spec(head@)),
            strs(staged_modified@) == keys_where(ps.take(i as int), staged_modified_spec(head@)),
            strs(unstaged_modified@) == keys_where(ps.take(i as int), unstaged_modified_spec(workdir@)),
            strs(unstaged_deleted@) == keys_where(ps.take(i as int), unstaged_deleted_spec(workdir@)),
        decreases n - i,
    {
        let (path, entry) = index.pair_at(i);
        proof {
            lemma_keys_where_step(ps, i as int, staged_new_spec(head@));
            lemma_keys_where_step(ps, i as int, staged_modified_spec(head@));
            lemma_keys_where_step(ps, i as int, unstaged_modified_spec(workdir@));
            lemma_keys_where_step(ps, i as int, unstaged_deleted_spec(workdir@));
        }
        match head.get(path.as_str()) {
            None => {
                let ghost before = staged_new@;
                staged_new.push(path.clone());
                assert(strs(staged_new@) == strs(before).push(path@));
            },
            Some(h) => {
                if *h != entry.hash {
                    let ghost before = staged_modified@;
                    staged_modified.push(path.clone());
                    assert(strs(staged_modified@) == strs(before).push(path@));
                }
            },
        }
        match workdir.get(path.as_str()) {
            None => {
                let ghost before = unstaged_deleted@;
                unstaged_deleted.push(path.clone());
                assert(strs(unstaged_deleted@) == strs(before).push(path@));
            },
            Some(w) => {
                if w.hash != entry.hash {
                    let ghost before = unstaged_modified@;
                    unstaged_modified.push(path.clone());
                    assert(strs(unstaged_modified@) == strs(before).push(path@));
                }
            },
        }
        i += 1;
    }
    assert(ps.take(n as int) == ps);
    let staged_deleted = keys_missing_from(head, index);
    let untracked = keys_missing_from(workdir, index);
    assert(not_staged_spec_w::<String, IndexEntry>(index@) == not_staged_spec::<String>(index@));
    assert(not_staged_spec_w::<WorkFile, IndexEntry>(index@) == not_staged_spec::<WorkFile>(index@));
    Status { staged_new, staged_modified, staged_deleted, unstaged_modified, unstaged_deleted, untracked }
}

/// Nothing is staged or changed exactly when the staging area holds the
/// commit's paths with the commit's contents, and the work tree holds every
/// staged path with the staged content.
pub proof fn lemma_clean_iff_in_sync(
    s: Status,
    head: StrMap<String>,
    index: StrMap<IndexEntry>,
    workdir: StrMap<WorkFile>,
)
    requires
        classify_spec(s, head, index, workdir),
        crate::strmap::sorted_keys(head.pairs()),
        crate::strmap::sorted_keys(index.pairs()),
        crate::strmap::sorted_keys(workdir.pairs()),
    ensures
        s.clean_spec() <==> forall|k: Seq<char>| #![trigger index@.contains_key(k)] #![trigger head@.contains_key(k)]
            (index@.contains_key(k) <==> head@.contains_key(k))
            && (index@.contains_key(k) ==> head@[k]@ == index@[k].hash@ && workdir@.contains_key(k)
                && workdir@[k].hash@ == index@[k].hash@),
{
    lemma_pairs_lookup_all(head.pairs());
    lemma_pairs_lookup_all(index.pairs());
    lemma_pairs_lookup_all(workdir.pairs());
    let ip = index.pairs();
    let hp = head.pairs();
    lemma_keys_where_empty(ip, staged_new_spec(head@));
    lemma_keys_where_empty(ip, staged_modified_spec(head@));
    lemma_keys_where_empty(hp, not_staged_spec::<String>(index@));
    lemma_keys_where_empty(ip, unstaged_modified_spec(workdir@));
    lemma_keys_where_empty(ip, unstaged_deleted_spec(workdir@));
    let in_sync = forall|k: Seq<char>| #![trigger index@.contains_key(k)] #![trigger head@.contains_key(k)]
        (index@.contains_key(k) <==> head@.contains_key(k))
        && (index@.contains_key(k) ==> head@[k]@ == index@[k].hash@ && workdir@.contains_key(k)
            && workdir@[k].hash@ == index@[k].hash@);
    if s.clean_spec() {
        assert forall|k: Seq<char>| #![trigger index@.contains_key(k)] #![trigger head@.contains_key(k)]
            (index@.contains_key(k) <==> head@.contains_key(k))
            && (index@.contains_key(k) ==> head@[k]@ == index@[k].hash@ && workdir@.contains_key(k)
                && workdir@[k].hash@ == index@[k].hash@) by {
            if index@.contains_key(k) {
                let j = choose|j: int| 0 <= j < ip.len() && #[trigger] ip[j].0 == k;
                assert(!staged_new_spec(head@)(ip[j].0, ip[j].1));
                assert(!staged_modified_spec(head@)(ip[j].0, ip[j].1));
                assert(!unstaged_deleted_spec(workdir@)(ip[j].0, ip[j].1));
                assert(!unstaged_modified_spec(workdir@)(ip[j].0, ip[j].1));
            }
            if head@.contains_key(k) {
                let j = choose|j: int| 0 <= j < hp.len() && #[trigger] hp[j].0 == k;
                assert(!not_staged_spec::<String>(index@)(hp[j].0, hp[j].1));
            }
        }
    }
    if in_sync {
        assert forall|j: int| 0 <= j < ip.len() implies !staged_new_spec(head@)(#[trigger] ip[j].0, ip[j].1) by {
            assert(index@.contains_key(ip[j].0));
        }
        assert forall|j: int| 0 <= j < ip.len() implies !staged_modified_spec(head@)(#[trigger] ip[j].0, ip[j].1) by {
            assert(index@.contains_key(ip[j].0));
        }
        assert forall|j: int| 0 <= j < ip.len() implies !unstaged_deleted_spec(workdir@)(#[trigger] ip[j].0, ip[j].1) by {
            assert(index@.contains_key(ip[j].0));
        }
        assert forall|j: int| 0 <= j < ip.len() implies !unstaged_modified_spec(workdir@)(#[trigger] ip[j].0, ip[j].1) by {
            assert(index@.contains_key(ip[j].0));
        }
        assert forall|j: int| 0 <= j < hp.len() implies !not_staged_spec::<String>(index@)(#[trigger] hp[j].0, hp[j].1) by {
            assert(head@.contains_key(hp[j].0));
        }
    }
}

} // verus!
