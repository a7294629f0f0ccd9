use vstd::prelude::*;

use crate::history::HistoryWalk;
use crate::index::hashes_of;
use crate::refs::json_suffix;
use crate::strmap::{lemma_pairs_lookup_all, StrMap};
use crate::text::{chars_of, has_suffix, push_str, string_of_range};

verus! {

/// What a garbage collection did.
#[derive(Debug)]
pub struct GcStats {
    pub repos_scanned: usize,
    pub commits_removed: usize,
    pub objects_removed: usize,
    pub objects_kept: usize,
    pub bytes_freed: u64,
}

impl Default for GcStats {
    fn default() -> (s: GcStats)
        ensures
            s.repos_scanned == 0,
            s.commits_removed == 0,
            s.objects_removed == 0,
            s.objects_kept == 0,
            s.bytes_freed == 0,
    {
        GcStats { repos_scanned: 0, commits_removed: 0, objects_removed: 0, objects_kept: 0, bytes_freed: 0 }
    }
}

/// `s` with every trailing copy of `suffix` removed (`str::trim_end_matches`).
pub open spec fn trim_end_matches(s: Seq<char>, suffix: Seq<char>) -> Seq<char>
    decreases s.len(),
{
    if suffix.len() > 0 && has_suffix(s, suffix) {
        trim_end_matches(s.take(s.len() - suffix.len()), suffix)
    } else {
        s
    }
}

/// The commit hash a file of the commit store is named after: its name with
/// trailing `.json` removed.
pub fn commit_hash_of(file_name: &str) -> (h: String)
    ensures
        h@ == trim_end_matches(file_name@, json_suffix()),
{
    let cs = chars_of(file_name);
    let mut end: usize = cs.len();
    let ghost suffix = json_suffix();
    assert(cs@.take(end as int) =~= file_name@);
    while end >= 5 && cs[end - 5] == '.' && cs[end - 4] == 'j' && cs[end - 3] == 's' && cs[end - 2] == 'o'
        && cs[end - 1] == 'n'
        invariant
            end <= cs@.len(),
            cs@ == file_name@,
            trim_end_matches(file_name@, suffix) == trim_end_matches(cs@.take(end as int), suffix),
            suffix == json_suffix(),
        decreases end,
    {
        let ghost t = cs@.take(end as int);
        assert(t.skip(t.len() - 5) =~= suffix);
        assert(t.take(t.len() - 5) =~= cs@.take(end - 5));
        end = end - 5;
    }
    let ghost t = cs@.take(end as int);
    assert(!has_suffix(t, suffix)) by {
        if has_suffix(t, suffix) {
            assert(t.skip(t.len() - 5)[0] == t[end - 5]);
            assert(t.skip(t.len() - 5)[1] == t[end - 4]);
            assert(t.skip(t.len() - 5)[2] == t[end - 3]);
            assert(t.skip(t.len() - 5)[3] == t[end - 2]);
            assert(t.skip(t.len() - 5)[4] == t[end - 1]);
        }
    }
    string_of_range(&cs, 0, end)
}

/// What becomes of a file of the object pool.
#[derive(Debug, Clone, Copy, PartialEq, Eq)]
pub enum ObjectFate {
    Keep,
    Remove,
}

/// Whether an object is too young to collect: its age is known and below the
/// grace period. An object whose age cannot be read is not young.
pub open spec fn young(age: Option<u128>, grace: u128) -> bool {
    match age {
        Some(a) => a < grace,
        None => false,
    }
}

/// The set of the hashes a tree refers to.
pub open spec fn tree_hashes(tree: Map<Seq<char>, String>) -> Set<Seq<char>> {
    hashes_of(tree).values()
}

/// Adds to `set` every hash that `tree` refers to.
fn mark_values(set: &mut StrMap<()>, tree: &StrMap<String>)
    ensures
        final(set)@.dom() == old(set)@.dom().union(tree_hashes(tree@)),
{
    proof {
        use_type_invariant(tree);
        lemma_pairs_lookup_all(tree.pairs());
    }
    let ghost ps = tree.pairs();
    let ghost start = set@.dom();
    let n = tree.len();
    let mut i: usize = 0;
    while i < n
        invariant
            i <= n,
            n == ps.len(),
            ps == tree.pairs(),
            forall|x: int| #![trigger ps[x]] 0 <= x < ps.len() ==> tree@.contains_key(ps[x].0) && tree@[ps[x].0] == ps[x].1,
            forall|k: Seq<char>| #[trigger] tree@.contains_key(k) <==> crate::strmap::has_key(ps, k),
            forall|h: Seq<char>| #[trigger] set@.dom().contains(h) <==> (start.contains(h) || exists|x: int| 0 <= x < i && ps[x].1@ == h),
        decreases n - i,
    {
        let (_, h) = tree.pair_at(i);
        set.insert(h.clone(), ());
        proof {
            assert forall|g: Seq<char>| #[trigger] set@.dom().contains(g) <==> (start.contains(g) || exists|x: int| 0 <= x < i + 1 && ps[x].1@ == g) by {
                if g == h@ {
                    assert(ps[i as int].1@ == g);
                }
                if exists|x: int| 0 <= x < i + 1 && ps[x].1@ == g {
                    let x = choose|x: int| 0 <= x < i + 1 && ps[x].1@ == g;
                    if x < i {
                        assert(exists|y: int| 0 <= y < i && ps[y].1@ == g);
                    }
                }
            }
        }
        i += 1;
    }
    proof {
        assert forall|h: Seq<char>| #[trigger] set@.dom().contains(h) <==> start.union(tree_hashes(tree@)).contains(h) by {
            if exists|x: int| 0 <= x < n && ps[x].1@ == h {
                let x = choose|x: int| 0 <= x < n && ps[x].1@ == h;
                assert(hashes_of(tree@)[ps[x].0] == h);
                assert(hashes_of(tree@).contains_key(ps[x].0));
            }
            if tree_hashes(tree@).contains(h) {
                let k = choose|k: Seq<char>| #[trigger] hashes_of(tree@).contains_key(k) && hashes_of(tree@)[k] == h;
                let x = choose|x: int| 0 <= x < ps.len() && #[trigger] ps[x].0 == k;
                assert(ps[x].1@ == h);
            }
        }
        assert(set@.dom() =~= start.union(tree_hashes(tree@)));
    }
}

/// One garbage collection over a server's repositories and its object pool:
/// the objects that commits reachable from some branch refer to are marked;
/// unreachable commits go; then objects neither marked nor young go.
pub struct GcPass {
    marked: StrMap<()>,
    stats: GcStats,
    decided: Ghost<nat>,
    awaiting: Ghost<nat>,
}

impl GcPass {
    /// Every object decided on is counted once: as kept, as removed, or as
    /// decided for removal and not yet removed. A new pass holds it and every
    /// step keeps it.
    pub open spec fn counted_once(&self) -> bool {
        self.stats().objects_kept + self.stats().objects_removed + self.awaiting_removal() == self.decided()
    }

    /// How many objects the pass has decided on.
    pub closed spec fn decided(&self) -> nat {
        self.decided@
    }

    /// How many objects were decided for removal and not yet counted as removed.
    pub closed spec fn awaiting_removal(&self) -> nat {
        self.awaiting@
    }

    /// The hashes referred to by the reachable commits seen so far.
    pub closed spec fn marked(&self) -> Set<Seq<char>> {
        self.marked@.dom()
    }

    /// The counts so far.
    pub closed spec fn stats(&self) -> GcStats {
        self.stats
    }

    /// A pass that has seen nothing.
    pub fn new() -> (p: GcPass)
        ensures
            p.marked() == Set::<Seq<char>>::empty(),
            p.stats() == (GcStats { repos_scanned: 0, commits_removed: 0, objects_removed: 0, objects_kept: 0, bytes_freed: 0 }),
            p.decided() == 0,
            p.awaiting_removal() == 0,
            p.counted_once(),
    {
        let p = GcPass { marked: StrMap::new(), stats: GcStats::default(), decided: Ghost(0), awaiting: Ghost(0) };
        assert(p.marked() =~= Set::<Seq<char>>::empty());
        p
    }

    /// Counts a repository as scanned.
    pub fn repo_scanned(&mut self)
        requires
            old(self).stats().repos_scanned < usize::MAX,
        ensures
            final(self).marked() == old(self).marked(),
            final(self).stats() == (GcStats { repos_scanned: (old(self).stats().repos_scanned + 1) as usize, ..old(self).stats() }),
            final(self).decided() == old(self).decided(),
            final(self).awaiting_removal() == old(self).awaiting_removal(),
            old(self).counted_once() ==> final(self).counted_once(),
    {
        self.stats.repos_scanned = self.stats.repos_scanned + 1;
    }

    /// Decides on a file of a repository's commit store, given the walk over
    /// the commits reachable from its branches: a reachable commit stays, and
    /// its hash is returned so that its tree can be marked; any other is
    /// counted as removed.
    pub fn commit_file(&mut self, file_name: &str, reachable: &HistoryWalk) -> (keep: Option<String>)
        requires
            old(self).stats().commits_removed < usize::MAX,
        ensures
            final(self).marked() == old(self).marked(),
            reachable.visited().contains(trim_end_matches(file_name@, json_suffix())) ==> (keep matches Some(h)
                && h@ == trim_end_matches(file_name@, json_suffix())) && final(self).stats() == old(self).stats(),
            !reachable.visited().contains(trim_end_matches(file_name@, json_suffix())) ==> keep is None
                && final(self).stats() == (GcStats { commits_removed: (old(self).stats().commits_removed + 1) as usize, ..old(self).stats() }),
            final(self).decided() == old(self).decided(),
            final(self).awaiting_removal() == old(self).awaiting_removal(),
            old(self).counted_once() ==> final(self).counted_once(),
    {
        let hash = commit_hash_of(file_name);
        if reachable.has_visited(hash.as_str()) {
            Some(hash)
        } else {
            self.stats.commits_removed = self.stats.commits_removed + 1;
            None
        }
    }

    /// Marks the hashes a reachable commit's tree refers to.
    pub fn mark_tree(&mut self, tree: &StrMap<String>)
        ensures
            final(self).marked() == old(self).marked().union(tree_hashes(tree@)),
            final(self).stats() == old(self).stats(),
            final(self).decided() == old(self).decided(),
            final(self).awaiting_removal() == old(self).awaiting_removal(),
            old(self).counted_once() ==> final(self).counted_once(),
    {
        mark_values(&mut self.marked, tree);
    }

    /// Decides on the object stored as `prefix/name` in the pool, `age` old
    /// (nanoseconds, when known): it stays, and is counted as kept, when it is
    /// marked or younger than the grace period; otherwise it is to be removed.
    pub fn object_file(&mut self, prefix: &str, name: &str, age: Option<u128>, grace: u128) -> (fate: ObjectFate)
        requires
            old(self).stats().objects_kept < usize::MAX,
        ensures
            final(self).marked() == old(self).marked(),
            fate == (if old(self).marked().contains(prefix@ + name@) || young(age, grace) {
                ObjectFate::Keep
            } else {
                ObjectFate::Remove
            }),
            fate == ObjectFate::Keep ==> final(self).stats() == (GcStats { objects_kept: (old(self).stats().objects_kept + 1) as usize, ..old(self).stats() }),
            fate == ObjectFate::Remove ==> final(self).stats() == old(self).stats(),
            final(self).decided() == old(self).decided() + 1,
            final(self).awaiting_removal() == old(self).awaiting_removal() + if fate == ObjectFate::Remove { 1nat } else { 0nat },
            old(self).counted_once() ==> final(self).counted_once(),
    {
        let mut hash = String::new();
        push_str(&mut hash, prefix);
        push_str(&mut hash, name);
        assert(hash@ =~= prefix@ + name@);
        let is_young = match age {
            Some(a) => a < grace,
            None => false,
        };
        if self.marked.contains_key(hash.as_str()) || is_young {
            self.stats.objects_kept = self.stats.objects_kept + 1;
            self.decided = Ghost(self.decided@ + 1);
            ObjectFate::Keep
        } else {
            self.decided = Ghost(self.decided@ + 1);
            self.awaiting = Ghost(self.awaiting@ + 1);
            ObjectFate::Remove
        }
    }

    /// Counts an object of `bytes` bytes, decided for removal, as removed.
    pub fn object_removed(&mut self, bytes: u64)
        requires
            old(self).stats().bytes_freed + bytes <= u64::MAX,
            old(self).stats().objects_removed < usize::MAX,
            old(self).awaiting_removal() > 0,
        ensures
            final(self).marked() == old(self).marked(),
            final(self).stats() == (GcStats {
                bytes_freed: (old(self).stats().bytes_freed + bytes) as u64,
                objects_removed: (old(self).stats().objects_removed + 1) as usize,
                ..old(self).stats()
            }),
            final(self).decided() == old(self).decided(),
            final(self).awaiting_removal() == old(self).awaiting_removal() - 1,
            old(self).counted_once() ==> final(self).counted_once(),
    {
        self.stats.bytes_freed = self.stats.bytes_freed + bytes;
        self.stats.objects_removed = self.stats.objects_removed + 1;
        self.awaiting = Ghost((self.awaiting@ - 1) as nat);
    }

    /// The counts so far.
    pub fn counts(&self) -> (s: &GcStats)
        ensures
            *s == self.stats(),
    {
        &self.stats
    }

    /// Ends the pass with its counts. When every object decided for removal has
    /// been removed, the kept and removed objects together are exactly those
    /// decided on.
    pub fn finish(self) -> (s: GcStats)
        ensures
            s == self.stats(),
            self.counted_once() && self.awaiting_removal() == 0 ==> s.objects_kept + s.objects_removed == self.decided(),
    {
        self.stats
    }
}

/// The size of a repository at a tip: the bytes of the commits reachable from
/// it and of the objects those commits refer to, each counted once.
pub struct RepoSize {
    objects: StrMap<()>,
    bytes: u64,
}

impl RepoSize {
    /// The bytes counted so far.
    pub closed spec fn total(&self) -> nat {
        self.bytes as nat
    }

    /// The objects referred to by the commits counted so far.
    pub closed spec fn objects(&self) -> Set<Seq<char>> {
        self.objects@.dom()
    }

    /// Nothing counted yet.
    pub fn new() -> (r: RepoSize)
        ensures
            r.total() == 0,
            r.objects() == Set::<Seq<char>>::empty(),
    {
        let r = RepoSize { objects: StrMap::new(), bytes: 0 };
        assert(r.objects() =~= Set::<Seq<char>>::empty());
        r
    }

    /// Counts a reachable commit: its record's bytes, and the objects of its
    /// tree when the record could be read.
    pub fn add_commit(&mut self, record_bytes: u64, tree: Option<&StrMap<String>>)
        requires
            old(self).total() + record_bytes <= u64::MAX,
        ensures
            final(self).total() == old(self).total() + record_bytes,
            final(self).objects() == match tree {
                Some(t) => old(self).objects().union(tree_hashes(t@)),
                None => old(self).objects(),
            },
    {
        self.bytes = self.bytes + record_bytes;
        if let Some(t) = tree {
            mark_values(&mut self.objects, t);
        }
    }

    /// The objects to count, each once, in hash order.
    pub fn object_list(&self) -> (v: Vec<String>)
        ensures
            forall|i: int| 0 <= i < v@.len() ==> self.objects().contains(#[trigger] v@[i]@),
            forall|h: Seq<char>| self.objects().contains(h) ==> exists|i: int| 0 <= i < v@.len() && #[trigger] v@[i]@ == h,
            forall|i: int, j: int| 0 <= i < j < v@.len() ==> crate::text::seq_lt(#[trigger] v@[i]@, #[trigger] v@[j]@),
    {
        proof {
            use_type_invariant(&self.objects);
            lemma_pairs_lookup_all(self.objects.pairs());
        }
        let v = self.objects.keys();
        proof {
            let ps = self.objects.pairs();
            assert forall|i: int| 0 <= i < v@.len() implies self.objects().contains(#[trigger] v@[i]@) by {
                assert(v@[i]@ == ps[i].0);
            }
            assert forall|h: Seq<char>| self.objects().contains(h) implies exists|i: int| 0 <= i < v@.len() && #[trigger] v@[i]@ == h by {
                let i = choose|i: int| 0 <= i < ps.len() && #[trigger] ps[i].0 == h;
                assert(v@[i]@ == h);
            }
            assert forall|i: int, j: int| 0 <= i < j < v@.len() implies crate::text::seq_lt(#[trigger] v@[i]@, #[trigger] v@[j]@) by {
                assert(v@[i]@ == ps[i].0 && v@[j]@ == ps[j].0);
            }
        }
        v
    }

    /// Counts an object's bytes.
    pub fn add_object(&mut self, bytes: u64)
        requires
            old(self).total() + bytes <= u64::MAX,
        ensures
            final(self).total() == old(self).total() + bytes,
            final(self).objects() == old(self).objects(),
    {
        self.bytes = self.bytes + bytes;
    }

    /// The bytes counted.
    pub fn bytes(&self) -> (b: u64)
        ensures
            b == self.total(),
    {
        self.bytes
    }
}

} // verus!
