use vstd::prelude::*;

use crate::strmap::{lemma_pairs_lookup_all, lemma_seq_lt_irreflexive, sorted_keys, StrMap};
use crate::text::seq_lt;

verus! {

/// One staged file: the hash of its content, its size and its modification time.
#[derive(Debug, Clone)]
pub struct IndexEntry {
    pub hash: String,
    pub size: u64,
    pub mtime: i64,
}

/// The staging area: staged files by repository-relative path.
pub struct Index {
    pub entries: StrMap<IndexEntry>,
}

/// The path-to-hash map of a set of staged entries.
pub open spec fn tree_of(entries: Map<Seq<char>, IndexEntry>) -> Map<Seq<char>, Seq<char>> {
    entries.map_values(|e: IndexEntry| e.hash@)
}

/// The view of a path-to-hash map, hashes taken as text.
pub open spec fn hashes_of(m: Map<Seq<char>, String>) -> Map<Seq<char>, Seq<char>> {
    m.map_values(|h: String| h@)
}

impl Index {
    /// An empty staging area.
    pub fn new() -> (ix: Index)
        ensures
            ix.entries@ == Map::<Seq<char>, IndexEntry>::empty(),
    {
        Index { entries: StrMap::new() }
    }

    /// The tree that committing the staging area records: each staged path with
    /// the hash of its content.
    pub fn tree(&self) -> (t: StrMap<String>)
        ensures
            hashes_of(t@) == tree_of(self.entries@),
    {
        let mut t: StrMap<String> = StrMap::new();
        let n = self.entries.len();
        let ghost ps = self.entries.pairs();
        proof {
            use_type_invariant(&self.entries);
            lemma_pairs_lookup_all(ps);
        }
        let mut i: usize = 0;
        while i < n
            invariant
                n == ps.len(),
                ps == self.entries.pairs(),
                sorted_keys(ps),
                i <= n,
                forall|k: Seq<char>| #[trigger] t@.contains_key(k) <==> exists|m: int| 0 <= m < i && ps[m].0 == k,
                forall|m: int| #![trigger ps[m]] 0 <= m < i ==> t@[ps[m].0]@ == ps[m].1.hash@,
            decreases n - i,
        {
            let (path, entry) = self.entries.pair_at(i);
            let ghost before = t@;
            t.insert(path.clone(), entry.hash.clone());
            proof {
                assert forall|k: Seq<char>| #[trigger] t@.contains_key(k) <==> exists|m: int| 0 <= m < i + 1 && ps[m].0 == k by {
                    if k == ps[i as int].0 {
                        assert(0 <= i < i + 1 && ps[i as int].0 == k);
                    }
                    if before.contains_key(k) {
                        let m = choose|m: int| 0 <= m < i && ps[m].0 == k;
                        assert(0 <= m < i + 1 && ps[m].0 == k);
                    }
                }
                assert forall|m: int| #![trigger ps[m]] 0 <= m < i + 1 implies t@[ps[m].0]@ == ps[m].1.hash@ by {
                    if m < i {
                        assert(seq_lt(ps[m].0, ps[i as int].0));
                        if ps[m].0 == ps[i as int].0 {
                            lemma_seq_lt_irreflexive(ps[m].0);
                        }
                    }
                }
            }
            i += 1;
        }
        proof {
            assert forall|k: Seq<char>| #[trigger] hashes_of(t@).contains_key(k) <==> tree_of(self.entries@).contains_key(k) by {
                if t@.contains_key(k) {
                    let m = choose|m: int| 0 <= m < n && ps[m].0 == k;
                    assert(ps[m].0 == k);
                }
                if self.entries@.contains_key(k) {
                    let m = choose|m: int| 0 <= m < ps.len() && #[trigger] ps[m].0 == k;
                    assert(0 <= m < n && ps[m].0 == k);
                }
            }
            assert forall|k: Seq<char>| #[trigger] hashes_of(t@).contains_key(k) implies hashes_of(t@)[k] == tree_of(self.entries@)[k] by {
                let m = choose|m: int| 0 <= m < n && ps[m].0 == k;
                assert(ps[m].0 == k);
            }
            assert(hashes_of(t@) =~= tree_of(self.entries@));
        }
        t
    }
}

} // verus!
