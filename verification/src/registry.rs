use vstd::prelude::*;
use vstd::utf8::encode_utf8;

use crate::index::hashes_of;
use crate::object::{content_hash, hash_bytes};
use crate::repo::{path_join, Repository};
use crate::strmap::{lemma_pairs_lookup_all, lemma_sorted_unique, pairs_to_map, sorted_keys, StrMap};
use crate::text::{push_char, push_str, str_eq};

verus! {

/// A library that a registry lists: where to fetch it and every version hash known.
#[derive(Debug, Clone)]
pub struct RegistryLib {
    pub name: String,
    pub description: Option<String>,
    pub source: String,
    pub subdir: Option<String>,
    pub hashes: Vec<String>,
}

/// A registry: when it was built and its libraries.
#[derive(Debug)]
pub struct Registry {
    pub updated: String,
    pub libs: Vec<RegistryLib>,
}

/// How many version hashes a registry keeps per library.
pub const MAX_HASHES: usize = 50;

/// A tree's pairs with the hashes taken as text.
pub open spec fn text_pairs(ps: Seq<(Seq<char>, String)>) -> Seq<(Seq<char>, Seq<char>)> {
    ps.map_values(|p: (Seq<char>, String)| (p.0, p.1@))
}

/// The text a library version is hashed from: a `path:hash` line per file, in path order.
pub open spec fn lib_text(ps: Seq<(Seq<char>, Seq<char>)>) -> Seq<char>
    decreases ps.len(),
{
    if ps.len() == 0 {
        seq![]
    } else {
        lib_text(ps.drop_last()) + ps.last().0 + seq![':'] + ps.last().1 + seq!['\n']
    }
}

/// The version hash of a library's file tree.
pub open spec fn lib_hash_spec(tree: StrMap<String>) -> Seq<char> {
    content_hash(encode_utf8(lib_text(text_pairs(tree.pairs()))))
}

/// Hash identifying one version of a library: the hash of its `path:hash` lines.
pub fn lib_hash(tree: &StrMap<String>) -> (h: String)
    ensures
        h@ == lib_hash_spec(*tree),
{
    let mut text = String::new();
    let n = tree.len();
    let ghost ps = text_pairs(tree.pairs());
    let mut i: usize = 0;
    while i < n
        invariant
            n == tree.pairs().len(),
            ps == text_pairs(tree.pairs()),
            i <= n,
            text@ == lib_text(ps.take(i as int)),
        decreases n - i,
    {
        let (path, hash) = tree.pair_at(i);
        push_str(&mut text, path.as_str());
        push_char(&mut text, ':');
        push_str(&mut text, hash.as_str());
        push_char(&mut text, '\n');
        proof {
            assert(ps.take(i + 1).drop_last() == ps.take(i as int));
            assert(ps.take(i + 1).last() == ps[i as int]);
        }
        i += 1;
    }
    assert(ps.take(n as int) == ps);
    hash_bytes(text.as_str().as_bytes())
}

/// The version hash of a library depends only on its files and their hashes,
/// not on how the tree was assembled.
pub proof fn lemma_lib_hash_depends_on_files(a: StrMap<String>, b: StrMap<String>)
    requires
        sorted_keys(a.pairs()),
        sorted_keys(b.pairs()),
        hashes_of(a@) == hashes_of(b@),
    ensures
        lib_hash_spec(a) == lib_hash_spec(b),
{
    let pa = text_pairs(a.pairs());
    let pb = text_pairs(b.pairs());
    lemma_pairs_lookup_all(a.pairs());
    lemma_pairs_lookup_all(b.pairs());
    assert(sorted_keys(pa)) by {
        assert forall|i: int, j: int| 0 <= i < j < pa.len() implies crate::text::seq_lt(#[trigger] pa[i].0, #[trigger] pa[j].0) by {
            assert(pa[i].0 == a.pairs()[i].0 && pa[j].0 == a.pairs()[j].0);
        }
    }
    assert(sorted_keys(pb)) by {
        assert forall|i: int, j: int| 0 <= i < j < pb.len() implies crate::text::seq_lt(#[trigger] pb[i].0, #[trigger] pb[j].0) by {
            assert(pb[i].0 == b.pairs()[i].0 && pb[j].0 == b.pairs()[j].0);
        }
    }
    lemma_pairs_lookup_all(pa);
    lemma_pairs_lookup_all(pb);
    assert forall|k: Seq<char>| #[trigger] pairs_to_map(pa).contains_key(k) <==> pairs_to_map(pb).contains_key(k) by {
        if crate::strmap::has_key(pa, k) {
            let i = choose|i: int| 0 <= i < pa.len() && #[trigger] pa[i].0 == k;
            assert(a.pairs()[i].0 == k);
            assert(hashes_of(a@).contains_key(k));
            assert(hashes_of(b@).contains_key(k));
            let j = choose|j: int| 0 <= j < b.pairs().len() && #[trigger] b.pairs()[j].0 == k;
            assert(pb[j].0 == k);
        }
        if crate::strmap::has_key(pb, k) {
            let i = choose|i: int| 0 <= i < pb.len() && #[trigger] pb[i].0 == k;
            assert(b.pairs()[i].0 == k);
            assert(hashes_of(b@).contains_key(k));
            assert(hashes_of(a@).contains_key(k));
            let j = choose|j: int| 0 <= j < a.pairs().len() && #[trigger] a.pairs()[j].0 == k;
            assert(pa[j].0 == k);
        }
    }
    assert forall|k: Seq<char>| #[trigger] pairs_to_map(pa).contains_key(k) implies pairs_to_map(pa)[k] == pairs_to_map(pb)[k] by {
        let i = choose|i: int| 0 <= i < pa.len() && #[trigger] pa[i].0 == k;
        assert(a.pairs()[i].0 == k);
        assert(hashes_of(a@)[k] == pa[i].1);
        assert(pairs_to_map(pb).contains_key(k));
        let j = choose|j: int| 0 <= j < pb.len() && #[trigger] pb[j].0 == k;
        assert(b.pairs()[j].0 == k);
        assert(hashes_of(b@)[k] == pb[j].1);
    }
    assert(pairs_to_map(pa) =~= pairs_to_map(pb));
    lemma_sorted_unique(pa, pb);
}

impl Registry {
    /// Where a repository keeps the last registry it fetched.
    pub fn cache_path(repo: &Repository) -> (p: String)
        ensures
            p@ == path_join(repo.fvcs_spec(), seq!['r', 'e', 'g', 'i', 's', 't', 'r', 'y', '-', 'c', 'a', 'c', 'h', 'e', '.', 'j', 's', 'o', 'n']),
    {
        proof { reveal_strlit("registry-cache.json"); }
        crate::repo::join(repo.fvcs().as_str(), "registry-cache.json")
    }
}

/// Views of a list of strings.
pub open spec fn strs(v: Seq<String>) -> Seq<Seq<char>> {
    v.map_values(|s: String| s@)
}

/// The version hashes after recording `hash` as the newest: put in front and
/// cut to `MAX_HASHES`, unless it is the newest already.
pub open spec fn hashes_after(old: Seq<Seq<char>>, hash: Seq<char>) -> Seq<Seq<char>> {
    if old.len() > 0 && old[0] == hash {
        old
    } else {
        let added = seq![hash] + old;
        if added.len() > MAX_HASHES { added.take(MAX_HASHES as int) } else { added }
    }
}

/// Recording a version makes it the newest: it comes first afterwards, even when
/// it was known as an older version. A version that was not the newest goes in
/// front of all the others, which keep their order, and the list keeps at most
/// 50 hashes; recording the newest again changes nothing.
pub proof fn lemma_recorded_version_first(old: Seq<Seq<char>>, hash: Seq<char>)
    ensures
        hashes_after(old, hash).len() > 0,
        hashes_after(old, hash)[0] == hash,
        old.len() > 0 && old[0] == hash ==> hashes_after(old, hash) == old,
        !(old.len() > 0 && old[0] == hash) ==> {
            let r = hashes_after(old, hash);
            &&& r.len() == if old.len() + 1 > 50 { 50 } else { old.len() + 1 }
            &&& forall|i: int| 0 <= i < r.len() - 1 ==> #[trigger] r[i + 1] == old[i]
        },
{
    if !(old.len() > 0 && old[0] == hash) {
        let added = seq![hash] + old;
        assert(added[0] == hash);
        let r = hashes_after(old, hash);
        assert forall|i: int| 0 <= i < r.len() - 1 implies #[trigger] r[i + 1] == old[i] by {
            assert(added[i + 1] == old[i]);
        }
    }
}

/// Position of the library named `name`, if listed.
pub fn find_registry_lib(libs: &Vec<RegistryLib>, name: &str) -> (r: Option<usize>)
    ensures
        match r {
            Some(i) => i < libs@.len() && libs@[i as int].name@ == name@
                && forall|m: int| 0 <= m < i ==> libs@[m].name@ != name@,
            None => forall|m: int| 0 <= m < libs@.len() ==> libs@[m].name@ != name@,
        },
{
    let mut i: usize = 0;
    while i < libs.len()
        invariant
            i <= libs@.len(),
            forall|m: int| 0 <= m < i ==> libs@[m].name@ != name@,
        decreases libs.len() - i,
    {
        if str_eq(libs[i].name.as_str(), name) {
            return Some(i);
        }
        i += 1;
    }
    None
}

/// Records that the library `name` is now at version `hash`: a listed library
/// gets the hash in front of its known hashes (older ones are kept, up to
/// `MAX_HASHES` in all) and the new description if one is given; an unlisted
/// library is added with no source.
pub fn record_version(reg: &mut Registry, name: String, hash: String, description: Option<String>)
    ensures
        final(reg).updated == old(reg).updated,
        match find_first(old(reg).libs@, name@) {
            Some(i) => {
                &&& final(reg).libs@.len() == old(reg).libs@.len()
                &&& forall|m: int| 0 <= m < old(reg).libs@.len() && m != i ==> final(reg).libs@[m] == old(reg).libs@[m]
                &&& final(reg).libs@[i].name == old(reg).libs@[i].name
                &&& final(reg).libs@[i].source == old(reg).libs@[i].source
                &&& final(reg).libs@[i].subdir == old(reg).libs@[i].subdir
                &&& final(reg).libs@[i].description == if description is Some { description } else { old(reg).libs@[i].description }
                &&& strs(final(reg).libs@[i].hashes@) == hashes_after(strs(old(reg).libs@[i].hashes@), hash@)
            },
            None => {
                &&& final(reg).libs@.len() == old(reg).libs@.len() + 1
                &&& forall|m: int| 0 <= m < old(reg).libs@.len() ==> final(reg).libs@[m] == old(reg).libs@[m]
                &&& final(reg).libs@.last().name == name
                &&& final(reg).libs@.last().description == description
                &&& final(reg).libs@.last().source@ == Seq::<char>::empty()
                &&& final(reg).libs@.last().subdir is None
                &&& strs(final(reg).libs@.last().hashes@) == seq![hash@]
            },
        },
{
    match find_registry_lib(&reg.libs, name.as_str()) {
        Some(i) => {
            let mut lib = reg.libs.remove(i);
            let ghost old_hashes = strs(lib.hashes@);
            let is_newest = lib.hashes.len() > 0 && str_eq(lib.hashes[0].as_str(), hash.as_str());
            if !is_newest {
                lib.hashes.insert(0, hash);
                if lib.hashes.len() > MAX_HASHES {
                    lib.hashes.truncate(MAX_HASHES);
                }
                proof {
                    assert(strs(lib.hashes@) =~= hashes_after(old_hashes, hash@));
                }
            }
            if description.is_some() {
                lib.description = description;
            }
            reg.libs.insert(i, lib);
        },
        None => {
            let mut hashes: Vec<String> = Vec::new();
            hashes.push(hash);
            reg.libs.push(RegistryLib {
                name: name,
                description: description,
                source: String::new(),
                subdir: None,
                hashes: hashes,
            });
            proof {
                assert(strs(reg.libs@.last().hashes@) =~= seq![hash@]);
            }
        },
    }
}

/// The position of the first library named `name`.
pub open spec fn find_first(libs: Seq<RegistryLib>, name: Seq<char>) -> Option<int> {
    if exists|i: int| 0 <= i < libs.len() && libs[i].name@ == name {
        Some(choose|i: int| 0 <= i < libs.len() && libs[i].name@ == name
            && forall|m: int| 0 <= m < i ==> libs[m].name@ != name)
    } else {
        None
    }
}

} // verus!
