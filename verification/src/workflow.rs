use vstd::prelude::*;

use crate::config::Lib;
use crate::ignore::{pattern_matches, Ignore};
use crate::gc::tree_hashes;
use crate::history::HistoryWalk;
use crate::index::IndexEntry;
use crate::repo::{is_internal, is_internal_spec};
use crate::refs::Head;
use crate::index::hashes_of;
use crate::registry::{lib_hash, lib_hash_spec};
use crate::status::{Status, WorkFile};
use crate::strmap::{has_key, lemma_pairs_lookup_all, sorted_keys, StrMap};
use crate::text::{chars_of, has_prefix, owned, push_char, push_str, seq_lt, starts_with, str_eq, string_of_range};

verus! {

// ---------------------------------------------------------------------------
// Ordered sets of paths.

/// The paths of a sorted set, in order.
pub open spec fn set_keys(s: StrMap<()>) -> Seq<Seq<char>> {
    s.pairs().map_values(|p: (Seq<char>, ())| p.0)
}

/// The keys of a path set, in increasing order.
fn sorted_paths(s: &StrMap<()>) -> (v: Vec<String>)
    ensures
        v@.len() == s.pairs().len(),
        forall|i: int, j: int| 0 <= i < j < v@.len() ==> seq_lt(#[trigger] v@[i]@, #[trigger] v@[j]@),
        forall|k: Seq<char>| #![trigger listed(v@, k)] #![trigger s@.contains_key(k)] s@.contains_key(k) <==> listed(v@, k),
{
    proof {
        use_type_invariant(s);
        lemma_pairs_lookup_all(s.pairs());
    }
    let v = s.keys();
    proof {
        let ps = s.pairs();
        assert forall|k: Seq<char>| s@.contains_key(k) implies exists|i: int| 0 <= i < v@.len() && #[trigger] v@[i]@ == k by {
            let i = choose|i: int| 0 <= i < ps.len() && #[trigger] ps[i].0 == k;
            assert(v@[i]@ == k);
        }
        assert forall|k: Seq<char>| (exists|i: int| 0 <= i < v@.len() && #[trigger] v@[i]@ == k) implies s@.contains_key(k) by {
            let i = choose|i: int| 0 <= i < v@.len() && #[trigger] v@[i]@ == k;
            assert(ps[i].0 == k);
        }
    }
    v
}

/// Whether a path is listed in a sorted, duplicate-free result.
pub open spec fn listed(v: Seq<String>, k: Seq<char>) -> bool {
    exists|i: int| 0 <= i < v.len() && #[trigger] v[i]@ == k
}

/// Strictly increasing, hence free of duplicates.
pub open spec fn increasing(v: Seq<String>) -> bool {
    forall|i: int, j: int| 0 <= i < j < v.len() ==> seq_lt(#[trigger] v[i]@, #[trigger] v[j]@)
}

// ---------------------------------------------------------------------------
// Staging and restoring.

/// Whether a staged `path` falls within what `fvcs add` was given: a folder
/// (`Some(dir)`, the empty one meaning the whole tree) or the file `rel_file`.
pub open spec fn add_scope_spec(dir: Option<Seq<char>>, rel_file: Seq<char>, path: Seq<char>) -> bool {
    match dir {
        Some(d) => if d.len() > 0 { has_prefix(path, d.push('/')) } else { true },
        None => path == rel_file,
    }
}

/// Whether a staged `path` is covered by an `add` of folder `dir` or file `rel_file`.
pub fn add_scope_covers(dir: Option<&str>, rel_file: &str, path: &str) -> (b: bool)
    ensures
        b == add_scope_spec(match dir { Some(d) => Some(d@), None => None }, rel_file@, path@),
{
    match dir {
        Some(d) => {
            if chars_of(d).len() > 0 {
                let mut with_slash = owned(d);
                push_char(&mut with_slash, '/');
                starts_with(path, with_slash.as_str())
            } else {
                true
            }
        },
        None => str_eq(path, rel_file),
    }
}

/// Why `fvcs add` refuses an argument.
#[derive(Debug, Clone, Copy, PartialEq, Eq)]
pub enum AddError {
    /// The path does not exist and no staged file under it was deleted.
    NotFound,
}

/// The text of an optional string slice.
pub open spec fn str_opt(o: Option<&str>) -> Option<Seq<char>> {
    match o {
        Some(x) => Some(x@),
        None => None,
    }
}

/// Whether a staged `path` falls within an `add` argument: as `add_scope_spec`
/// says, and for an argument that no longer exists (`rel_file`), also what lay
/// beneath it.
pub open spec fn add_covers(dir: Option<Seq<char>>, rel_file: Seq<char>, on_disk: bool, path: Seq<char>) -> bool {
    add_scope_spec(dir, rel_file, path) || (!on_disk && rel_file.len() > 0 && has_prefix(path, rel_file.push('/')))
}

/// A staged path whose deletion an `add` argument stages: covered by it, and no
/// longer present in the work tree.
pub open spec fn vanishes(
    index: Map<Seq<char>, IndexEntry>,
    dir: Option<Seq<char>>,
    rel_file: Seq<char>,
    on_disk: bool,
    present: Map<Seq<char>, ()>,
    path: Seq<char>,
) -> bool {
    index.contains_key(path) && add_covers(dir, rel_file, on_disk, path) && !present.contains_key(path)
}

/// The staging area without the deletions an `add` argument stages.
pub open spec fn without_vanished(
    index: Map<Seq<char>, IndexEntry>,
    dir: Option<Seq<char>>,
    rel_file: Seq<char>,
    on_disk: bool,
    present: Map<Seq<char>, ()>,
) -> Map<Seq<char>, IndexEntry> {
    Map::new(
        |k: Seq<char>| index.contains_key(k) && !vanishes(index, dir, rel_file, on_disk, present, k),
        |k: Seq<char>| index[k],
    )
}

/// What an `add` argument covers: a non-empty folder covers every path beneath
/// it, at any depth; the whole tree (the empty folder) covers every path; a file
/// covers itself; an argument that no longer exists covers itself and what lay
/// beneath it.
pub proof fn lemma_add_coverage(d: Seq<char>, rel_file: Seq<char>, on_disk: bool, path: Seq<char>)
    ensures
        d.len() > 0 && has_prefix(path, d.push('/')) ==> add_covers(Some(d), rel_file, on_disk, path),
        add_covers(Some(Seq::<char>::empty()), rel_file, on_disk, path),
        add_covers(None, rel_file, on_disk, rel_file),
        !on_disk && rel_file.len() > 0 && has_prefix(path, rel_file.push('/')) ==> add_covers(None, rel_file, on_disk, path),
{
}

/// `add` stages deletions: a staged file beneath an added folder (at any depth)
/// that is gone from the work tree leaves the staging area, and a staged file
/// the argument does not cover keeps its entry.
pub proof fn lemma_add_stages_deletions(
    index: Map<Seq<char>, IndexEntry>,
    d: Seq<char>,
    rel_file: Seq<char>,
    on_disk: bool,
    present: Map<Seq<char>, ()>,
    path: Seq<char>,
)
    ensures
        d.len() > 0 && has_prefix(path, d.push('/')) && !present.contains_key(path)
            ==> !without_vanished(index, Some(d), rel_file, on_disk, present).contains_key(path),
        index.contains_key(path) && !add_covers(Some(d), rel_file, on_disk, path)
            ==> without_vanished(index, Some(d), rel_file, on_disk, present).contains_key(path)
                && without_vanished(index, Some(d), rel_file, on_disk, present)[path] == index[path],
        index.contains_key(path) && present.contains_key(path)
            ==> without_vanished(index, Some(d), rel_file, on_disk, present).contains_key(path),
{
}

/// Whether `add` stages a file found at `rel`: it lies outside the data folder
/// and no ignore pattern covers it.
pub open spec fn add_admits(rel: Seq<char>, ignore: Ignore) -> bool {
    &&& !is_internal_spec(rel)
    &&& !(exists|i: int| 0 <= i < ignore.patterns@.len() && pattern_matches(#[trigger] ignore.patterns@[i]@, rel))
}

/// The staging area after the found files are staged in order, those that
/// `add_admits` refuses skipped.
pub open spec fn staged_after(base: Map<Seq<char>, IndexEntry>, found: Seq<(String, IndexEntry)>, ignore: Ignore) -> Map<Seq<char>, IndexEntry>
    decreases found.len(),
{
    if found.len() == 0 {
        base
    } else {
        let before = staged_after(base, found.drop_last(), ignore);
        if add_admits(found.last().0@, ignore) { before.insert(found.last().0@, found.last().1) } else { before }
    }
}

/// How many of the found files `add_admits` lets through.
pub open spec fn admitted_count(found: Seq<(String, IndexEntry)>, ignore: Ignore) -> nat
    decreases found.len(),
{
    if found.len() == 0 {
        0
    } else {
        admitted_count(found.drop_last(), ignore) + if add_admits(found.last().0@, ignore) { 1nat } else { 0nat }
    }
}

/// Whether `add` stages a file found at `rel`.
pub fn admits(rel: &str, ignore: &Ignore) -> (b: bool)
    ensures
        b == add_admits(rel@, *ignore),
{
    !is_internal(rel) && !ignore.is_ignored(rel)
}

/// Stages one argument of `fvcs add`, given what the work tree holds:
/// - `dir` is the argument's folder when it is one, `rel_file` its path when it
///   is a file or no longer on_disk (`on_disk` false);
/// - `present` holds the staged paths whose files still exist;
/// - `found` holds the files found under the argument, with their entries.
///
/// The staged paths the argument covers that are gone are unstaged (the
/// deletion is staged); then each found file that is neither in the data
/// folder nor ignored is staged. The result is how many were staged. An
/// argument that does not exist and covers no deleted staged file is refused,
/// and nothing changes.
pub fn stage_argument(
    index: &mut StrMap<IndexEntry>,
    dir: Option<&str>,
    rel_file: &str,
    on_disk: bool,
    present: &StrMap<()>,
    found: &Vec<(String, IndexEntry)>,
    ignore: &Ignore,
) -> (r: Result<usize, AddError>)
    ensures
        r is Err <==> !on_disk && !(exists|k: Seq<char>| #[trigger] vanishes(old(index)@, str_opt(dir), rel_file@, on_disk, present@, k)),
        r is Err ==> r == Err::<usize, AddError>(AddError::NotFound) && final(index)@ == old(index)@,
        r matches Ok(n) ==> n == admitted_count(found@, *ignore),
        r is Ok ==> final(index)@ == staged_after(without_vanished(old(index)@, str_opt(dir), rel_file@, on_disk, present@), found@, *ignore),
{
    let ghost d = str_opt(dir);
    let ghost start = index@;
    let keys = index.keys();
    proof {
        use_type_invariant(&*index);
        lemma_pairs_lookup_all(index.pairs());
    }
    let ghost ps = index.pairs();
    let mut with_slash = owned(rel_file);
    push_char(&mut with_slash, '/');
    let named = chars_of(rel_file).len() > 0;
    let mut removed = false;
    let mut i: usize = 0;
    while i < keys.len()
        invariant
            i <= keys@.len(),
            keys@.len() == ps.len(),
            forall|j: int| #![trigger keys@[j]] 0 <= j < keys@.len() ==> keys@[j]@ == ps[j].0,
            forall|k: Seq<char>| #[trigger] start.contains_key(k) <==> has_key(ps, k),
            with_slash@ == rel_file@.push('/'),
            named == (rel_file@.len() > 0),
            start == old(index)@,
            d == str_opt(dir),
            forall|k: Seq<char>| #[trigger] index@.contains_key(k) <==> (start.contains_key(k)
                && !(vanishes(start, d, rel_file@, on_disk, present@, k) && exists|j: int| 0 <= j < i && keys@[j]@ == k)),
            forall|k: Seq<char>| index@.contains_key(k) ==> #[trigger] index@[k] == start[k],
            removed == exists|j: int| 0 <= j < i && vanishes(start, d, rel_file@, on_disk, present@, #[trigger] keys@[j]@),
        decreases keys.len() - i,
    {
        let k = keys[i].as_str();
        assert(start.contains_key(k@)) by {
            assert(ps[i as int].0 == k@);
        }
        let covered = add_scope_covers(dir, rel_file, k)
            || (!on_disk && named && starts_with(k, with_slash.as_str()));
        if covered && !present.contains_key(k) {
            assert(vanishes(start, d, rel_file@, on_disk, present@, k@));
            index.remove(k);
            removed = true;
        }
        proof {
            assert(keys@[i as int]@ == k@);
        }
        i += 1;
    }
    proof {
        assert forall|k: Seq<char>| #[trigger] vanishes(start, d, rel_file@, on_disk, present@, k)
            implies exists|j: int| 0 <= j < keys@.len() && keys@[j]@ == k by {
            let j = choose|j: int| 0 <= j < ps.len() && #[trigger] ps[j].0 == k;
            assert(keys@[j]@ == k);
        }
    }
    if !on_disk && !removed {
        proof {
            assert(index@ =~= start);
            assert forall|k: Seq<char>| !#[trigger] vanishes(start, d, rel_file@, on_disk, present@, k) by {
                if vanishes(start, d, rel_file@, on_disk, present@, k) {
                    let j = choose|j: int| 0 <= j < keys@.len() && keys@[j]@ == k;
                    assert(vanishes(start, d, rel_file@, on_disk, present@, keys@[j]@));
                }
            }
        }
        return Err(AddError::NotFound);
    }
    proof {
        if removed {
            let j = choose|j: int| 0 <= j < i && vanishes(start, d, rel_file@, on_disk, present@, #[trigger] keys@[j]@);
            assert(vanishes(old(index)@, d, rel_file@, on_disk, present@, keys@[j]@));
        }
        assert(index@ =~= without_vanished(start, d, rel_file@, on_disk, present@));
        assert(start == old(index)@);
    }
    let ghost base = index@;
    let mut count: usize = 0;
    let mut m: usize = 0;
    proof {
        assert(found@.take(0) =~= Seq::<(String, IndexEntry)>::empty());
    }
    while m < found.len()
        invariant
            m <= found@.len(),
            count <= m,
            count == admitted_count(found@.take(m as int), *ignore),
            index@ == staged_after(base, found@.take(m as int), *ignore),
            base == without_vanished(old(index)@, d, rel_file@, on_disk, present@),
            on_disk || exists|k: Seq<char>| #[trigger] vanishes(old(index)@, d, rel_file@, on_disk, present@, k),
            d == str_opt(dir),
        decreases found.len() - m,
    {
        proof {
            assert(found@.take(m + 1).drop_last() =~= found@.take(m as int));
            assert(found@.take(m + 1).last() == found@[m as int]);
        }
        let (p, e) = &found[m];
        if admits(p.as_str(), ignore) {
            let entry = IndexEntry { hash: e.hash.clone(), size: e.size, mtime: e.mtime };
            index.insert(p.clone(), entry);
            count += 1;
        }
        m += 1;
    }
    proof {
        assert(found@.take(found@.len() as int) =~= found@);
    }
    Ok(count)
}

/// Whether `path` is selected by a restore argument: `None` for `.` (everything),
/// or a path naming the file itself or a folder above it.
pub open spec fn restore_selects(sel: Option<Seq<char>>, path: Seq<char>) -> bool {
    match sel {
        None => true,
        Some(rel) => path == rel || has_prefix(path, rel.push('/')),
    }
}

/// Whether any argument selects `path`.
pub open spec fn any_selects(sels: Seq<Option<Seq<char>>>, path: Seq<char>) -> bool {
    exists|i: int| 0 <= i < sels.len() && restore_selects(#[trigger] sels[i], path)
}

pub open spec fn opt_views(v: Seq<Option<String>>) -> Seq<Option<Seq<char>>> {
    v.map_values(|o: Option<String>| match o { Some(s) => Some(s@), None => None })
}

/// A restore argument selects the tracked path it names and every path beneath
/// it, and no other; `.` selects every path; an argument among several still
/// selects what it selects alone.
pub proof fn lemma_restore_selection(sels: Seq<Option<Seq<char>>>, rel: Seq<char>, path: Seq<char>)
    ensures
        restore_selects(Some(rel), rel),
        has_prefix(path, rel.push('/')) ==> restore_selects(Some(rel), path),
        path != rel && !has_prefix(path, rel.push('/')) ==> !restore_selects(Some(rel), path),
        restore_selects(None, path),
        sels.contains(Some(rel)) ==> any_selects(sels, rel),
        sels.contains(Some(rel)) && has_prefix(path, rel.push('/')) ==> any_selects(sels, path),
        sels.contains(None) ==> any_selects(sels, path),
{
    if sels.contains(Some(rel)) {
        let i = choose|i: int| 0 <= i < sels.len() && sels[i] == Some(rel);
        assert(restore_selects(sels[i], rel));
        if has_prefix(path, rel.push('/')) {
            assert(restore_selects(sels[i], path));
        }
    }
    if sels.contains(None) {
        let i = choose|i: int| 0 <= i < sels.len() && sels[i] == None::<Seq<char>>;
        assert(restore_selects(sels[i], path));
    }
}

fn selects(sel: &Option<String>, path: &str) -> (b: bool)
    ensures
        b == restore_selects(match sel { Some(s) => Some(s@), None => None }, path@),
{
    match sel {
        None => true,
        Some(rel) => {
            let mut with_slash = owned(rel.as_str());
            push_char(&mut with_slash, '/');
            str_eq(path, rel.as_str()) || starts_with(path, with_slash.as_str())
        },
    }
}

fn selected_by_any(sels: &Vec<Option<String>>, path: &str) -> (b: bool)
    ensures
        b == any_selects(opt_views(sels@), path@),
{
    let ghost vs = opt_views(sels@);
    let mut i: usize = 0;
    while i < sels.len()
        invariant
            i <= sels@.len(),
            vs == opt_views(sels@),
            forall|m: int| 0 <= m < i ==> !restore_selects(#[trigger] vs[m], path@),
        decreases sels.len() - i,
    {
        if selects(&sels[i], path) {
            assert(restore_selects(vs[i as int], path@));
            return true;
        }
        i += 1;
    }
    false
}

/// Adds to `out` every key of `m` that some argument selects.
fn add_selected<V>(out: &mut StrMap<()>, sels: &Vec<Option<String>>, m: &StrMap<V>)
    ensures
        forall|k: Seq<char>| #[trigger] final(out)@.contains_key(k) <==> (old(out)@.contains_key(k)
            || (m@.contains_key(k) && any_selects(opt_views(sels@), k))),
{
    proof {
        use_type_invariant(m);
        lemma_pairs_lookup_all(m.pairs());
    }
    let ghost start = out@;
    let n = m.len();
    let mut i: usize = 0;
    while i < n
        invariant
            n == m.pairs().len(),
            i <= n,
            forall|k: Seq<char>| #[trigger] out@.contains_key(k) <==> (start.contains_key(k)
                || (exists|j: int| 0 <= j < i && m.pairs()[j].0 == k) && any_selects(opt_views(sels@), k)),
        decreases n - i,
    {
        let (path, _) = m.pair_at(i);
        if selected_by_any(sels, path.as_str()) {
            out.insert(path.clone(), ());
        }
        proof {
            assert forall|k: Seq<char>| #[trigger] out@.contains_key(k) <==> (start.contains_key(k)
                || (exists|j: int| 0 <= j < i + 1 && m.pairs()[j].0 == k) && any_selects(opt_views(sels@), k)) by {
                if k == m.pairs()[i as int].0 {
                    assert(0 <= i < i + 1 && m.pairs()[i as int].0 == k);
                }
                if exists|j: int| 0 <= j < i + 1 && m.pairs()[j].0 == k {
                    let j = choose|j: int| 0 <= j < i + 1 && m.pairs()[j].0 == k;
                    if j < i {
                        assert(exists|j2: int| 0 <= j2 < i && m.pairs()[j2].0 == k);
                    }
                }
            }
        }
        i += 1;
    }
    proof {
        assert forall|k: Seq<char>| #[trigger] out@.contains_key(k) <==> (start.contains_key(k)
            || (m@.contains_key(k) && any_selects(opt_views(sels@), k))) by {
            if m@.contains_key(k) {
                let j = choose|j: int| 0 <= j < m.pairs().len() && #[trigger] m.pairs()[j].0 == k;
                assert(exists|j2: int| 0 <= j2 < n && m.pairs()[j2].0 == k);
            }
            if exists|j: int| 0 <= j < n && m.pairs()[j].0 == k {
                let j = choose|j: int| 0 <= j < n && m.pairs()[j].0 == k;
                assert(has_key(m.pairs(), k));
            }
        }
    }
}

/// The tracked paths (staged or in the checked-out commit) that the restore
/// arguments select, in path order without repeats.
pub fn restore_targets(sels: &Vec<Option<String>>, index: &StrMap<IndexEntry>, head: &StrMap<String>) -> (v: Vec<String>)
    ensures
        increasing(v@),
        forall|k: Seq<char>| listed(v@, k) <==> ((index@.contains_key(k) || head@.contains_key(k)) && any_selects(opt_views(sels@), k)),
{
    let mut set: StrMap<()> = StrMap::new();
    add_selected(&mut set, sels, index);
    add_selected(&mut set, sels, head);
    sorted_paths(&set)
}

/// The staging area after `fvcs restore --staged` of `targets`, in order: a
/// target in the checked-out tree gets that tree's hash, the size in `sizes` and
/// no time; any other target is unstaged.
pub open spec fn restored_index(
    index: Map<Seq<char>, IndexEntry>,
    head: Map<Seq<char>, String>,
    sizes: Map<Seq<char>, u64>,
    targets: Seq<String>,
) -> Map<Seq<char>, IndexEntry>
    decreases targets.len(),
{
    if targets.len() == 0 {
        index
    } else {
        let before = restored_index(index, head, sizes, targets.drop_last());
        let t = targets.last()@;
        if head.contains_key(t) {
            before.insert(t, IndexEntry { hash: head[t], size: sizes[t], mtime: 0 })
        } else {
            before.remove(t)
        }
    }
}

/// Resets the staged state of `targets` to the checked-out tree `head`
/// (see `restored_index`); `sizes` gives the size of each target's content in
/// `head`.
pub fn restore_staged(index: &mut StrMap<IndexEntry>, head: &StrMap<String>, sizes: &StrMap<u64>, targets: &Vec<String>)
    requires
        forall|i: int| 0 <= i < targets@.len() && head@.contains_key(#[trigger] targets@[i]@) ==> sizes@.contains_key(targets@[i]@),
    ensures
        final(index)@ == restored_index(old(index)@, head@, sizes@, targets@),
{
    let mut i: usize = 0;
    proof {
        assert(targets@.take(0) =~= Seq::<String>::empty());
    }
    while i < targets.len()
        invariant
            i <= targets@.len(),
            forall|j: int| 0 <= j < targets@.len() && head@.contains_key(#[trigger] targets@[j]@) ==> sizes@.contains_key(targets@[j]@),
            index@ == restored_index(old(index)@, head@, sizes@, targets@.take(i as int)),
        decreases targets.len() - i,
    {
        proof {
            assert(targets@.take(i + 1).drop_last() =~= targets@.take(i as int));
            assert(targets@.take(i + 1).last() == targets@[i as int]);
        }
        let t = &targets[i];
        match head.get(t.as_str()) {
            Some(hash) => {
                let size = match sizes.get(t.as_str()) {
                    Some(n) => *n,
                    None => 0,
                };
                index.insert(t.clone(), IndexEntry { hash: hash.clone(), size, mtime: 0 });
            }
            None => {
                index.remove(t.as_str());
            }
        }
        i += 1;
    }
    proof {
        assert(targets@.take(targets@.len() as int) =~= targets@);
    }
}

/// Why `fvcs restore` refuses.
#[derive(Debug, Clone, PartialEq, Eq)]
pub enum RestoreError {
    /// The path is tracked but has nothing staged to restore from.
    NotStaged(String),
}

/// The staged hash of each target, to write back into the work tree; the first
/// target with nothing staged is refused.
pub fn staged_sources(index: &StrMap<IndexEntry>, targets: &Vec<String>) -> (r: Result<Vec<String>, RestoreError>)
    ensures
        r is Ok <==> forall|i: int| 0 <= i < targets@.len() ==> index@.contains_key(#[trigger] targets@[i]@),
        r matches Ok(v) ==> v@.len() == targets@.len()
            && forall|i: int| 0 <= i < targets@.len() ==> #[trigger] v@[i]@ == index@[targets@[i]@].hash@,
        r matches Err(RestoreError::NotStaged(p)) ==> exists|i: int| 0 <= i < targets@.len() && p@ == targets@[i]@
            && !index@.contains_key(targets@[i]@)
            && forall|j: int| 0 <= j < i ==> index@.contains_key(#[trigger] targets@[j]@),
{
    let mut v: Vec<String> = Vec::new();
    let mut i: usize = 0;
    while i < targets.len()
        invariant
            i <= targets@.len(),
            v@.len() == i,
            forall|j: int| 0 <= j < i ==> index@.contains_key(#[trigger] targets@[j]@),
            forall|j: int| 0 <= j < i ==> #[trigger] v@[j]@ == index@[targets@[j]@].hash@,
        decreases targets.len() - i,
    {
        match index.get(targets[i].as_str()) {
            Some(e) => {
                v.push(e.hash.clone());
            }
            None => {
                return Err(RestoreError::NotStaged(targets[i].clone()));
            }
        }
        i += 1;
    }
    Ok(v)
}

/// The paths to delete from the work tree when checking out `target`: tracked
/// now (in the checked-out commit or staged) and absent from `target`, in path
/// order without repeats.
pub fn paths_to_remove(head: &StrMap<String>, index: &StrMap<IndexEntry>, target: &StrMap<String>) -> (v: Vec<String>)
    ensures
        increasing(v@),
        forall|k: Seq<char>| listed(v@, k) <==> ((head@.contains_key(k) || index@.contains_key(k)) && !target@.contains_key(k)),
{
    let mut set: StrMap<()> = StrMap::new();
    add_missing(&mut set, head, target);
    add_missing(&mut set, index, target);
    sorted_paths(&set)
}

/// Adds to `out` every key of `m` that `target` lacks.
fn add_missing<V, W>(out: &mut StrMap<()>, m: &StrMap<V>, target: &StrMap<W>)
    ensures
        forall|k: Seq<char>| #[trigger] final(out)@.contains_key(k) <==> (old(out)@.contains_key(k)
            || (m@.contains_key(k) && !target@.contains_key(k))),
{
    proof {
        use_type_invariant(m);
        lemma_pairs_lookup_all(m.pairs());
    }
    let ghost start = out@;
    let n = m.len();
    let mut i: usize = 0;
    while i < n
        invariant
            n == m.pairs().len(),
            i <= n,
            forall|k: Seq<char>| #[trigger] out@.contains_key(k) <==> (start.contains_key(k)
                || (exists|j: int| 0 <= j < i && m.pairs()[j].0 == k) && !target@.contains_key(k)),
        decreases n - i,
    {
        let (path, _) = m.pair_at(i);
        if !target.contains_key(path.as_str()) {
            out.insert(path.clone(), ());
        }
        proof {
            assert forall|k: Seq<char>| #[trigger] out@.contains_key(k) <==> (start.contains_key(k)
                || (exists|j: int| 0 <= j < i + 1 && m.pairs()[j].0 == k) && !target@.contains_key(k)) by {
                if k == m.pairs()[i as int].0 {
                    assert(0 <= i < i + 1 && m.pairs()[i as int].0 == k);
                }
                if exists|j: int| 0 <= j < i + 1 && m.pairs()[j].0 == k {
                    let j = choose|j: int| 0 <= j < i + 1 && m.pairs()[j].0 == k;
                    if j < i {
                        assert(exists|j2: int| 0 <= j2 < i && m.pairs()[j2].0 == k);
                    }
                }
            }
        }
        i += 1;
    }
    proof {
        assert forall|k: Seq<char>| #[trigger] out@.contains_key(k) <==> (start.contains_key(k)
            || (m@.contains_key(k) && !target@.contains_key(k))) by {
            if m@.contains_key(k) {
                let j = choose|j: int| 0 <= j < m.pairs().len() && #[trigger] m.pairs()[j].0 == k;
                assert(exists|j2: int| 0 <= j2 < n && m.pairs()[j2].0 == k);
            }
            if exists|j: int| 0 <= j < n && m.pairs()[j].0 == k {
                let j = choose|j: int| 0 <= j < n && m.pairs()[j].0 == k;
                assert(has_key(m.pairs(), k));
            }
        }
    }
}

// ---------------------------------------------------------------------------
// Linked libraries.

/// Where a file of a library's source lands in the avatar: under the library's
/// folder, with the `subdir` prefix taken off; files outside `subdir` are not taken.
pub open spec fn lib_target_spec(name: Seq<char>, subdir: Option<Seq<char>>, path: Seq<char>) -> Option<Seq<char>> {
    match subdir {
        Some(sub) => if has_prefix(path, sub.push('/')) {
            Some(name.push('/') + path.skip((sub.len() + 1) as int))
        } else {
            None
        },
        None => Some(name.push('/') + path),
    }
}

/// Which source path an avatar file of a library stands for: files under the
/// library's folder, with the `subdir` prefix put back.
pub open spec fn lib_source_key_spec(name: Seq<char>, subdir: Option<Seq<char>>, path: Seq<char>) -> Option<Seq<char>> {
    if has_prefix(path, name.push('/')) {
        let inner = path.skip((name.len() + 1) as int);
        match subdir {
            Some(sub) => Some(sub.push('/') + inner),
            None => Some(inner),
        }
    } else {
        None
    }
}

pub open spec fn opt_view(o: Option<String>) -> Option<Seq<char>> {
    match o {
        Some(s) => Some(s@),
        None => None,
    }
}

/// `a` followed by `/` and `b`.
fn slash_join(a: &str, b: &str) -> (out: String)
    ensures
        out@ == a@.push('/') + b@,
{
    let mut out = owned(a);
    push_char(&mut out, '/');
    push_str(&mut out, b);
    out
}

/// Where the source file `path` of library `lib` is written in the avatar.
pub fn lib_target(lib: &Lib, path: &str) -> (r: Option<String>)
    ensures
        opt_view(r) == lib_target_spec(lib.name@, opt_view(lib.subdir), path@),
{
    match &lib.subdir {
        Some(sub) => {
            let mut prefix = owned(sub.as_str());
            push_char(&mut prefix, '/');
            if starts_with(path, prefix.as_str()) {
                let cs = chars_of(path);
                let skip = chars_of(prefix.as_str()).len();
                let rest = string_of_range(&cs, skip, cs.len());
                assert(cs@.subrange(skip as int, cs@.len() as int) == path@.skip((sub@.len() + 1) as int));
                Some(slash_join(lib.name.as_str(), rest.as_str()))
            } else {
                None
            }
        },
        None => Some(slash_join(lib.name.as_str(), path)),
    }
}

/// Which source path the avatar file `path` stands for in library `lib`.
pub fn lib_source_key(lib: &Lib, path: &str) -> (r: Option<String>)
    ensures
        opt_view(r) == lib_source_key_spec(lib.name@, opt_view(lib.subdir), path@),
{
    let mut prefix = owned(lib.name.as_str());
    push_char(&mut prefix, '/');
    if !starts_with(path, prefix.as_str()) {
        return None;
    }
    let cs = chars_of(path);
    let skip = chars_of(prefix.as_str()).len();
    let inner = string_of_range(&cs, skip, cs.len());
    assert(cs@.subrange(skip as int, cs@.len() as int) == path@.skip((lib.name@.len() + 1) as int));
    match &lib.subdir {
        Some(sub) => Some(slash_join(sub.as_str(), inner.as_str())),
        None => Some(inner),
    }
}

/// A library file written into the avatar is recognized again as the same
/// source file, so local copies can be hashed as the source's version.
pub proof fn lemma_lib_paths_roundtrip(name: Seq<char>, subdir: Option<Seq<char>>, path: Seq<char>)
    requires
        lib_target_spec(name, subdir, path) is Some,
    ensures
        lib_source_key_spec(name, subdir, lib_target_spec(name, subdir, path)->0) == Some(path),
{
    let t = lib_target_spec(name, subdir, path)->0;
    let prefix = name.push('/');
    match subdir {
        Some(sub) => {
            let inner = path.skip((sub.len() + 1) as int);
            assert(t == prefix + inner);
            assert(t.take(prefix.len() as int) == prefix);
            assert(t.skip((name.len() + 1) as int) == inner);
            assert(path.take((sub.len() + 1) as int) == sub.push('/'));
            assert(sub.push('/') + inner == path);
        },
        None => {
            assert(t == prefix + path);
            assert(t.take(prefix.len() as int) == prefix);
            assert(t.skip((name.len() + 1) as int) == path);
        },
    }
}

/// A source path a library file in the avatar stands for leads back to that file.
pub proof fn lemma_lib_key_target(name: Seq<char>, subdir: Option<Seq<char>>, path: Seq<char>)
    requires
        lib_source_key_spec(name, subdir, path) is Some,
    ensures
        lib_target_spec(name, subdir, lib_source_key_spec(name, subdir, path)->0) == Some(path),
{
    let k = lib_source_key_spec(name, subdir, path)->0;
    let prefix = name.push('/');
    let inner = path.skip((name.len() + 1) as int);
    assert(path.take(prefix.len() as int) == prefix);
    assert(prefix + inner =~= path);
    match subdir {
        Some(sub) => {
            assert(k == sub.push('/') + inner);
            assert(k.take((sub.len() + 1) as int) =~= sub.push('/'));
            assert(k.skip((sub.len() + 1) as int) =~= inner);
        },
        None => {},
    }
}

/// The tree that the local copy of a library stands for: each source path
/// whose file is present in the avatar, with that file's hash.
pub open spec fn local_lib_tree_spec(workdir: Map<Seq<char>, WorkFile>, name: Seq<char>, subdir: Option<Seq<char>>) -> Map<Seq<char>, Seq<char>> {
    Map::new(
        |s: Seq<char>| lib_target_spec(name, subdir, s) is Some && workdir.contains_key(lib_target_spec(name, subdir, s)->0),
        |s: Seq<char>| workdir[lib_target_spec(name, subdir, s)->0].hash@,
    )
}

/// The version hash of the local copy of a library, from the files of the
/// work tree: `None` when no file of it is present.
pub fn local_lib_hash(workdir: &StrMap<WorkFile>, lib: &Lib) -> (r: Option<String>)
    ensures
        r is None <==> local_lib_tree_spec(workdir@, lib.name@, opt_view(lib.subdir)).dom() =~= Set::<Seq<char>>::empty(),
        r matches Some(h) ==> exists|t: StrMap<String>| #![trigger lib_hash_spec(t)] sorted_keys(t.pairs())
            && hashes_of(t@) == local_lib_tree_spec(workdir@, lib.name@, opt_view(lib.subdir)) && h@ == lib_hash_spec(t),
{
    proof {
        use_type_invariant(workdir);
        lemma_pairs_lookup_all(workdir.pairs());
    }
    let ghost name = lib.name@;
    let ghost sub = opt_view(lib.subdir);
    let ghost ps = workdir.pairs();
    let ghost full = local_lib_tree_spec(workdir@, name, sub);
    let mut tree: StrMap<String> = StrMap::new();
    let n = workdir.len();
    let mut i: usize = 0;
    while i < n
        invariant
            i <= n,
            n == ps.len(),
            ps == workdir.pairs(),
            name == lib.name@,
            sub == opt_view(lib.subdir),
            forall|x: int| #![trigger ps[x]] 0 <= x < ps.len() ==> workdir@.contains_key(ps[x].0) && workdir@[ps[x].0] == ps[x].1,
            forall|k: Seq<char>| #[trigger] workdir@.contains_key(k) <==> has_key(ps, k),
            forall|s: Seq<char>| #[trigger] hashes_of(tree@).contains_key(s) <==> (lib_target_spec(name, sub, s) is Some
                && exists|j: int| 0 <= j < i && ps[j].0 == lib_target_spec(name, sub, s)->0),
            forall|s: Seq<char>| #[trigger] hashes_of(tree@).contains_key(s) ==> hashes_of(tree@)[s] == workdir@[lib_target_spec(name, sub, s)->0].hash@,
        decreases n - i,
    {
        let (path, file) = workdir.pair_at(i);
        let key = lib_source_key(lib, path.as_str());
        let ghost before = hashes_of(tree@);
        match key {
            Some(k) => {
                proof {
                    lemma_lib_key_target(name, sub, path@);
                }
                tree.insert(k, file.hash.clone());
                proof {
                    assert(hashes_of(tree@) =~= before.insert(k@, file.hash@));
                    assert forall|s: Seq<char>| #[trigger] hashes_of(tree@).contains_key(s) <==> (lib_target_spec(name, sub, s) is Some
                        && exists|j: int| 0 <= j < i + 1 && ps[j].0 == lib_target_spec(name, sub, s)->0) by {
                        if s == k@ {
                            assert(ps[i as int].0 == lib_target_spec(name, sub, s)->0);
                        } else if lib_target_spec(name, sub, s) is Some && ps[i as int].0 == lib_target_spec(name, sub, s)->0 {
                            lemma_lib_paths_roundtrip(name, sub, s);
                        }
                        if lib_target_spec(name, sub, s) is Some && exists|j: int| 0 <= j < i + 1 && ps[j].0 == lib_target_spec(name, sub, s)->0 {
                            let j = choose|j: int| 0 <= j < i + 1 && ps[j].0 == lib_target_spec(name, sub, s)->0;
                            if j == i && s != k@ {
                                lemma_lib_paths_roundtrip(name, sub, s);
                            }
                        }
                    }
                    assert(ps[i as int].1 == workdir@[ps[i as int].0]);
                }
            },
            None => {
                proof {
                    assert forall|s: Seq<char>| #[trigger] hashes_of(tree@).contains_key(s) <==> (lib_target_spec(name, sub, s) is Some
                        && exists|j: int| 0 <= j < i + 1 && ps[j].0 == lib_target_spec(name, sub, s)->0) by {
                        if lib_target_spec(name, sub, s) is Some && exists|j: int| 0 <= j < i + 1 && ps[j].0 == lib_target_spec(name, sub, s)->0 {
                            let j = choose|j: int| 0 <= j < i + 1 && ps[j].0 == lib_target_spec(name, sub, s)->0;
                            if j == i {
                                lemma_lib_paths_roundtrip(name, sub, s);
                            }
                        }
                    }
                }
            },
        }
        i += 1;
    }
    proof {
        assert forall|s: Seq<char>| #[trigger] hashes_of(tree@).contains_key(s) <==> full.contains_key(s) by {
            if full.contains_key(s) {
                let p = lib_target_spec(name, sub, s)->0;
                let j = choose|j: int| 0 <= j < ps.len() && #[trigger] ps[j].0 == p;
                assert(ps[j].0 == p);
            }
        }
        assert(hashes_of(tree@) =~= full);
        assert(tree@.dom() =~= full.dom());
    }
    if tree.len() == 0 {
        proof {
            use_type_invariant(&tree);
            crate::strmap::lemma_sorted_dom_len(tree.pairs());
            tree@.dom().lemma_len0_is_empty();
        }
        None
    } else {
        proof {
            use_type_invariant(&tree);
            crate::strmap::lemma_sorted_dom_len(tree.pairs());
            if full.dom() =~= Set::<Seq<char>>::empty() {
                assert(tree@.dom().len() == 0);
            }
        }
        let h = lib_hash(&tree);
        proof {
            use_type_invariant(&tree);
        }
        Some(h)
    }
}

// ---------------------------------------------------------------------------
// Syncing with remotes and registries.

/// Whether a push of `branch` may go ahead: the remote must not have the
/// branch, or its tip must be a commit we have that our tip descends from.
pub open spec fn push_allowed_spec(remote_has_branch: bool, have_remote_tip: bool, remote_tip_is_ancestor: bool) -> bool {
    !remote_has_branch || (have_remote_tip && remote_tip_is_ancestor)
}

/// Whether a push may go ahead (see `push_allowed_spec`).
pub fn push_allowed(remote_has_branch: bool, have_remote_tip: bool, remote_tip_is_ancestor: bool) -> (b: bool)
    ensures
        b == push_allowed_spec(remote_has_branch, have_remote_tip, remote_tip_is_ancestor),
{
    !remote_has_branch || (have_remote_tip && remote_tip_is_ancestor)
}

/// What a pull does for the current branch.
#[derive(Debug, Clone)]
pub enum PullStep {
    /// The remote has no such branch.
    NoRemoteBranch,
    /// Both sides are at the same commit.
    UpToDate,
    /// Fetch the remote history and move forward to its tip (after checking
    /// that the local tip is an ancestor).
    FastForward(String),
    /// There is no local commit yet: fetch and take the remote tip.
    Adopt(String),
}

/// What a pull does given the remote's and our tip of the branch.
pub fn pull_step(remote_tip: Option<String>, local_tip: Option<String>) -> (p: PullStep)
    ensures
        match (remote_tip, local_tip) {
            (None, _) => p is NoRemoteBranch,
            (Some(r), Some(l)) => if r@ == l@ { p is UpToDate } else { p matches PullStep::FastForward(t) && t@ == r@ },
            (Some(r), None) => p matches PullStep::Adopt(t) && t@ == r@,
        },
{
    match remote_tip {
        None => PullStep::NoRemoteBranch,
        Some(r) => match local_tip {
            Some(l) => if r == l { PullStep::UpToDate } else { PullStep::FastForward(r) },
            None => PullStep::Adopt(r),
        },
    }
}

/// Whether a pull may move the branch from `local_tip` to the remote tip whose
/// history `walk` went through: only when `local_tip` lies in that history;
/// otherwise the histories have diverged.
pub fn pull_may_advance(walk: &HistoryWalk, local_tip: &str) -> (r: Result<(), WorkflowError>)
    ensures
        r is Ok <==> walk.visited().contains(local_tip@),
        r is Err ==> r == Err::<(), WorkflowError>(WorkflowError::Diverged),
{
    if walk.has_visited(local_tip) { Ok(()) } else { Err(WorkflowError::Diverged) }
}

/// What copying one commit between stores does: write the commit record when
/// the target lacks it, and copy the listed objects.
pub struct CopyStep {
    pub write_commit: bool,
    pub objects: Vec<String>,
}

/// Counts the commit records a history copy writes.
pub struct HistoryCopy {
    copied: usize,
}

impl HistoryCopy {
    /// How many commit records were written so far.
    pub closed spec fn copied_spec(&self) -> nat {
        self.copied as nat
    }

    /// A copy that has written nothing.
    pub fn new() -> (c: HistoryCopy)
        ensures
            c.copied_spec() == 0,
    {
        HistoryCopy { copied: 0 }
    }

    /// How many commit records were written so far.
    pub fn copied(&self) -> (n: usize)
        ensures
            n == self.copied_spec(),
    {
        self.copied
    }

    /// Decides on one commit with file tree `tree`: its record is written when the
    /// target lacks it (`has_commit` false), and counted; each object the tree
    /// refers to that the target lacks (not in `have`) is copied, once.
    pub fn step(&mut self, has_commit: bool, tree: &StrMap<String>, have: &StrMap<()>) -> (s: CopyStep)
        requires
            old(self).copied_spec() < usize::MAX,
        ensures
            s.write_commit == !has_commit,
            final(self).copied_spec() == old(self).copied_spec() + if has_commit { 0nat } else { 1nat },
            forall|h: Seq<char>| #[trigger] listed(s.objects@, h) <==> (tree_hashes(tree@).contains(h) && !have@.contains_key(h)),
            forall|i: int, j: int| 0 <= i < j < s.objects@.len() ==> s.objects@[i]@ != s.objects@[j]@,
    {
        if !has_commit {
            self.copied = self.copied + 1;
        }
        proof {
            use_type_invariant(tree);
            lemma_pairs_lookup_all(tree.pairs());
        }
        let ghost ps = tree.pairs();
        let mut objects: Vec<String> = Vec::new();
        let n = tree.len();
        let mut i: usize = 0;
        while i < n
            invariant
                n == ps.len(),
                i <= ps.len(),
                ps == tree.pairs(),
                forall|x: int| #![trigger ps[x]] 0 <= x < ps.len() ==> tree@.contains_key(ps[x].0) && tree@[ps[x].0] == ps[x].1,
                forall|k: Seq<char>| #[trigger] tree@.contains_key(k) <==> has_key(ps, k),
                forall|h: Seq<char>| #[trigger] listed(objects@, h) <==> ((exists|x: int| 0 <= x < i && ps[x].1@ == h) && !have@.contains_key(h)),
                forall|a: int, b: int| 0 <= a < b < objects@.len() ==> objects@[a]@ != objects@[b]@,
            decreases n - i,
        {
            let (_, h) = tree.pair_at(i);
            let mut known = false;
            let mut m: usize = 0;
            while m < objects.len()
                invariant
                    m <= objects@.len(),
                    known == exists|a: int| 0 <= a < m && objects@[a]@ == h@,
                decreases objects.len() - m,
            {
                if str_eq(objects[m].as_str(), h.as_str()) {
                    known = true;
                }
                m += 1;
            }
            let ghost before = objects@;
            let pushed = !known && !have.contains_key(h.as_str());
            if pushed {
                objects.push(h.clone());
                proof {
                    assert forall|a: int, b: int| 0 <= a < b < objects@.len() implies objects@[a]@ != objects@[b]@ by {
                        if b == objects@.len() - 1 {
                            assert(objects@[b]@ == h@);
                            assert(objects@[a] == before[a]);
                        }
                    }
                }
            }
            proof {
                assert forall|g: Seq<char>| #[trigger] listed(objects@, g) <==> ((exists|x: int| 0 <= x < i + 1 && ps[x].1@ == g) && !have@.contains_key(g)) by {
                    if g == h@ {
                        assert(ps[i as int].1@ == g);
                        if known {
                            let a = choose|a: int| 0 <= a < before.len() && before[a]@ == h@;
                            assert(listed(before, g));
                        }
                        if pushed {
                            assert(objects@[objects@.len() - 1]@ == g);
                        }
                    }
                    if listed(objects@, g) {
                        let a = choose|a: int| 0 <= a < objects@.len() && #[trigger] objects@[a]@ == g;
                        if a < before.len() {
                            assert(objects@[a] == before[a]);
                            assert(listed(before, g));
                            let x = choose|x: int| 0 <= x < i && ps[x].1@ == g;
                            assert(0 <= x < i + 1 && ps[x].1@ == g);
                        }
                    }
                    if (exists|x: int| 0 <= x < i + 1 && ps[x].1@ == g) && !have@.contains_key(g) {
                        let x = choose|x: int| 0 <= x < i + 1 && ps[x].1@ == g;
                        if x < i {
                            assert(exists|y: int| 0 <= y < i && ps[y].1@ == g);
                            assert(listed(before, g));
                            let a = choose|a: int| 0 <= a < before.len() && #[trigger] before[a]@ == g;
                            assert(objects@[a] == before[a]);
                        }
                    }
                }
            }
            i += 1;
        }
        proof {
            assert forall|h: Seq<char>| (exists|x: int| 0 <= x < ps.len() && ps[x].1@ == h) <==> #[trigger] tree_hashes(tree@).contains(h) by {
                if exists|x: int| 0 <= x < ps.len() && ps[x].1@ == h {
                    let x = choose|x: int| 0 <= x < ps.len() && ps[x].1@ == h;
                    assert(hashes_of(tree@)[ps[x].0] == h);
                    assert(hashes_of(tree@).contains_key(ps[x].0));
                }
                if tree_hashes(tree@).contains(h) {
                    let k = choose|k: Seq<char>| #[trigger] hashes_of(tree@).contains_key(k) && hashes_of(tree@)[k] == h;
                    let x = choose|x: int| 0 <= x < ps.len() && #[trigger] ps[x].0 == k;
                    assert(ps[x].1@ == h);
                }
            }
        }
        CopyStep { write_commit: !has_commit, objects }
    }
}

/// What `fvcs sync` does with one registry library.
#[derive(Debug, Clone, Copy, PartialEq, Eq)]
pub enum SyncStep {
    /// The registry does not say where to get it.
    NoSource,
    /// The local copy is the newest version.
    Current,
    /// The local copy matches no known version: it was edited, keep it.
    KeepEdits,
    /// Fetch the library; `overwrite_edits` when that discards local edits.
    Fetch { overwrite_edits: bool },
}

/// Whether `h` is among the known hashes.
pub open spec fn known_hash(hashes: Seq<String>, h: Seq<char>) -> bool {
    exists|i: int| 0 <= i < hashes.len() && #[trigger] hashes[i]@ == h
}

/// The sync decision: nothing without a source; a local copy at the newest
/// version stays; a local copy that matches no known version is kept unless
/// forced; anything else is fetched.
pub open spec fn sync_step_spec(source_empty: bool, hashes: Seq<String>, local: Option<Seq<char>>, force: bool) -> SyncStep {
    if source_empty {
        SyncStep::NoSource
    } else {
        match local {
            Some(l) => if hashes.len() > 0 && hashes[0]@ == l {
                SyncStep::Current
            } else if !known_hash(hashes, l) {
                if force { SyncStep::Fetch { overwrite_edits: true } } else { SyncStep::KeepEdits }
            } else {
                SyncStep::Fetch { overwrite_edits: false }
            },
            None => SyncStep::Fetch { overwrite_edits: false },
        }
    }
}

/// Decides what `fvcs sync` does with a registry library, given its source, its
/// known version hashes (newest first) and the hash of the local copy, if any.
pub fn sync_step(source: &str, hashes: &Vec<String>, local: Option<&str>, force: bool) -> (s: SyncStep)
    ensures
        s == sync_step_spec(source@.len() == 0, hashes@, match local { Some(l) => Some(l@), None => None }, force),
{
    if chars_of(source).len() == 0 {
        return SyncStep::NoSource;
    }
    match local {
        None => SyncStep::Fetch { overwrite_edits: false },
        Some(l) => {
            if hashes.len() > 0 && str_eq(hashes[0].as_str(), l) {
                return SyncStep::Current;
            }
            let mut i: usize = 0;
            while i < hashes.len()
                invariant
                    i <= hashes@.len(),
                    source@.len() != 0,
                    local == Some(l),
                    !(hashes@.len() > 0 && hashes@[0]@ == l@),
                    forall|m: int| 0 <= m < i ==> hashes@[m]@ != l@,
                decreases hashes.len() - i,
            {
                if str_eq(hashes[i].as_str(), l) {
                    assert(known_hash(hashes@, l@));
                    return SyncStep::Fetch { overwrite_edits: false };
                }
                i += 1;
            }
            if force { SyncStep::Fetch { overwrite_edits: true } } else { SyncStep::KeepEdits }
        },
    }
}

// ---------------------------------------------------------------------------
// Guards.

/// Why a command refuses to run.
#[derive(Debug, Clone, Copy, PartialEq, Eq)]
pub enum WorkflowError {
    /// There are uncommitted changes.
    Dirty,
    /// HEAD is not on a branch.
    Detached,
    /// The local and remote histories have diverged.
    Diverged,
}

/// Refuses when anything is staged or changed.
pub fn ensure_clean(s: &Status) -> (r: Result<(), WorkflowError>)
    ensures
        r is Ok <==> s.clean_spec(),
        r is Err ==> r == Err::<(), WorkflowError>(WorkflowError::Dirty),
{
    if s.is_clean() { Ok(()) } else { Err(WorkflowError::Dirty) }
}

/// The branch HEAD is on; refused on a detached HEAD.
pub fn current_branch(h: &Head) -> (r: Result<String, WorkflowError>)
    ensures
        match h {
            Head::Branch(n) => r matches Ok(b) && b@ == n@,
            Head::Detached(_) => r == Err::<String, WorkflowError>(WorkflowError::Detached),
        },
{
    match h {
        Head::Branch(n) => Ok(n.clone()),
        Head::Detached(_) => Err(WorkflowError::Detached),
    }
}

/// The identity settings `fvcs config` knows.
#[derive(Debug, Clone, Copy, PartialEq, Eq)]
pub enum Setting {
    UserName,
    UserEmail,
}

/// The setting a key names, if any.
pub fn parse_setting(key: &str) -> (r: Option<Setting>)
    ensures
        key@ == seq!['u', 's', 'e', 'r', '.', 'n', 'a', 'm', 'e'] ==> r == Some(Setting::UserName),
        key@ == seq!['u', 's', 'e', 'r', '.', 'e', 'm', 'a', 'i', 'l'] ==> r == Some(Setting::UserEmail),
        key@ != seq!['u', 's', 'e', 'r', '.', 'n', 'a', 'm', 'e'] && key@ != seq!['u', 's', 'e', 'r', '.', 'e', 'm', 'a', 'i', 'l'] ==> r is None,
{
    proof {
        reveal_strlit("user.name");
        reveal_strlit("user.email");
        assert("user.name"@ =~= seq!['u', 's', 'e', 'r', '.', 'n', 'a', 'm', 'e']);
        assert("user.email"@ =~= seq!['u', 's', 'e', 'r', '.', 'e', 'm', 'a', 'i', 'l']);
    }
    if str_eq(key, "user.name") {
        Some(Setting::UserName)
    } else if str_eq(key, "user.email") {
        Some(Setting::UserEmail)
    } else {
        None
    }
}

} // verus!
