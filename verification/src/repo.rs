use vstd::prelude::*;

use crate::text::{chars_of, has_prefix, owned, push_char, push_str, starts_with, str_eq, string_of_range};

verus! {

/// Name of the folder that holds a repository's data.
pub const DIR: &'static str = ".fvcs";

/// Branch a new repository starts on.
pub const DEFAULT_BRANCH: &'static str = "main";

pub open spec fn dir_spec() -> Seq<char> {
    seq!['.', 'f', 'v', 'c', 's']
}

pub open spec fn default_branch_spec() -> Seq<char> {
    seq!['m', 'a', 'i', 'n']
}

/// `base` joined with `part` by `/`, as `Path::join` does on Unix: an absolute
/// `part` replaces the base, an empty base gives `part`, and no separator is
/// doubled.
pub open spec fn path_join(base: Seq<char>, part: Seq<char>) -> Seq<char> {
    if part.len() > 0 && part[0] == '/' {
        part
    } else if base.len() == 0 {
        part
    } else if base.last() == '/' {
        base + part
    } else {
        base + seq!['/'] + part
    }
}

/// Joins two paths with `/`.
pub fn join(base: &str, part: &str) -> (out: String)
    ensures
        out@ == path_join(base@, part@),
{
    let b = chars_of(base);
    let p = chars_of(part);
    if p.len() > 0 && p[0] == '/' {
        return owned(part);
    }
    if b.len() == 0 {
        return owned(part);
    }
    let mut out = owned(base);
    if b[b.len() - 1] != '/' {
        push_char(&mut out, '/');
    }
    push_str(&mut out, part);
    out
}

/// A repository, by the path of its work tree.
pub struct Repository {
    pub root: String,
}

impl Repository {
    pub open spec fn fvcs_spec(&self) -> Seq<char> {
        path_join(self.root@, dir_spec())
    }

    pub open spec fn objects_spec(&self) -> Seq<char> {
        path_join(self.fvcs_spec(), seq!['o', 'b', 'j', 'e', 'c', 't', 's'])
    }

    pub open spec fn commits_spec(&self) -> Seq<char> {
        path_join(self.fvcs_spec(), seq!['c', 'o', 'm', 'm', 'i', 't', 's'])
    }

    pub open spec fn refs_spec(&self) -> Seq<char> {
        path_join(self.fvcs_spec(), seq!['r', 'e', 'f', 's'])
    }

    pub open spec fn heads_spec(&self) -> Seq<char> {
        path_join(self.refs_spec(), seq!['h', 'e', 'a', 'd', 's'])
    }

    pub open spec fn tags_spec(&self) -> Seq<char> {
        path_join(self.refs_spec(), seq!['t', 'a', 'g', 's'])
    }

    /// The repository's data folder.
    pub fn fvcs(&self) -> (p: String)
        ensures
            p@ == self.fvcs_spec(),
    {
        proof { reveal_strlit(".fvcs"); }
        join(self.root.as_str(), ".fvcs")
    }

    /// Where the compressed contents are stored.
    pub fn objects(&self) -> (p: String)
        ensures
            p@ == self.objects_spec(),
    {
        proof { reveal_strlit("objects"); }
        join(self.fvcs().as_str(), "objects")
    }

    /// Where the commit records are stored.
    pub fn commits(&self) -> (p: String)
        ensures
            p@ == self.commits_spec(),
    {
        proof { reveal_strlit("commits"); }
        join(self.fvcs().as_str(), "commits")
    }

    /// Where the branch tips are stored.
    pub fn heads(&self) -> (p: String)
        ensures
            p@ == self.heads_spec(),
    {
        proof { reveal_strlit("refs"); reveal_strlit("heads"); }
        let refs = join(self.fvcs().as_str(), "refs");
        join(refs.as_str(), "heads")
    }

    /// Where the tags are stored.
    pub fn tags(&self) -> (p: String)
        ensures
            p@ == self.tags_spec(),
    {
        proof { reveal_strlit("refs"); reveal_strlit("tags"); }
        let refs = join(self.fvcs().as_str(), "refs");
        join(refs.as_str(), "tags")
    }

    /// The file naming the checked-out branch or commit.
    pub fn head_file(&self) -> (p: String)
        ensures
            p@ == path_join(self.fvcs_spec(), seq!['H', 'E', 'A', 'D']),
    {
        proof { reveal_strlit("HEAD"); }
        join(self.fvcs().as_str(), "HEAD")
    }

    /// The staging area file.
    pub fn index_file(&self) -> (p: String)
        ensures
            p@ == path_join(self.fvcs_spec(), seq!['i', 'n', 'd', 'e', 'x']),
    {
        proof { reveal_strlit("index"); }
        join(self.fvcs().as_str(), "index")
    }

    /// The absolute path of a repository-relative path.
    pub fn abs(&self, rel: &str) -> (p: String)
        ensures
            p@ == path_join(self.root@, rel@),
    {
        join(self.root.as_str(), rel)
    }

    /// The repository-relative path of `abs`, with `/` separators; `None` when
    /// `abs` lies outside the work tree. Paths are compared component by
    /// component: repeated separators and `.` components do not count.
    pub fn rel(&self, abs: &str) -> (r: Option<String>)
        ensures
            r is Some <==> rel_spec(self.root@, abs@) is Some,
            r matches Some(s) ==> rel_spec(self.root@, abs@) == Some(s@),
    {
        let rc = path_components(self.root.as_str());
        let ac = path_components(abs);
        let ghost rv = rc@.map_values(|p: String| p@);
        let ghost av = ac@.map_values(|p: String| p@);
        if is_rooted_exec(self.root.as_str()) != is_rooted_exec(abs) || rc.len() > ac.len() {
            return None;
        }
        let mut i: usize = 0;
        while i < rc.len()
            invariant
                rc.len() <= ac.len(),
                rv == rc@.map_values(|p: String| p@),
                rv == path_comps(self.root@),
                av == path_comps(abs@),
                av == ac@.map_values(|p: String| p@),
                i <= rc.len(),
                forall|m: int| 0 <= m < i ==> rv[m] == av[m],
            decreases rc.len() - i,
        {
            if !str_eq(rc[i].as_str(), ac[i].as_str()) {
                proof {
                    assert(rv[i as int] == rc@[i as int]@);
                    assert(av[i as int] == ac@[i as int]@);
                    assert(av.take(rv.len() as int)[i as int] == av[i as int]);
                    assert(av.take(rv.len() as int) != rv);
                    assert(path_comps(self.root@) == rv);
                    assert(path_comps(abs@) == av);
                    assert(rel_spec(self.root@, abs@) is None);
                }
                return None;
            }
            i += 1;
        }
        proof {
            assert(av.take(rv.len() as int) =~= rv);
        }
        let start = rc.len();
        let mut out = String::new();
        let mut j = start;
        while j < ac.len()
            invariant
                start == rv.len(),
                av == ac@.map_values(|p: String| p@),
                rv == path_comps(self.root@),
                av == path_comps(abs@),
                start <= j <= ac.len(),
                out@ == slashes(join_comps(av.subrange(start as int, j as int))),
            decreases ac.len() - j,
        {
            let ghost before = av.subrange(start as int, j as int);
            let ghost piece = av[j as int];
            proof {
                assert(av.subrange(start as int, j + 1) =~= before.push(piece));
            }
            if j > start {
                proof {
                    lemma_join_push(before, piece);
                    lemma_slashes_concat(join_comps(before), seq!['/']);
                    lemma_slashes_concat(join_comps(before) + seq!['/'], piece);
                    let e = seq!['/'];
                    assert(e.drop_last() =~= Seq::<char>::empty());
                    assert(slashes(e.drop_last()) == e.drop_last());
                    assert(e.last() == '/');
                    assert(slashes(e) == slashes(e.drop_last()).push('/'));
                    assert(slashes(e) =~= e);
                }
                push_char(&mut out, '/');
            } else {
                proof {
                    assert(before.len() == 0);
                    assert(before.push(piece) =~= seq![piece]);
                    assert(out@ =~= Seq::<char>::empty());
                    lemma_slashes_concat(out@, piece);
                    assert(out@ + piece =~= piece);
                    assert(slashes(Seq::<char>::empty()) + slashes(piece) =~= slashes(piece));
                }
            }
            push_slashed(&mut out, ac[j].as_str());
            j += 1;
        }
        proof {
            assert(av.subrange(start as int, ac.len() as int) =~= av.skip(rv.len() as int));
        }
        Some(out)
    }
}

/// Appends `piece` to `out` with every `\` turned into `/`.
fn push_slashed(out: &mut String, piece: &str)
    ensures
        final(out)@ == old(out)@ + slashes(piece@),
{
    let cs = chars_of(piece);
    let ghost o = out@;
    let mut k: usize = 0;
    while k < cs.len()
        invariant
            cs@ == piece@,
            k <= cs.len(),
            out@ == o + slashes(cs@.take(k as int)),
        decreases cs.len() - k,
    {
        let c = if cs[k] == '\\' { '/' } else { cs[k] };
        proof {
            let t = cs@.take(k + 1);
            assert(t.drop_last() =~= cs@.take(k as int));
        }
        push_char(out, c);
        proof {
            assert(o + slashes(cs@.take(k as int)).push(c) =~= (o + slashes(cs@.take(k as int))).push(c));
        }
        k += 1;
    }
    proof {
        assert(cs@.take(cs.len() as int) =~= cs@);
    }
}

/// Whether `s` starts with `/`.
fn is_rooted_exec(s: &str) -> (b: bool)
    ensures
        b == is_rooted(s@),
{
    let cs = chars_of(s);
    cs.len() > 0 && cs[0] == '/'
}

/// The components of the path `s`, as `path_comps` gives them.
pub fn path_components(s: &str) -> (out: Vec<String>)
    ensures
        out@.map_values(|p: String| p@) == path_comps(s@),
{
    let cs = chars_of(s);
    let mut out: Vec<String> = Vec::new();
    if cs.len() > 0 && cs[0] == '.' && (cs.len() == 1 || cs[1] == '/') {
        let mut dot = String::new();
        push_char(&mut dot, '.');
        out.push(dot);
        proof {
            assert(out@.map_values(|p: String| p@) =~= seq![seq!['.']]);
        }
    } else {
        proof {
            assert(out@.map_values(|p: String| p@) =~= Seq::<Seq<char>>::empty());
        }
    }
    let ghost lead = out@.map_values(|p: String| p@);
    let mut start: usize = 0;
    let mut k: usize = 0;
    assert(cs@.skip(0) =~= cs@);
    loop
        invariant
            cs@ == s@,
            start <= k <= cs.len(),
            forall|m: int| start <= m < k ==> cs@[m] != '/',
            path_comps(s@) == out@.map_values(|p: String| p@) + normal_comps(cs@.skip(start as int)),
        decreases cs.len() - k,
    {
        if k == cs.len() || cs[k] == '/' {
            let piece = string_of_range(&cs, start, k);
            proof {
                let rest = cs@.skip(start as int);
                lemma_first_slash_at(rest, k - start);
                assert(rest.take(k - start) =~= piece@);
                if k < cs.len() {
                    assert(rest.skip(k - start + 1) =~= cs@.skip(k + 1));
                }
            }
            let ghost before = out@.map_values(|p: String| p@);
            let keep = !(k == start || (k == start + 1 && cs[start] == '.'));
            proof {
                if piece@ =~= seq!['.'] {
                    assert(piece@[0] == cs@[start as int]);
                }
                assert(keep == keep_comp(piece@));
            }
            if keep {
                out.push(piece);
                proof {
                    assert(out@.map_values(|p: String| p@) =~= before.push(piece@));
                }
            }
            if k == cs.len() {
                proof {
                    let mapped = out@.map_values(|p: String| p@);
                    assert(mapped + Seq::<Seq<char>>::empty() =~= mapped);
                }
                return out;
            }
            proof {
                let mapped = out@.map_values(|p: String| p@);
                let rest = normal_comps(cs@.skip(k + 1));
                if keep {
                    assert(before + (seq![piece@] + rest) =~= before.push(piece@) + rest);
                }
            }
            start = k + 1;
        }
        k += 1;
    }
}

/// `s` with every `\` turned into `/`.
pub open spec fn slashes(s: Seq<char>) -> Seq<char>
    decreases s.len(),
{
    if s.len() == 0 {
        s
    } else {
        slashes(s.drop_last()).push(if s.last() == '\\' { '/' } else { s.last() })
    }
}

/// Whether the path `s` starts at the file system root.
pub open spec fn is_rooted(s: Seq<char>) -> bool {
    s.len() > 0 && s[0] == '/'
}

/// Whether the relative path `s` starts with a `.` component, which `Path::components`
/// keeps there.
pub open spec fn starts_cur(s: Seq<char>) -> bool {
    s.len() > 0 && s[0] == '.' && (s.len() == 1 || s[1] == '/')
}

/// Position of the first `/` in `s`, or its length.
pub open spec fn first_slash(s: Seq<char>) -> int
    decreases s.len(),
{
    if s.len() == 0 {
        0
    } else if s[0] == '/' {
        0
    } else {
        1 + first_slash(s.drop_first())
    }
}

/// A piece between separators that is a component: not empty and not `.`.
pub open spec fn keep_comp(piece: Seq<char>) -> bool {
    piece.len() > 0 && piece != seq!['.']
}

/// The pieces of `s` between `/` separators that are components, in order.
pub open spec fn normal_comps(s: Seq<char>) -> Seq<Seq<char>>
    decreases s.len(),
{
    let k = first_slash(s);
    proof {
        lemma_first_slash_bounds(s);
    }
    let piece = s.take(k);
    let rest = if k < s.len() { normal_comps(s.skip(k + 1)) } else { Seq::empty() };
    if keep_comp(piece) { seq![piece] + rest } else { rest }
}

/// The components of a path, as `Path::components` gives them on Unix, the root
/// left out (see `is_rooted`): a leading `.` of a relative path, then the other
/// pieces that are neither empty nor `.`.
pub open spec fn path_comps(s: Seq<char>) -> Seq<Seq<char>> {
    if starts_cur(s) {
        seq![seq!['.']] + normal_comps(s)
    } else {
        normal_comps(s)
    }
}

/// Components joined by `/`.
pub open spec fn join_comps(cs: Seq<Seq<char>>) -> Seq<char>
    decreases cs.len(),
{
    if cs.len() == 0 {
        Seq::empty()
    } else if cs.len() == 1 {
        cs[0]
    } else {
        cs[0] + seq!['/'] + join_comps(cs.drop_first())
    }
}

/// The path of `abs` relative to `root`, with `/` separators: defined when both
/// start at the file system root or neither does, and the components of `root`
/// begin those of `abs`; then the remaining components joined by `/`.
pub open spec fn rel_spec(root: Seq<char>, abs: Seq<char>) -> Option<Seq<char>> {
    let rc = path_comps(root);
    let ac = path_comps(abs);
    if is_rooted(root) == is_rooted(abs) && rc.len() <= ac.len() && ac.take(rc.len() as int) == rc {
        Some(slashes(join_comps(ac.skip(rc.len() as int))))
    } else {
        None
    }
}

pub proof fn lemma_first_slash_bounds(s: Seq<char>)
    ensures
        0 <= first_slash(s) <= s.len(),
        forall|m: int| 0 <= m < first_slash(s) ==> s[m] != '/',
        first_slash(s) < s.len() ==> s[first_slash(s)] == '/',
    decreases s.len(),
{
    if s.len() > 0 && s[0] != '/' {
        lemma_first_slash_bounds(s.drop_first());
        assert forall|m: int| 0 <= m < first_slash(s) implies s[m] != '/' by {
            if m > 0 {
                assert(s[m] == s.drop_first()[m - 1]);
            }
        }
    }
}

proof fn lemma_first_slash_at(s: Seq<char>, k: int)
    requires
        0 <= k <= s.len(),
        forall|m: int| 0 <= m < k ==> s[m] != '/',
        k == s.len() || s[k] == '/',
    ensures
        first_slash(s) == k,
    decreases k,
{
    if k > 0 {
        lemma_first_slash_at(s.drop_first(), k - 1);
    }
}

proof fn lemma_slashes_concat(a: Seq<char>, b: Seq<char>)
    ensures
        slashes(a + b) == slashes(a) + slashes(b),
    decreases b.len(),
{
    if b.len() == 0 {
        assert(a + b =~= a);
        assert(slashes(a) + slashes(b) =~= slashes(a));
    } else {
        lemma_slashes_concat(a, b.drop_last());
        assert((a + b).drop_last() =~= a + b.drop_last());
        assert(slashes(a) + slashes(b.drop_last()).push(if b.last() == '\\' { '/' } else { b.last() })
            =~= (slashes(a) + slashes(b.drop_last())).push(if b.last() == '\\' { '/' } else { b.last() }));
    }
}

proof fn lemma_join_push(cs: Seq<Seq<char>>, c: Seq<char>)
    requires
        cs.len() > 0,
    ensures
        join_comps(cs.push(c)) == join_comps(cs) + seq!['/'] + c,
    decreases cs.len(),
{
    assert(cs.push(c)[0] == cs[0]);
    if cs.len() == 1 {
        assert(cs.push(c).drop_first() =~= seq![c]);
        assert(join_comps(seq![c]) == c);
        assert(join_comps(cs) == cs[0]);
    } else {
        lemma_join_push(cs.drop_first(), c);
        assert(cs.push(c).drop_first() =~= cs.drop_first().push(c));
        assert(cs[0] + seq!['/'] + (join_comps(cs.drop_first()) + seq!['/'] + c)
            =~= cs[0] + seq!['/'] + join_comps(cs.drop_first()) + seq!['/'] + c);
    }
}

/// A clean repository-relative path: not empty, no `\\`, no separator at either
/// end, no empty piece between separators and no `.` piece.
pub open spec fn is_clean_rel(r: Seq<char>) -> bool {
    &&& r.len() > 0
    &&& r[0] != '/'
    &&& r.last() != '/'
    &&& forall|i: int| 0 <= i < r.len() ==> r[i] != '\\'
    &&& forall|i: int| 0 <= i < r.len() - 1 ==> !(r[i] == '/' && #[trigger] r[i + 1] == '/')
    &&& forall|i: int|
        0 <= i < r.len() && #[trigger] r[i] == '.' ==> !((i == 0 || r[i - 1] == '/') && (i == r.len() - 1 || r[i + 1] == '/'))
}

/// A clean relative path, made absolute under any root and made relative again,
/// comes back unchanged.
pub proof fn lemma_rel_of_abs(root: Seq<char>, r: Seq<char>)
    requires
        is_clean_rel(r),
    ensures
        rel_spec(root, path_join(root, r)) == Some(r),
{
    let p = path_join(root, r);
    lemma_normal_clean(r);
    lemma_slashes_id(r);
    let e = Seq::<char>::empty();
    assert(normal_comps(e) =~= Seq::<Seq<char>>::empty()) by {
        lemma_first_slash_at(e, 0);
        assert(e.take(0) =~= e);
    }
    assert(!starts_cur(r)) by {
        if r[0] == '.' {
            assert(r[0] == '.');
        }
    }
    if root.len() == 0 {
        assert(p == r);
        assert(path_comps(root) =~= Seq::<Seq<char>>::empty());
    } else if root.last() == '/' {
        let d = root.drop_last();
        assert(p =~= d + seq!['/'] + r);
        assert(root =~= d + seq!['/'] + e);
        lemma_normal_concat(d, r);
        lemma_normal_concat(d, e);
        assert(normal_comps(d) + normal_comps(e) =~= normal_comps(d));
        assert(normal_comps(p) == normal_comps(root) + normal_comps(r));
        assert(p[0] == root[0]);
        if root.len() > 1 {
            assert(p[1] == root[1]);
        }
    } else {
        assert(p =~= root + seq!['/'] + r);
        lemma_normal_concat(root, r);
        assert(p[0] == root[0]);
        if root.len() > 1 {
            assert(p[1] == root[1]);
        }
    }
    let rc = path_comps(root);
    let ac = path_comps(p);
    if root.len() > 0 {
        if starts_cur(root) {
            assert(ac =~= rc + normal_comps(r));
        } else {
            assert(ac == rc + normal_comps(r));
        }
    } else {
        assert(ac =~= rc + normal_comps(r));
    }
    assert(ac.take(rc.len() as int) =~= rc);
    assert(ac.skip(rc.len() as int) =~= normal_comps(r));
}

proof fn lemma_normal_concat(a: Seq<char>, b: Seq<char>)
    ensures
        normal_comps(a + seq!['/'] + b) == normal_comps(a) + normal_comps(b),
    decreases a.len(),
{
    let s = a + seq!['/'] + b;
    lemma_first_slash_bounds(a);
    let k = first_slash(a);
    lemma_first_slash_at(s, k);
    assert(s.take(k) =~= a.take(k));
    if k == a.len() {
        assert(s.skip(k + 1) =~= b);
        assert(a.take(k) =~= a);
        if keep_comp(a) {
            assert(normal_comps(a) =~= seq![a]);
            assert(seq![a] + normal_comps(b) =~= normal_comps(a) + normal_comps(b));
        } else {
            assert(normal_comps(a) =~= Seq::<Seq<char>>::empty());
            assert(normal_comps(b) =~= normal_comps(a) + normal_comps(b));
        }
    } else {
        let t = a.skip(k + 1);
        assert(s.skip(k + 1) =~= t + seq!['/'] + b);
        lemma_normal_concat(t, b);
        let piece = a.take(k);
        if keep_comp(piece) {
            assert(seq![piece] + (normal_comps(t) + normal_comps(b)) =~= seq![piece] + normal_comps(t) + normal_comps(b));
        }
    }
}

proof fn lemma_normal_clean(r: Seq<char>)
    requires
        is_clean_rel(r),
    ensures
        normal_comps(r).len() > 0,
        join_comps(normal_comps(r)) == r,
    decreases r.len(),
{
    lemma_first_slash_bounds(r);
    let k = first_slash(r);
    let piece = r.take(k);
    assert(k > 0);
    assert(keep_comp(piece)) by {
        if piece == seq!['.'] {
            assert(piece[0] == '.');
            assert(r[0] == piece[0]);
            assert(piece.len() == 1);
            if k < r.len() {
                assert(r[1] == '/');
            }
        }
    }
    if k == r.len() {
        assert(piece =~= r);
        assert(normal_comps(r) =~= seq![r]);
    } else {
        let rest = r.skip(k + 1);
        assert(k < r.len() - 1);
        assert(r[k + 1] != '/');
        assert(is_clean_rel(rest)) by {
            assert(rest[0] == r[k + 1]);
            assert(rest.last() == r.last());
            assert forall|i: int| 0 <= i < rest.len() - 1 implies !(rest[i] == '/' && #[trigger] rest[i + 1] == '/') by {
                let j = i + k + 1;
                assert(rest[i] == r[j] && rest[i + 1] == r[j + 1]);
                assert(!(r[j] == '/' && r[j + 1] == '/'));
            }
            assert forall|i: int| 0 <= i < rest.len() && #[trigger] rest[i] == '.'
                implies !((i == 0 || rest[i - 1] == '/') && (i == rest.len() - 1 || rest[i + 1] == '/')) by {
                assert(rest[i] == r[i + k + 1]);
                assert(r[(i + k + 1) - 1] == '/' ==> (i == 0 || rest[i - 1] == '/'));
                if i > 0 {
                    assert(rest[i - 1] == r[i + k]);
                }
                if i < rest.len() - 1 {
                    assert(rest[i + 1] == r[i + k + 2]);
                }
            }
        }
        lemma_normal_clean(rest);
        let cs = normal_comps(r);
        assert(cs =~= seq![piece] + normal_comps(rest));
        assert(cs.drop_first() =~= normal_comps(rest));
        assert(piece + seq!['/'] + rest =~= r);
    }
}

proof fn lemma_slashes_id(r: Seq<char>)
    requires
        forall|i: int| 0 <= i < r.len() ==> r[i] != '\\',
    ensures
        slashes(r) == r,
    decreases r.len(),
{
    if r.len() > 0 {
        lemma_slashes_id(r.drop_last());
        assert(r.drop_last().push(r.last()) =~= r);
    }
}

/// Whether a repository-relative path lies in the repository's own data folder.
pub open spec fn is_internal_spec(rel: Seq<char>) -> bool {
    rel == dir_spec() || has_prefix(rel, dir_spec().push('/'))
}

/// Whether `rel` is the data folder or inside it.
pub fn is_internal(rel: &str) -> (b: bool)
    ensures
        b == is_internal_spec(rel@),
{
    proof {
        reveal_strlit(".fvcs");
        reveal_strlit(".fvcs/");
        assert(".fvcs"@ =~= dir_spec());
        assert(".fvcs/"@ =~= dir_spec().push('/'));
    }
    str_eq(rel, ".fvcs") || starts_with(rel, ".fvcs/")
}

} // verus!
