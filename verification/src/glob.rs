use vstd::prelude::*;

use crate::text::chars_of;

verus! {

/// Glob matching of the pattern suffix `p[i..]` against the text suffix `t[j..]`:
/// `*` matches any run of characters (possibly empty), `?` matches exactly one
/// character, and every other character matches itself.
pub open spec fn glob_at(p: Seq<char>, t: Seq<char>, i: int, j: int) -> bool
    decreases p.len() - i + t.len() - j,
{
    if i < 0 || j < 0 || i > p.len() || j > t.len() {
        false
    } else if i == p.len() {
        j == t.len()
    } else if p[i] == '*' {
        glob_at(p, t, i + 1, j) || (j < t.len() && glob_at(p, t, i, j + 1))
    } else {
        j < t.len() && (p[i] == '?' || p[i] == t[j]) && glob_at(p, t, i + 1, j + 1)
    }
}

/// Glob matching of the whole pattern against the whole text.
pub open spec fn glob(p: Seq<char>, t: Seq<char>) -> bool {
    glob_at(p, t, 0, 0)
}

/// Whether pattern position `i` can consume text position `j` in a single step:
/// a `?`, or a character equal to the text character (a `*` included).
pub open spec fn step_matches(p: Seq<char>, t: Seq<char>, i: int, j: int) -> bool {
    i < p.len() && j < t.len() && (p[i] == '?' || p[i] == t[j])
}

/// Whether `p[i..]` consists of `*` only.
pub open spec fn only_stars_from(p: Seq<char>, i: int) -> bool {
    forall|k: int| i <= k < p.len() ==> p[k] == '*'
}

/// The single-star backtracking matcher that `wildcard` runs, as a state
/// machine over (pattern position `i`, text position `j`, the last star seen,
/// and the text position that star was last resumed from). A literal step is
/// tried first, then a star, then a resumption after the last star.
pub open spec fn wildcard_run(
    p: Seq<char>,
    t: Seq<char>,
    i: int,
    j: int,
    star: Option<int>,
    sj: int,
) -> bool
    decreases t.len() - sj, t.len() - j, p.len() - i,
{
    if !(0 <= i <= p.len() && 0 <= sj <= j <= t.len() && (star matches Some(s) ==> 0 <= s < i)) {
        false
    } else if j == t.len() {
        only_stars_from(p, i)
    } else if step_matches(p, t, i, j) {
        wildcard_run(p, t, i + 1, j + 1, star, sj)
    } else if i < p.len() && p[i] == '*' {
        wildcard_run(p, t, i + 1, j, Some(i), j)
    } else if let Some(s) = star {
        wildcard_run(p, t, s + 1, sj + 1, star, sj + 1)
    } else {
        false
    }
}

// ---------------------------------------------------------------------------
// Lemmas relating the matcher to glob semantics on texts without `*`.

proof fn lemma_glob_end_of_text(p: Seq<char>, t: Seq<char>, i: int)
    requires
        0 <= i <= p.len(),
    ensures
        glob_at(p, t, i, t.len() as int) == only_stars_from(p, i),
    decreases p.len() - i,
{
    if i < p.len() {
        lemma_glob_end_of_text(p, t, i + 1);
    }
}

/// A star at `i` that matches from text position `j2` also matches from any
/// earlier position `j1`.
proof fn lemma_star_absorbs(p: Seq<char>, t: Seq<char>, i: int, j1: int, j2: int)
    requires
        0 <= i < p.len(),
        p[i] == '*',
        0 <= j1 <= j2,
        glob_at(p, t, i, j2),
    ensures
        glob_at(p, t, i, j1),
    decreases j2 - j1,
{
    if j1 < j2 {
        lemma_star_absorbs(p, t, i, j1 + 1, j2);
    }
}

/// The pattern run `p[a..a+len]` has no star and consumes text `t[b..b+len]` step by step.
pub open spec fn literal_run(p: Seq<char>, t: Seq<char>, a: int, b: int, len: int) -> bool {
    &&& 0 <= len
    &&& 0 <= a
    &&& 0 <= b
    &&& a + len <= p.len()
    &&& b + len <= t.len()
    &&& forall|m: int| a <= m < a + len ==> #[trigger] p[m] != '*' && (p[m] == '?' || p[m] == t[m - a + b])
}

/// Matching through a starless literal run is the same as matching after it.
proof fn lemma_literal_run(p: Seq<char>, t: Seq<char>, a: int, b: int, len: int)
    requires
        literal_run(p, t, a, b, len),
    ensures
        glob_at(p, t, a, b) == glob_at(p, t, a + len, b + len),
    decreases len,
{
    if len > 0 {
        assert(p[a] != '*' && (p[a] == '?' || p[a] == t[b]));
        lemma_literal_run(p, t, a + 1, b + 1, len - 1);
    }
}

/// If a starless pattern run of length `len` matches from some text position `k`,
/// the text is long enough and matching continues after the run.
proof fn lemma_starless_prefix(p: Seq<char>, t: Seq<char>, a: int, k: int, len: int)
    requires
        0 <= a,
        a + len <= p.len(),
        0 <= len,
        0 <= k,
        forall|m: int| a <= m < a + len ==> p[m] != '*',
        glob_at(p, t, a, k),
    ensures
        k + len <= t.len(),
        glob_at(p, t, a + len, k + len),
    decreases len,
{
    if len > 0 {
        assert(p[a] != '*');
        lemma_starless_prefix(p, t, a + 1, k + 1, len - 1);
    }
}

/// The invariant of the matcher on a text without `*`: with a star at `s` resumed
/// from `sj`, the whole answer is `glob_at(s, sj)`, and `(i, j)` is a literal run
/// from `(s + 1, sj)`; without a star the answer is `glob_at(i, j)`.
pub open spec fn run_inv(p: Seq<char>, t: Seq<char>, i: int, j: int, star: Option<int>, sj: int, answer: bool) -> bool {
    &&& 0 <= i <= p.len()
    &&& 0 <= sj <= j <= t.len()
    &&& match star {
        Some(s) => {
            &&& 0 <= s < i
            &&& p[s] == '*'
            &&& i - (s + 1) == j - sj
            &&& literal_run(p, t, s + 1, sj, i - (s + 1))
            &&& answer == glob_at(p, t, s, sj)
        },
        None => answer == glob_at(p, t, i, j),
    }
}

proof fn lemma_run_step(p: Seq<char>, t: Seq<char>, i: int, j: int, star: Option<int>, sj: int, answer: bool)
    requires
        run_inv(p, t, i, j, star, sj, answer),
        forall|k: int| 0 <= k < t.len() ==> t[k] != '*',
    ensures
        wildcard_run(p, t, i, j, star, sj) == answer,
    decreases t.len() - sj, t.len() - j, p.len() - i,
{
    if j == t.len() {
        lemma_glob_end_of_text(p, t, i);
        if let Some(s) = star {
            // glob_at(s, sj) holds iff some resumption point k >= sj matches after the star;
            // only k == sj fits in the text.
            if answer {
                lemma_star_split(p, t, s, sj);
                let k = choose|k: int| sj <= k <= t.len() && #[trigger] glob_at(p, t, s + 1, k);
                let len = i - (s + 1);
                lemma_starless_prefix(p, t, s + 1, k, len);
                assert(k == sj);
                lemma_literal_run(p, t, s + 1, sj, len);
            } else {
                lemma_literal_run(p, t, s + 1, sj, i - (s + 1));
                lemma_star_unfold(p, t, s, sj);
            }
        }
    } else if step_matches(p, t, i, j) {
        assert(p[i] != '*');
        match star {
            Some(s) => {
                assert(literal_run(p, t, s + 1, sj, i + 1 - (s + 1)));
            },
            None => {},
        }
        lemma_run_step(p, t, i + 1, j + 1, star, sj, answer);
    } else if i < p.len() && p[i] == '*' {
        let new_answer = glob_at(p, t, i, j);
        match star {
            Some(s) => {
                // Greedy step: forgetting the older star loses no match.
                let len = i - (s + 1);
                lemma_literal_run(p, t, s + 1, sj, len);
                if answer {
                    lemma_star_split(p, t, s, sj);
                    let k = choose|k: int| sj <= k <= t.len() && #[trigger] glob_at(p, t, s + 1, k);
                    lemma_starless_prefix(p, t, s + 1, k, len);
                    lemma_star_absorbs(p, t, i, j, k + len);
                } else {
                    lemma_star_unfold(p, t, s, sj);
                }
            },
            None => {},
        }
        assert(literal_run(p, t, i + 1, j, 0));
        lemma_run_step(p, t, i + 1, j, Some(i), j, answer);
    } else if let Some(s) = star {
        let len = i - (s + 1);
        lemma_literal_run(p, t, s + 1, sj, len);
        lemma_star_unfold(p, t, s, sj);
        assert(!glob_at(p, t, i, j));
        assert(answer == glob_at(p, t, s, sj + 1));
        assert(literal_run(p, t, s + 1, sj + 1, 0));
        lemma_run_step(p, t, s + 1, sj + 1, star, sj + 1, answer);
    } else {
    }
}

/// A star at `s` matches from `sj` iff the rest of the pattern matches from some `k >= sj`.
proof fn lemma_star_split(p: Seq<char>, t: Seq<char>, s: int, sj: int)
    requires
        0 <= s < p.len(),
        p[s] == '*',
        0 <= sj <= t.len(),
        glob_at(p, t, s, sj),
    ensures
        exists|k: int| sj <= k <= t.len() && #[trigger] glob_at(p, t, s + 1, k),
    decreases t.len() - sj,
{
    if glob_at(p, t, s + 1, sj) {
        assert(sj <= sj <= t.len() && glob_at(p, t, s + 1, sj));
    } else {
        lemma_star_split(p, t, s, sj + 1);
    }
}

/// Unfolds a star once: `glob_at(s, sj) == glob_at(s + 1, sj) || glob_at(s, sj + 1)`.
proof fn lemma_star_unfold(p: Seq<char>, t: Seq<char>, s: int, sj: int)
    requires
        0 <= s < p.len(),
        p[s] == '*',
        0 <= sj <= t.len(),
    ensures
        glob_at(p, t, s, sj) == (glob_at(p, t, s + 1, sj) || (sj < t.len() && glob_at(p, t, s, sj + 1))),
{
}

/// On a text without `*`, the matcher computes glob matching.
pub proof fn lemma_wildcard_run_is_glob(p: Seq<char>, t: Seq<char>)
    requires
        forall|k: int| 0 <= k < t.len() ==> t[k] != '*',
    ensures
        wildcard_run(p, t, 0, 0, None, 0) == glob(p, t),
{
    lemma_run_step(p, t, 0, 0, None, 0, glob(p, t));
}

// ---------------------------------------------------------------------------

/// Wildcard matching of `text` against `pattern` (`*` and `?`), by the
/// single-star backtracking matcher. On texts that hold no `*` this is exactly
/// glob matching.
pub fn wildcard(pattern: &str, text: &str) -> (result: bool)
    ensures
        result == wildcard_run(pattern@, text@, 0, 0, None, 0),
        !text@.contains('*') ==> result == glob(pattern@, text@),
{
    let p = chars_of(pattern);
    let t = chars_of(text);
    let ghost ps = p@;
    let ghost ts = t@;
    let mut i: usize = 0;
    let mut j: usize = 0;
    let mut star: usize = usize::MAX;
    let mut star_j: usize = 0;
    let ghost init = wildcard_run(ps, ts, 0, 0, None, 0);
    while j < t.len()
        invariant
            ps == p@,
            ts == t@,
            ps == pattern@,
            ts == text@,
            init == wildcard_run(pattern@, text@, 0, 0, None, 0),
            0 <= i <= p.len(),
            0 <= star_j <= j <= t.len(),
            star == usize::MAX || star < i,
            init == wildcard_run(
                ps,
                ts,
                i as int,
                j as int,
                if star == usize::MAX { None } else { Some(star as int) },
                star_j as int,
            ),
        decreases t.len() - star_j, t.len() - j, p.len() - i,
    {
        if i < p.len() && (p[i] == '?' || p[i] == t[j]) {
            i += 1;
            j += 1;
        } else if i < p.len() && p[i] == '*' {
            star = i;
            star_j = j;
            i += 1;
        } else if star != usize::MAX {
            i = star + 1;
            star_j += 1;
            j = star_j;
        } else {
            proof {
                if !ts.contains('*') {
                    assert forall|k: int| 0 <= k < ts.len() implies ts[k] != '*' by {
                        if ts[k] == '*' {
                            assert(ts.contains('*'));
                        }
                    }
                    lemma_wildcard_run_is_glob(ps, ts);
                }
            }
            return false;
        }
    }
    while i < p.len() && p[i] == '*'
        invariant
            ps == p@,
            ts == t@,
            ps == pattern@,
            ts == text@,
            init == wildcard_run(pattern@, text@, 0, 0, None, 0),
            0 <= i <= p.len(),
            init == only_stars_from(ps, i as int),
        decreases p.len() - i,
    {
        i += 1;
    }
    proof {
        if !ts.contains('*') {
            assert forall|k: int| 0 <= k < ts.len() implies ts[k] != '*' by {
                if ts[k] == '*' {
                    assert(ts.contains('*'));
                }
            }
            lemma_wildcard_run_is_glob(ps, ts);
        }
    }
    i == p.len()
}

} // verus!
