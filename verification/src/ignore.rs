use vstd::prelude::*;

use crate::glob::{wildcard, wildcard_run};
use crate::text::{chars_of, contains_char, has_prefix, owned, push_char, push_str, starts_with, str_eq, string_of_range, trim, trim_bounds};

verus! {

/// What `wildcard(pattern, text)` answers.
pub open spec fn wildcard_spec(pattern: Seq<char>, text: Seq<char>) -> bool {
    wildcard_run(pattern, text, 0, 0, None, 0)
}

/// `rel[a..b]` is one of the `/`-separated segments of `rel` (empty ones included).
pub open spec fn is_segment(rel: Seq<char>, a: int, b: int) -> bool {
    &&& 0 <= a <= b <= rel.len()
    &&& (a == 0 || rel[a - 1] == '/')
    &&& (b == rel.len() || rel[b] == '/')
    &&& forall|m: int| a <= m < b ==> rel[m] != '/'
}

/// Some segment of `rel` equals `seg`.
pub open spec fn has_segment_eq(rel: Seq<char>, seg: Seq<char>) -> bool {
    exists|a: int, b: int| is_segment(rel, a, b) && #[trigger] rel.subrange(a, b) == seg
}

/// Some segment of `rel` matches the wildcard `pattern`.
pub open spec fn has_segment_matching(rel: Seq<char>, pattern: Seq<char>) -> bool {
    exists|a: int, b: int| is_segment(rel, a, b) && wildcard_spec(pattern, #[trigger] rel.subrange(a, b))
}

/// Whether a pattern anchored at the repository root (written `/rest`) covers `rel`:
/// `rest` ending in `/` names that folder and what lies beneath it; any other `rest`
/// is a wildcard over the whole path or over the path of one of its folders.
pub open spec fn anchored_matches(rest: Seq<char>, rel: Seq<char>) -> bool {
    if rest.len() > 0 && rest.last() == '/' {
        let dir = rest.drop_last();
        rel == dir || has_prefix(rel, dir.push('/'))
    } else {
        exists|k: int| 0 <= k <= rel.len() && (k == rel.len() || rel[k] == '/') && wildcard_spec(rest, #[trigger] rel.take(k))
    }
}

/// Whether one ignore pattern covers the repository-relative path `rel`:
/// - `/rest` is anchored at the root (see `anchored_matches`);
/// - `dir/` names a folder: with a `/` inside it, that exact folder path and what
///   lies beneath; without, any path segment with that name;
/// - a pattern with a `/` is a wildcard over the whole path;
/// - any other pattern is a wildcard over each segment.
pub open spec fn pattern_matches(pattern: Seq<char>, rel: Seq<char>) -> bool {
    if pattern.len() > 0 && pattern[0] == '/' {
        anchored_matches(pattern.drop_first(), rel)
    } else if pattern.len() > 0 && pattern.last() == '/' {
        let dir = pattern.drop_last();
        if dir.contains('/') {
            rel == dir || has_prefix(rel, dir.push('/'))
        } else {
            has_segment_eq(rel, dir)
        }
    } else if pattern.contains('/') {
        wildcard_spec(pattern, rel)
    } else {
        has_segment_matching(rel, pattern)
    }
}

/// Position of the first `\n` in `s`, or its length.
pub open spec fn first_newline(s: Seq<char>) -> int
    decreases s.len(),
{
    if s.len() == 0 {
        0
    } else if s[0] == '\n' {
        0
    } else {
        1 + first_newline(s.drop_first())
    }
}

/// The lines of `s` as `str::lines` cuts them at `\n` (a last empty piece is no line);
/// a `\r` before the `\n` stays on the line here.
pub open spec fn split_lines(s: Seq<char>) -> Seq<Seq<char>>
    decreases s.len(),
{
    if s.len() == 0 {
        seq![]
    } else {
        let k = first_newline(s);
        proof {
            lemma_first_newline_bounds(s);
        }
        if k >= s.len() {
            seq![s]
        } else {
            seq![s.take(k)] + split_lines(s.skip(k + 1))
        }
    }
}

/// `s` without its leading `/` characters.
pub open spec fn strip_leading_slashes(s: Seq<char>) -> Seq<char>
    decreases s.len(),
{
    if s.len() > 0 && s[0] == '/' {
        strip_leading_slashes(s.drop_first())
    } else {
        s
    }
}

/// The pattern that a trimmed, non-blank line defines: a line that starts with `/`
/// is anchored, and keeps exactly one leading `/`.
pub open spec fn pattern_of_line(t: Seq<char>) -> Seq<char> {
    if t.len() > 0 && t[0] == '/' {
        seq!['/'] + strip_leading_slashes(t)
    } else {
        t
    }
}

/// The patterns that the given lines of an ignore file define: each line trimmed,
/// blank lines and `#` comments skipped.
pub open spec fn patterns_of_lines(lines: Seq<Seq<char>>) -> Seq<Seq<char>>
    decreases lines.len(),
{
    if lines.len() == 0 {
        seq![]
    } else {
        let before = patterns_of_lines(lines.drop_last());
        let t = trim(lines.last());
        if t.len() == 0 || t[0] == '#' {
            before
        } else {
            before.push(pattern_of_line(t))
        }
    }
}

// ---------------------------------------------------------------------------

pub proof fn lemma_first_newline_bounds(s: Seq<char>)
    ensures
        0 <= first_newline(s) <= s.len(),
    decreases s.len(),
{
    if s.len() > 0 {
        lemma_first_newline_bounds(s.drop_first());
    }
}

proof fn lemma_first_newline_at(s: Seq<char>, k: int)
    requires
        0 <= k <= s.len(),
        forall|m: int| 0 <= m < k ==> s[m] != '\n',
        k == s.len() || s[k] == '\n',
    ensures
        first_newline(s) == k,
    decreases k,
{
    if k > 0 {
        lemma_first_newline_at(s.drop_first(), k - 1);
    }
}

/// A set of ignore patterns, as `.fvcsignore` lists them.
pub struct Ignore {
    pub patterns: Vec<String>,
}

impl Ignore {
    pub open spec fn pattern_seq(&self) -> Seq<Seq<char>> {
        self.patterns@.map_values(|p: String| p@)
    }

    /// The patterns of an ignore file's text.
    pub fn parse(text: &str) -> (ig: Ignore)
        ensures
            ig.pattern_seq() == patterns_of_lines(split_lines(text@)),
    {
        let cs = chars_of(text);
        let mut patterns: Vec<String> = Vec::new();
        let ghost mut done: Seq<Seq<char>> = seq![];
        let mut start: usize = 0;
        let mut k: usize = 0;
        assert(cs@.skip(0) == cs@);
        while k < cs.len()
            invariant
                cs@ == text@,
                start <= k <= cs.len(),
                forall|m: int| start <= m < k ==> cs@[m] != '\n',
                split_lines(text@) == done + split_lines(cs@.skip(start as int)),
                patterns@.map_values(|p: String| p@) == patterns_of_lines(done),
            decreases cs.len() - k,
        {
            if cs[k] == '\n' {
                let ghost line = cs@.subrange(start as int, k as int);
                proof {
                    let rest = cs@.skip(start as int);
                    lemma_first_newline_at(rest, k - start);
                    assert(rest.take(k - start) == line);
                    assert(rest.skip(k - start + 1) == cs@.skip(k + 1));
                    assert(split_lines(rest) == seq![line] + split_lines(cs@.skip(k + 1)));
                    assert(done + split_lines(rest) == done.push(line) + split_lines(cs@.skip(k + 1)));
                    assert(done.push(line).drop_last() == done);
                }
                Self::add_line(&mut patterns, &cs, start, k);
                proof {
                    done = done.push(line);
                }
                start = k + 1;
            }
            k += 1;
        }
        proof {
            let rest = cs@.skip(start as int);
            lemma_first_newline_at(rest, rest.len() as int);
        }
        if start < cs.len() {
            let ghost line = cs@.subrange(start as int, cs.len() as int);
            proof {
                let rest = cs@.skip(start as int);
                assert(rest == line);
                assert(split_lines(rest) == seq![line]);
                assert(done.push(line).drop_last() == done);
                assert(done + seq![line] == done.push(line));
            }
            Self::add_line(&mut patterns, &cs, start, cs.len());
            proof {
                done = done.push(line);
            }
        } else {
            proof {
                assert(cs@.skip(start as int).len() == 0);
                assert(done + seq![] == done);
            }
        }
        Ignore { patterns }
    }

    /// Adds the pattern that the line `cs[from..to]` defines, if any.
    fn add_line(patterns: &mut Vec<String>, cs: &Vec<char>, from: usize, to: usize)
        requires
            from <= to <= cs.len(),
        ensures
            ({
                let line = cs@.subrange(from as int, to as int);
                let t = trim(line);
                let before = old(patterns)@.map_values(|p: String| p@);
                let after = final(patterns)@.map_values(|p: String| p@);
                if t.len() == 0 || t[0] == '#' {
                    after == before
                } else {
                    after == before.push(pattern_of_line(t))
                }
            }),
    {
        let (a, b) = trim_bounds(cs, from, to);
        let ghost t = cs@.subrange(a as int, b as int);
        if a == b || cs[a] == '#' {
            return;
        }
        let anchored = cs[a] == '/';
        let mut s = a;
        while s < b && cs[s] == '/'
            invariant
                a <= s <= b <= cs.len(),
                strip_leading_slashes(t) == strip_leading_slashes(cs@.subrange(s as int, b as int)),
            decreases b - s,
        {
            proof {
                let u = cs@.subrange(s as int, b as int);
                assert(u.drop_first() == cs@.subrange(s + 1, b as int));
            }
            s += 1;
        }
        proof {
            let u = cs@.subrange(s as int, b as int);
            if u.len() > 0 {
                assert(u[0] != '/');
            }
        }
        let ghost before = patterns@.map_values(|p: String| p@);
        let body = string_of_range(cs, s, b);
        let pat = if anchored {
            let mut p = String::new();
            push_char(&mut p, '/');
            push_str(&mut p, body.as_str());
            p
        } else {
            body
        };
        assert(pat@ == pattern_of_line(t));
        patterns.push(pat);
        proof {
            assert(patterns@.map_values(|p: String| p@) == before.push(pat@));
        }
    }

    /// Whether any pattern covers `rel`.
    pub fn is_ignored(&self, rel: &str) -> (b: bool)
        ensures
            b == exists|i: int| 0 <= i < self.patterns@.len() && pattern_matches(#[trigger] self.patterns@[i]@, rel@),
    {
        let mut i: usize = 0;
        while i < self.patterns.len()
            invariant
                i <= self.patterns@.len(),
                forall|m: int| 0 <= m < i ==> !pattern_matches(#[trigger] self.patterns@[m]@, rel@),
            decreases self.patterns.len() - i,
        {
            if matches(self.patterns[i].as_str(), rel) {
                return true;
            }
            i += 1;
        }
        false
    }
}

/// Whether a segment `seg` satisfies the test: equal to `target`, or matching
/// the wildcard `target`.
pub open spec fn segment_test(seg: Seq<char>, target: Seq<char>, wild: bool) -> bool {
    if wild { wildcard_spec(target, seg) } else { seg == target }
}

/// Whether some segment of `rel` passes `segment_test`.
fn any_segment(rel: &str, target: &str, wild: bool) -> (b: bool)
    ensures
        b == exists|a: int, b: int| is_segment(rel@, a, b) && segment_test(#[trigger] rel@.subrange(a, b), target@, wild),
{
    let cs = chars_of(rel);
    let mut start: usize = 0;
    let mut k: usize = 0;
    loop
        invariant
            cs@ == rel@,
            start <= k <= cs.len(),
            start == 0 || cs@[start - 1] == '/',
            forall|m: int| start <= m < k && m < cs.len() ==> cs@[m] != '/',
            forall|a: int, b: int| is_segment(rel@, a, b) && a < start ==> !segment_test(#[trigger] rel@.subrange(a, b), target@, wild),
        decreases cs.len() - k,
    {
        if k == cs.len() || cs[k] == '/' {
            let seg = string_of_range(&cs, start, k);
            let hit = if wild { wildcard(target, seg.as_str()) } else { str_eq(seg.as_str(), target) };
            assert(is_segment(rel@, start as int, k as int));
            if hit {
                return true;
            }
            proof {
                assert forall|a: int, b: int| is_segment(rel@, a, b) && a < k + 1 implies !segment_test(#[trigger] rel@.subrange(a, b), target@, wild) by {
                    if a >= start {
                        if a > start {
                            assert(rel@[a - 1] == '/');
                        }
                        assert(a == start);
                        if b < k {
                            assert(rel@[b] == '/');
                        } else if b > k {
                            assert(rel@[k as int] != '/');
                        }
                        assert(b == k);
                    }
                }
            }
            if k == cs.len() {
                proof {
                    assert forall|a: int, b: int| is_segment(rel@, a, b) implies !segment_test(#[trigger] rel@.subrange(a, b), target@, wild) by {
                        assert(a < k + 1);
                    }
                }
                return false;
            }
            start = k + 1;
        }
        k += 1;
    }
}

/// Whether `pat` matches `rel` or the path of one of its folders.
fn any_root_prefix(rel: &str, pat: &str) -> (b: bool)
    ensures
        b == exists|k: int| 0 <= k <= rel@.len() && (k == rel@.len() || rel@[k] == '/') && wildcard_spec(pat@, #[trigger] rel@.take(k)),
{
    let cs = chars_of(rel);
    let mut k: usize = 0;
    loop
        invariant
            cs@ == rel@,
            k <= cs.len(),
            forall|m: int| 0 <= m < k && (m == rel@.len() || rel@[m] == '/') ==> !wildcard_spec(pat@, #[trigger] rel@.take(m)),
        decreases cs.len() - k,
    {
        if k == cs.len() || cs[k] == '/' {
            let pre = string_of_range(&cs, 0, k);
            assert(pre@ == rel@.take(k as int));
            if wildcard(pat, pre.as_str()) {
                return true;
            }
        }
        if k == cs.len() {
            return false;
        }
        k += 1;
    }
}

/// Whether `pattern` covers `rel`.
pub fn matches(pattern: &str, rel: &str) -> (b: bool)
    ensures
        b == pattern_matches(pattern@, rel@),
{
    let p = chars_of(pattern);
    if p.len() > 0 && p[0] == '/' {
        let rest = string_of_range(&p, 1, p.len());
        assert(rest@ == pattern@.drop_first());
        let ghost r = rest@;
        if p.len() > 1 && p[p.len() - 1] == '/' {
            let dir = string_of_range(&p, 1, p.len() - 1);
            assert(dir@ == r.drop_last());
            let mut with_slash = owned(dir.as_str());
            push_char(&mut with_slash, '/');
            return str_eq(rel, dir.as_str()) || starts_with(rel, with_slash.as_str());
        }
        return any_root_prefix(rel, rest.as_str());
    }
    if p.len() > 0 && p[p.len() - 1] == '/' {
        let dir = string_of_range(&p, 0, p.len() - 1);
        assert(dir@ == pattern@.drop_last());
        if contains_char(dir.as_str(), '/') {
            let mut with_slash = owned(dir.as_str());
            push_char(&mut with_slash, '/');
            return str_eq(rel, dir.as_str()) || starts_with(rel, with_slash.as_str());
        }
        return any_segment(rel, dir.as_str(), false);
    }
    if contains_char(pattern, '/') {
        wildcard(pattern, rel)
    } else {
        any_segment(rel, pattern, true)
    }
}

} // verus!
