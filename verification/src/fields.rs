use vstd::prelude::*;

use crate::text::{chars_of, string_of_range};

verus! {

/// Position of the first `sep` in `s`, or its length when there is none.
pub open spec fn first_index_of(s: Seq<char>, sep: char) -> int
    decreases s.len(),
{
    if s.len() == 0 {
        0
    } else if s[0] == sep {
        0
    } else {
        1 + first_index_of(s.drop_first(), sep)
    }
}

/// The pieces of `s` between the occurrences of `sep`, as `str::split` cuts
/// them: there is always at least one piece, and pieces may be empty.
pub open spec fn split_on(s: Seq<char>, sep: char) -> Seq<Seq<char>>
    decreases s.len(),
{
    let k = first_index_of(s, sep);
    proof {
        lemma_first_index_bounds(s, sep);
    }
    if k >= s.len() {
        seq![s]
    } else {
        seq![s.take(k)] + split_on(s.skip(k + 1), sep)
    }
}

pub proof fn lemma_first_index_bounds(s: Seq<char>, sep: char)
    ensures
        0 <= first_index_of(s, sep) <= s.len(),
        first_index_of(s, sep) < s.len() ==> s[first_index_of(s, sep)] == sep,
        forall|m: int| 0 <= m < first_index_of(s, sep) ==> s[m] != sep,
    decreases s.len(),
{
    if s.len() > 0 && s[0] != sep {
        lemma_first_index_bounds(s.drop_first(), sep);
        assert forall|m: int| 0 <= m < first_index_of(s, sep) implies s[m] != sep by {
            if m > 0 {
                assert(s[m] == s.drop_first()[m - 1]);
            }
        }
    }
}

pub proof fn lemma_first_index_at(s: Seq<char>, sep: char, k: int)
    requires
        0 <= k <= s.len(),
        forall|m: int| 0 <= m < k ==> s[m] != sep,
        k == s.len() || s[k] == sep,
    ensures
        first_index_of(s, sep) == k,
    decreases k,
{
    if k > 0 {
        assert forall|m: int| 0 <= m < k - 1 implies s.drop_first()[m] != sep by {
            assert(s.drop_first()[m] == s[m + 1]);
        }
        lemma_first_index_at(s.drop_first(), sep, k - 1);
    }
}

/// The first piece of `split_on(s, sep)`: `s` up to the first `sep`.
pub proof fn lemma_split_first(s: Seq<char>, sep: char)
    ensures
        split_on(s, sep).len() >= 1,
        split_on(s, sep)[0] == s.take(first_index_of(s, sep)),
{
    lemma_first_index_bounds(s, sep);
    if first_index_of(s, sep) >= s.len() {
        assert(s.take(s.len() as int) == s);
    }
}

/// A text without `sep` is a single piece.
pub proof fn lemma_split_single(a: Seq<char>, sep: char)
    requires
        !a.contains(sep),
    ensures
        split_on(a, sep) == seq![a],
{
    assert forall|m: int| 0 <= m < a.len() implies a[m] != sep by {
        if a[m] == sep {
            assert(a.contains(sep));
        }
    }
    lemma_first_index_at(a, sep, a.len() as int);
}

/// Splitting `a`, `sep`, `b` where `a` holds no `sep` gives `a` and then the pieces of `b`.
pub proof fn lemma_split_cons(a: Seq<char>, b: Seq<char>, sep: char)
    requires
        !a.contains(sep),
    ensures
        split_on(a + seq![sep] + b, sep) == seq![a] + split_on(b, sep),
{
    let s = a + seq![sep] + b;
    assert forall|m: int| 0 <= m < a.len() implies s[m] != sep by {
        assert(s[m] == a[m]);
        if a[m] == sep {
            assert(a.contains(sep));
        }
    }
    assert(s[a.len() as int] == sep);
    lemma_first_index_at(s, sep, a.len() as int);
    assert(s.take(a.len() as int) =~= a);
    assert(s.skip((a.len() + 1) as int) =~= b);
}

/// Splits `s` at every `sep` (`str::split` with a character).
pub fn split_char(s: &str, sep: char) -> (out: Vec<String>)
    ensures
        out@.len() == split_on(s@, sep).len(),
        forall|i: int| 0 <= i < out@.len() ==> #[trigger] out@[i]@ == split_on(s@, sep)[i],
{
    let cs = chars_of(s);
    let ghost whole = s@;
    let mut out: Vec<String> = Vec::new();
    let mut start: usize = 0;
    let mut i: usize = 0;
    proof {
        assert(whole.skip(0) =~= whole);
        assert(out@.map_values(|p: String| p@) =~= Seq::<Seq<char>>::empty());
    }
    while i < cs.len()
        invariant
            cs@ == whole,
            whole == s@,
            start <= i <= cs@.len(),
            forall|m: int| start <= m < i ==> cs@[m] != sep,
            split_on(whole, sep) =~= out@.map_values(|p: String| p@) + split_on(whole.skip(start as int), sep),
        decreases cs.len() - i,
    {
        if cs[i] == sep {
            let piece = string_of_range(&cs, start, i);
            proof {
                let rest = whole.skip(start as int);
                assert forall|m: int| 0 <= m < i - start implies rest[m] != sep by {
                    assert(rest[m] == whole[start + m]);
                }
                lemma_first_index_at(rest, sep, i - start);
                assert(rest.take(i - start) =~= whole.subrange(start as int, i as int));
                assert(rest.skip(i - start + 1) =~= whole.skip(i + 1));
                assert(split_on(rest, sep) == seq![rest.take(i - start)] + split_on(rest.skip(i - start + 1), sep));
            }
            let ghost before = out@;
            out.push(piece);
            proof {
                assert(out@.map_values(|p: String| p@) =~= before.map_values(|p: String| p@).push(piece@));
            }
            start = i + 1;
        }
        i += 1;
    }
    let piece = string_of_range(&cs, start, cs.len());
    proof {
        let rest = whole.skip(start as int);
        assert forall|m: int| 0 <= m < rest.len() implies rest[m] != sep by {
            assert(rest[m] == whole[start + m]);
        }
        lemma_first_index_at(rest, sep, rest.len() as int);
        assert(rest =~= whole.subrange(start as int, whole.len() as int));
        assert(split_on(rest, sep) == seq![rest]);
    }
    let ghost before = out@;
    out.push(piece);
    proof {
        assert(out@.map_values(|p: String| p@) =~= before.map_values(|p: String| p@).push(piece@));
        assert forall|k: int| 0 <= k < out@.len() implies #[trigger] out@[k]@ == split_on(s@, sep)[k] by {
            assert(out@.map_values(|p: String| p@)[k] == out@[k]@);
        }
    }
    out
}

} // verus!
