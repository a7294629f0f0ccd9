use similar::TextDiff;
use vstd::prelude::*;
use vstd::utf8::{decode_utf8, valid_utf8};

use crate::strmap::{has_key, lemma_pairs_lookup_all, lemma_seq_lt_irreflexive, lemma_seq_lt_total, lemma_seq_lt_transitive, StrMap};
use crate::text::{push_char, push_str, seq_lt, str_eq, str_lt};

verus! {

/// The unified diff, line by line, that `similar` renders for two texts under
/// the given `---` and `+++` headers.
pub uninterp spec fn unified_diff_text(old: Seq<char>, new: Seq<char>, old_header: Seq<char>, new_header: Seq<char>) -> Seq<char>;

/// `similar::TextDiff::from_lines(old, new).unified_diff().header(..).to_string()`:
/// the unified diff of the two texts' lines, with three lines of context.
#[verifier::external_body]
fn unified_diff(old: &str, new: &str, old_header: &str, new_header: &str) -> (out: String)
    ensures
        out@ == unified_diff_text(old@, new@, old_header@, new_header@),
{
    TextDiff::from_lines(old, new).unified_diff().header(old_header, new_header).to_string()
}

/// `std::str::from_utf8`: the text the bytes encode, when they are valid UTF-8.
#[verifier::external_body]
fn utf8_text(bytes: &[u8]) -> (out: Option<String>)
    ensures
        out is Some <==> valid_utf8(bytes@),
        out matches Some(s) ==> s@ == decode_utf8(bytes@),
{
    match std::str::from_utf8(bytes) {
        Ok(s) => Some(s.to_string()),
        Err(_) => None,
    }
}

/// How many leading bytes are looked at to tell text from binary data.
pub const TEXT_SAMPLE: usize = 8192;

/// Content counts as text when its first 8192 bytes hold no zero byte.
pub open spec fn is_text_spec(data: Seq<u8>) -> bool {
    forall|i: int| 0 <= i < data.len() && i < TEXT_SAMPLE ==> #[trigger] data[i] != 0
}

/// Text is told from binary data by zero bytes alone: data without a zero byte
/// is text, whatever other bytes it holds (tabs, carriage returns, any control
/// byte); a zero byte among the first 8192 bytes makes it binary; and bytes after
/// the first 8192 do not matter.
pub proof fn lemma_text_by_zero_bytes(data: Seq<u8>, more: Seq<u8>, i: int)
    ensures
        !data.contains(0u8) ==> is_text_spec(data),
        0 <= i < data.len() && i < 8192 && data[i] == 0 ==> !is_text_spec(data),
        data.len() >= 8192 ==> is_text_spec(data + more) == is_text_spec(data),
{
    if !data.contains(0u8) {
        assert forall|k: int| 0 <= k < data.len() && k < TEXT_SAMPLE implies #[trigger] data[k] != 0 by {
            if data[k] == 0 {
                assert(data.contains(0u8));
            }
        }
    }
    if 0 <= i < data.len() && i < 8192 && data[i] == 0 {
        assert(!(data[i] != 0));
    }
    if data.len() >= 8192 {
        let both = data + more;
        assert forall|k: int| 0 <= k < both.len() && k < TEXT_SAMPLE implies #[trigger] both[k] == data[k] by {}
        if is_text_spec(data) {
            assert forall|k: int| 0 <= k < both.len() && k < TEXT_SAMPLE implies #[trigger] both[k] != 0 by {
                assert(both[k] == data[k]);
            }
        }
        if is_text_spec(both) {
            assert forall|k: int| 0 <= k < data.len() && k < TEXT_SAMPLE implies #[trigger] data[k] != 0 by {
                assert(both[k] == data[k]);
            }
        }
    }
}

/// Whether `data` looks like text (see `is_text_spec`).
pub fn is_text(data: &[u8]) -> (b: bool)
    ensures
        b == is_text_spec(data@),
{
    let n = if data.len() < TEXT_SAMPLE { data.len() } else { TEXT_SAMPLE };
    let mut i: usize = 0;
    while i < n
        invariant
            i <= n,
            n <= data@.len(),
            n == data@.len() || n == TEXT_SAMPLE,
            n <= TEXT_SAMPLE,
            forall|m: int| 0 <= m < i ==> #[trigger] data@[m] != 0,
        decreases n - i,
    {
        if data[i] == 0 {
            assert(data@[i as int] == 0 && i < TEXT_SAMPLE);
            return false;
        }
        i += 1;
    }
    true
}

/// How a file differs between two versions.
#[derive(Debug, Clone, Copy, PartialEq, Eq)]
pub enum ChangeKind {
    /// Only the new version has it.
    New,
    /// Only the old version has it.
    Deleted,
    /// Both have it, with different content.
    Changed,
}

/// What is shown of a file's change.
#[derive(Debug)]
pub enum FileDiff {
    /// One side is not text, or not valid UTF-8.
    Binary,
    /// The unified diff of the two texts.
    Text(String),
}

/// The content of one side of a change; a missing file counts as empty.
pub open spec fn side(content: Option<&Vec<u8>>) -> Seq<u8> {
    match content {
        Some(v) => v@,
        None => Seq::empty(),
    }
}

/// The header of one side of a file diff: `label/path`.
pub open spec fn diff_header(label: Seq<char>, path: Seq<char>) -> Seq<char> {
    label + seq!['/'] + path
}

/// What is shown for a file: binary when either side is not text or not
/// UTF-8, otherwise the unified diff under the headers `old_label/path` and
/// `new_label/path`.
pub open spec fn file_diff_spec(old_label: Seq<char>, new_label: Seq<char>, path: Seq<char>, a: Seq<u8>, b: Seq<u8>) -> Option<Seq<char>> {
    if !is_text_spec(a) || !is_text_spec(b) || !valid_utf8(a) || !valid_utf8(b) {
        None
    } else {
        Some(unified_diff_text(decode_utf8(a), decode_utf8(b), diff_header(old_label, path), diff_header(new_label, path)))
    }
}

fn header(label: &str, path: &str) -> (out: String)
    ensures
        out@ == diff_header(label@, path@),
{
    let mut out = String::new();
    push_str(&mut out, label);
    push_char(&mut out, '/');
    push_str(&mut out, path);
    assert(out@ =~= diff_header(label@, path@));
    out
}

/// The kind of a file's change and what to show of it, given its old and
/// new content (`None` where the file is missing).
pub fn file_diff(old_label: &str, new_label: &str, path: &str, before: Option<&Vec<u8>>, after: Option<&Vec<u8>>) -> (r: (ChangeKind, FileDiff))
    ensures
        r.0 == match (before, after) {
            (None, Some(_)) => ChangeKind::New,
            (Some(_), None) => ChangeKind::Deleted,
            _ => ChangeKind::Changed,
        },
        match file_diff_spec(old_label@, new_label@, path@, side(before), side(after)) {
            None => r.1 is Binary,
            Some(t) => r.1 matches FileDiff::Text(s) && s@ == t,
        },
{
    let kind = match (before, after) {
        (None, Some(_)) => ChangeKind::New,
        (Some(_), None) => ChangeKind::Deleted,
        _ => ChangeKind::Changed,
    };
    let empty: Vec<u8> = Vec::new();
    let a: &Vec<u8> = match before {
        Some(v) => v,
        None => &empty,
    };
    let b: &Vec<u8> = match after {
        Some(v) => v,
        None => &empty,
    };
    assert(a@ == side(before));
    assert(b@ == side(after));
    if !is_text(a.as_slice()) || !is_text(b.as_slice()) {
        return (kind, FileDiff::Binary);
    }
    let a_text = utf8_text(a.as_slice());
    let b_text = utf8_text(b.as_slice());
    match (a_text, b_text) {
        (Some(x), Some(y)) => {
            let oh = header(old_label, path);
            let nh = header(new_label, path);
            (kind, FileDiff::Text(unified_diff(x.as_str(), y.as_str(), oh.as_str(), nh.as_str())))
        },
        _ => (kind, FileDiff::Binary),
    }
}

// ---------------------------------------------------------------------------
// Which files differ.

/// Whether `k` differs between two file maps: present on one side only, or
/// present on both with different bytes.
pub open spec fn differs(old: Map<Seq<char>, Vec<u8>>, new: Map<Seq<char>, Vec<u8>>, k: Seq<char>) -> bool {
    if old.contains_key(k) && new.contains_key(k) {
        old[k]@ != new[k]@
    } else {
        old.contains_key(k) || new.contains_key(k)
    }
}

fn bytes_eq(a: &Vec<u8>, b: &Vec<u8>) -> (r: bool)
    ensures
        r == (a@ == b@),
{
    if a.len() != b.len() {
        return false;
    }
    let mut i: usize = 0;
    while i < a.len()
        invariant
            i <= a@.len(),
            a@.len() == b@.len(),
            forall|m: int| 0 <= m < i ==> a@[m] == b@[m],
        decreases a.len() - i,
    {
        if a[i] != b[i] {
            return false;
        }
        i += 1;
    }
    assert(a@ =~= b@);
    true
}

/// The paths whose content differs between two versions of a tree, in path
/// order, each once.
pub fn changed_paths(old: &StrMap<Vec<u8>>, new: &StrMap<Vec<u8>>) -> (out: Vec<String>)
    ensures
        forall|i: int, j: int| 0 <= i < j < out@.len() ==> seq_lt(#[trigger] out@[i]@, #[trigger] out@[j]@),
        forall|i: int| 0 <= i < out@.len() ==> differs(old@, new@, #[trigger] out@[i]@),
        forall|k: Seq<char>| differs(old@, new@, k) ==> exists|i: int| 0 <= i < out@.len() && #[trigger] out@[i]@ == k,
{
    proof {
        use_type_invariant(old);
        use_type_invariant(new);
        lemma_pairs_lookup_all(old.pairs());
        lemma_pairs_lookup_all(new.pairs());
    }
    let ghost op = old.pairs();
    let ghost np = new.pairs();
    let on = old.len();
    let nn = new.len();
    let mut out: Vec<String> = Vec::new();
    let mut i: usize = 0;
    let mut j: usize = 0;
    while i < on || j < nn
        invariant
            op == old.pairs(),
            np == new.pairs(),
            on == op.len(),
            nn == np.len(),
            i <= on,
            j <= nn,
            crate::strmap::sorted_keys(op),
            crate::strmap::sorted_keys(np),
            old@ == crate::strmap::pairs_to_map(op),
            new@ == crate::strmap::pairs_to_map(np),
            forall|x: int| #![trigger op[x]] 0 <= x < op.len() ==> old@.contains_key(op[x].0) && old@[op[x].0] == op[x].1,
            forall|x: int| #![trigger np[x]] 0 <= x < np.len() ==> new@.contains_key(np[x].0) && new@[np[x].0] == np[x].1,
            forall|k: Seq<char>| #[trigger] old@.contains_key(k) <==> has_key(op, k),
            forall|k: Seq<char>| #[trigger] new@.contains_key(k) <==> has_key(np, k),
            // the merge frontier
            forall|a: int, b: int| 0 <= a < i && j <= b < nn ==> seq_lt(#[trigger] op[a].0, #[trigger] np[b].0),
            forall|a: int, b: int| 0 <= b < j && i <= a < on ==> seq_lt(#[trigger] np[b].0, #[trigger] op[a].0),
            // what is out so far
            forall|x: int, y: int| 0 <= x < y < out@.len() ==> seq_lt(#[trigger] out@[x]@, #[trigger] out@[y]@),
            forall|x: int| 0 <= x < out@.len() ==> differs(old@, new@, #[trigger] out@[x]@),
            forall|x: int, a: int| 0 <= x < out@.len() && i <= a < on ==> seq_lt(#[trigger] out@[x]@, #[trigger] op[a].0),
            forall|x: int, b: int| 0 <= x < out@.len() && j <= b < nn ==> seq_lt(#[trigger] out@[x]@, #[trigger] np[b].0),
            forall|a: int| 0 <= a < i && differs(old@, new@, #[trigger] op[a].0) ==> exists|x: int| 0 <= x < out@.len() && #[trigger] out@[x]@ == op[a].0,
            forall|b: int| 0 <= b < j && differs(old@, new@, #[trigger] np[b].0) ==> exists|x: int| 0 <= x < out@.len() && #[trigger] out@[x]@ == np[b].0,
        decreases on + nn - i - j,
    {
        let ghost before = out@;
        if i < on && (j >= nn || str_lt(old.pair_at(i).0.as_str(), new.pair_at(j).0.as_str())) {
            // a path only the old version has
            let (k, _) = old.pair_at(i);
            proof {
                let key = op[i as int].0;
                assert forall|b: int| 0 <= b < nn implies #[trigger] np[b].0 != key by {
                    if b < j {
                        assert(seq_lt(np[b].0, op[i as int].0));
                        if np[b].0 == key { lemma_seq_lt_irreflexive(key); }
                    } else {
                        assert(seq_lt(key, np[j as int].0));
                        if b > j { lemma_seq_lt_transitive(key, np[j as int].0, np[b].0); }
                        if np[b].0 == key { lemma_seq_lt_irreflexive(key); }
                    }
                }
                assert(!new@.contains_key(key));
                assert(differs(old@, new@, key));
            }
            out.push(k.clone());
            proof {
                let key = op[i as int].0;
                assert(out@[out@.len() - 1]@ == key);
                assert forall|x: int, a: int| 0 <= x < out@.len() && i + 1 <= a < on implies seq_lt(#[trigger] out@[x]@, #[trigger] op[a].0) by {
                    if x < before.len() {
                        assert(out@[x] == before[x]);
                    }
                }
                assert forall|x: int, b: int| 0 <= x < out@.len() && j <= b < nn implies seq_lt(#[trigger] out@[x]@, #[trigger] np[b].0) by {
                    if x < before.len() {
                        assert(out@[x] == before[x]);
                    } else {
                        assert(seq_lt(key, np[j as int].0));
                        if b > j { lemma_seq_lt_transitive(key, np[j as int].0, np[b].0); }
                    }
                }
                assert forall|x: int, y: int| 0 <= x < y < out@.len() implies seq_lt(#[trigger] out@[x]@, #[trigger] out@[y]@) by {
                    if y < before.len() {
                        assert(out@[x] == before[x] && out@[y] == before[y]);
                    } else {
                        assert(out@[x] == before[x]);
                    }
                }
                assert forall|x: int| 0 <= x < out@.len() implies differs(old@, new@, #[trigger] out@[x]@) by {
                    if x < before.len() { assert(out@[x] == before[x]); }
                }
                assert forall|a: int| 0 <= a < i + 1 && differs(old@, new@, #[trigger] op[a].0) implies exists|x: int| 0 <= x < out@.len() && #[trigger] out@[x]@ == op[a].0 by {
                    if a < i {
                        let x = choose|x: int| 0 <= x < before.len() && #[trigger] before[x]@ == op[a].0;
                        assert(out@[x] == before[x]);
                    } else {
                        assert(out@[out@.len() - 1]@ == op[a].0);
                    }
                }
                assert forall|b: int| 0 <= b < j && differs(old@, new@, #[trigger] np[b].0) implies exists|x: int| 0 <= x < out@.len() && #[trigger] out@[x]@ == np[b].0 by {
                    let x = choose|x: int| 0 <= x < before.len() && #[trigger] before[x]@ == np[b].0;
                    assert(out@[x] == before[x]);
                }
                assert forall|a: int, b: int| 0 <= a < i + 1 && j <= b < nn implies seq_lt(#[trigger] op[a].0, #[trigger] np[b].0) by {
                    if a == i {
                        assert(seq_lt(key, np[j as int].0));
                        if b > j { lemma_seq_lt_transitive(key, np[j as int].0, np[b].0); }
                    }
                }
            }
            i += 1;
        } else if j < nn && (i >= on || str_lt(new.pair_at(j).0.as_str(), old.pair_at(i).0.as_str())) {
            // a path only the new version has
            let (k, _) = new.pair_at(j);
            proof {
                let key = np[j as int].0;
                assert forall|a: int| 0 <= a < on implies #[trigger] op[a].0 != key by {
                    if a < i {
                        assert(seq_lt(op[a].0, np[j as int].0));
                        if op[a].0 == key { lemma_seq_lt_irreflexive(key); }
                    } else {
                        assert(seq_lt(key, op[i as int].0));
                        if a > i { lemma_seq_lt_transitive(key, op[i as int].0, op[a].0); }
                        if op[a].0 == key { lemma_seq_lt_irreflexive(key); }
                    }
                }
                assert(!old@.contains_key(key));
                assert(differs(old@, new@, key));
            }
            out.push(k.clone());
            proof {
                let key = np[j as int].0;
                assert(out@[out@.len() - 1]@ == key);
                assert forall|x: int, b: int| 0 <= x < out@.len() && j + 1 <= b < nn implies seq_lt(#[trigger] out@[x]@, #[trigger] np[b].0) by {
                    if x < before.len() {
                        assert(out@[x] == before[x]);
                    }
                }
                assert forall|x: int, a: int| 0 <= x < out@.len() && i <= a < on implies seq_lt(#[trigger] out@[x]@, #[trigger] op[a].0) by {
                    if x < before.len() {
                        assert(out@[x] == before[x]);
                    } else {
                        assert(seq_lt(key, op[i as int].0));
                        if a > i { lemma_seq_lt_transitive(key, op[i as int].0, op[a].0); }
                    }
                }
                assert forall|x: int, y: int| 0 <= x < y < out@.len() implies seq_lt(#[trigger] out@[x]@, #[trigger] out@[y]@) by {
                    if y < before.len() {
                        assert(out@[x] == before[x] && out@[y] == before[y]);
                    } else {
                        assert(out@[x] == before[x]);
                    }
                }
                assert forall|x: int| 0 <= x < out@.len() implies differs(old@, new@, #[trigger] out@[x]@) by {
                    if x < before.len() { assert(out@[x] == before[x]); }
                }
                assert forall|b: int| 0 <= b < j + 1 && differs(old@, new@, #[trigger] np[b].0) implies exists|x: int| 0 <= x < out@.len() && #[trigger] out@[x]@ == np[b].0 by {
                    if b < j {
                        let x = choose|x: int| 0 <= x < before.len() && #[trigger] before[x]@ == np[b].0;
                        assert(out@[x] == before[x]);
                    } else {
                        assert(out@[out@.len() - 1]@ == np[b].0);
                    }
                }
                assert forall|a: int| 0 <= a < i && differs(old@, new@, #[trigger] op[a].0) implies exists|x: int| 0 <= x < out@.len() && #[trigger] out@[x]@ == op[a].0 by {
                    let x = choose|x: int| 0 <= x < before.len() && #[trigger] before[x]@ == op[a].0;
                    assert(out@[x] == before[x]);
                }
                assert forall|a: int, b: int| 0 <= b < j + 1 && i <= a < on implies seq_lt(#[trigger] np[b].0, #[trigger] op[a].0) by {
                    if b == j {
                        assert(seq_lt(key, op[i as int].0));
                        if a > i { lemma_seq_lt_transitive(key, op[i as int].0, op[a].0); }
                    }
                }
            }
            j += 1;
        } else {
            // both versions have the path
            proof {
                let a0 = op[i as int].0;
                let b0 = np[j as int].0;
                if a0 != b0 {
                    lemma_seq_lt_total(a0, b0);
                }
                assert(a0 == b0);
            }
            let (k, va) = old.pair_at(i);
            let (_, vb) = new.pair_at(j);
            let same = bytes_eq(va, vb);
            let ghost key = op[i as int].0;
            if !same {
                out.push(k.clone());
            }
            proof {
                assert(differs(old@, new@, key) == !same);
                assert forall|x: int, a: int| 0 <= x < out@.len() && i + 1 <= a < on implies seq_lt(#[trigger] out@[x]@, #[trigger] op[a].0) by {
                    if x < before.len() {
                        assert(out@[x] == before[x]);
                        if a == i { }
                    } else {
                        assert(seq_lt(op[i as int].0, op[a].0));
                    }
                }
                assert forall|x: int, b: int| 0 <= x < out@.len() && j + 1 <= b < nn implies seq_lt(#[trigger] out@[x]@, #[trigger] np[b].0) by {
                    if x < before.len() {
                        assert(out@[x] == before[x]);
                    } else {
                        assert(seq_lt(np[j as int].0, np[b].0));
                    }
                }
                assert forall|x: int, y: int| 0 <= x < y < out@.len() implies seq_lt(#[trigger] out@[x]@, #[trigger] out@[y]@) by {
                    if y < before.len() {
                        assert(out@[x] == before[x] && out@[y] == before[y]);
                    } else {
                        assert(out@[x] == before[x]);
                    }
                }
                assert forall|x: int| 0 <= x < out@.len() implies differs(old@, new@, #[trigger] out@[x]@) by {
                    if x < before.len() { assert(out@[x] == before[x]); }
                }
                assert forall|a: int| 0 <= a < i + 1 && differs(old@, new@, #[trigger] op[a].0) implies exists|x: int| 0 <= x < out@.len() && #[trigger] out@[x]@ == op[a].0 by {
                    if a < i {
                        let x = choose|x: int| 0 <= x < before.len() && #[trigger] before[x]@ == op[a].0;
                        assert(out@[x] == before[x]);
                    } else {
                        assert(out@[out@.len() - 1]@ == op[a].0);
                    }
                }
                assert forall|b: int| 0 <= b < j + 1 && differs(old@, new@, #[trigger] np[b].0) implies exists|x: int| 0 <= x < out@.len() && #[trigger] out@[x]@ == np[b].0 by {
                    if b < j {
                        let x = choose|x: int| 0 <= x < before.len() && #[trigger] before[x]@ == np[b].0;
                        assert(out@[x] == before[x]);
                    } else {
                        assert(out@[out@.len() - 1]@ == np[b].0);
                    }
                }
                assert forall|a: int, b: int| 0 <= a < i + 1 && j + 1 <= b < nn implies seq_lt(#[trigger] op[a].0, #[trigger] np[b].0) by {
                    if a == i {
                        assert(seq_lt(np[j as int].0, np[b].0));
                    }
                }
                assert forall|a: int, b: int| 0 <= b < j + 1 && i + 1 <= a < on implies seq_lt(#[trigger] np[b].0, #[trigger] op[a].0) by {
                    if b == j {
                        assert(seq_lt(op[i as int].0, op[a].0));
                    }
                }
            }
            i += 1;
            j += 1;
        }
    }
    proof {
        assert forall|k: Seq<char>| differs(old@, new@, k) implies exists|i: int| 0 <= i < out@.len() && #[trigger] out@[i]@ == k by {
            if old@.contains_key(k) {
                let a = choose|a: int| 0 <= a < op.len() && #[trigger] op[a].0 == k;
                assert(differs(old@, new@, op[a].0));
            } else {
                let b = choose|b: int| 0 <= b < np.len() && #[trigger] np[b].0 == k;
                assert(differs(old@, new@, np[b].0));
            }
        }
    }
    out
}

} // verus!
