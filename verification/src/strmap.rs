use vstd::prelude::*;

use crate::text::{seq_lt, str_eq, str_lt};

verus! {

// ---------------------------------------------------------------------------
// The order on keys.

pub proof fn lemma_seq_lt_irreflexive(a: Seq<char>)
    ensures
        !seq_lt(a, a),
    decreases a.len(),
{
    if a.len() > 0 {
        lemma_seq_lt_irreflexive(a.drop_first());
    }
}

pub proof fn lemma_seq_lt_transitive(a: Seq<char>, b: Seq<char>, c: Seq<char>)
    requires
        seq_lt(a, b),
        seq_lt(b, c),
    ensures
        seq_lt(a, c),
    decreases a.len(),
{
    if a.len() > 0 && b.len() > 0 && c.len() > 0 && a[0] == b[0] && b[0] == c[0] {
        lemma_seq_lt_transitive(a.drop_first(), b.drop_first(), c.drop_first());
    }
}

pub proof fn lemma_seq_lt_total(a: Seq<char>, b: Seq<char>)
    requires
        a != b,
    ensures
        seq_lt(a, b) || seq_lt(b, a),
    decreases a.len(),
{
    if a.len() > 0 && b.len() > 0 {
        if a[0] == b[0] {
            if a.drop_first() == b.drop_first() {
                assert(a =~= seq![a[0]] + a.drop_first());
                assert(b =~= seq![b[0]] + b.drop_first());
            } else {
                lemma_seq_lt_total(a.drop_first(), b.drop_first());
            }
        } else {
        }
    } else if a.len() == 0 && b.len() == 0 {
        assert(a =~= b);
    }
}

pub proof fn lemma_seq_lt_asymmetric(a: Seq<char>, b: Seq<char>)
    requires
        seq_lt(a, b),
    ensures
        !seq_lt(b, a),
{
    if seq_lt(b, a) {
        lemma_seq_lt_transitive(a, b, a);
        lemma_seq_lt_irreflexive(a);
    }
}

// ---------------------------------------------------------------------------
// Sorted association lists and their map view.

/// Keys strictly increase along the list (so no key occurs twice).
pub open spec fn sorted_keys<V>(ps: Seq<(Seq<char>, V)>) -> bool {
    forall|i: int, j: int| 0 <= i < j < ps.len() ==> seq_lt(#[trigger] ps[i].0, #[trigger] ps[j].0)
}

/// Whether `k` is the key of some pair of `ps`.
pub open spec fn has_key<V>(ps: Seq<(Seq<char>, V)>, k: Seq<char>) -> bool {
    exists|i: int| 0 <= i < ps.len() && #[trigger] ps[i].0 == k
}

/// The map that an association list describes.
pub open spec fn pairs_to_map<V>(ps: Seq<(Seq<char>, V)>) -> Map<Seq<char>, V> {
    Map::new(
        |k: Seq<char>| has_key(ps, k),
        |k: Seq<char>| ps[choose|i: int| 0 <= i < ps.len() && #[trigger] ps[i].0 == k].1,
    )
}

/// In a sorted list each pair is what the map gives for its key.
pub proof fn lemma_pairs_lookup<V>(ps: Seq<(Seq<char>, V)>, i: int)
    requires
        sorted_keys(ps),
        0 <= i < ps.len(),
    ensures
        pairs_to_map(ps).contains_key(ps[i].0),
        pairs_to_map(ps)[ps[i].0] == ps[i].1,
{
    assert(has_key(ps, ps[i].0));
    let j = choose|j: int| 0 <= j < ps.len() && #[trigger] ps[j].0 == ps[i].0;
    if j < i {
        assert(seq_lt(ps[j].0, ps[i].0));
        lemma_seq_lt_irreflexive(ps[i].0);
    } else if i < j {
        assert(seq_lt(ps[i].0, ps[j].0));
        lemma_seq_lt_irreflexive(ps[i].0);
    }
}

/// Every pair of a sorted list, as seen through the map.
pub proof fn lemma_pairs_lookup_all<V>(ps: Seq<(Seq<char>, V)>)
    requires
        sorted_keys(ps),
    ensures
        forall|i: int| #![trigger ps[i]] 0 <= i < ps.len() ==> pairs_to_map(ps).contains_key(ps[i].0)
            && pairs_to_map(ps)[ps[i].0] == ps[i].1,
        forall|k: Seq<char>| #[trigger] pairs_to_map(ps).contains_key(k) <==> has_key(ps, k),
{
    assert forall|i: int| #![trigger ps[i]] 0 <= i < ps.len() implies pairs_to_map(ps).contains_key(ps[i].0)
        && pairs_to_map(ps)[ps[i].0] == ps[i].1 by {
        lemma_pairs_lookup(ps, i);
    }
}

/// Two sorted lists with the same pairs at each key describe the same map.
proof fn lemma_map_ext<V>(a: Seq<(Seq<char>, V)>, m: Map<Seq<char>, V>)
    requires
        sorted_keys(a),
        forall|k: Seq<char>| has_key(a, k) <==> m.contains_key(k),
        forall|i: int| #![trigger a[i]] 0 <= i < a.len() ==> m[a[i].0] == a[i].1,
    ensures
        pairs_to_map(a) == m,
{
    lemma_pairs_lookup_all(a);
    assert forall|k: Seq<char>| #[trigger] pairs_to_map(a).contains_key(k) implies pairs_to_map(a)[k] == m[k] by {
        let i = choose|i: int| 0 <= i < a.len() && #[trigger] a[i].0 == k;
        assert(a[i].0 == k);
    }
    assert(pairs_to_map(a) =~= m);
}

// ---------------------------------------------------------------------------

/// A map from string keys to values, kept as a list of pairs sorted by key
/// (the order in which a `BTreeMap<String, V>` walks its entries).
pub struct StrMap<V> {
    entries: Vec<(String, V)>,
}

impl<V> StrMap<V> {
    /// The pairs in key order, keys taken as character sequences.
    pub closed spec fn pairs(&self) -> Seq<(Seq<char>, V)> {
        self.entries@.map_values(|e: (String, V)| (e.0@, e.1))
    }

    /// The keys, in increasing order.
    pub open spec fn key_seq(&self) -> Seq<Seq<char>> {
        self.pairs().map_values(|p: (Seq<char>, V)| p.0)
    }

    #[verifier::type_invariant]
    pub open spec fn inv(&self) -> bool {
        sorted_keys(self.pairs())
    }

    pub fn new() -> (m: Self)
        ensures
            m@ == Map::<Seq<char>, V>::empty(),
            m.pairs().len() == 0,
    {
        let m = StrMap { entries: Vec::new() };
        assert(m.pairs() =~= Seq::<(Seq<char>, V)>::empty());
        assert(pairs_to_map(m.pairs()) =~= Map::<Seq<char>, V>::empty());
        m
    }

    /// The number of keys.
    pub fn len(&self) -> (n: usize)
        ensures
            n == self.pairs().len(),
            n == self@.dom().len(),
    {
        proof {
            use_type_invariant(self);
            lemma_sorted_dom_len(self.pairs());
        }
        self.entries.len()
    }

    /// The pair at position `i` of the key order.
    pub fn pair_at(&self, i: usize) -> (r: (&String, &V))
        requires
            i < self.pairs().len(),
        ensures
            r.0@ == self.pairs()[i as int].0,
            *r.1 == self.pairs()[i as int].1,
    {
        let e = &self.entries[i];
        (&e.0, &e.1)
    }

    /// Position of `key` in the key order, if present.
    fn find(&self, key: &str) -> (r: Option<usize>)
        ensures
            match r {
                Some(i) => i < self.pairs().len() && self.pairs()[i as int].0 == key@,
                None => !has_key(self.pairs(), key@),
            },
    {
        let mut i: usize = 0;
        while i < self.entries.len()
            invariant
                i <= self.entries.len(),
                forall|m: int| 0 <= m < i ==> self.pairs()[m].0 != key@,
            decreases self.entries.len() - i,
        {
            if str_eq(self.entries[i].0.as_str(), key) {
                return Some(i);
            }
            i += 1;
        }
        None
    }

    /// Whether `key` is present.
    pub fn contains_key(&self, key: &str) -> (b: bool)
        ensures
            b == self@.contains_key(key@),
    {
        proof {
            use_type_invariant(self);
            lemma_pairs_lookup_all(self.pairs());
        }
        self.find(key).is_some()
    }

    /// The value stored under `key`, if any.
    pub fn get(&self, key: &str) -> (r: Option<&V>)
        ensures
            match r {
                Some(v) => self@.contains_key(key@) && *v == self@[key@],
                None => !self@.contains_key(key@),
            },
    {
        proof {
            use_type_invariant(self);
            lemma_pairs_lookup_all(self.pairs());
        }
        match self.find(key) {
            Some(i) => Some(&self.entries[i].1),
            None => None,
        }
    }

    /// Stores `value` under `key`, replacing any previous value.
    pub fn insert(&mut self, key: String, value: V)
        ensures
            final(self)@ == old(self)@.insert(key@, value),
    {
        proof {
            use_type_invariant(&*self);
        }
        let mut entries: Vec<(String, V)> = Vec::new();
        std::mem::swap(&mut entries, &mut self.entries);
        let ghost ps = entries@.map_values(|e: (String, V)| (e.0@, e.1));
        let ghost old_map = pairs_to_map(ps);
        proof {
            lemma_pairs_lookup_all(ps);
        }
        let mut i: usize = 0;
        while i < entries.len() && str_lt(entries[i].0.as_str(), key.as_str())
            invariant
                i <= entries.len(),
                ps == entries@.map_values(|e: (String, V)| (e.0@, e.1)),
                sorted_keys(ps),
                forall|m: int| 0 <= m < i ==> seq_lt(#[trigger] ps[m].0, key@),
            decreases entries.len() - i,
        {
            i += 1;
        }
        let ghost kv = (key@, value);
        if i < entries.len() && str_eq(entries[i].0.as_str(), key.as_str()) {
            let ghost new_ps = ps.update(i as int, kv);
            entries.set(i, (key, value));
            proof {
                assert(entries@.map_values(|e: (String, V)| (e.0@, e.1)) =~= new_ps);
                assert forall|m: int| 0 <= m < new_ps.len() implies #[trigger] new_ps[m].0 == ps[m].0 by {}
                assert(sorted_keys(new_ps)) by {
                    assert forall|a: int, b: int| 0 <= a < b < new_ps.len() implies seq_lt(#[trigger] new_ps[a].0, #[trigger] new_ps[b].0) by {
                        assert(new_ps[a].0 == ps[a].0 && new_ps[b].0 == ps[b].0);
                        assert(seq_lt(ps[a].0, ps[b].0));
                    }
                }
                assert forall|k: Seq<char>| has_key(new_ps, k) <==> old_map.insert(kv.0, kv.1).contains_key(k) by {
                    if k == kv.0 {
                        assert(new_ps[i as int].0 == k);
                    }
                    if has_key(ps, k) {
                        let m = choose|m: int| 0 <= m < ps.len() && #[trigger] ps[m].0 == k;
                        assert(new_ps[m].0 == k);
                    }
                    if has_key(new_ps, k) {
                        let m = choose|m: int| 0 <= m < new_ps.len() && #[trigger] new_ps[m].0 == k;
                        assert(ps[m].0 == k);
                    }
                }
                assert forall|m: int| #![trigger new_ps[m]] 0 <= m < new_ps.len() implies old_map.insert(kv.0, kv.1)[new_ps[m].0] == new_ps[m].1 by {
                    if m != i {
                        if ps[m].0 == kv.0 {
                            if m < i { lemma_seq_lt_irreflexive(kv.0); } else {
                                assert(seq_lt(ps[i as int].0, ps[m].0));
                                lemma_seq_lt_irreflexive(kv.0);
                            }
                        }
                    }
                }
                lemma_map_ext(new_ps, old_map.insert(kv.0, kv.1));
            }
        } else {
            let ghost new_ps = ps.insert(i as int, kv);
            entries.insert(i, (key, value));
            proof {
                assert(entries@.map_values(|e: (String, V)| (e.0@, e.1)) =~= new_ps);
                if i < ps.len() {
                    // The next key is not below the new key and differs from it.
                    lemma_seq_lt_total(ps[i as int].0, kv.0);
                }
                assert forall|c: int| i <= c < ps.len() implies seq_lt(kv.0, #[trigger] ps[c].0) by {
                    if c > i {
                        lemma_seq_lt_transitive(kv.0, ps[i as int].0, ps[c].0);
                    }
                }
                assert forall|a: int, b: int| 0 <= a < b < new_ps.len() implies seq_lt(#[trigger] new_ps[a].0, #[trigger] new_ps[b].0) by {
                    if b == i {
                    } else if a == i {
                        assert(seq_lt(kv.0, ps[b - 1].0));
                    } else if a < i && b > i {
                        assert(seq_lt(ps[a].0, kv.0));
                        lemma_seq_lt_transitive(ps[a].0, kv.0, ps[b - 1].0);
                    } else if a > i {
                        assert(seq_lt(ps[a - 1].0, ps[b - 1].0));
                    }
                }
                assert forall|k: Seq<char>| has_key(new_ps, k) <==> old_map.insert(kv.0, kv.1).contains_key(k) by {
                    if has_key(ps, k) {
                        let m = choose|m: int| 0 <= m < ps.len() && #[trigger] ps[m].0 == k;
                        if m < i { assert(new_ps[m].0 == k); } else { assert(new_ps[m + 1].0 == k); }
                    }
                    if k == kv.0 {
                        assert(new_ps[i as int].0 == k);
                    }
                    if has_key(new_ps, k) {
                        let m = choose|m: int| 0 <= m < new_ps.len() && #[trigger] new_ps[m].0 == k;
                        if m < i { assert(ps[m].0 == k); } else if m > i { assert(ps[m - 1].0 == k); }
                    }
                }
                assert forall|m: int| #![trigger new_ps[m]] 0 <= m < new_ps.len() implies old_map.insert(kv.0, kv.1)[new_ps[m].0] == new_ps[m].1 by {
                    if m < i {
                        if ps[m].0 == kv.0 { lemma_seq_lt_irreflexive(kv.0); }
                    } else if m > i {
                        if ps[m - 1].0 == kv.0 {
                            if m - 1 == i {
                            } else {
                                lemma_seq_lt_transitive(kv.0, ps[i as int].0, ps[m - 1].0);
                                lemma_seq_lt_irreflexive(kv.0);
                            }
                        }
                    }
                }
                lemma_map_ext(new_ps, old_map.insert(kv.0, kv.1));
            }
        }
        self.entries = entries;
    }

    /// Removes `key`, returning its value if it was present.
    pub fn remove(&mut self, key: &str) -> (r: Option<V>)
        ensures
            final(self)@ == old(self)@.remove(key@),
            match r {
                Some(v) => old(self)@.contains_key(key@) && v == old(self)@[key@],
                None => !old(self)@.contains_key(key@),
            },
    {
        proof {
            use_type_invariant(&*self);
            lemma_pairs_lookup_all(self.pairs());
        }
        match self.find(key) {
            None => {
                proof {
                    assert(pairs_to_map(self.pairs()).remove(key@) =~= pairs_to_map(self.pairs()));
                }
                None
            },
            Some(i) => {
                let mut entries: Vec<(String, V)> = Vec::new();
                std::mem::swap(&mut entries, &mut self.entries);
                let ghost ps = entries@.map_values(|e: (String, V)| (e.0@, e.1));
                let ghost old_map = pairs_to_map(ps);
                let e = entries.remove(i);
                let ghost new_ps = ps.remove(i as int);
                proof {
                    assert(entries@.map_values(|e: (String, V)| (e.0@, e.1)) =~= new_ps);
                    assert forall|a: int, b: int| 0 <= a < b < new_ps.len() implies seq_lt(#[trigger] new_ps[a].0, #[trigger] new_ps[b].0) by {
                        if a < i && b >= i {
                            assert(seq_lt(ps[a].0, ps[b + 1].0));
                        } else if a >= i {
                            assert(seq_lt(ps[a + 1].0, ps[b + 1].0));
                        }
                    }
                    assert forall|k: Seq<char>| has_key(new_ps, k) <==> old_map.remove(key@).contains_key(k) by {
                        if has_key(ps, k) && k != key@ {
                            let m = choose|m: int| 0 <= m < ps.len() && #[trigger] ps[m].0 == k;
                            if m < i { assert(new_ps[m].0 == k); } else { assert(m != i); assert(new_ps[m - 1].0 == k); }
                        }
                        if has_key(new_ps, k) {
                            let m = choose|m: int| 0 <= m < new_ps.len() && #[trigger] new_ps[m].0 == k;
                            if m < i {
                                assert(ps[m].0 == k);
                                if k == key@ { lemma_seq_lt_irreflexive(k); }
                            } else {
                                assert(ps[m + 1].0 == k);
                                if k == key@ {
                                    assert(seq_lt(ps[i as int].0, ps[m + 1].0));
                                    lemma_seq_lt_irreflexive(k);
                                }
                            }
                        }
                    }
                    assert forall|m: int| #![trigger new_ps[m]] 0 <= m < new_ps.len() implies old_map.remove(key@)[new_ps[m].0] == new_ps[m].1 by {
                        if m < i {
                            assert(new_ps[m] == ps[m]);
                            assert(seq_lt(ps[m].0, ps[i as int].0));
                            if ps[m].0 == key@ { lemma_seq_lt_irreflexive(key@); }
                            lemma_pairs_lookup(ps, m);
                        } else {
                            assert(new_ps[m] == ps[m + 1]);
                            assert(seq_lt(ps[i as int].0, ps[m + 1].0));
                            if ps[m + 1].0 == key@ { lemma_seq_lt_irreflexive(key@); }
                            lemma_pairs_lookup(ps, m + 1);
                        }
                    }
                    lemma_map_ext(new_ps, old_map.remove(key@));
                }
                self.entries = entries;
                Some(e.1)
            },
        }
    }

    /// The keys, in increasing order.
    pub fn keys(&self) -> (r: Vec<String>)
        ensures
            r@.len() == self.pairs().len(),
            forall|i: int| #![trigger r@[i]] 0 <= i < r@.len() ==> r@[i]@ == self.pairs()[i].0,
    {
        let mut r: Vec<String> = Vec::new();
        let mut i: usize = 0;
        while i < self.entries.len()
            invariant
                i <= self.entries.len(),
                r@.len() == i,
                forall|m: int| #![trigger r@[m]] 0 <= m < i ==> r@[m]@ == self.pairs()[m].0,
            decreases self.entries.len() - i,
        {
            r.push(self.entries[i].0.clone());
            i += 1;
        }
        r
    }
}

impl<V> View for StrMap<V> {
    type V = Map<Seq<char>, V>;

    open spec fn view(&self) -> Map<Seq<char>, V> {
        pairs_to_map(self.pairs())
    }
}

/// A sorted list has as many keys as pairs.
pub proof fn lemma_sorted_dom_len<V>(ps: Seq<(Seq<char>, V)>)
    requires
        sorted_keys(ps),
    ensures
        pairs_to_map(ps).dom().len() == ps.len(),
        pairs_to_map(ps).dom().finite(),
    decreases ps.len(),
{
    let m = pairs_to_map(ps);
    if ps.len() == 0 {
        assert(m.dom() =~= Set::<Seq<char>>::empty());
    } else {
        let rest = ps.drop_last();
        assert(sorted_keys(rest)) by {
            assert forall|i: int, j: int| 0 <= i < j < rest.len() implies seq_lt(#[trigger] rest[i].0, #[trigger] rest[j].0) by {
                assert(rest[i] == ps[i] && rest[j] == ps[j]);
            }
        }
        lemma_sorted_dom_len(rest);
        let last = ps.last().0;
        assert forall|k: Seq<char>| #[trigger] m.dom().contains(k) <==> pairs_to_map(rest).dom().insert(last).contains(k) by {
            if has_key(ps, k) {
                let i = choose|i: int| 0 <= i < ps.len() && #[trigger] ps[i].0 == k;
                if i < ps.len() - 1 { assert(rest[i].0 == k); }
            }
            if has_key(rest, k) {
                let i = choose|i: int| 0 <= i < rest.len() && #[trigger] rest[i].0 == k;
                assert(ps[i].0 == k);
            }
            if k == last {
                assert(ps[ps.len() - 1].0 == k);
            }
        }
        assert(m.dom() =~= pairs_to_map(rest).dom().insert(last));
        if pairs_to_map(rest).dom().contains(last) {
            let i = choose|i: int| 0 <= i < rest.len() && #[trigger] rest[i].0 == last;
            assert(seq_lt(ps[i].0, ps[ps.len() - 1].0));
            lemma_seq_lt_irreflexive(last);
        }
    }
}

/// A sorted list is determined by the map it describes.
pub proof fn lemma_sorted_unique<V>(a: Seq<(Seq<char>, V)>, b: Seq<(Seq<char>, V)>)
    requires
        sorted_keys(a),
        sorted_keys(b),
        pairs_to_map(a) == pairs_to_map(b),
    ensures
        a == b,
    decreases a.len(),
{
    lemma_pairs_lookup_all(a);
    lemma_pairs_lookup_all(b);
    let m = pairs_to_map(a);
    if a.len() == 0 {
        if b.len() > 0 {
            assert(m.contains_key(b[0].0));
        }
        assert(a =~= b);
    } else {
        if b.len() == 0 {
            assert(pairs_to_map(b).contains_key(a[0].0));
            let j = choose|j: int| 0 <= j < b.len() && #[trigger] b[j].0 == a[0].0;
        }
        let k = a[0].0;
        assert(pairs_to_map(b).contains_key(k));
        let j = choose|j: int| 0 <= j < b.len() && #[trigger] b[j].0 == k;
        assert(m.contains_key(b[0].0));
        let i = choose|i: int| 0 <= i < a.len() && #[trigger] a[i].0 == b[0].0;
        if i > 0 {
            assert(seq_lt(a[0].0, a[i].0));
            if j > 0 {
                assert(seq_lt(b[0].0, b[j].0));
                lemma_seq_lt_asymmetric(a[0].0, a[i].0);
            } else {
                lemma_seq_lt_irreflexive(k);
            }
        }
        assert(a[0].0 == b[0].0);
        assert(a[0].1 == m[k]);
        assert(b[0].1 == pairs_to_map(b)[k]);
        let a2 = a.drop_first();
        let b2 = b.drop_first();
        assert(sorted_keys(a2)) by {
            assert forall|x: int, y: int| 0 <= x < y < a2.len() implies seq_lt(#[trigger] a2[x].0, #[trigger] a2[y].0) by {
                assert(a2[x] == a[x + 1] && a2[y] == a[y + 1]);
            }
        }
        assert(sorted_keys(b2)) by {
            assert forall|x: int, y: int| 0 <= x < y < b2.len() implies seq_lt(#[trigger] b2[x].0, #[trigger] b2[y].0) by {
                assert(b2[x] == b[x + 1] && b2[y] == b[y + 1]);
            }
        }
        lemma_pairs_lookup_all(a2);
        lemma_pairs_lookup_all(b2);
        assert forall|x: Seq<char>| has_key(a2, x) <==> has_key(b2, x) by {
            if has_key(a2, x) {
                let p = choose|p: int| 0 <= p < a2.len() && #[trigger] a2[p].0 == x;
                assert(a[p + 1].0 == x);
                assert(seq_lt(a[0].0, a[p + 1].0));
                assert(m.contains_key(x));
                let q = choose|q: int| 0 <= q < b.len() && #[trigger] b[q].0 == x;
                if q == 0 { lemma_seq_lt_irreflexive(x); }
                assert(b2[q - 1].0 == x);
            }
            if has_key(b2, x) {
                let p = choose|p: int| 0 <= p < b2.len() && #[trigger] b2[p].0 == x;
                assert(b[p + 1].0 == x);
                assert(seq_lt(b[0].0, b[p + 1].0));
                assert(pairs_to_map(b).contains_key(x));
                let q = choose|q: int| 0 <= q < a.len() && #[trigger] a[q].0 == x;
                if q == 0 { lemma_seq_lt_irreflexive(x); }
                assert(a2[q - 1].0 == x);
            }
        }
        assert forall|p: int| #![trigger a2[p]] 0 <= p < a2.len() implies pairs_to_map(b2)[a2[p].0] == a2[p].1 by {
            let x = a2[p].0;
            assert(a[p + 1] == a2[p]);
            assert(m[x] == a2[p].1);
            assert(has_key(a2, x));
            assert(has_key(b2, x));
            let q = choose|q: int| 0 <= q < b2.len() && #[trigger] b2[q].0 == x;
            assert(b[q + 1] == b2[q]);
            assert(pairs_to_map(b)[x] == b2[q].1);
        }
        lemma_map_ext(a2, pairs_to_map(b2));
        lemma_sorted_unique(a2, b2);
        assert(a =~= seq![a[0]] + a2);
        assert(b =~= seq![b[0]] + b2);
    }
}

} // verus!
