use std::collections::VecDeque;

use vstd::prelude::*;

use crate::strmap::{has_key, lemma_pairs_lookup_all, StrMap};

verus! {

/// The queue once the commits at its front that were visited already are
/// dropped.
pub open spec fn drop_visited(queue: Seq<Seq<char>>, visited: Seq<Seq<char>>) -> Seq<Seq<char>>
    decreases queue.len(),
{
    if queue.len() > 0 && visited.contains(queue[0]) {
        drop_visited(queue.drop_first(), visited)
    } else {
        queue
    }
}

proof fn lemma_drop_visited_front(queue: Seq<Seq<char>>, visited: Seq<Seq<char>>)
    ensures
        drop_visited(queue, visited).len() <= queue.len(),
        drop_visited(queue, visited).len() > 0 ==> !visited.contains(drop_visited(queue, visited)[0]),
        drop_visited(queue, visited) == queue.skip(queue.len() - drop_visited(queue, visited).len()),
        forall|i: int| 0 <= i < queue.len() - drop_visited(queue, visited).len() ==> visited.contains(#[trigger] queue[i]),
    decreases queue.len(),
{
    if queue.len() > 0 && visited.contains(queue[0]) {
        lemma_drop_visited_front(queue.drop_first(), visited);
        let d = drop_visited(queue.drop_first(), visited);
        assert(queue.drop_first().skip(queue.drop_first().len() - d.len()) =~= queue.skip(queue.len() - d.len()));
        assert forall|i: int| 0 <= i < queue.len() - d.len() implies visited.contains(#[trigger] queue[i]) by {
            if i > 0 {
                assert(queue[i] == queue.drop_first()[i - 1]);
            }
        }
    } else {
        assert(queue.skip(0) =~= queue);
    }
}

/// Whether `to` lies `n` parent steps from `from`, parents as `parents` records them.
pub open spec fn reaches(parents: Map<Seq<char>, Seq<char>>, from: Seq<char>, to: Seq<char>, n: nat) -> bool
    decreases n,
{
    if n == 0 {
        from == to
    } else {
        parents.contains_key(from) && reaches(parents, parents[from], to, (n - 1) as nat)
    }
}

/// Whether `c` is one of the tips or an ancestor of one of them.
pub open spec fn in_history(tips: Seq<Seq<char>>, parents: Map<Seq<char>, Seq<char>>, c: Seq<char>) -> bool {
    exists|i: int, n: nat| 0 <= i < tips.len() && #[trigger] reaches(parents, tips[i], c, n)
}

proof fn lemma_reaches_extend(p: Map<Seq<char>, Seq<char>>, q: Map<Seq<char>, Seq<char>>, from: Seq<char>, to: Seq<char>, n: nat)
    requires
        reaches(p, from, to, n),
        p.submap_of(q),
    ensures
        reaches(q, from, to, n),
    decreases n,
{
    if n > 0 {
        lemma_reaches_extend(p, q, p[from], to, (n - 1) as nat);
    }
}

proof fn lemma_reaches_append(p: Map<Seq<char>, Seq<char>>, from: Seq<char>, a: Seq<char>, n: nat)
    requires
        reaches(p, from, a, n),
        p.contains_key(a),
    ensures
        reaches(p, from, p[a], n + 1),
    decreases n,
{
    if n > 0 {
        lemma_reaches_append(p, p[from], a, (n - 1) as nat);
    } else {
        assert(reaches(p, p[a], p[a], 0));
    }
}

/// A set that holds `x` and the recorded parent of each of its members holds
/// everything `x` reaches.
proof fn lemma_closed_holds_reached(
    set: Seq<Seq<char>>,
    p: Map<Seq<char>, Seq<char>>,
    x: Seq<char>,
    c: Seq<char>,
    n: nat,
)
    requires
        set.contains(x),
        reaches(p, x, c, n),
        forall|v: Seq<char>| set.contains(v) && #[trigger] p.contains_key(v) ==> set.contains(p[v]),
    ensures
        set.contains(c),
    decreases n,
{
    if n > 0 {
        lemma_closed_holds_reached(set, p, p[x], c, (n - 1) as nat);
    }
}

/// A breadth-first walk through history from some tip commits, as a state
/// machine: `next` hands out the next commit not met before, the caller loads
/// it and reports its parent, if any, to `report`; the walk is over when
/// `next` gives nothing. Each commit is handed out once.
pub struct HistoryWalk {
    seen: StrMap<()>,
    queue: VecDeque<String>,
    awaiting: Option<String>,
    visited: Ghost<Seq<Seq<char>>>,
    tips: Ghost<Seq<Seq<char>>>,
    parents: Ghost<Map<Seq<char>, Seq<char>>>,
    reported: Ghost<Set<Seq<char>>>,
}

impl HistoryWalk {
    /// The commits handed out so far, in order.
    pub closed spec fn visited(&self) -> Seq<Seq<char>> {
        self.visited@
    }

    /// The commits waiting to be looked at, in order.
    pub closed spec fn queue(&self) -> Seq<Seq<char>> {
        self.queue@.map_values(|s: String| s@)
    }

    /// The commits the walk started from.
    pub closed spec fn tips(&self) -> Seq<Seq<char>> {
        self.tips@
    }

    /// The parents reported so far, by commit.
    pub closed spec fn parents(&self) -> Map<Seq<char>, Seq<char>> {
        self.parents@
    }

    /// The commit handed out last whose parent is still to be reported.
    pub closed spec fn awaiting(&self) -> Option<Seq<char>> {
        match self.awaiting {
            Some(a) => Some(a@),
            None => None,
        }
    }

    #[verifier::type_invariant]
    closed spec fn inv(&self) -> bool {
        let visited = self.visited@;
        let queue = self.queue@.map_values(|s: String| s@);
        let parents = self.parents@;
        &&& forall|k: Seq<char>| #[trigger] self.seen@.contains_key(k) <==> visited.contains(k)
        &&& visited.no_duplicates()
        // every commit met belongs to the history of the tips
        &&& forall|i: int| 0 <= i < queue.len() ==> in_history(self.tips@, parents, #[trigger] queue[i])
        &&& forall|i: int| 0 <= i < visited.len() ==> in_history(self.tips@, parents, #[trigger] visited[i])
        // nothing is lost: tips and reported parents are visited or queued
        &&& forall|i: int| 0 <= i < self.tips@.len() ==> visited.contains(#[trigger] self.tips@[i]) || queue.contains(self.tips@[i])
        &&& forall|v: Seq<char>| #[trigger] parents.contains_key(v) ==> visited.contains(parents[v]) || queue.contains(parents[v])
        // every visited commit is reported, but the one awaiting its report
        &&& forall|v: Seq<char>| #[trigger] parents.contains_key(v) ==> self.reported@.contains(v)
        &&& forall|v: Seq<char>| #[trigger] self.reported@.contains(v) ==> visited.contains(v)
        &&& forall|v: Seq<char>| visited.contains(v) ==> #[trigger] self.reported@.contains(v) || (self.awaiting matches Some(a) && a@ == v)
        &&& (self.awaiting matches Some(a) ==> visited.contains(a@) && !self.reported@.contains(a@))
    }

    /// A walk that starts from the given tips.
    pub fn new(tips: Vec<String>) -> (w: HistoryWalk)
        ensures
            w.visited() == Seq::<Seq<char>>::empty(),
            w.queue() == tips@.map_values(|s: String| s@),
            w.tips() == tips@.map_values(|s: String| s@),
            w.parents() == Map::<Seq<char>, Seq<char>>::empty(),
            w.awaiting() is None,
    {
        let ghost t = tips@.map_values(|s: String| s@);
        let seen: StrMap<()> = StrMap::new();
        let mut queue: VecDeque<String> = VecDeque::new();
        let mut i: usize = 0;
        while i < tips.len()
            invariant
                i <= tips@.len(),
                t == tips@.map_values(|s: String| s@),
                queue@.map_values(|s: String| s@) == t.take(i as int),
            decreases tips.len() - i,
        {
            let ghost before = queue@.map_values(|s: String| s@);
            let c = tips[i].clone();
            assert(c@ == t[i as int]);
            queue.push_back(c);
            assert(queue@.map_values(|s: String| s@) =~= before.push(c@));
            assert(t.take(i + 1) =~= t.take(i as int).push(t[i as int]));
            i += 1;
        }
        assert(t.take(i as int) =~= t);
        proof {
            assert forall|i: int| 0 <= i < t.len() implies in_history(t, Map::<Seq<char>, Seq<char>>::empty(), #[trigger] t[i]) by {
                assert(reaches(Map::<Seq<char>, Seq<char>>::empty(), t[i], t[i], 0));
            }
            assert forall|i: int| 0 <= i < t.len() implies #[trigger] t.contains(t[i]) by {}
            assert forall|k: Seq<char>| #[trigger] seen@.contains_key(k) <==> Seq::<Seq<char>>::empty().contains(k) by {}
        }
        let w = HistoryWalk {
            seen,
            queue,
            awaiting: None,
            visited: Ghost(Seq::empty()),
            tips: Ghost(t),
            parents: Ghost(Map::empty()),
            reported: Ghost(Set::empty()),
        };
        w
    }

    /// The next commit to load: the first queued one not handed out before,
    /// taken off the queue together with the ones before it. The parent of
    /// the commit handed out before must have been reported.
    pub fn next(&mut self) -> (h: Option<String>)
        requires
            old(self).awaiting() is None,
        ensures
            ({
                let q = drop_visited(old(self).queue(), old(self).visited());
                &&& q.len() == 0 ==> h is None && final(self).visited() == old(self).visited() && final(self).queue() == q
                    && final(self).awaiting() is None
                &&& q.len() > 0 ==> (h matches Some(c) && c@ == q[0])
                &&& q.len() > 0 ==> final(self).visited() == old(self).visited().push(q[0])
                &&& q.len() > 0 ==> final(self).queue() == q.drop_first()
                &&& q.len() > 0 ==> final(self).awaiting() == Some(q[0])
            }),
            final(self).visited().no_duplicates(),
            final(self).tips() == old(self).tips(),
            final(self).parents() == old(self).parents(),
    {
        proof {
            use_type_invariant(&*self);
        }
        let mut taken = HistoryWalk {
            seen: StrMap::new(),
            queue: VecDeque::new(),
            awaiting: None,
            visited: Ghost(Seq::empty()),
            tips: Ghost(Seq::empty()),
            parents: Ghost(Map::empty()),
            reported: Ghost(Set::empty()),
        };
        std::mem::swap(&mut taken, self);
        proof {
            use_type_invariant(&taken);
        }
        let HistoryWalk { seen: mut seen, queue: mut queue, awaiting: _, visited: old_visited, tips, parents, reported } = taken;
        let ghost q0 = queue@.map_values(|s: String| s@);
        proof {
            lemma_drop_visited_front(q0, old_visited@);
        }
        while queue.len() > 0 && seen.contains_key(queue[0].as_str())
            invariant
                forall|k: Seq<char>| #[trigger] seen@.contains_key(k) <==> old_visited@.contains(k),
                drop_visited(queue@.map_values(|s: String| s@), old_visited@) == drop_visited(q0, old_visited@),
            decreases queue.len(),
        {
            let ghost before = queue@.map_values(|s: String| s@);
            queue.pop_front();
            assert(queue@.map_values(|s: String| s@) =~= before.drop_first());
        }
        let ghost q = drop_visited(q0, old_visited@);
        assert(queue@.map_values(|s: String| s@) == q);
        let ghost dropped = q0.len() - q.len();
        // what left the queue was visited already
        assert forall|x: Seq<char>| q0.contains(x) implies old_visited@.contains(x) || q.contains(x) by {
            let i = choose|i: int| 0 <= i < q0.len() && q0[i] == x;
            if i >= dropped {
                assert(q[i - dropped] == q0[i]);
            }
        }
        if queue.len() == 0 {
            *self = HistoryWalk { seen, queue, awaiting: None, visited: old_visited, tips, parents, reported };
            return None;
        }
        let ghost before = queue@.map_values(|s: String| s@);
        let current = match queue.pop_front() {
            Some(c) => c,
            None => return None,
        };
        assert(queue@.map_values(|s: String| s@) =~= before.drop_first());
        assert(current@ == q[0]);
        let ghost visited = old_visited@.push(current@);
        let ghost rest = q.drop_first();
        seen.insert(current.clone(), ());
        proof {
            assert(!old_visited@.contains(current@));
            assert forall|x: Seq<char>| q0.contains(x) implies visited.contains(x) || rest.contains(x) by {
                if old_visited@.contains(x) {
                    let i = choose|i: int| 0 <= i < old_visited@.len() && old_visited@[i] == x;
                    assert(visited[i] == x);
                } else {
                    assert(q.contains(x));
                    let i = choose|i: int| 0 <= i < q.len() && q[i] == x;
                    if i == 0 {
                        assert(visited[visited.len() - 1] == x);
                    } else {
                        assert(rest[i - 1] == x);
                    }
                }
            }
            assert forall|x: Seq<char>| old_visited@.contains(x) implies #[trigger] visited.contains(x) by {
                let i = choose|i: int| 0 <= i < old_visited@.len() && old_visited@[i] == x;
                assert(visited[i] == x);
            }
            assert(visited.contains(current@)) by {
                assert(visited[visited.len() - 1] == current@);
            }
            assert forall|k: Seq<char>| #[trigger] seen@.contains_key(k) <==> visited.contains(k) by {
                if visited.contains(k) && k != current@ {
                    let i = choose|i: int| 0 <= i < visited.len() && visited[i] == k;
                    assert(old_visited@[i] == k);
                }
            }
            assert(visited.no_duplicates()) by {
                assert forall|i: int, j: int| 0 <= i < j < visited.len() implies visited[i] != visited[j] by {
                    if j == visited.len() - 1 {
                        assert(old_visited@[i] == visited[i]);
                        assert(old_visited@.contains(visited[i]));
                    }
                }
            }
            assert forall|i: int| 0 <= i < rest.len() implies in_history(tips@, parents@, #[trigger] rest[i]) by {
                assert(rest[i] == q0[dropped + 1 + i]);
            }
            assert forall|i: int| 0 <= i < visited.len() implies in_history(tips@, parents@, #[trigger] visited[i]) by {
                if i == visited.len() - 1 {
                    assert(q0[dropped] == visited[i]);
                } else {
                    assert(visited[i] == old_visited@[i]);
                }
            }
            assert forall|i: int| 0 <= i < tips@.len() implies visited.contains(#[trigger] tips@[i]) || rest.contains(tips@[i]) by {
                if old_visited@.contains(tips@[i]) {
                } else {
                    assert(q0.contains(tips@[i]));
                }
            }
            assert forall|v: Seq<char>| #[trigger] parents@.contains_key(v) implies visited.contains(parents@[v]) || rest.contains(parents@[v]) by {
                if !old_visited@.contains(parents@[v]) {
                    assert(q0.contains(parents@[v]));
                }
            }
            assert forall|v: Seq<char>| #[trigger] reported@.contains(v) implies visited.contains(v) by {}
            assert forall|v: Seq<char>| visited.contains(v) implies #[trigger] reported@.contains(v) || current@ == v by {
                if v != current@ {
                    let i = choose|i: int| 0 <= i < visited.len() && visited[i] == v;
                    assert(old_visited@[i] == v);
                }
            }
        }
        let out = current.clone();
        *self = HistoryWalk { seen, queue, awaiting: Some(current), visited: Ghost(visited), tips, parents, reported };
        Some(out)
    }

    /// Reports the parent of the commit handed out last (`None` for a first
    /// commit); a parent is queued to be looked at.
    pub fn report(&mut self, parent: Option<String>)
        requires
            old(self).awaiting() is Some,
        ensures
            final(self).awaiting() is None,
            final(self).visited() == old(self).visited(),
            final(self).tips() == old(self).tips(),
            final(self).queue() == match parent {
                Some(p) => old(self).queue().push(p@),
                None => old(self).queue(),
            },
            final(self).parents() == match parent {
                Some(p) => old(self).parents().insert(old(self).awaiting()->0, p@),
                None => old(self).parents(),
            },
    {
        proof {
            use_type_invariant(&*self);
        }
        let mut taken = HistoryWalk {
            seen: StrMap::new(),
            queue: VecDeque::new(),
            awaiting: None,
            visited: Ghost(Seq::empty()),
            tips: Ghost(Seq::empty()),
            parents: Ghost(Map::empty()),
            reported: Ghost(Set::empty()),
        };
        std::mem::swap(&mut taken, self);
        proof {
            use_type_invariant(&taken);
        }
        let HistoryWalk { seen, queue: mut queue, awaiting, visited, tips, parents: old_parents, reported: old_reported } = taken;
        let a = awaiting.unwrap();
        let ghost av = a@;
        let ghost new_reported = old_reported@.insert(av);
        let ghost q_old = queue@.map_values(|s: String| s@);
        match parent {
            Some(p) => {
                let ghost pv = p@;
                let ghost np = old_parents@.insert(av, pv);
                queue.push_back(p);
                let ghost q = queue@.map_values(|s: String| s@);
                proof {
                    assert(q =~= q_old.push(pv));
                    assert(!old_parents@.contains_key(av));
                    assert(old_parents@.submap_of(np));
                    // what was in the history stays there under more recorded parents
                    assert forall|x: Seq<char>| in_history(tips@, old_parents@, x) implies in_history(tips@, np, x) by {
                        let (i, n) = choose|i: int, n: nat| 0 <= i < tips@.len() && #[trigger] reaches(old_parents@, tips@[i], x, n);
                        lemma_reaches_extend(old_parents@, np, tips@[i], x, n);
                    }
                    // the new parent is one step beyond the commit it belongs to
                    assert(in_history(tips@, np, pv)) by {
                        let k = choose|k: int| 0 <= k < visited@.len() && visited@[k] == av;
                        assert(in_history(tips@, old_parents@, visited@[k]));
                        let (i, n) = choose|i: int, n: nat| 0 <= i < tips@.len() && #[trigger] reaches(old_parents@, tips@[i], av, n);
                        lemma_reaches_extend(old_parents@, np, tips@[i], av, n);
                        lemma_reaches_append(np, tips@[i], av, n);
                        assert(reaches(np, tips@[i], pv, n + 1));
                    }
                    assert forall|i: int| 0 <= i < q.len() implies in_history(tips@, np, #[trigger] q[i]) by {
                        if i < q_old.len() {
                            assert(q[i] == q_old[i]);
                            assert(in_history(tips@, old_parents@, q_old[i]));
                        }
                    }
                    assert forall|i: int| 0 <= i < visited@.len() implies in_history(tips@, np, #[trigger] visited@[i]) by {
                        assert(in_history(tips@, old_parents@, visited@[i]));
                    }
                    assert forall|x: Seq<char>| q_old.contains(x) implies q.contains(x) by {
                        let i = choose|i: int| 0 <= i < q_old.len() && q_old[i] == x;
                        assert(q[i] == x);
                    }
                    assert(q.contains(pv)) by {
                        assert(q[q.len() - 1] == pv);
                    }
                    assert forall|i: int| 0 <= i < tips@.len() implies visited@.contains(#[trigger] tips@[i]) || q.contains(tips@[i]) by {
                        if !visited@.contains(tips@[i]) {
                            assert(q_old.contains(tips@[i]));
                        }
                    }
                    assert forall|v: Seq<char>| #[trigger] np.contains_key(v) implies visited@.contains(np[v]) || q.contains(np[v]) by {
                        if v != av {
                            if !visited@.contains(old_parents@[v]) {
                                assert(q_old.contains(old_parents@[v]));
                            }
                        }
                    }
                    assert forall|v: Seq<char>| visited@.contains(v) implies #[trigger] new_reported.contains(v) by {}
                }
                *self = HistoryWalk {
                    seen,
                    queue,
                    awaiting: None,
                    visited,
                    tips,
                    parents: Ghost(np),
                    reported: Ghost(new_reported),
                };
            },
            None => {
                proof {
                    assert forall|v: Seq<char>| visited@.contains(v) implies #[trigger] new_reported.contains(v) by {}
                }
                *self = HistoryWalk {
                    seen,
                    queue,
                    awaiting: None,
                    visited,
                    tips,
                    parents: old_parents,
                    reported: Ghost(new_reported),
                };
            },
        }
    }

    /// Whether `hash` was handed out.
    pub fn has_visited(&self, hash: &str) -> (b: bool)
        ensures
            b == self.visited().contains(hash@),
    {
        proof {
            use_type_invariant(self);
        }
        self.seen.contains_key(hash)
    }

    /// The commits handed out, each once, in hash order.
    pub fn visited_sorted(&self) -> (v: Vec<String>)
        ensures
            v@.len() == self.visited().len(),
            forall|i: int, j: int| 0 <= i < j < v@.len() ==> crate::text::seq_lt(#[trigger] v@[i]@, #[trigger] v@[j]@),
            forall|i: int| 0 <= i < v@.len() ==> self.visited().contains(#[trigger] v@[i]@),
            forall|k: Seq<char>| self.visited().contains(k) ==> exists|i: int| 0 <= i < v@.len() && #[trigger] v@[i]@ == k,
    {
        proof {
            use_type_invariant(self);
            use_type_invariant(&self.seen);
            lemma_pairs_lookup_all(self.seen.pairs());
            crate::strmap::lemma_sorted_dom_len(self.seen.pairs());
            lemma_seen_len(self.seen@.dom(), self.visited@);
        }
        let v = self.seen.keys();
        proof {
            let ps = self.seen.pairs();
            assert forall|i: int| 0 <= i < v@.len() implies self.visited().contains(#[trigger] v@[i]@) by {
                assert(v@[i]@ == ps[i].0);
                assert(self.seen@.contains_key(ps[i].0));
            }
            assert forall|k: Seq<char>| self.visited().contains(k) implies exists|i: int| 0 <= i < v@.len() && #[trigger] v@[i]@ == k by {
                assert(self.seen@.contains_key(k));
                assert(has_key(ps, k));
                let i = choose|i: int| 0 <= i < ps.len() && #[trigger] ps[i].0 == k;
                assert(v@[i]@ == k);
            }
        }
        v
    }

    /// Whether the walk is over: nothing queued and no report outstanding. A
    /// walk that is over has visited exactly the tips and their ancestors, as
    /// the reported parents link them; so a commit is an ancestor of a tip (or
    /// the tip) exactly when the walk from that tip visits it.
    pub fn is_over(&self) -> (b: bool)
        ensures
            b == (self.queue().len() == 0 && self.awaiting() is None),
            b ==> forall|c: Seq<char>| self.visited().contains(c) <==> in_history(self.tips(), self.parents(), c),
    {
        proof {
            use_type_invariant(self);
        }
        let b = self.queue.len() == 0 && self.awaiting.is_none();
        proof {
            if b {
                let visited = self.visited@;
                let p = self.parents@;
                assert forall|c: Seq<char>| self.visited().contains(c) <==> in_history(self.tips(), self.parents(), c) by {
                    if visited.contains(c) {
                        let i = choose|i: int| 0 <= i < visited.len() && visited[i] == c;
                        assert(in_history(self.tips@, p, visited[i]));
                    }
                    if in_history(self.tips(), self.parents(), c) {
                        let (i, n) = choose|i: int, n: nat| 0 <= i < self.tips@.len() && #[trigger] reaches(p, self.tips@[i], c, n);
                        assert(visited.contains(self.tips@[i]) || self.queue().contains(self.tips@[i]));
                        assert forall|v: Seq<char>| visited.contains(v) && #[trigger] p.contains_key(v) implies visited.contains(p[v]) by {
                            assert(visited.contains(p[v]) || self.queue().contains(p[v]));
                        }
                        lemma_closed_holds_reached(visited, p, self.tips@[i], c, n);
                    }
                }
            }
        }
        b
    }
}

/// A set equal to the elements of a duplicate-free sequence has its length.
proof fn lemma_seen_len(s: Set<Seq<char>>, v: Seq<Seq<char>>)
    requires
        v.no_duplicates(),
        forall|k: Seq<char>| #[trigger] s.contains(k) <==> v.contains(k),
    ensures
        s.len() == v.len(),
{
    v.unique_seq_to_set();
    assert(s =~= v.to_set());
}

/// Whether `fvcs log` shows another commit after `shown` of them: always without
/// a count, else while fewer than `count` are shown.
pub fn log_shows_more(count: Option<usize>, shown: usize) -> (b: bool)
    ensures
        b == match count {
            Some(limit) => shown < limit,
            None => true,
        },
{
    match count {
        Some(limit) => shown < limit,
        None => true,
    }
}

} // verus!
