//! Adding new heads: every unknown ancestor gets the next draft id, parents
//! before children.
use vstd::prelude::*;
use vstd::set_lib::{lemma_int_range, lemma_len_subset, set_int_range};
use crate::namedag::{Entry, NameDag, Vertex, NON_MASTER_START, lemma_push_keeps, lemma_push_wf};
use crate::error::DagError;
use crate::parent_map::{ParentMap, copy_vertex};

verus! {

/// Whether the parents recorded at position `k` agree with `ps`: as many,
/// and each one whose name is known here has the name in `ps`.
pub open spec fn parents_agree(dag: &NameDag, k: int, ps: Seq<Seq<u8>>) -> bool {
    &&& dag.parents_at(k).len() == ps.len()
    &&& forall|t: int| 0 <= t < ps.len() && (#[trigger] dag.name_of_id(dag.parents_at(k)[t] as int)) is Some
        ==> dag.name_of_id(dag.parents_at(k)[t] as int) == Some(ps[t])
}

/// Whether every vertex of `pm` that `dag` knows has, in `pm`, the parents
/// `dag` recorded for it.
pub open spec fn agrees_with(dag: &NameDag, pm: &ParentMap) -> bool {
    forall|i: int| 0 <= i < pm.len() && dag.knows(#[trigger] pm.key(i)) ==> parents_agree(dag, dag.pos_of_name(pm.key(i)), pm.pars(i))
}

/// Whether `v` is the key of one of the map indexes in `s`.
pub open spec fn listed(pm: &ParentMap, s: Seq<usize>, v: Seq<u8>) -> bool {
    exists|b: int| 0 <= b < s.len() && #[trigger] pm.key(s[b] as int) == v
}

/// Whether `s` is a nonempty set of map indexes, none known to `dag`, each
/// with a parent among them: the parent function is not well-founded there.
pub open spec fn unfounded(dag: &NameDag, pm: &ParentMap, s: Seq<usize>) -> bool {
    &&& s.len() > 0
    &&& forall|a: int| 0 <= a < s.len() ==> #[trigger] s[a] < pm.len() && !dag.knows(pm.key(s[a] as int))
    &&& forall|a: int| 0 <= a < s.len() ==> has_listed_parent(pm, s, #[trigger] s[a] as int)
}

/// Whether some parent that `pm` gives for index `i` is keyed in `s`.
pub open spec fn has_listed_parent(pm: &ParentMap, s: Seq<usize>, i: int) -> bool {
    exists|t: int| 0 <= t < pm.pars(i).len() && listed(pm, s, #[trigger] pm.pars(i)[t])
}

/// Whether some parent that `pm` gives for index `i` is unknown to `dag`.
pub open spec fn stuck(dag: &NameDag, pm: &ParentMap, i: int) -> bool {
    exists|t: int| 0 <= t < pm.pars(i).len() && !dag.knows(#[trigger] pm.pars(i)[t])
}

/// Whether position `k` of `dag` holds a vertex of `pm`, with the ids of the
/// parents that `pm` gives for it.
pub open spec fn entry_from_map(dag: &NameDag, pm: &ParentMap, k: int) -> bool {
    exists|i: int| 0 <= i < pm.len() && #[trigger] pm.key(i) == dag.name_at(k)->0 && dag.name_at(k) is Some
        && dag.parents_at(k).len() == pm.pars(i).len() && forall|t: int|
        0 <= t < pm.pars(i).len() ==> dag.name_of_id(#[trigger] dag.parents_at(k)[t] as int) == Some(pm.pars(i)[t])
}

/// Whether `v` is a head or a parent that `pm` gives for some vertex.
pub open spec fn wanted(pm: &ParentMap, heads: Seq<Vertex>, v: Seq<u8>) -> bool {
    ||| exists|h: int| 0 <= h < heads.len() && #[trigger] heads[h]@ == v
    ||| exists|i: int, t: int| 0 <= i < pm.len() && 0 <= t < pm.pars(i).len()
        && #[trigger] pm.pars(i)[t] == v
}

pub open spec fn in_todo(s: Seq<Vertex>, v: Seq<u8>) -> bool {
    exists|c: int| 0 <= c < s.len() && #[trigger] s[c]@ == v
}

proof fn lemma_in_todo_pop(s: Seq<Vertex>, t: Seq<Vertex>, v: Vertex)
    requires
        s == t.push(v),
    ensures
        forall|x: Seq<u8>| #[trigger] in_todo(s, x) ==> x == v@ || in_todo(t, x),
{
    assert forall|x: Seq<u8>| #[trigger] in_todo(s, x) implies x == v@ || in_todo(t, x) by {
        let c = choose|c: int| 0 <= c < s.len() && #[trigger] s[c]@ == x;
        if c < t.len() {
            assert(t[c] == s[c]);
        }
    }
}

proof fn lemma_in_todo_extend(s: Seq<Vertex>, t: Seq<Vertex>)
    requires
        s.len() <= t.len(),
        forall|c: int| 0 <= c < s.len() ==> t[c] == s[c],
    ensures
        forall|x: Seq<u8>| #[trigger] in_todo(s, x) ==> in_todo(t, x),
{
    assert forall|x: Seq<u8>| #[trigger] in_todo(s, x) implies in_todo(t, x) by {
        let c = choose|c: int| 0 <= c < s.len() && #[trigger] s[c]@ == x;
        assert(t[c] == s[c]);
    }
}

proof fn lemma_listed_push(pm: &ParentMap, s: Seq<usize>, i: usize)
    ensures
        forall|x: Seq<u8>| #[trigger] listed(pm, s, x) ==> listed(pm, s.push(i), x),
{
    assert forall|x: Seq<u8>| #[trigger] listed(pm, s, x) implies listed(pm, s.push(i), x) by {
        let b = choose|b: int| 0 <= b < s.len() && #[trigger] pm.key(s[b] as int) == x;
        assert(s.push(i)[b] == s[b]);
    }
}

/// Whether `v` is a head, or a parent that `pm` gives for an index of `s`.
pub open spec fn wanted_in(pm: &ParentMap, heads: Seq<Vertex>, s: Seq<usize>, v: Seq<u8>) -> bool {
    ||| exists|h: int| 0 <= h < heads.len() && #[trigger] heads[h]@ == v
    ||| exists|b: int, t: int| 0 <= b < s.len() && 0 <= t < pm.pars(s[b] as int).len() && #[trigger] pm.pars(
        s[b] as int,
    )[t] == v
}

proof fn lemma_wanted_in_push(pm: &ParentMap, heads: Seq<Vertex>, s: Seq<usize>, i: usize)
    ensures
        forall|v: Seq<u8>| #[trigger] wanted_in(pm, heads, s, v) ==> wanted_in(pm, heads, s.push(i), v),
{
    assert forall|v: Seq<u8>| #[trigger] wanted_in(pm, heads, s, v) implies wanted_in(pm, heads, s.push(i), v) by {
        if !(exists|h: int| 0 <= h < heads.len() && #[trigger] heads[h]@ == v) {
            let (b, t) = choose|b: int, t: int| 0 <= b < s.len() && 0 <= t < pm.pars(s[b] as int).len() && #[trigger] pm.pars(
                s[b] as int,
            )[t] == v;
            assert(s.push(i)[b] == s[b]);
        }
    }
}

/// Whether position `k` carries the key of one of the indexes in `s`.
pub open spec fn named_from(d: &NameDag, pm: &ParentMap, s: Seq<usize>, k: int) -> bool {
    exists|a: int| 0 <= a < s.len() && d.name_at(k) == Some(#[trigger] pm.key(s[a] as int))
}

/// Whether the vertex at position `k` was asked for: it is a head, or a
/// parent of a later position.
pub open spec fn asked_for(d: &NameDag, heads: Seq<Vertex>, k: int) -> bool {
    ||| exists|h: int| 0 <= h < heads.len() && Some(#[trigger] heads[h]@) == d.name_at(k)
    ||| exists|k2: int, t: int| k < k2 < d.len() && 0 <= t < d.parents_at(k2).len() && #[trigger] d.parent_pos(k2, t) == k
}

/// Whether `s` lists distinct vertexes of `pm`, none known to `dag`.
pub open spec fn fresh_indexes(dag: &NameDag, pm: &ParentMap, s: Seq<usize>) -> bool {
    &&& forall|a: int| 0 <= a < s.len() ==> #[trigger] s[a] < pm.len() && !dag.knows(pm.key(s[a] as int))
    &&& forall|a: int, b: int| 0 <= a < s.len() && 0 <= b < s.len() && #[trigger] pm.key(s[a] as int)
        == #[trigger] pm.key(s[b] as int) ==> a == b
}

/// Whether every parent of the vertexes in `s` is known or in `s`.
pub open spec fn closed_under_parents(dag: &NameDag, pm: &ParentMap, s: Seq<usize>) -> bool {
    forall|a: int, t: int| 0 <= a < s.len() && 0 <= t < pm.pars(s[a] as int).len() ==> {
        let p = #[trigger] pm.pars(s[a] as int)[t];
        dag.knows(p) || listed(pm, s, p)
    }
}

proof fn lemma_distinct_bounded(s: Seq<usize>, n: int)
    requires
        0 <= n,
        forall|i: int| 0 <= i < s.len() ==> s[i] < n,
        forall|i: int, j: int| 0 <= i < s.len() && 0 <= j < s.len() && i != j ==> s[i] != s[j],
    ensures
        s.len() <= n,
{
    let t = s.map_values(|x: usize| x as int);
    assert(t.no_duplicates());
    t.unique_seq_to_set();
    lemma_int_range(0, n);
    assert(t.to_set().subset_of(set_int_range(0, n)));
    lemma_len_subset(t.to_set(), set_int_range(0, n));
}

proof fn lemma_push_entry_from_map(d0: &NameDag, d1: &NameDag, e: Entry, pm: &ParentMap, lo: int)
    requires
        d0.wf(),
        d1.entries@ == d0.entries@.push(e),
        d1.master_len == d0.master_len,
        0 <= lo,
        forall|k: int| lo <= k < d0.len() ==> entry_from_map(d0, pm, k),
    ensures
        forall|k: int| lo <= k < d0.len() ==> entry_from_map(d1, pm, k),
{
    lemma_push_keeps(d0, d1, e);
    assert forall|k: int| lo <= k < d0.len() implies entry_from_map(d1, pm, k) by {
        assert(entry_from_map(d0, pm, k));
        let i = choose|i: int| 0 <= i < pm.len() && #[trigger] pm.key(i) == d0.name_at(k)->0 && d0.name_at(k) is Some
            && d0.parents_at(k).len() == pm.pars(i).len() && forall|t: int|
            0 <= t < pm.pars(i).len() ==> d0.name_of_id(#[trigger] d0.parents_at(k)[t] as int) == Some(pm.pars(i)[t]);
        assert(d1.name_at(k) == d0.name_at(k));
        assert(d0.parents_at(k).len() == pm.pars(i).len());
        assert forall|t: int| 0 <= t < pm.pars(i).len() implies d1.name_of_id(#[trigger] d1.parents_at(k)[t] as int)
            == Some(pm.pars(i)[t]) by {
            assert(d0.has_id(d0.parents_at(k)[t] as int));
        }
    }
}

proof fn lemma_new_entries_asked_for(d_old: &NameDag, d: &NameDag, pm: &ParentMap, heads: Seq<Vertex>, p0: Seq<usize>)
    requires
        d_old.wf(),
        d.wf(),
        pm.consistent(),
        d.len() >= d_old.len(),
        forall|k: int| 0 <= k < d_old.len() ==> #[trigger] d.entries@[k] == d_old.entries@[k],
        fresh_indexes(d_old, pm, p0),
        forall|a: int| 0 <= a < p0.len() ==> wanted_in(pm, heads, p0, pm.key(#[trigger] p0[a] as int)),
        forall|a: int| 0 <= a < p0.len() ==> d.knows(pm.key(#[trigger] p0[a] as int)),
        forall|k: int| d_old.len() <= k < d.len() ==> entry_from_map(d, pm, k),
        forall|k: int| d_old.len() <= k < d.len() ==> named_from(d, pm, p0, k),
    ensures
        forall|k: int| d_old.len() <= k < d.len() ==> asked_for(d, heads, k),
{
    assert forall|k: int| d_old.len() <= k < d.len() implies asked_for(d, heads, k) by {
        assert(named_from(d, pm, p0, k));
        let a = choose|a: int| 0 <= a < p0.len() && d.name_at(k) == Some(#[trigger] pm.key(p0[a] as int));
        let v = pm.key(p0[a] as int);
        assert(wanted_in(pm, heads, p0, v));
        if exists|h: int| 0 <= h < heads.len() && #[trigger] heads[h]@ == v {
            let h = choose|h: int| 0 <= h < heads.len() && #[trigger] heads[h]@ == v;
            assert(Some(heads[h]@) == d.name_at(k));
        } else {
            let (b, t) = choose|b: int, t: int| 0 <= b < p0.len() && 0 <= t < pm.pars(p0[b] as int).len() && #[trigger] pm.pars(
                p0[b] as int,
            )[t] == v;
            let w = pm.key(p0[b] as int);
            assert(d.knows(w));
            let k2 = d.pos_of_name(w);
            assert(0 <= k2 < d.len() && d.name_at(k2) == Some(w));
            if k2 < d_old.len() {
                assert(d.entries@[k2] == d_old.entries@[k2]);
                assert(d_old.name_at(k2) == Some(w));
                assert(!d_old.knows(pm.key(p0[b] as int)));
            }
            assert(entry_from_map(d, pm, k2));
            let i2 = choose|i2: int| 0 <= i2 < pm.len() && #[trigger] pm.key(i2) == d.name_at(k2)->0 && d.name_at(k2) is Some
                && d.parents_at(k2).len() == pm.pars(i2).len() && forall|u: int|
                0 <= u < pm.pars(i2).len() ==> d.name_of_id(#[trigger] d.parents_at(k2)[u] as int) == Some(pm.pars(i2)[u]);
            assert(pm.key(i2) == pm.key(p0[b] as int));
            assert(pm.pars(i2) == pm.pars(p0[b] as int));
            assert(d.name_of_id(d.parents_at(k2)[t] as int) == Some(v));
            assert(d.has_id(d.parents_at(k2)[t] as int));
            let q = d.parent_pos(k2, t);
            assert(d.name_at(q) == d.name_at(k));
            assert(q == k);
            assert(k < k2);
        }
    }
}

/// Whether one of the indexes in `s` is keyed `v`.
fn listed_exec(pm: &ParentMap, s: &Vec<usize>, v: &Vertex) -> (r: bool)
    requires
        forall|b: int| 0 <= b < s.len() ==> s@[b] < pm.len(),
    ensures
        r == listed(pm, s@, v@),
{
    let mut b: usize = 0;
    while b < s.len()
        invariant
            b <= s.len(),
            forall|c: int| 0 <= c < s.len() ==> s@[c] < pm.len(),
            forall|c: int| 0 <= c < b ==> pm.key(s@[c] as int) != v@,
        decreases s.len() - b,
    {
        if crate::namedag::same_bytes(&pm.items[s[b]].0, v) {
            assert(pm.key(s@[b as int] as int) == v@);
            return true;
        }
        b += 1;
    }
    false
}

impl NameDag {
    /// Whether `pm` agrees with the parents recorded for the vertexes it
    /// lists that this graph knows.
    pub fn check_known_parents(&self, pm: &ParentMap) -> (r: bool)
        requires
            self.wf(),
        ensures
            r == agrees_with(self, pm),
    {
        let mut i: usize = 0;
        while i < pm.items.len()
            invariant
                self.wf(),
                i <= pm.len(),
                forall|j: int| 0 <= j < i && self.knows(#[trigger] pm.key(j)) ==> parents_agree(self, self.pos_of_name(pm.key(j)), pm.pars(j)),
            decreases pm.len() - i,
        {
            match self.find_name(&pm.items[i].0) {
                Some(k) => {
                    let ps = &self.entries[k].parents;
                    let qs = &pm.items[i].1;
                    if ps.len() != qs.len() {
                        proof {
                            assert(pm.pars(i as int).len() == qs.len());
                            assert(self.knows(pm.key(i as int)));
                            assert(!parents_agree(self, self.pos_of_name(pm.key(i as int)), pm.pars(i as int)));
                        }
                        return false;
                    }
                    let mut t: usize = 0;
                    while t < ps.len()
                        invariant
                            self.wf(),
                            i < pm.len(),
                            k < self.len(),
                            k == self.pos_of_name(pm.key(i as int)),
                            self.knows(pm.key(i as int)),
                            ps == &self.entries@[k as int].parents,
                            qs == &pm.items@[i as int].1,
                            ps.len() == qs.len(),
                            t <= ps.len(),
                            forall|u: int| 0 <= u < t && (#[trigger] self.name_of_id(self.parents_at(k as int)[u] as int)) is Some
                                ==> self.name_of_id(self.parents_at(k as int)[u] as int) == Some(pm.pars(i as int)[u]),
                        decreases ps.len() - t,
                    {
                        match self.vertex_name_local(ps[t]) {
                            Some(n) => {
                                if !crate::namedag::same_bytes(&n, &qs[t]) {
                                    proof {
                                        assert(pm.pars(i as int)[t as int] == qs@[t as int]@);
                                        assert(self.name_of_id(self.parents_at(k as int)[t as int] as int) is Some);
                                        assert(self.knows(pm.key(i as int)));
                                        assert(!parents_agree(self, self.pos_of_name(pm.key(i as int)), pm.pars(i as int)));
                                    }
                                    return false;
                                }
                                proof {
                                    assert(pm.pars(i as int)[t as int] == qs@[t as int]@);
                                }
                            },
                            None => {},
                        }
                        t += 1;
                    }
                    proof {
                        assert(pm.pars(i as int).len() == qs.len());
                    }
                },
                None => {},
            }
            i += 1;
        }
        true
    }

    /// Gives an id to every vertex that `heads` reach through `pm` and that
    /// is not known yet, each after its parents, in the draft group. On an
    /// error nothing changes.
    pub fn add_heads(&mut self, pm: &ParentMap, heads: &Vec<Vertex>) -> (r: Result<(), DagError>)
        requires
            old(self).wf(),
            old(self).len() + pm.len() < NON_MASTER_START,
        ensures
            final(self).wf(),
            final(self).master_len == old(self).master_len,
            final(self).segment_size == old(self).segment_size,
            final(self).len() >= old(self).len(),
            forall|k: int| 0 <= k < old(self).len() ==> #[trigger] final(self).entries@[k] == old(self).entries@[k],
            r is Err ==> final(self).entries@ == old(self).entries@,
            (r == Err::<(), DagError>(DagError::InconsistentParents)) <==> !pm.consistent() || !agrees_with(old(self), pm),
            r == Err::<(), DagError>(DagError::NotFound) ==> exists|v: Seq<u8>|
                !old(self).knows(v) && !pm.has_key(v) && #[trigger] wanted(pm, heads@, v),
            r == Err::<(), DagError>(DagError::CycleDetected) ==> exists|s: Seq<usize>| unfounded(old(self), pm, s),
            r is Err ==> r == Err::<(), DagError>(DagError::InconsistentParents) || r == Err::<(), DagError>(
                DagError::NotFound) || r == Err::<(), DagError>(DagError::CycleDetected),
            r is Ok ==> forall|h: int| 0 <= h < heads.len() ==> final(self).knows(#[trigger] heads@[h]@),
            r is Ok ==> forall|k: int| old(self).len() <= k < final(self).len() ==> entry_from_map(final(self), pm, k),
            r is Ok ==> forall|k: int| old(self).len() <= k < final(self).len() ==> asked_for(final(self), heads@, k),
            pm.consistent() && agrees_with(old(self), pm) && (forall|h: int| 0 <= h < heads.len() ==> old(self).knows(
                #[trigger] heads@[h]@,
            )) ==> r is Ok && final(self).entries@ == old(self).entries@,
    {
        if !pm.is_consistent() || !self.check_known_parents(pm) {
            return Err(DagError::InconsistentParents);
        }
        let mut pending = match self.collect_pending(pm, heads) {
            Ok(p) => p,
            Err(e) => {
                return Err(e);
            },
        };
        let old_len = self.entries.len();
        let ghost n0 = pending.len() as int;
        let ghost d_old = *self;
        let ghost p0 = pending@;
        proof {
            assert forall|a: int| 0 <= a < p0.len() implies self.knows(pm.key(#[trigger] p0[a] as int)) || listed(
                pm,
                pending@,
                pm.key(p0[a] as int),
            ) by {
                assert(pm.key(pending@[a] as int) == pm.key(p0[a] as int));
            }
            assert forall|a: int| 0 <= a < pending.len() implies p0.contains(#[trigger] pending@[a]) by {
                assert(p0[a] == pending@[a]);
            }
        }
        while pending.len() > 0
            invariant
                self.wf(),
                self.master_len == d_old.master_len,
                self.segment_size == d_old.segment_size,
                d_old == *old(self),
                d_old.wf(),
                agrees_with(&d_old, pm),
                (forall|h: int| 0 <= h < heads.len() ==> d_old.knows(#[trigger] heads@[h]@)) ==> pending.len() == 0,
                old_len == d_old.len(),
                self.len() >= old_len,
                forall|k: int| 0 <= k < old_len ==> #[trigger] self.entries@[k] == d_old.entries@[k],
                forall|v: Seq<u8>| #[trigger] d_old.knows(v) ==> self.knows(v),
                self.len() - old_len + pending.len() == n0,
                n0 <= pm.len(),
                d_old.len() + pm.len() < NON_MASTER_START,
                fresh_indexes(self, pm, pending@),
                closed_under_parents(self, pm, pending@),
                forall|h: int| 0 <= h < heads.len() ==> self.knows(#[trigger] heads@[h]@) || listed(pm, pending@, heads@[h]@),
                forall|k: int| old_len <= k < self.len() ==> entry_from_map(self, pm, k),
                pm.consistent(),
                fresh_indexes(&d_old, pm, p0),
                forall|a: int| 0 <= a < p0.len() ==> wanted_in(pm, heads@, p0, pm.key(#[trigger] p0[a] as int)),
                forall|a: int| 0 <= a < p0.len() ==> self.knows(pm.key(#[trigger] p0[a] as int)) || listed(
                    pm,
                    pending@,
                    pm.key(p0[a] as int),
                ),
                forall|a: int| 0 <= a < pending.len() ==> p0.contains(#[trigger] pending@[a]),
                forall|k: int| old_len <= k < self.len() ==> named_from(self, pm, p0, k),
            decreases pending.len(),
        {
            let mut rest: Vec<usize> = Vec::new();
            let ghost mut src: Seq<int> = Seq::empty();
            let ghost d_round = *self;
            let mut j: usize = 0;
            while j < pending.len()
                invariant
                    self.wf(),
                    self.master_len == d_old.master_len,
                    self.segment_size == d_old.segment_size,
                    old_len == d_old.len(),
                    self.len() >= d_round.len(),
                    d_round.len() >= old_len,
                    forall|k: int| 0 <= k < d_round.len() ==> #[trigger] self.entries@[k] == d_round.entries@[k],
                    forall|v: Seq<u8>| #[trigger] d_round.knows(v) ==> self.knows(v),
                    forall|v: Seq<u8>| #[trigger] d_old.knows(v) ==> d_round.knows(v),
                    j <= pending.len(),
                    rest.len() <= j,
                    self.len() - old_len + rest.len() + (pending.len() - j) == n0,
                    n0 <= pm.len(),
                    d_old.len() + pm.len() < NON_MASTER_START,
                    fresh_indexes(&d_round, pm, pending@),
                    forall|k: int| 0 <= k < old_len ==> #[trigger] d_round.entries@[k] == d_old.entries@[k],
                    forall|a: int| 0 <= a < p0.len() ==> d_round.knows(pm.key(#[trigger] p0[a] as int)) || listed(
                        pm,
                        pending@,
                        pm.key(p0[a] as int),
                    ),
                    forall|h: int| 0 <= h < heads.len() ==> d_round.knows(#[trigger] heads@[h]@) || listed(pm, pending@, heads@[h]@),
                    closed_under_parents(&d_round, pm, pending@),
                    src.len() == rest.len(),
                    forall|a: int| 0 <= a < rest.len() ==> 0 <= #[trigger] src[a] < j && rest@[a] == pending@[src[a]],
                    forall|a: int, b: int| 0 <= a < b < rest.len() ==> src[a] < src[b],
                    forall|c: int| 0 <= c < j ==> self.knows(pm.key(#[trigger] pending@[c] as int)) || exists|a: int|
                        0 <= a < src.len() && #[trigger] src[a] == c,
                    forall|c: int| j <= c < pending.len() ==> !self.knows(pm.key(#[trigger] pending@[c] as int)),
                    forall|a: int| 0 <= a < rest.len() ==> !self.knows(pm.key(#[trigger] rest@[a] as int)),
                    (rest.len() == j) == (self.len() == d_round.len()),
                    self.len() == d_round.len() ==> forall|c: int| 0 <= c < j ==> stuck(self, pm, #[trigger] pending@[c] as int),
                    forall|k: int| old_len <= k < self.len() ==> entry_from_map(self, pm, k),
                    forall|a: int| 0 <= a < pending.len() ==> p0.contains(#[trigger] pending@[a]),
                    forall|k: int| old_len <= k < self.len() ==> named_from(self, pm, p0, k),
                decreases pending.len() - j,
            {
                let i = pending[j];
                match self.ids_of_names(&pm.items[i].1) {
                    Some(ids) => {
                        let name = copy_vertex(&pm.items[i].0);
                        let ghost d0 = *self;
                        let e = Entry { name: Some(name), parents: ids };
                        self.entries.push(e);
                        proof {
                            lemma_push_wf(&d0, self, e);
                            lemma_push_keeps(&d0, self, e);
                            lemma_push_entry_from_map(&d0, self, e, pm, old_len as int);
                            assert forall|k: int| old_len <= k < self.len() implies named_from(self, pm, p0, k) by {
                                if k < d0.len() {
                                    assert(named_from(&d0, pm, p0, k));
                                    let a = choose|a: int| 0 <= a < p0.len() && d0.name_at(k) == Some(#[trigger] pm.key(p0[a] as int));
                                    assert(self.name_at(k) == d0.name_at(k));
                                } else {
                                    assert(p0.contains(pending@[j as int]));
                                    let a = choose|a: int| 0 <= a < p0.len() && p0[a] == pending@[j as int];
                                    assert(self.name_at(k) == Some(pm.key(p0[a] as int)));
                                }
                            }
                            assert(self.name_at(d0.len()) == Some(pm.key(i as int)));
                            assert(self.knows(pm.key(i as int)));
                            assert forall|t: int| 0 <= t < pm.pars(i as int).len() implies self.name_of_id(
                                #[trigger] self.parents_at(d0.len())[t] as int) == Some(pm.pars(i as int)[t]) by {
                                assert(d0.has_id(ids@[t] as int));
                            }
                            assert(entry_from_map(self, pm, d0.len()));
                            assert forall|c: int| j < c < pending.len() implies !self.knows(pm.key(#[trigger] pending@[c] as int)) by {
                                assert(pm.key(pending@[c] as int) != pm.key(pending@[j as int] as int));
                            }
                            assert forall|a: int| 0 <= a < rest.len() implies !self.knows(pm.key(#[trigger] rest@[a] as int)) by {
                                assert(pm.key(pending@[src[a]] as int) != pm.key(pending@[j as int] as int));
                            }
                        }
                    },
                    None => {
                        proof {
                            let t = choose|t: int| 0 <= t < pm.items@[i as int].1@.len() && !self.knows(
                                #[trigger] pm.items@[i as int].1@[t]@);
                            assert(pm.pars(i as int)[t] == pm.items@[i as int].1@[t]@);
                            assert(stuck(self, pm, i as int));
                        }
                        let ghost rest0 = rest@;
                        rest.push(i);
                        proof {
                            let src0 = src;
                            src = src.push(j as int);
                            assert(src[src.len() - 1] == j);
                            assert forall|c: int| 0 <= c < j + 1 implies self.knows(pm.key(#[trigger] pending@[c] as int)) || exists|a: int|
                                0 <= a < src.len() && #[trigger] src[a] == c by {
                                if c < j {
                                    if !self.knows(pm.key(pending@[c] as int)) {
                                        let a = choose|a: int| 0 <= a < src0.len() && #[trigger] src0[a] == c;
                                        assert(src[a] == c);
                                    }
                                }
                            }
                            assert forall|a: int| 0 <= a < rest.len() implies !self.knows(pm.key(#[trigger] rest@[a] as int)) by {
                                if a < rest0.len() {
                                    assert(rest@[a] == rest0[a]);
                                }
                            }

                        }
                    },
                }
                j += 1;
            }
            if rest.len() == pending.len() {
                proof {
                    assert forall|a: int| 0 <= a < pending.len() implies has_listed_parent(pm, pending@, #[trigger] pending@[a] as int) by {
                        assert(stuck(self, pm, pending@[a] as int));
                        let t = choose|t: int| 0 <= t < pm.pars(pending@[a] as int).len() && !self.knows(#[trigger] pm.pars(pending@[a] as int)[t]);
                        let p = pm.pars(pending@[a] as int)[t];
                        assert(d_round.knows(p) || listed(pm, pending@, p));
                        assert(listed(pm, pending@, pm.pars(pending@[a] as int)[t]));
                    }
                    assert forall|a: int| 0 <= a < pending.len() implies #[trigger] pending@[a] < pm.len()
                        && !d_old.knows(pm.key(pending@[a] as int)) by {
                        assert(!d_round.knows(pm.key(pending@[a] as int)));
                    }
                    assert(pending@.len() > 0);
                    assert(unfounded(&d_old, pm, pending@));
                }
                self.entries.truncate(old_len);
                proof {
                    assert(self.entries@ =~= d_old.entries@);
                    crate::namedag::lemma_same_entries_wf(&d_old, self);
                }
                return Err(DagError::CycleDetected);
            }
            proof {
                assert forall|a: int, b: int| 0 <= a < rest.len() && 0 <= b < rest.len() && #[trigger] pm.key(rest@[a] as int)
                    == #[trigger] pm.key(rest@[b] as int) implies a == b by {
                    assert(pm.key(pending@[src[a]] as int) == pm.key(pending@[src[b]] as int));
                    if a < b {
                        assert(src[a] < src[b]);
                    } else if b < a {
                        assert(src[b] < src[a]);
                    }
                }
                assert forall|a: int| 0 <= a < rest.len() implies #[trigger] rest@[a] < pm.len() by {
                    assert(pending@[src[a]] < pm.len());
                }
                assert forall|v: Seq<u8>| listed(pm, pending@, v) implies self.knows(v) || listed(pm, rest@, v) by {
                    let b = choose|b: int| 0 <= b < pending.len() && #[trigger] pm.key(pending@[b] as int) == v;
                    if !self.knows(pm.key(pending@[b] as int)) {
                        let a = choose|a: int| 0 <= a < src.len() && #[trigger] src[a] == b;
                        assert(pm.key(rest@[a] as int) == v);
                    }
                }
                assert forall|a: int, t: int| 0 <= a < rest.len() && 0 <= t < pm.pars(rest@[a] as int).len() implies {
                    let p = #[trigger] pm.pars(rest@[a] as int)[t];
                    self.knows(p) || listed(pm, rest@, p)
                } by {
                    let c = src[a];
                    assert(pm.pars(pending@[c] as int)[t] == pm.pars(rest@[a] as int)[t]);
                }
            }
            proof {
                assert forall|a: int| 0 <= a < rest.len() implies p0.contains(#[trigger] rest@[a]) by {
                    assert(p0.contains(pending@[src[a]]));
                }
                assert forall|a: int| 0 <= a < p0.len() implies self.knows(pm.key(#[trigger] p0[a] as int)) || listed(
                    pm,
                    rest@,
                    pm.key(p0[a] as int),
                ) by {
                    if !d_round.knows(pm.key(p0[a] as int)) {
                        assert(listed(pm, pending@, pm.key(p0[a] as int)));
                    }
                }
            }
            pending = rest;
        }
        proof {
            lemma_new_entries_asked_for(&d_old, self, pm, heads@, p0);
        }
        Ok(())
    }

    /// The unknown vertexes that adding `heads` must assign, as indexes of
    /// `pm`.
    fn collect_pending(&self, pm: &ParentMap, heads: &Vec<Vertex>) -> (r: Result<Vec<usize>, DagError>)
        requires
            self.wf(),
        ensures
            r is Ok ==> {
                &&& fresh_indexes(self, pm, r->Ok_0@)
                &&& closed_under_parents(self, pm, r->Ok_0@)
                &&& r->Ok_0.len() <= pm.len()
                &&& forall|h: int| 0 <= h < heads.len() ==> self.knows(#[trigger] heads@[h]@) || listed(pm, r->Ok_0@, heads@[h]@)
                &&& forall|a: int| 0 <= a < r->Ok_0.len() ==> wanted_in(pm, heads@, r->Ok_0@, pm.key(#[trigger] r->Ok_0@[a] as int))
            },
            (forall|h: int| 0 <= h < heads.len() ==> self.knows(#[trigger] heads@[h]@)) ==> r is Ok && r->Ok_0.len() == 0,
            r is Err ==> r == Err::<Vec<usize>, DagError>(DagError::NotFound) && exists|v: Seq<u8>|
                !self.knows(v) && !pm.has_key(v) && #[trigger] wanted(pm, heads@, v),
    {
        let mut pending: Vec<usize> = Vec::new();
        let mut todo: Vec<Vertex> = Vec::new();
        let mut h: usize = 0;
        while h < heads.len()
            invariant
                h <= heads.len(),
                todo.len() == h,
                forall|c: int| 0 <= c < h ==> #[trigger] todo@[c]@ == heads@[c]@,
            decreases heads.len() - h,
        {
            todo.push(copy_vertex(&heads[h]));
            h += 1;
        }
        assert forall|h: int| 0 <= h < heads.len() implies in_todo(todo@, #[trigger] heads@[h]@) by {
            assert(todo@[h]@ == heads@[h]@);
        }
        assert forall|c: int| 0 <= c < todo.len() implies wanted(pm, heads@, #[trigger] todo@[c]@) && wanted_in(
            pm,
            heads@,
            pending@,
            todo@[c]@,
        ) by {
            assert(todo@[c]@ == heads@[c]@);
        }
        let ghost all_known = forall|h: int| 0 <= h < heads.len() ==> self.knows(#[trigger] heads@[h]@);
        while todo.len() > 0
            invariant
                self.wf(),
                fresh_indexes(self, pm, pending@),
                forall|h: int| 0 <= h < heads.len() ==> self.knows(#[trigger] heads@[h]@) || listed(pm, pending@, heads@[h]@)
                    || in_todo(todo@, heads@[h]@),
                forall|a: int, t: int| 0 <= a < pending.len() && 0 <= t < pm.pars(pending@[a] as int).len() ==> {
                    let p = #[trigger] pm.pars(pending@[a] as int)[t];
                    self.knows(p) || listed(pm, pending@, p) || in_todo(todo@, p)
                },
                forall|c: int| 0 <= c < todo.len() ==> wanted(pm, heads@, #[trigger] todo@[c]@),
                forall|c: int| 0 <= c < todo.len() ==> wanted_in(pm, heads@, pending@, #[trigger] todo@[c]@),
                forall|a: int| 0 <= a < pending.len() ==> wanted_in(pm, heads@, pending@, pm.key(#[trigger] pending@[a] as int)),
                all_known == (forall|h: int| 0 <= h < heads.len() ==> self.knows(#[trigger] heads@[h]@)),
                all_known ==> pending.len() == 0 && forall|c: int| 0 <= c < todo.len() ==> self.knows(#[trigger] todo@[c]@),
                pending.len() <= pm.len(),
            decreases pm.len() - pending.len(), todo.len(),
        {
            let ghost todo0 = todo@;
            let v = match todo.pop() {
                Some(v) => v,
                None => {
                    return Ok(pending);
                },
            };
            proof {
                assert(todo0 =~= todo@.push(v));
                lemma_in_todo_pop(todo0, todo@, v);
                assert(wanted(pm, heads@, todo0[todo0.len() - 1]@));
            }
            if self.find_name(&v).is_some() {
                continue;
            }
            if listed_exec(pm, &pending, &v) {
                continue;
            }
            match pm.find(&v) {
                None => {
                    assert(!all_known);
                    return Err(DagError::NotFound);
                },
                Some(i) => {
                    let ghost pending0 = pending@;
                    let ghost todo1 = todo@;
                    pending.push(i);
                    proof {
                        assert(pending@[pending.len() - 1] == i);
                        assert forall|a: int, b: int|
                            0 <= a < pending.len() && 0 <= b < pending.len() && a != b implies pending@[a]
                                != pending@[b] by {
                            if a < pending0.len() && b < pending0.len() {
                                assert(pm.key(pending@[a] as int) == pm.key(pending0[a] as int));
                            } else if a < pending0.len() {
                                assert(pm.key(pending0[a] as int) != v@);
                            } else if b < pending0.len() {
                                assert(pm.key(pending0[b] as int) != v@);
                            }
                        }
                        lemma_distinct_bounded(pending@, pm.len());
                        lemma_listed_push(pm, pending0, i);
                        lemma_wanted_in_push(pm, heads@, pending0, i);
                        assert(pending@ == pending0.push(i));
                        assert(todo0[todo0.len() - 1]@ == v@);
                        assert(wanted_in(pm, heads@, pending0, v@));
                        assert forall|a: int| 0 <= a < pending.len() implies wanted_in(pm, heads@, pending@, pm.key(
                            #[trigger] pending@[a] as int,
                        )) by {
                            if a < pending0.len() {
                                assert(pending@[a] == pending0[a]);
                            }
                        }
                        assert(listed(pm, pending@, v@)) by {
                            assert(pm.key(pending@[pending.len() - 1] as int) == v@);
                        }
                    }
                    let ps = &pm.items[i].1;
                    let mut t: usize = 0;
                    while t < ps.len()
                        invariant
                            i < pm.len(),
                            ps == &pm.items@[i as int].1,
                            t <= ps.len(),
                            todo.len() == todo1.len() + t,
                            forall|c: int| 0 <= c < todo1.len() ==> todo@[c] == todo1[c],
                            forall|u: int| 0 <= u < t ==> #[trigger] todo@[todo1.len() + u]@ == pm.pars(i as int)[u],
                        decreases ps.len() - t,
                    {
                        let w = copy_vertex(&ps[t]);
                        assert(w@ == pm.pars(i as int)[t as int]);
                        todo.push(w);
                        t += 1;
                    }
                    proof {
                        lemma_in_todo_extend(todo1, todo@);
                        assert forall|u: int| 0 <= u < pm.pars(i as int).len() implies in_todo(todo@, #[trigger] pm.pars(i as int)[u]) by {
                            assert(todo@[todo1.len() + u]@ == pm.pars(i as int)[u]);
                        }
                        assert forall|c: int| 0 <= c < todo.len() implies wanted(pm, heads@, #[trigger] todo@[c]@)
                            && wanted_in(pm, heads@, pending@, todo@[c]@) by {
                            if c < todo1.len() {
                                assert(todo@[c] == todo1[c]);
                            } else {
                                let u = c - todo1.len();
                                assert(todo@[todo1.len() + u]@ == pm.pars(i as int)[u]);
                                let b = pending.len() - 1;
                                assert(pm.pars(pending@[b] as int)[u] == todo@[c]@);
                            }
                        }
                        assert forall|a: int, t: int| 0 <= a < pending.len() && 0 <= t < pm.pars(pending@[a] as int).len() implies {
                            let p = #[trigger] pm.pars(pending@[a] as int)[t];
                            self.knows(p) || listed(pm, pending@, p) || in_todo(todo@, p)
                        } by {
                            if a < pending0.len() {
                                assert(pending@[a] == pending0[a]);
                            }
                        }
                    }
                },
            }
        }
        Ok(pending)
    }

    /// The ids of `vs`, if every one of them is known locally.
    pub fn ids_of_names(&self, vs: &Vec<Vertex>) -> (r: Option<Vec<u64>>)
        requires
            self.wf(),
        ensures
            r is Some ==> r->0.len() == vs.len() && forall|t: int|
                0 <= t < vs.len() ==> self.has_id(#[trigger] r->0@[t] as int) && self.name_of_id(
                    r->0@[t] as int,
                ) == Some(vs@[t]@),
            r is None ==> exists|t: int| 0 <= t < vs.len() && !self.knows(#[trigger] vs@[t]@),
    {
        let mut ids: Vec<u64> = Vec::new();
        let mut t: usize = 0;
        while t < vs.len()
            invariant
                self.wf(),
                t <= vs.len(),
                ids.len() == t,
                forall|u: int|
                    0 <= u < t ==> self.has_id(#[trigger] ids@[u] as int) && self.name_of_id(
                        ids@[u] as int,
                    ) == Some(vs@[u]@),
            decreases vs.len() - t,
        {
            match self.vertex_id_local(&vs[t]) {
                Some(id) => ids.push(id),
                None => {
                    return None;
                },
            }
            t += 1;
        }
        Some(ids)
    }
}

/// Idempotence: after `add_heads` succeeded with `pm` and `heads`, the map
/// is consistent, agrees with the graph, and all heads are known, which is
/// when a second `add_heads` with the same arguments returns `Ok` and
/// changes nothing.
pub proof fn lemma_add_heads_idempotent(before: &NameDag, pm: &ParentMap, heads: Seq<Vertex>, after: &NameDag)
    requires
        before.wf(),
        after.wf(),
        pm.consistent(),
        agrees_with(before, pm),
        after.master_len == before.master_len,
        after.len() >= before.len(),
        forall|k: int| 0 <= k < before.len() ==> #[trigger] after.entries@[k] == before.entries@[k],
        forall|h: int| 0 <= h < heads.len() ==> after.knows(#[trigger] heads[h]@),
        forall|k: int| before.len() <= k < after.len() ==> entry_from_map(after, pm, k),
    ensures
        pm.consistent(),
        agrees_with(after, pm),
        forall|h: int| 0 <= h < heads.len() ==> after.knows(#[trigger] heads[h]@),
{
    assert forall|id: int| #[trigger] before.has_id(id) implies after.has_id(id) && after.name_of_id(id) == before.name_of_id(id) by {
        assert(after.entries@[before.pos_of(id)] == before.entries@[before.pos_of(id)]);
    }
    assert forall|i: int| 0 <= i < pm.len() && after.knows(#[trigger] pm.key(i)) implies parents_agree(
        after,
        after.pos_of_name(pm.key(i)),
        pm.pars(i),
    ) by {
        let p = after.pos_of_name(pm.key(i));
        assert(0 <= p < after.len() && after.name_at(p) == Some(pm.key(i)));
        if p < before.len() {
            assert(after.entries@[p] == before.entries@[p]);
            assert(before.name_at(p) == Some(pm.key(i)));
            assert(before.knows(pm.key(i)));
            let q = before.pos_of_name(pm.key(i));
            assert(0 <= q < before.len() && before.name_at(q) == Some(pm.key(i)));
            assert(q == p);
            assert(parents_agree(before, p, pm.pars(i)));
            assert forall|t: int| 0 <= t < pm.pars(i).len() && (#[trigger] after.name_of_id(after.parents_at(p)[t] as int)) is Some
                implies after.name_of_id(after.parents_at(p)[t] as int) == Some(pm.pars(i)[t]) by {
                assert(before.has_id(before.parents_at(p)[t] as int));
                assert(before.name_of_id(before.parents_at(p)[t] as int) is Some);
            }
        } else {
            assert(entry_from_map(after, pm, p));
            let i2 = choose|i2: int| 0 <= i2 < pm.len() && #[trigger] pm.key(i2) == after.name_at(p)->0 && after.name_at(p) is Some
                && after.parents_at(p).len() == pm.pars(i2).len() && forall|t: int|
                0 <= t < pm.pars(i2).len() ==> after.name_of_id(#[trigger] after.parents_at(p)[t] as int) == Some(pm.pars(i2)[t]);
            assert(pm.key(i2) == pm.key(i));
            assert(pm.pars(i2) == pm.pars(i));
        }
    }
}

} // verus!
