//! The remote resolution protocol: vertexes named by their position
//! relative to a known vertex, so that a client and a server with different
//! id spaces can exchange them; and the client side that fills in missing
//! names lazily.
use vstd::prelude::*;
use crate::namedag::{Entry, NameDag, Vertex, same_bytes, name_view};
use crate::error::DagError;
use crate::parent_map::{copy_vertex, vertexes_view};

verus! {

/// The vertex reached from `x` by following first parents `n` times.
pub struct AncestorPath {
    pub x: Vertex,
    pub n: u64,
}

/// A resolver of vertexes this graph does not know. Both operations work on
/// batches; an answer pairs each path with the vertexes found there.
pub trait RemoteIdConvertProtocol {
    /// Paths, relative to some of `heads`, of the vertexes `names`.
    fn resolve_names_to_relative_paths(&self, heads: Vec<Vertex>, names: Vec<Vertex>) -> Result<
        Vec<(AncestorPath, Vec<Vertex>)>,
        DagError,
    >;

    /// The vertexes at `paths`.
    fn resolve_relative_paths_to_names(&self, paths: Vec<AncestorPath>) -> Result<
        Vec<(AncestorPath, Vec<Vertex>)>,
        DagError,
    >;
}

impl NameDag {
    /// The position reached from position `k` by following first parents
    /// `n` times, if every step has a parent.
    pub open spec fn first_ancestor(&self, k: int, n: nat) -> Option<int>
        decreases n,
    {
        if n == 0 {
            Some(k)
        } else if self.parents_at(k).len() == 0 {
            None
        } else {
            self.first_ancestor(self.parent_pos(k, 0), (n - 1) as nat)
        }
    }

    /// Whether an entry's names and parents are those of `old` but for
    /// names that were missing there.
    pub open spec fn names_added(&self, old: &NameDag) -> bool {
        &&& self.len() == old.len()
        &&& self.master_len == old.master_len
        &&& self.segment_size == old.segment_size
        &&& forall|k: int| 0 <= k < old.len() ==> #[trigger] self.parents_at(k) == old.parents_at(k) && (old.name_at(k) is Some
            ==> self.name_at(k) == old.name_at(k))
    }
}

proof fn lemma_first_ancestor_in_range(d: &NameDag, k: int, n: nat)
    requires
        d.wf(),
        0 <= k < d.len(),
    ensures
        d.first_ancestor(k, n) is Some ==> 0 <= d.first_ancestor(k, n)->0 <= k,
        d.first_ancestor(k, n) is Some && n > 0 ==> d.first_ancestor(k, n)->0 < k,
    decreases n,
{
    if n > 0 && d.parents_at(k).len() > 0 {
        assert(d.has_id(d.parents_at(k)[0] as int));
        lemma_first_ancestor_in_range(d, d.parent_pos(k, 0), (n - 1) as nat);
    }
}

impl NameDag {
    /// Follows first parents `n` times from position `k`.
    pub fn walk_first_parents(&self, k: usize, n: u64) -> (r: Option<usize>)
        requires
            self.wf(),
            k < self.len(),
        ensures
            r is Some <==> self.first_ancestor(k as int, n as nat) is Some,
            r is Some ==> r->0 == self.first_ancestor(k as int, n as nat)->0 && r->0 < self.len(),
    {
        let mut cur: usize = k;
        let mut left: u64 = n;
        while left > 0
            invariant
                self.wf(),
                cur < self.len(),
                self.first_ancestor(k as int, n as nat) == self.first_ancestor(cur as int, left as nat),
            decreases left,
        {
            if self.entries[cur].parents.len() == 0 {
                return None;
            }
            proof {
                assert(self.has_id(self.parents_at(cur as int)[0] as int));
            }
            cur = self.pos_of_id(self.entries[cur].parents[0]).unwrap();
            left -= 1;
        }
        Some(cur)
    }

    /// The vertex at `path`, where this graph knows it.
    pub fn resolve_path(&self, path: &AncestorPath) -> (r: Result<Vertex, DagError>)
        requires
            self.wf(),
        ensures
            r is Ok <==> self.knows(path.x@) && self.first_ancestor(self.pos_of_name(path.x@), path.n as nat) is Some
                && self.name_at(self.first_ancestor(self.pos_of_name(path.x@), path.n as nat)->0) is Some,
            r is Ok ==> Some(r->Ok_0@) == self.name_at(self.first_ancestor(self.pos_of_name(path.x@), path.n as nat)->0),
            r is Err ==> r == Err::<Vertex, DagError>(DagError::NotFound),
    {
        let kx = match self.find_name(&path.x) {
            Some(k) => k,
            None => {
                return Err(DagError::NotFound);
            },
        };
        let q = match self.walk_first_parents(kx, path.n) {
            Some(q) => q,
            None => {
                return Err(DagError::NotFound);
            },
        };
        match &self.entries[q].name {
            Some(v) => Ok(copy_vertex(v)),
            None => Err(DagError::NotFound),
        }
    }

    /// A path to `v` from one of `heads`: the first head, in order, whose
    /// first-parent chain passes through `v`. Fails with `NotFound` exactly
    /// when there is none.
    pub fn path_of_name(&self, heads: &Vec<Vertex>, v: &Vertex) -> (r: Result<AncestorPath, DagError>)
        requires
            self.wf(),
        ensures
            r is Ok ==> self.knows(v@) && self.knows(r->Ok_0.x@) && vertexes_view(heads@).contains(r->Ok_0.x@)
                && self.first_ancestor(self.pos_of_name(r->Ok_0.x@), r->Ok_0.n as nat) == Some(self.pos_of_name(v@)),
            r is Err ==> r == Err::<AncestorPath, DagError>(DagError::NotFound),
            r is Err <==> !self.reaches_by_first_parents(vertexes_view(heads@), v@),
    {
        let k = match self.find_name(v) {
            Some(k) => k,
            None => {
                return Err(DagError::NotFound);
            },
        };
        let ghost hs = vertexes_view(heads@);
        let mut h: usize = 0;
        while h < heads.len()
            invariant
                self.wf(),
                k < self.len(),
                k == self.pos_of_name(v@),
                self.knows(v@),
                hs == vertexes_view(heads@),
                h <= heads.len(),
                forall|g: int, n: nat| 0 <= g < h && self.knows(hs[g]) ==> #[trigger] self.first_ancestor(
                    self.pos_of_name(hs[g]),
                    n,
                ) != Some(k as int),
            decreases heads.len() - h,
        {
            proof {
                assert(hs[h as int] == heads@[h as int]@);
            }
            match self.find_name(&heads[h]) {
                Some(kh) => {
                    let mut cur: usize = kh;
                    let mut steps: u64 = 0;
                    while cur > k
                        invariant
                            self.wf(),
                            k < self.len(),
                            cur < self.len(),
                            kh < self.len(),
                            steps + cur <= kh,
                            self.first_ancestor(kh as int, steps as nat) == Some(cur as int),
                            forall|n: nat| #[trigger] self.first_ancestor(kh as int, n) == Some(k as int) ==> steps <= n,
                        ensures
                            cur <= k || self.parents_at(cur as int).len() == 0,
                        decreases cur,
                    {
                        if self.entries[cur].parents.len() == 0 {
                            break;
                        }
                        proof {
                            assert(self.has_id(self.parents_at(cur as int)[0] as int));
                            lemma_first_ancestor_push(self, kh as int, steps as nat, cur as int);
                        }
                        cur = self.pos_of_id(self.entries[cur].parents[0]).unwrap();
                        steps += 1;
                    }
                    if cur == k {
                        proof {
                            assert(hs[h as int] == heads@[h as int]@);
                        }
                        return Ok(AncestorPath { x: copy_vertex(&heads[h]), n: steps });
                    }
                    proof {
                        assert forall|n: nat| #[trigger] self.first_ancestor(kh as int, n) != Some(k as int) by {
                            if self.first_ancestor(kh as int, n) == Some(k as int) {
                                lemma_first_ancestor_split(self, kh as int, steps as nat, (n - steps) as nat);
                                assert((steps + (n - steps)) as nat == n);
                                lemma_first_ancestor_in_range(self, cur as int, (n - steps) as nat);
                            }
                        }
                    }
                },
                None => {},
            }
            h += 1;
        }
        proof {
            if self.reaches_by_first_parents(hs, v@) {
                let (g, n) = choose|g: int, n: nat| 0 <= g < hs.len() && self.knows(hs[g]) && #[trigger] self.first_ancestor(
                    self.pos_of_name(hs[g]),
                    n,
                ) == Some(self.pos_of_name(v@));
            }
        }
        Err(DagError::NotFound)
    }

    /// Whether `v` is known and lies on the first-parent chain of a known
    /// vertex of `heads`.
    pub open spec fn reaches_by_first_parents(&self, heads: Seq<Seq<u8>>, v: Seq<u8>) -> bool {
        &&& self.knows(v)
        &&& exists|g: int, n: nat| 0 <= g < heads.len() && self.knows(heads[g]) && #[trigger] self.first_ancestor(
            self.pos_of_name(heads[g]),
            n,
        ) == Some(self.pos_of_name(v))
    }
}

proof fn lemma_first_ancestor_split(d: &NameDag, a: int, s: nat, t: nat)
    requires
        d.wf(),
        0 <= a < d.len(),
        d.first_ancestor(a, s) is Some,
    ensures
        d.first_ancestor(a, s + t) == d.first_ancestor(d.first_ancestor(a, s)->0, t),
    decreases s,
{
    if s > 0 {
        assert(d.has_id(d.parents_at(a)[0] as int));
        lemma_first_ancestor_split(d, d.parent_pos(a, 0), (s - 1) as nat, t);
        assert((s + t - 1) as nat == ((s - 1) as nat + t) as nat);
    }
}

proof fn lemma_first_ancestor_push(d: &NameDag, k: int, n: nat, cur: int)
    requires
        d.wf(),
        0 <= k < d.len(),
        d.first_ancestor(k, n) == Some(cur),
        d.parents_at(cur).len() > 0,
    ensures
        d.first_ancestor(k, n + 1) == Some(d.parent_pos(cur, 0)),
    decreases n,
{
    reveal_with_fuel(NameDag::first_ancestor, 2);
    if n > 0 {
        assert(d.parents_at(k).len() > 0);
        assert(d.has_id(d.parents_at(k)[0] as int));
        lemma_first_ancestor_push(d, d.parent_pos(k, 0), (n - 1) as nat, cur);
    }
}

/// A read-only copy of a graph, taken to answer remote requests while the
/// graph itself moves on.
pub struct DagSnapshot {
    dag: NameDag,
}

impl DagSnapshot {
    #[verifier::type_invariant]
    spec fn inv(self) -> bool {
        self.dag.wf()
    }

    /// The graph this snapshot holds.
    pub closed spec fn graph(&self) -> NameDag {
        self.dag
    }
}

impl NameDag {
    /// A copy of this graph with the same entries.
    pub fn copy_dag(&self) -> (r: NameDag)
        requires
            self.wf(),
        ensures
            r.wf(),
            r.len() == self.len(),
            r.master_len == self.master_len,
            r.segment_size == self.segment_size,
            forall|k: int| 0 <= k < self.len() ==> #[trigger] r.name_at(k) == self.name_at(k) && r.parents_at(k)
                == self.parents_at(k),
    {
        let mut es: Vec<Entry> = Vec::new();
        let mut k: usize = 0;
        while k < self.entries.len()
            invariant
                self.wf(),
                k <= self.len(),
                es.len() == k,
                forall|j: int| 0 <= j < k ==> #[trigger] name_view(es@[j].name) == self.name_at(j) && es@[j].parents@
                    == self.parents_at(j),
            decreases self.len() - k,
        {
            let e = &self.entries[k];
            let name = match &e.name {
                Some(v) => Some(copy_vertex(v)),
                None => None,
            };
            es.push(Entry { name, parents: crate::segment::copy_ids(&e.parents) });
            k += 1;
        }
        let r = NameDag { entries: es, master_len: self.master_len, segment_size: self.segment_size };
        proof {
            lemma_same_views_wf(self, &r);
        }
        r
    }

    /// A snapshot of this graph.
    pub fn try_snapshot(&self) -> (r: DagSnapshot)
        requires
            self.wf(),
        ensures
            r.graph().len() == self.len(),
            r.graph().master_len == self.master_len,
            forall|k: int| 0 <= k < self.len() ==> #[trigger] r.graph().name_at(k) == self.name_at(k)
                && r.graph().parents_at(k) == self.parents_at(k),
    {
        DagSnapshot { dag: self.copy_dag() }
    }
}

/// Well-formedness depends on names and parents alone.
pub proof fn lemma_same_views_wf(a: &NameDag, b: &NameDag)
    requires
        a.wf(),
        b.len() == a.len(),
        b.master_len == a.master_len,
        forall|k: int| 0 <= k < a.len() ==> #[trigger] b.name_at(k) == a.name_at(k) && b.parents_at(k) == a.parents_at(k),
    ensures
        b.wf(),
        forall|v: Seq<u8>| #[trigger] b.knows(v) == a.knows(v),
{
    assert forall|k: int, t: int| 0 <= k < b.len() && 0 <= t < b.parents_at(k).len() implies {
        &&& b.has_id(#[trigger] b.parents_at(k)[t] as int)
        &&& b.pos_of(b.parents_at(k)[t] as int) < k
    } by {
        assert(b.name_at(k) == a.name_at(k));
        assert(a.has_id(a.parents_at(k)[t] as int));
    }
    assert forall|x: int, y: int|
        0 <= x < b.len() && 0 <= y < b.len() && (#[trigger] b.name_at(x)) is Some
            && b.name_at(x) == #[trigger] b.name_at(y) implies x == y by {
        assert(a.name_at(x) == a.name_at(y));
    }
    assert forall|k: int| b.master_len <= k < b.len() implies (#[trigger] b.name_at(k)) is Some by {
        assert(a.name_at(k) is Some);
    }
    assert forall|v: Seq<u8>| #[trigger] b.knows(v) == a.knows(v) by {
        if b.knows(v) {
            let k = choose|k: int| 0 <= k < b.len() && #[trigger] b.name_at(k) == Some(v);
            assert(a.name_at(k) == Some(v));
        }
        if a.knows(v) {
            let k = choose|k: int| 0 <= k < a.len() && #[trigger] a.name_at(k) == Some(v);
            assert(b.name_at(k) == Some(v));
        }
    }
}

fn copy_path(p: &AncestorPath) -> (r: AncestorPath)
    ensures
        r.x@ == p.x@,
        r.n == p.n,
{
    AncestorPath { x: copy_vertex(&p.x), n: p.n }
}

impl RemoteIdConvertProtocol for DagSnapshot {
    /// Answers each name with the path `path_of_name` finds for it, in
    /// order; fails with `NotFound` when one has none.
    fn resolve_names_to_relative_paths(&self, heads: Vec<Vertex>, names: Vec<Vertex>) -> (r: Result<
        Vec<(AncestorPath, Vec<Vertex>)>,
        DagError,
    >)
        ensures
            r is Ok <==> forall|i: int| 0 <= i < names.len() ==> self.graph().reaches_by_first_parents(
                vertexes_view(heads@),
                #[trigger] names@[i]@,
            ),
            r is Ok ==> r->Ok_0.len() == names.len() && forall|i: int| 0 <= i < names.len() ==> {
                &&& (#[trigger] r->Ok_0@[i]).1@.len() == 1
                &&& r->Ok_0@[i].1@[0]@ == names@[i]@
                &&& vertexes_view(heads@).contains(r->Ok_0@[i].0.x@)
                &&& self.graph().path_target(r->Ok_0@[i].0) == Some(self.graph().pos_of_name(names@[i]@))
            },
            r is Err ==> r == Err::<Vec<(AncestorPath, Vec<Vertex>)>, DagError>(DagError::NotFound),
    {
        proof {
            use_type_invariant(self);
        }
        let mut out: Vec<(AncestorPath, Vec<Vertex>)> = Vec::new();
        let mut i: usize = 0;
        while i < names.len()
            invariant
                self.dag.wf(),
                i <= names.len(),
                out.len() == i,
                forall|j: int| 0 <= j < i ==> self.dag.reaches_by_first_parents(vertexes_view(heads@), #[trigger] names@[j]@),
                forall|j: int| 0 <= j < i ==> {
                    &&& (#[trigger] out@[j]).1@.len() == 1
                    &&& out@[j].1@[0]@ == names@[j]@
                    &&& vertexes_view(heads@).contains(out@[j].0.x@)
                    &&& self.dag.path_target(out@[j].0) == Some(self.dag.pos_of_name(names@[j]@))
                },
            decreases names.len() - i,
        {
            match self.dag.path_of_name(&heads, &names[i]) {
                Ok(p) => {
                    let ghost out0 = out@;
                    let w = copy_vertex(&names[i]);
                    let ws = vec![w];
                    proof {
                        assert(ws@[0]@ == names@[i as int]@);
                    }
                    out.push((p, ws));
                    proof {
                        assert forall|j: int| 0 <= j < i + 1 implies {
                            &&& (#[trigger] out@[j]).1@.len() == 1
                            &&& out@[j].1@[0]@ == names@[j]@
                            &&& vertexes_view(heads@).contains(out@[j].0.x@)
                            &&& self.dag.path_target(out@[j].0) == Some(self.dag.pos_of_name(names@[j]@))
                        } by {
                            if j < i {
                                assert(out@[j] == out0[j]);
                            }
                        }
                    }
                },
                Err(e) => {
                    return Err(e);
                },
            }
            i += 1;
        }
        Ok(out)
    }

    /// Answers each path with the name at its target, in order; fails with
    /// `NotFound` when a path leads nowhere or to an unnamed position.
    fn resolve_relative_paths_to_names(&self, paths: Vec<AncestorPath>) -> (r: Result<
        Vec<(AncestorPath, Vec<Vertex>)>,
        DagError,
    >)
        ensures
            r is Ok <==> forall|i: int| 0 <= i < paths.len() ==> self.graph().path_target(#[trigger] paths@[i]) is Some
                && self.graph().name_at(self.graph().path_target(paths@[i])->0) is Some,
            r is Ok ==> r->Ok_0.len() == paths.len() && forall|i: int| 0 <= i < paths.len() ==> {
                &&& (#[trigger] r->Ok_0@[i]).0.x@ == paths@[i].x@
                &&& r->Ok_0@[i].0.n == paths@[i].n
                &&& r->Ok_0@[i].1@.len() == 1
                &&& Some(r->Ok_0@[i].1@[0]@) == self.graph().name_at(self.graph().path_target(paths@[i])->0)
            },
            r is Err ==> r == Err::<Vec<(AncestorPath, Vec<Vertex>)>, DagError>(DagError::NotFound),
    {
        proof {
            use_type_invariant(self);
        }
        let mut out: Vec<(AncestorPath, Vec<Vertex>)> = Vec::new();
        let mut i: usize = 0;
        while i < paths.len()
            invariant
                self.dag.wf(),
                i <= paths.len(),
                out.len() == i,
                forall|j: int| 0 <= j < i ==> self.dag.path_target(#[trigger] paths@[j]) is Some
                    && self.dag.name_at(self.dag.path_target(paths@[j])->0) is Some,
                forall|j: int| 0 <= j < i ==> {
                    &&& (#[trigger] out@[j]).0.x@ == paths@[j].x@
                    &&& out@[j].0.n == paths@[j].n
                    &&& out@[j].1@.len() == 1
                    &&& Some(out@[j].1@[0]@) == self.dag.name_at(self.dag.path_target(paths@[j])->0)
                },
            decreases paths.len() - i,
        {
            match self.dag.resolve_path(&paths[i]) {
                Ok(v) => {
                    let ghost out0 = out@;
                    let vs = vec![v];
                    out.push((copy_path(&paths[i]), vs));
                    proof {
                        assert forall|j: int| 0 <= j < i + 1 implies {
                            &&& (#[trigger] out@[j]).0.x@ == paths@[j].x@
                            &&& out@[j].0.n == paths@[j].n
                            &&& out@[j].1@.len() == 1
                            &&& Some(out@[j].1@[0]@) == self.dag.name_at(self.dag.path_target(paths@[j])->0)
                        } by {
                            if j < i {
                                assert(out@[j] == out0[j]);
                            }
                        }
                    }
                },
                Err(e) => {
                    return Err(e);
                },
            }
            i += 1;
        }
        Ok(out)
    }
}

proof fn lemma_first_ancestor_step_up(d: &NameDag, top: int, n: nat, k: int)
    requires
        d.wf(),
        0 <= top,
        top + 1 < d.len(),
        d.links_prev(top + 1),
        d.first_ancestor(top, n) == Some(k),
    ensures
        d.first_ancestor(top + 1, n + 1) == Some(k),
{
    assert(d.parent_pos(top + 1, 0) == top);
}

/// What a failed remote call means here: a vertex the server does not know
/// either is not found; anything else is a protocol failure.
pub fn remote_error(e: DagError) -> (r: DagError)
    ensures
        e == DagError::NotFound ==> r == DagError::NotFound,
        e != DagError::NotFound ==> r == DagError::RemoteProtocolFailure,
{
    match e {
        DagError::NotFound => DagError::NotFound,
        _ => DagError::RemoteProtocolFailure,
    }
}

impl NameDag {
    /// Gives the unnamed position `k` the name `v`, which no id has.
    fn set_name(&mut self, k: usize, v: Vertex)
        requires
            old(self).wf(),
            k < old(self).len(),
            old(self).name_at(k as int) is None,
            !old(self).knows(v@),
        ensures
            final(self).wf(),
            final(self).names_added(old(self)),
            final(self).name_at(k as int) == Some(v@),
            forall|j: int| 0 <= j < old(self).len() && j != k ==> #[trigger] final(self).name_at(j) == old(self).name_at(j),
    {
        let parents = crate::segment::copy_ids(&self.entries[k].parents);
        let ghost d0 = *self;
        self.entries.set(k, Entry { name: Some(v), parents });
        proof {
            assert forall|j: int| 0 <= j < d0.len() && j != k implies #[trigger] self.name_at(j) == d0.name_at(j)
                && self.parents_at(j) == d0.parents_at(j) by {
                assert(self.entries@[j] == d0.entries@[j]);
            }
            assert(self.parents_at(k as int) == d0.parents_at(k as int));
            assert forall|j: int, t: int| 0 <= j < self.len() && 0 <= t < self.parents_at(j).len() implies {
                &&& self.has_id(#[trigger] self.parents_at(j)[t] as int)
                &&& self.pos_of(self.parents_at(j)[t] as int) < j
            } by {
                assert(self.parents_at(j) == d0.parents_at(j));
                assert(d0.has_id(d0.parents_at(j)[t] as int));
            }
            assert forall|a: int, b: int|
                0 <= a < self.len() && 0 <= b < self.len() && (#[trigger] self.name_at(a)) is Some
                    && self.name_at(a) == #[trigger] self.name_at(b) implies a == b by {
                if a != k && b != k {
                    assert(d0.name_at(a) == d0.name_at(b));
                } else if a != k {
                    assert(d0.name_at(a) == Some(v@));
                } else if b != k {
                    assert(d0.name_at(b) == Some(v@));
                }
            }
            assert forall|j: int| self.master_len <= j < self.len() implies (#[trigger] self.name_at(j)) is Some by {
                if j != k {
                    assert(d0.name_at(j) is Some);
                }
            }
        }
    }

    /// The names known for master ids, in id order.
    pub fn known_master_names(&self) -> (r: Vec<Vertex>)
        requires
            self.wf(),
        ensures
            forall|i: int| 0 <= i < r.len() ==> self.knows(#[trigger] r@[i]@) && self.pos_of_name(r@[i]@)
                < self.master_len,
            forall|k: int| 0 <= k < self.master_len && (#[trigger] self.name_at(k)) is Some ==> vertexes_view(r@).contains(
                self.name_at(k)->0,
            ),
            forall|i: int, j: int| 0 <= i < j < r.len() ==> self.pos_of_name(#[trigger] r@[i]@) < self.pos_of_name(
                #[trigger] r@[j]@,
            ),
    {
        let mut out: Vec<Vertex> = Vec::new();
        let ghost mut pos: Seq<int> = Seq::empty();
        let mut k: usize = 0;
        while k < self.master_len
            invariant
                self.wf(),
                k <= self.master_len,
                pos.len() == out.len(),
                forall|i: int| 0 <= i < out.len() ==> 0 <= #[trigger] pos[i] < k && self.name_at(pos[i]) == Some(out@[i]@),
                forall|i: int, j: int| 0 <= i < j < out.len() ==> pos[i] < pos[j],
                forall|q: int| 0 <= q < k && (#[trigger] self.name_at(q)) is Some ==> exists|i: int|
                    0 <= i < out.len() && pos[i] == q,
            decreases self.master_len - k,
        {
            match &self.entries[k].name {
                Some(v) => {
                    out.push(copy_vertex(v));
                    proof {
                        let pos0 = pos;
                        pos = pos.push(k as int);
                        assert forall|q: int| 0 <= q < k + 1 && (#[trigger] self.name_at(q)) is Some implies exists|i: int|
                            0 <= i < out.len() && pos[i] == q by {
                            if q < k {
                                let i = choose|i: int| 0 <= i < pos0.len() && pos0[i] == q;
                                assert(pos[i] == pos0[i]);
                            } else {
                                assert(pos[pos.len() - 1] == q);
                            }
                        }
                    }
                },
                None => {},
            }
            k += 1;
        }
        proof {
            assert forall|i: int| 0 <= i < out.len() implies self.knows(#[trigger] out@[i]@) && self.pos_of_name(out@[i]@)
                < self.master_len by {
                assert(self.name_at(pos[i]) == Some(out@[i]@));
                let c = self.pos_of_name(out@[i]@);
                assert(0 <= c < self.len() && self.name_at(c) == Some(out@[i]@));
            }
            assert forall|q: int| 0 <= q < self.master_len && (#[trigger] self.name_at(q)) is Some implies vertexes_view(
                out@,
            ).contains(self.name_at(q)->0) by {
                let i = choose|i: int| 0 <= i < out.len() && pos[i] == q;
                assert(vertexes_view(out@)[i] == out@[i]@);
            }
            assert forall|i: int, j: int| 0 <= i < j < out.len() implies self.pos_of_name(#[trigger] out@[i]@)
                < self.pos_of_name(#[trigger] out@[j]@) by {
                assert(self.name_at(pos[i]) == Some(out@[i]@));
                assert(self.name_at(pos[j]) == Some(out@[j]@));
                let a = self.pos_of_name(out@[i]@);
                let b = self.pos_of_name(out@[j]@);
                assert(0 <= a < self.len() && self.name_at(a) == Some(out@[i]@));
                assert(0 <= b < self.len() && self.name_at(b) == Some(out@[j]@));
            }
        }
        out
    }

    /// The position that `p` leads to here.
    pub open spec fn path_target(&self, p: AncestorPath) -> Option<int> {
        if self.knows(p.x@) {
            self.first_ancestor(self.pos_of_name(p.x@), p.n as nat)
        } else {
            None
        }
    }

    /// Takes the remote answer for the unknown vertex `v`: the first pair of
    /// `answer` that names `v` alone gives a path; where it leads to an
    /// unnamed master position, that position receives the name `v`.
    /// Otherwise the answer does not fit: `RemoteProtocolFailure`, and
    /// nothing changes.
    pub fn apply_resolved_name(&mut self, v: &Vertex, answer: &Vec<(AncestorPath, Vec<Vertex>)>) -> (r: Result<
        u64,
        DagError,
    >)
        requires
            old(self).wf(),
            !old(self).knows(v@),
        ensures
            final(self).wf(),
            final(self).names_added(old(self)),
            r is Ok <==> has_match(answer@, v@) && ({
                let t = old(self).path_target(answer@[first_match(answer@, v@)].0);
                t is Some && t->0 < old(self).master_len && old(self).name_at(t->0) is None
            }),
            r is Ok ==> ({
                let t = old(self).path_target(answer@[first_match(answer@, v@)].0)->0;
                &&& r->Ok_0 == old(self).id_at(t)
                &&& final(self).name_at(t) == Some(v@)
                &&& forall|j: int| 0 <= j < old(self).len() && j != t ==> #[trigger] final(self).name_at(j) == old(self).name_at(j)
            }),
            r is Err ==> r == Err::<u64, DagError>(DagError::RemoteProtocolFailure) && final(self).entries@ == old(
                self,
            ).entries@,
    {
        let mut i: usize = 0;
        while i < answer.len()
            invariant
                i <= answer.len(),
                forall|j: int| 0 <= j < i ==> !matches_name(#[trigger] answer@[j], v@),
            ensures
                i <= answer.len(),
                i < answer.len() ==> matches_name(answer@[i as int], v@),
                forall|j: int| 0 <= j < i ==> !matches_name(#[trigger] answer@[j], v@),
            decreases answer.len() - i,
        {
            let names = &answer[i].1;
            if names.len() == 1 && same_bytes(&names[0], v) {
                proof {
                    assert(matches_name(answer@[i as int], v@));
                }
                break;
            }
            i += 1;
        }
        if i == answer.len() {
            return Err(DagError::RemoteProtocolFailure);
        }
        proof {
            assert(matches_name(answer@[i as int], v@));
            let f = first_match(answer@, v@);
            assert(0 <= f < answer.len() && matches_name(answer@[f], v@) && forall|j: int| 0 <= j < f ==> !matches_name(#[trigger] answer@[j], v@));
            if f < i {
            } else if i < f {
                assert(!matches_name(answer@[i as int], v@));
            }
        }
        let path = &answer[i].0;
        let kx = match self.find_name(&path.x) {
            Some(k) => k,
            None => {
                return Err(DagError::RemoteProtocolFailure);
            },
        };
        let q = match self.walk_first_parents(kx, path.n) {
            Some(q) => q,
            None => {
                return Err(DagError::RemoteProtocolFailure);
            },
        };
        if q >= self.master_len || self.entries[q].name.is_some() {
            return Err(DagError::RemoteProtocolFailure);
        }
        self.set_name(q, copy_vertex(v));
        Ok(self.id_of_pos(q))
    }

    /// Whether position `t` is where a path to the unnamed position `k`
    /// starts: the first named position at or above `k` along a chain of
    /// master ids.
    pub open spec fn chain_top(&self, k: int, t: int) -> bool {
        &&& k <= t < self.master_len
        &&& self.name_at(t) is Some
        &&& forall|j: int| k < j <= t ==> #[trigger] self.links_prev(j)
        &&& forall|j: int| k <= j < t ==> (#[trigger] self.name_at(j)) is None
    }

    /// A path to id `id` from the nearest named id above it on its chain.
    /// Fails with `NotFound` exactly when the id is not assigned or no such
    /// named id exists.
    pub fn path_for_id(&self, id: u64) -> (r: Result<AncestorPath, DagError>)
        requires
            self.wf(),
        ensures
            r is Ok <==> self.has_id(id as int) && exists|t: int| self.chain_top(self.pos_of(id as int), t),
            r is Ok ==> ({
                let k = self.pos_of(id as int);
                let t = k + r->Ok_0.n;
                &&& self.chain_top(k, t)
                &&& self.name_at(t) == Some(r->Ok_0.x@)
                &&& self.first_ancestor(t, r->Ok_0.n as nat) == Some(k)
            }),
            r is Err ==> r == Err::<AncestorPath, DagError>(DagError::NotFound),
    {
        let k = match self.pos_of_id(id) {
            Some(k) => k,
            None => {
                return Err(DagError::NotFound);
            },
        };
        if k >= self.master_len {
            proof {
                assert forall|t: int| !self.chain_top(k as int, t) by {}
            }
            return Err(DagError::NotFound);
        }
        let mut top: usize = k;
        while self.entries[top].name.is_none()
            invariant
                self.wf(),
                k == self.pos_of(id as int),
                self.has_id(id as int),
                k <= top < self.master_len,
                self.first_ancestor(top as int, (top - k) as nat) == Some(k as int),
                forall|j: int| k < j <= top ==> #[trigger] self.links_prev(j),
                forall|j: int| k <= j < top ==> (#[trigger] self.name_at(j)) is None,
            decreases self.master_len - top,
        {
            if top + 1 < self.master_len && self.links_prev_exec(top + 1) {
                proof {
                    lemma_first_ancestor_step_up(self, top as int, (top - k) as nat, k as int);
                }
                top += 1;
            } else {
                proof {
                    assert forall|t: int| !self.chain_top(k as int, t) by {
                        if self.chain_top(k as int, t) {
                            if t > top {
                                assert(self.links_prev(top + 1));
                            } else if t < top {
                                assert(self.name_at(t) is None);
                            }
                        }
                    }
                    assert(self.pos_of(id as int) == k);
                    assert(!(exists|t: int| self.chain_top(self.pos_of(id as int), t)));
                }
                return Err(DagError::NotFound);
            }
        }
        let x = match &self.entries[top].name {
            Some(x) => copy_vertex(x),
            None => {
                return Err(DagError::NotFound);
            },
        };
        proof {
            assert(self.chain_top(k as int, top as int));
        }
        Ok(AncestorPath { x, n: (top - k) as u64 })
    }

    /// Takes the remote answer for the unnamed position `k`: a single pair
    /// naming a single vertex that no id has here gives `k` that name.
    /// Otherwise the answer does not fit: `RemoteProtocolFailure`, and
    /// nothing changes.
    pub fn apply_resolved_path(&mut self, k: usize, answer: &Vec<(AncestorPath, Vec<Vertex>)>) -> (r: Result<
        Vertex,
        DagError,
    >)
        requires
            old(self).wf(),
            k < old(self).len(),
            old(self).name_at(k as int) is None,
        ensures
            final(self).wf(),
            final(self).names_added(old(self)),
            r is Ok <==> answer.len() == 1 && answer@[0].1.len() == 1 && !old(self).knows(answer@[0].1@[0]@),
            r is Ok ==> r->Ok_0@ == answer@[0].1@[0]@ && final(self).name_at(k as int) == Some(r->Ok_0@) && forall|j: int|
                0 <= j < old(self).len() && j != k ==> #[trigger] final(self).name_at(j) == old(self).name_at(j),
            r is Err ==> r == Err::<Vertex, DagError>(DagError::RemoteProtocolFailure) && final(self).entries@ == old(
                self,
            ).entries@,
    {
        if answer.len() != 1 || answer[0].1.len() != 1 {
            return Err(DagError::RemoteProtocolFailure);
        }
        let w = copy_vertex(&answer[0].1[0]);
        if self.find_name(&w).is_some() {
            return Err(DagError::RemoteProtocolFailure);
        }
        let w2 = copy_vertex(&w);
        self.set_name(k, w);
        Ok(w2)
    }

    /// The id of `v`: from this graph when it knows `v`; otherwise by one
    /// call to `remote` with the known master names as heads and `v` as the
    /// only name, whose answer `apply_resolved_name` takes. Nothing changes
    /// on failure: `NotFound` when the server does not know `v`,
    /// `RemoteProtocolFailure` when its answer does not fit this graph.
    pub fn vertex_id<P: RemoteIdConvertProtocol>(&mut self, v: &Vertex, remote: &P) -> (r: Result<u64, DagError>)
        requires
            old(self).wf(),
        ensures
            final(self).wf(),
            final(self).names_added(old(self)),
            old(self).knows(v@) ==> r is Ok && r->Ok_0 == old(self).id_of_name(v@)->0 && final(self).entries@
                == old(self).entries@,
            r is Ok ==> final(self).has_id(r->Ok_0 as int) && final(self).name_of_id(r->Ok_0 as int) == Some(v@),
            r is Err ==> final(self).entries@ == old(self).entries@,
            r is Err ==> r == Err::<u64, DagError>(DagError::NotFound) || r == Err::<u64, DagError>(
                DagError::RemoteProtocolFailure,
            ),
    {
        if let Some(id) = self.vertex_id_local(v) {
            return Ok(id);
        }
        let heads = self.known_master_names();
        let answer = match remote.resolve_names_to_relative_paths(heads, vec![copy_vertex(v)]) {
            Ok(a) => a,
            Err(e) => {
                return Err(remote_error(e));
            },
        };
        let r = self.apply_resolved_name(v, &answer);
        proof {
            if r is Ok {
                let t = old(self).path_target(answer@[first_match(answer@, v@)].0)->0;
                lemma_first_ancestor_in_range(old(self), old(self).pos_of_name(answer@[first_match(answer@, v@)].0.x@),
                    answer@[first_match(answer@, v@)].0.n as nat);
                assert(self.pos_of(self.id_at(t)) == t);
            }
        }
        r
    }

    /// The name of id `id`: from this graph when it knows it; otherwise by
    /// one call to `remote` with the path from `path_for_id`, whose answer
    /// `apply_resolved_path` takes. Nothing changes on failure: `NotFound`
    /// when the id is not assigned, no named id leads to it, or the server
    /// does not know it; `RemoteProtocolFailure` when the answer does not
    /// fit.
    pub fn vertex_name<P: RemoteIdConvertProtocol>(&mut self, id: u64, remote: &P) -> (r: Result<Vertex, DagError>)
        requires
            old(self).wf(),
        ensures
            final(self).wf(),
            final(self).names_added(old(self)),
            old(self).name_of_id(id as int) is Some ==> r is Ok && Some(r->Ok_0@) == old(self).name_of_id(id as int)
                && final(self).entries@ == old(self).entries@,
            !old(self).has_id(id as int) ==> r == Err::<Vertex, DagError>(DagError::NotFound),
            old(self).has_id(id as int) && old(self).name_of_id(id as int) is None && !(exists|t: int| old(self).chain_top(
                old(self).pos_of(id as int),
                t,
            )) ==> r == Err::<Vertex, DagError>(DagError::NotFound),
            r is Ok ==> final(self).name_of_id(id as int) == Some(r->Ok_0@),
            r is Err ==> final(self).entries@ == old(self).entries@,
            r is Err ==> r == Err::<Vertex, DagError>(DagError::NotFound) || r == Err::<Vertex, DagError>(
                DagError::RemoteProtocolFailure,
            ),
    {
        let k = match self.pos_of_id(id) {
            Some(k) => k,
            None => {
                return Err(DagError::NotFound);
            },
        };
        if let Some(v) = self.vertex_name_local(id) {
            return Ok(v);
        }
        let path = match self.path_for_id(id) {
            Ok(p) => p,
            Err(e) => {
                return Err(e);
            },
        };
        let answer = match remote.resolve_relative_paths_to_names(vec![path]) {
            Ok(a) => a,
            Err(e) => {
                return Err(remote_error(e));
            },
        };
        self.apply_resolved_path(k, &answer)
    }
}

/// Whether an answer pair names exactly the vertex `v`.
pub open spec fn matches_name(pair: (AncestorPath, Vec<Vertex>), v: Seq<u8>) -> bool {
    pair.1@.len() == 1 && pair.1@[0]@ == v
}

pub open spec fn has_match(answer: Seq<(AncestorPath, Vec<Vertex>)>, v: Seq<u8>) -> bool {
    exists|i: int| 0 <= i < answer.len() && matches_name(#[trigger] answer[i], v)
}

/// The index of the first pair of `answer` that names exactly `v`.
pub open spec fn first_match(answer: Seq<(AncestorPath, Vec<Vertex>)>, v: Seq<u8>) -> int {
    choose|i: int| 0 <= i < answer.len() && matches_name(#[trigger] answer[i], v) && forall|j: int| 0 <= j < i ==> !matches_name(#[trigger] answer[j], v)
}

} // verus!
