//! Ancestry queries over ids.
use vstd::prelude::*;
use crate::namedag::{NameDag, Vertex};
use crate::parent_map::copy_vertex;
use crate::error::DagError;

verus! {

impl NameDag {
    /// Whether id `a` is an ancestor of id `b` (or `b` itself).
    pub open spec fn is_ancestor_spec(&self, a: int, b: int) -> bool {
        self.has_id(a) && self.has_id(b) && self.reaches(self.pos_of(a), self.pos_of(b))
    }

    /// For every position, whether it is an ancestor of position `kb` (or
    /// `kb` itself).
    pub fn ancestor_marks(&self, kb: usize) -> (r: Vec<bool>)
        requires
            self.wf(),
            kb < self.len(),
        ensures
            r.len() == self.len(),
            forall|q: int| 0 <= q < self.len() ==> #[trigger] r@[q] == self.reaches(q, kb as int),
    {
        let n = self.entries.len();
        let mut marks: Vec<bool> = Vec::new();
        while marks.len() < n
            invariant
                marks.len() <= n,
                forall|q: int| 0 <= q < marks.len() ==> !marks@[q],
            decreases n - marks.len(),
        {
            marks.push(false);
        }
        marks.set(kb, true);
        let mut c: usize = kb + 1;
        while c > 0
            invariant
                self.wf(),
                n == self.len(),
                kb < n,
                c <= kb + 1,
                marks.len() == n,
                forall|q: int| 0 <= q < n ==> (#[trigger] marks@[q] <==> (q == kb || exists|c2: int|
                    c <= c2 <= kb && marks@[c2] && #[trigger] self.has_parent_pos(c2, q))),
                forall|q: int| c <= q < n ==> #[trigger] marks@[q] == self.reaches(q, kb as int),
            decreases c,
        {
            c -= 1;
            proof {
                if c < kb {
                    if self.reaches(c as int, kb as int) {
                        let c2 = choose|c2: int| c < c2 <= kb && #[trigger] self.has_parent_pos(c2, c as int)
                            && self.reaches(c2, kb as int);
                        assert(marks@[c2]);
                    }
                    if marks@[c as int] {
                        let c2 = choose|c2: int| c + 1 <= c2 <= kb && marks@[c2] && #[trigger] self.has_parent_pos(c2, c as int);
                        assert(self.reaches(c2, kb as int));
                    }
                }
                assert(marks@[c as int] == self.reaches(c as int, kb as int));
            }
            if marks[c] {
                let ps = &self.entries[c].parents;
                let mut t: usize = 0;
                while t < ps.len()
                    invariant
                        self.wf(),
                        n == self.len(),
                        kb < n,
                        c <= kb,
                        ps == &self.entries@[c as int].parents,
                        t <= ps.len(),
                        marks.len() == n,
                        marks@[c as int],
                        forall|q: int| 0 <= q < n ==> (#[trigger] marks@[q] <==> (q == kb || (exists|c2: int|
                            c < c2 <= kb && marks@[c2] && #[trigger] self.has_parent_pos(c2, q)) || (exists|u: int|
                            0 <= u < t && #[trigger] self.parent_pos(c as int, u) == q))),
                        forall|q: int| c <= q < n ==> #[trigger] marks@[q] == self.reaches(q, kb as int),
                    decreases ps.len() - t,
                {
                    proof {
                        assert(self.has_id(self.parents_at(c as int)[t as int] as int));
                    }
                    let q = self.pos_of_id(ps[t]).unwrap();
                    let ghost marks0 = marks@;
                    marks.set(q, true);
                    proof {
                        assert(self.parent_pos(c as int, t as int) == q);
                        assert(self.pos_of(self.parents_at(c as int)[t as int] as int) < c);
                        assert forall|x: int| 0 <= x < n implies (#[trigger] marks@[x] <==> (x == kb || (exists|c2: int|
                            c < c2 <= kb && marks@[c2] && #[trigger] self.has_parent_pos(c2, x)) || (exists|u: int|
                            0 <= u < t + 1 && #[trigger] self.parent_pos(c as int, u) == x))) by {
                            if x != q {
                                assert(marks@[x] == marks0[x]);
                            }
                            assert forall|c2: int| c < c2 <= kb implies marks@[c2] == marks0[c2] by {}
                        }
                    }
                    t += 1;
                }
                proof {
                    assert forall|x: int| 0 <= x < n implies (#[trigger] marks@[x] <==> (x == kb || exists|c2: int|
                        c <= c2 <= kb && marks@[c2] && #[trigger] self.has_parent_pos(c2, x))) by {
                        if exists|c2: int| c <= c2 <= kb && marks@[c2] && #[trigger] self.has_parent_pos(c2, x) {
                            let c2 = choose|c2: int| c <= c2 <= kb && marks@[c2] && #[trigger] self.has_parent_pos(c2, x);
                            if c2 == c {
                                let u = choose|u: int| 0 <= u < self.parents_at(c as int).len() && #[trigger] self.parent_pos(c as int, u) == x;
                            }
                        }
                        if exists|u: int| 0 <= u < ps.len() && #[trigger] self.parent_pos(c as int, u) == x {
                            assert(self.has_parent_pos(c as int, x));
                        }
                    }
                }
            }
        }
        marks
    }

    /// Whether id `a` is an ancestor of id `b` (or `b` itself). Fails when
    /// either id is not assigned.
    pub fn is_ancestor(&self, a: u64, b: u64) -> (r: Result<bool, DagError>)
        requires
            self.wf(),
        ensures
            r is Err <==> !self.has_id(a as int) || !self.has_id(b as int),
            r is Err ==> r == Err::<bool, DagError>(DagError::NotFound),
            r is Ok ==> r->Ok_0 == self.is_ancestor_spec(a as int, b as int),
    {
        let ka = match self.pos_of_id(a) {
            Some(k) => k,
            None => {
                return Err(DagError::NotFound);
            },
        };
        let kb = match self.pos_of_id(b) {
            Some(k) => k,
            None => {
                return Err(DagError::NotFound);
            },
        };
        let marks = self.ancestor_marks(kb);
        Ok(marks[ka])
    }

    /// The ids of the positions marked in `keep`, in increasing order.
    pub fn ids_where(&self, keep: &Vec<bool>) -> (r: Vec<u64>)
        requires
            self.wf(),
            keep.len() == self.len(),
        ensures
            forall|i: int| 0 <= i < r.len() ==> self.has_id(#[trigger] r@[i] as int) && keep@[self.pos_of(r@[i] as int)],
            forall|k: int| 0 <= k < self.len() && #[trigger] keep@[k] ==> r@.contains(self.id_at(k) as u64),
            forall|i: int, j: int| 0 <= i < j < r.len() ==> r@[i] < r@[j],
    {
        let mut out: Vec<u64> = Vec::new();
        let mut q: usize = 0;
        while q < keep.len()
            invariant
                self.wf(),
                keep.len() == self.len(),
                q <= keep.len(),
                forall|i: int| 0 <= i < out.len() ==> self.has_id(#[trigger] out@[i] as int) && keep@[self.pos_of(out@[i] as int)]
                    && self.pos_of(out@[i] as int) < q,
                forall|x: int| 0 <= x < q && #[trigger] keep@[x] ==> out@.contains(self.id_at(x) as u64),
                forall|i: int, j: int| 0 <= i < j < out.len() ==> out@[i] < out@[j],
            decreases keep.len() - q,
        {
            let ghost out0 = out@;
            if keep[q] {
                let id = self.id_of_pos(q);
                out.push(id);
                proof {
                    assert(self.pos_of(id as int) == q);
                    assert(out@[out.len() - 1] == id);
                    assert forall|i: int| 0 <= i < out.len() - 1 implies out@[i] < id by {
                        assert(out@[i] == out0[i]);
                        assert(self.pos_of(out0[i] as int) < q);
                        assert(self.id_at(self.pos_of(out0[i] as int)) == out0[i]);
                    }
                    assert forall|x: int| 0 <= x < q + 1 && #[trigger] keep@[x] implies out@.contains(self.id_at(x) as u64) by {
                        if x < q {
                            let i = choose|i: int| 0 <= i < out0.len() && out0[i] == self.id_at(x) as u64;
                            assert(out@[i] == out0[i]);
                        } else {
                            assert(out@[out.len() - 1] == self.id_at(x) as u64);
                        }
                    }
                    assert forall|i: int| 0 <= i < out.len() implies self.has_id(#[trigger] out@[i] as int) && keep@[self.pos_of(out@[i] as int)]
                        && self.pos_of(out@[i] as int) < q + 1 by {
                        if i < out.len() - 1 {
                            assert(out@[i] == out0[i]);
                        }
                    }
                }
            }
            q += 1;
        }
        out
    }

    /// The ancestors of id `b` (with `b`), in increasing id order. Fails when
    /// `b` is not assigned.
    pub fn ancestors(&self, b: u64) -> (r: Result<Vec<u64>, DagError>)
        requires
            self.wf(),
        ensures
            r is Err <==> !self.has_id(b as int),
            r is Err ==> r == Err::<Vec<u64>, DagError>(DagError::NotFound),
            r is Ok ==> forall|i: int| 0 <= i < r->Ok_0.len() ==> self.is_ancestor_spec(#[trigger] r->Ok_0@[i] as int, b as int),
            r is Ok ==> forall|id: u64| self.is_ancestor_spec(id as int, b as int) ==> #[trigger] r->Ok_0@.contains(id),
            r is Ok ==> forall|i: int, j: int| 0 <= i < j < r->Ok_0.len() ==> r->Ok_0@[i] < r->Ok_0@[j],
    {
        let kb = match self.pos_of_id(b) {
            Some(k) => k,
            None => {
                return Err(DagError::NotFound);
            },
        };
        let marks = self.ancestor_marks(kb);
        let out = self.ids_where(&marks);
        proof {
            assert forall|id: u64| self.is_ancestor_spec(id as int, b as int) implies #[trigger] out@.contains(id) by {
                let x = self.pos_of(id as int);
                assert(marks@[x]);
                assert(self.id_at(x) == id);
            }
        }
        Ok(out)
    }

    /// The common ancestors of ids `a` and `b`, in increasing id order.
    /// Fails when either is not assigned.
    pub fn common_ancestors(&self, a: u64, b: u64) -> (r: Result<Vec<u64>, DagError>)
        requires
            self.wf(),
        ensures
            r is Err <==> !self.has_id(a as int) || !self.has_id(b as int),
            r is Err ==> r == Err::<Vec<u64>, DagError>(DagError::NotFound),
            r is Ok ==> forall|i: int| 0 <= i < r->Ok_0.len() ==> self.is_ancestor_spec(#[trigger] r->Ok_0@[i] as int, a as int)
                && self.is_ancestor_spec(r->Ok_0@[i] as int, b as int),
            r is Ok ==> forall|id: u64| self.is_ancestor_spec(id as int, a as int) && self.is_ancestor_spec(id as int, b as int)
                ==> #[trigger] r->Ok_0@.contains(id),
            r is Ok ==> forall|i: int, j: int| 0 <= i < j < r->Ok_0.len() ==> r->Ok_0@[i] < r->Ok_0@[j],
    {
        let ka = match self.pos_of_id(a) {
            Some(k) => k,
            None => {
                return Err(DagError::NotFound);
            },
        };
        let kb = match self.pos_of_id(b) {
            Some(k) => k,
            None => {
                return Err(DagError::NotFound);
            },
        };
        let ma = self.ancestor_marks(ka);
        let mb = self.ancestor_marks(kb);
        let mut both: Vec<bool> = Vec::new();
        let mut q: usize = 0;
        while q < ma.len()
            invariant
                ma.len() == self.len(),
                mb.len() == self.len(),
                q <= ma.len(),
                both.len() == q,
                forall|x: int| 0 <= x < q ==> #[trigger] both@[x] == (ma@[x] && mb@[x]),
            decreases ma.len() - q,
        {
            both.push(ma[q] && mb[q]);
            q += 1;
        }
        let out = self.ids_where(&both);
        proof {
            assert forall|id: u64| self.is_ancestor_spec(id as int, a as int) && self.is_ancestor_spec(id as int, b as int)
                implies #[trigger] out@.contains(id) by {
                let x = self.pos_of(id as int);
                assert(both@[x]);
                assert(self.id_at(x) == id);
            }
        }
        Ok(out)
    }

    /// The descendants of id `a` (with `a`), in increasing id order. Fails
    /// when `a` is not assigned.
    pub fn descendants(&self, a: u64) -> (r: Result<Vec<u64>, DagError>)
        requires
            self.wf(),
        ensures
            r is Err <==> !self.has_id(a as int),
            r is Err ==> r == Err::<Vec<u64>, DagError>(DagError::NotFound),
            r is Ok ==> forall|i: int| 0 <= i < r->Ok_0.len() ==> self.is_ancestor_spec(a as int, #[trigger] r->Ok_0@[i] as int),
            r is Ok ==> forall|id: u64| self.is_ancestor_spec(a as int, id as int) ==> #[trigger] r->Ok_0@.contains(id),
            r is Ok ==> forall|i: int, j: int| 0 <= i < j < r->Ok_0.len() ==> r->Ok_0@[i] < r->Ok_0@[j],
    {
        self.range(a, None)
    }

    /// The ids that are descendants of `a` and, where `b` is given, also
    /// ancestors of `b`: the range between them, in increasing id order.
    /// Fails when `a` or `b` is not assigned.
    pub fn range(&self, a: u64, b: Option<u64>) -> (r: Result<Vec<u64>, DagError>)
        requires
            self.wf(),
        ensures
            r is Err <==> !self.has_id(a as int) || (b is Some && !self.has_id(b->0 as int)),
            r is Err ==> r == Err::<Vec<u64>, DagError>(DagError::NotFound),
            r is Ok ==> forall|i: int| 0 <= i < r->Ok_0.len() ==> self.is_ancestor_spec(a as int, #[trigger] r->Ok_0@[i] as int)
                && (b is Some ==> self.is_ancestor_spec(r->Ok_0@[i] as int, b->0 as int)),
            r is Ok ==> forall|id: u64| self.is_ancestor_spec(a as int, id as int) && (b is Some ==> self.is_ancestor_spec(
                id as int,
                b->0 as int,
            )) ==> #[trigger] r->Ok_0@.contains(id),
            r is Ok ==> forall|i: int, j: int| 0 <= i < j < r->Ok_0.len() ==> r->Ok_0@[i] < r->Ok_0@[j],
    {
        let ka = match self.pos_of_id(a) {
            Some(k) => k,
            None => {
                return Err(DagError::NotFound);
            },
        };
        let upper: Option<Vec<bool>> = match b {
            Some(b) => match self.pos_of_id(b) {
                Some(kb) => Some(self.ancestor_marks(kb)),
                None => {
                    return Err(DagError::NotFound);
                },
            },
            None => None,
        };
        let n = self.entries.len();
        let mut keep: Vec<bool> = Vec::new();
        let mut x: usize = 0;
        while x < n
            invariant
                self.wf(),
                n == self.len(),
                ka < n,
                ka == self.pos_of(a as int),
                b is Some ==> upper is Some && upper->0.len() == n && forall|y: int| 0 <= y < n ==> #[trigger] upper->0@[y]
                    == self.reaches(y, self.pos_of(b->0 as int)),
                b is None ==> upper is None,
                x <= n,
                keep.len() == x,
                forall|y: int| 0 <= y < x ==> #[trigger] keep@[y] == (self.reaches(ka as int, y) && (b is Some ==> self.reaches(
                    y,
                    self.pos_of(b->0 as int),
                ))),
            decreases n - x,
        {
            let below = match &upper {
                Some(u) => u[x],
                None => true,
            };
            let k = if below {
                let m = self.ancestor_marks(x);
                m[ka]
            } else {
                false
            };
            keep.push(k);
            x += 1;
        }
        let out = self.ids_where(&keep);
        proof {
            assert forall|id: u64| self.is_ancestor_spec(a as int, id as int) && (b is Some ==> self.is_ancestor_spec(
                id as int,
                b->0 as int,
            )) implies #[trigger] out@.contains(id) by {
                let y = self.pos_of(id as int);
                assert(keep@[y]);
                assert(self.id_at(y) == id);
            }
        }
        Ok(out)
    }
}

impl NameDag {
    /// Every locally known vertex, in id order. Nothing is resolved
    /// remotely.
    pub fn all(&self) -> (r: Vec<Vertex>)
        requires
            self.wf(),
        ensures
            forall|i: int| 0 <= i < r.len() ==> self.knows(#[trigger] r@[i]@),
            forall|v: Seq<u8>| self.knows(v) ==> exists|i: int| 0 <= i < r.len() && #[trigger] r@[i]@ == v,
            forall|i: int, j: int| 0 <= i < j < r.len() ==> self.id_of_name(#[trigger] r@[i]@)->0 < self.id_of_name(
                #[trigger] r@[j]@,
            )->0,
    {
        let mut out: Vec<Vertex> = Vec::new();
        let ghost mut pos: Seq<int> = Seq::empty();
        let mut k: usize = 0;
        while k < self.entries.len()
            invariant
                self.wf(),
                k <= self.len(),
                pos.len() == out.len(),
                forall|i: int| 0 <= i < out.len() ==> 0 <= #[trigger] pos[i] < k && self.name_at(pos[i]) == Some(out@[i]@),
                forall|i: int, j: int| 0 <= i < j < out.len() ==> pos[i] < pos[j],
                forall|q: int| 0 <= q < k && (#[trigger] self.name_at(q)) is Some ==> exists|i: int|
                    0 <= i < out.len() && pos[i] == q,
            decreases self.len() - k,
        {
            match &self.entries[k].name {
                Some(v) => {
                    out.push(copy_vertex(v));
                    proof {
                        let pos0 = pos;
                        pos = pos.push(k as int);
                        assert(pos[pos.len() - 1] == k);
                        assert forall|q: int| 0 <= q < k + 1 && (#[trigger] self.name_at(q)) is Some implies exists|i: int|
                            0 <= i < out.len() && pos[i] == q by {
                            if q < k {
                                let i = choose|i: int| 0 <= i < pos0.len() && pos0[i] == q;
                                assert(pos[i] == pos0[i]);
                            } else {
                                assert(pos[pos.len() - 1] == q);
                            }
                        }
                    }
                },
                None => {},
            }
            k += 1;
        }
        proof {
            assert forall|i: int| 0 <= i < out.len() implies self.knows(#[trigger] out@[i]@) by {
                assert(self.name_at(pos[i]) == Some(out@[i]@));
            }
            assert forall|v: Seq<u8>| self.knows(v) implies exists|i: int| 0 <= i < out.len() && #[trigger] out@[i]@ == v by {
                let q = self.pos_of_name(v);
                assert(0 <= q < self.len() && self.name_at(q) == Some(v));
                let i = choose|i: int| 0 <= i < out.len() && pos[i] == q;
                assert(out@[i]@ == v);
            }
            assert forall|i: int, j: int| 0 <= i < j < out.len() implies self.id_of_name(#[trigger] out@[i]@)->0
                < self.id_of_name(#[trigger] out@[j]@)->0 by {
                let a = self.pos_of_name(out@[i]@);
                let b = self.pos_of_name(out@[j]@);
                assert(self.name_at(pos[i]) == Some(out@[i]@));
                assert(self.name_at(pos[j]) == Some(out@[j]@));
                assert(0 <= a < self.len() && self.name_at(a) == Some(out@[i]@));
                assert(0 <= b < self.len() && self.name_at(b) == Some(out@[j]@));
                assert(a == pos[i]);
                assert(b == pos[j]);
            }
        }
        out
    }
}

} // verus!
