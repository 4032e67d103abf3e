//! The parent function handed to `add_heads`: a list of vertexes, each with
//! its parent vertexes in order.
use vstd::prelude::*;
use crate::namedag::{Vertex, same_bytes};

verus! {

pub open spec fn vertexes_view(vs: Seq<Vertex>) -> Seq<Seq<u8>> {
    vs.map_values(|v: Vertex| v@)
}

/// Parent lists by vertex. A vertex may be listed more than once only with
/// the same parents.
pub struct ParentMap {
    pub items: Vec<(Vertex, Vec<Vertex>)>,
}

impl ParentMap {
    pub open spec fn len(&self) -> int {
        self.items@.len() as int
    }

    pub open spec fn key(&self, i: int) -> Seq<u8> {
        self.items@[i].0@
    }

    pub open spec fn pars(&self, i: int) -> Seq<Seq<u8>> {
        vertexes_view(self.items@[i].1@)
    }

    pub open spec fn has_key(&self, v: Seq<u8>) -> bool {
        exists|i: int| 0 <= i < self.len() && #[trigger] self.key(i) == v
    }

    /// No vertex is listed twice with different parents.
    pub open spec fn consistent(&self) -> bool {
        forall|i: int, j: int|
            0 <= i < self.len() && 0 <= j < self.len() && #[trigger] self.key(i) == #[trigger] self.key(j)
                ==> self.pars(i) == self.pars(j)
    }

    /// Whether `ps` are the parents the map gives for `v`.
    pub open spec fn gives(&self, v: Seq<u8>, ps: Seq<Seq<u8>>) -> bool {
        exists|i: int| 0 <= i < self.len() && #[trigger] self.key(i) == v && self.pars(i) == ps
    }

    pub fn new() -> (r: ParentMap)
        ensures
            r.len() == 0,
    {
        ParentMap { items: Vec::new() }
    }

    /// Adds `v` with its parents.
    pub fn insert(&mut self, v: Vertex, parents: Vec<Vertex>)
        ensures
            final(self).items@ == old(self).items@.push((v, parents)),
    {
        self.items.push((v, parents));
    }

    /// The first index listing `v`.
    pub fn find(&self, v: &Vertex) -> (r: Option<usize>)
        ensures
            r is Some <==> self.has_key(v@),
            r is Some ==> r->0 < self.len() && self.key(r->0 as int) == v@,
    {
        let mut i: usize = 0;
        while i < self.items.len()
            invariant
                i <= self.len(),
                forall|j: int| 0 <= j < i ==> self.key(j) != v@,
            decreases self.len() - i,
        {
            if same_bytes(&self.items[i].0, v) {
                assert(self.key(i as int) == v@);
                return Some(i);
            }
            i += 1;
        }
        None
    }

    pub fn is_consistent(&self) -> (r: bool)
        ensures
            r == self.consistent(),
    {
        let mut i: usize = 0;
        while i < self.items.len()
            invariant
                i <= self.len(),
                forall|a: int, b: int|
                    0 <= a < i && 0 <= b < self.len() && #[trigger] self.key(a) == #[trigger] self.key(b)
                        ==> self.pars(a) == self.pars(b),
            decreases self.len() - i,
        {
            let mut j: usize = 0;
            while j < self.items.len()
                invariant
                    i < self.len(),
                    j <= self.len(),
                    forall|a: int, b: int|
                        0 <= a < i && 0 <= b < self.len() && #[trigger] self.key(a) == #[trigger] self.key(b)
                            ==> self.pars(a) == self.pars(b),
                    forall|b: int| 0 <= b < j && self.key(i as int) == #[trigger] self.key(b)
                        ==> self.pars(i as int) == self.pars(b),
                decreases self.len() - j,
            {
                if same_bytes(&self.items[i].0, &self.items[j].0) && !same_vertex_list(
                    &self.items[i].1,
                    &self.items[j].1,
                ) {
                    assert(self.key(i as int) == self.key(j as int));
                    return false;
                }
                j += 1;
            }
            i += 1;
        }
        true
    }
}

/// Element-wise equality of two vertex lists.
pub fn same_vertex_list(a: &Vec<Vertex>, b: &Vec<Vertex>) -> (r: bool)
    ensures
        r == (vertexes_view(a@) == vertexes_view(b@)),
{
    if a.len() != b.len() {
        assert(vertexes_view(a@).len() != vertexes_view(b@).len());
        return false;
    }
    let mut i: usize = 0;
    while i < a.len()
        invariant
            a.len() == b.len(),
            i <= a.len(),
            forall|j: int| 0 <= j < i ==> a@[j]@ == b@[j]@,
        decreases a.len() - i,
    {
        if !same_bytes(&a[i], &b[i]) {
            assert(vertexes_view(a@)[i as int] != vertexes_view(b@)[i as int]);
            return false;
        }
        i += 1;
    }
    assert(vertexes_view(a@) =~= vertexes_view(b@));
    true
}

/// A fresh copy of a vertex.
pub fn copy_vertex(v: &Vertex) -> (r: Vertex)
    ensures
        r@ == v@,
{
    let mut r: Vec<u8> = Vec::new();
    let mut i: usize = 0;
    while i < v.len()
        invariant
            i <= v.len(),
            r@ == v@.subrange(0, i as int),
        decreases v.len() - i,
    {
        r.push(v[i]);
        i += 1;
    }
    assert(r@ =~= v@);
    r
}

} // verus!
