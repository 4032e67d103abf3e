//! The vertex/id bijection: one sequence of entries, master ids first,
//! draft ids after them in their own id range.
use vstd::prelude::*;

verus! {

/// An opaque commit identifier.
pub type Vertex = Vec<u8>;

/// The first id of the draft (non-master) group.
pub const NON_MASTER_START: u64 = 0x0100_0000_0000_0000;

/// One assigned id: its vertex name, if known locally, and its parent ids.
pub struct Entry {
    pub name: Option<Vertex>,
    pub parents: Vec<u64>,
}

pub open spec fn name_view(n: Option<Vertex>) -> Option<Seq<u8>> {
    match n {
        Some(v) => Some(v@),
        None => None,
    }
}

/// The graph: entries by position. Positions below `master_len` carry the
/// master ids `0..master_len`; position `master_len + j` carries the draft
/// id `NON_MASTER_START + j`.
pub struct NameDag {
    pub entries: Vec<Entry>,
    pub master_len: usize,
    pub segment_size: usize,
}

pub open spec fn is_master_id(id: int) -> bool {
    0 <= id < NON_MASTER_START
}

impl NameDag {
    pub open spec fn len(&self) -> int {
        self.entries@.len() as int
    }

    /// The id held at position `k`.
    pub open spec fn id_at(&self, k: int) -> int {
        if k < self.master_len {
            k
        } else {
            NON_MASTER_START + (k - self.master_len)
        }
    }

    /// The position that holds id `id`.
    pub open spec fn pos_of(&self, id: int) -> int {
        if id < NON_MASTER_START {
            id
        } else {
            self.master_len + (id - NON_MASTER_START)
        }
    }

    pub open spec fn has_id(&self, id: int) -> bool {
        ||| 0 <= id < self.master_len
        ||| (NON_MASTER_START <= id && id - NON_MASTER_START < self.len() - self.master_len)
    }

    pub open spec fn name_at(&self, k: int) -> Option<Seq<u8>> {
        name_view(self.entries@[k].name)
    }

    pub open spec fn parents_at(&self, k: int) -> Seq<u64> {
        self.entries@[k].parents@
    }

    /// The parents of position `k` as positions.
    pub open spec fn parent_pos(&self, k: int, t: int) -> int {
        self.pos_of(self.parents_at(k)[t] as int)
    }

    /// Whether position `a` is among the parents of position `m`.
    pub open spec fn has_parent_pos(&self, m: int, a: int) -> bool {
        exists|t: int| 0 <= t < self.parents_at(m).len() && #[trigger] self.parent_pos(m, t) == a
    }

    /// Well-formedness: parents come before children, every draft id has a
    /// name, and no name is held by two ids.
    pub open spec fn wf(&self) -> bool {
        &&& self.master_len <= self.entries@.len()
        &&& self.entries@.len() < NON_MASTER_START
        &&& forall|k: int, t: int|
            0 <= k < self.len() && 0 <= t < self.parents_at(k).len() ==> {
                &&& self.has_id(#[trigger] self.parents_at(k)[t] as int)
                &&& self.pos_of(self.parents_at(k)[t] as int) < k
            }
        &&& forall|k: int| self.master_len <= k < self.len() ==> (#[trigger] self.name_at(k)) is Some
        &&& forall|a: int, b: int|
            0 <= a < self.len() && 0 <= b < self.len() && (#[trigger] self.name_at(a)) is Some
                && self.name_at(a) == #[trigger] self.name_at(b) ==> a == b
    }

    /// Whether some id carries the name `v` locally.
    pub open spec fn knows(&self, v: Seq<u8>) -> bool {
        exists|k: int| 0 <= k < self.len() && #[trigger] self.name_at(k) == Some(v)
    }

    /// The name locally known for id `id`.
    pub open spec fn name_of_id(&self, id: int) -> Option<Seq<u8>> {
        if self.has_id(id) {
            self.name_at(self.pos_of(id))
        } else {
            None
        }
    }

    /// The position carrying the name `v`, where `v` is known.
    pub open spec fn pos_of_name(&self, v: Seq<u8>) -> int {
        choose|k: int| 0 <= k < self.len() && #[trigger] self.name_at(k) == Some(v)
    }

    /// The id carrying the name `v` locally.
    pub open spec fn id_of_name(&self, v: Seq<u8>) -> Option<int> {
        if self.knows(v) {
            Some(self.id_at(self.pos_of_name(v)))
        } else {
            None
        }
    }

    /// Whether position `a` is an ancestor of position `b` (or `b` itself):
    /// a chain of parent links leads from `b` down to `a`.
    pub open spec fn reaches(&self, a: int, b: int) -> bool
        decreases b - a,
    {
        if a >= b {
            a == b
        } else {
            exists|m: int| a < m <= b && #[trigger] self.has_parent_pos(m, a) && self.reaches(m, b)
        }
    }

    /// An empty graph.
    pub fn new(segment_size: usize) -> (r: NameDag)
        ensures
            r.wf(),
            r.len() == 0,
            r.master_len == 0,
            r.segment_size == segment_size,
    {
        NameDag { entries: Vec::new(), master_len: 0, segment_size }
    }

    pub fn id_of_pos(&self, k: usize) -> (r: u64)
        requires
            self.wf(),
            k < self.len(),
        ensures
            r == self.id_at(k as int),
    {
        if k < self.master_len {
            k as u64
        } else {
            NON_MASTER_START + (k - self.master_len) as u64
        }
    }

    pub fn pos_of_id(&self, id: u64) -> (r: Option<usize>)
        requires
            self.wf(),
        ensures
            r is Some <==> self.has_id(id as int),
            r is Some ==> r->0 == self.pos_of(id as int) && r->0 < self.len(),
    {
        if id < NON_MASTER_START {
            if (id as usize) < self.master_len && id < self.master_len as u64 {
                Some(id as usize)
            } else {
                None
            }
        } else {
            let d = id - NON_MASTER_START;
            if d < (self.entries.len() - self.master_len) as u64 {
                Some(self.master_len + d as usize)
            } else {
                None
            }
        }
    }

    /// The position carrying the name `v`, if it is known locally.
    pub fn find_name(&self, v: &Vertex) -> (r: Option<usize>)
        requires
            self.wf(),
        ensures
            r is Some <==> self.knows(v@),
            r is Some ==> r->0 < self.len() && self.name_at(r->0 as int) == Some(v@) && r->0 == self.pos_of_name(v@),
    {
        let mut k: usize = 0;
        while k < self.entries.len()
            invariant
                self.wf(),
                k <= self.len(),
                forall|j: int| 0 <= j < k ==> self.name_at(j) != Some(v@),
            decreases self.len() - k,
        {
            match &self.entries[k].name {
                Some(n) => {
                    if same_bytes(n, v) {
                        proof {
                            assert(self.name_at(k as int) == Some(v@));
                            assert(self.knows(v@));
                            let c = self.pos_of_name(v@);
                            assert(0 <= c < self.len() && self.name_at(c) == Some(v@));
                            assert(self.name_at(c) == self.name_at(k as int));
                        }
                        return Some(k);
                    }
                },
                None => {},
            }
            k += 1;
        }
        None
    }

    /// The id of vertex `v`, if it is known locally.
    pub fn vertex_id_local(&self, v: &Vertex) -> (r: Option<u64>)
        requires
            self.wf(),
        ensures
            r is Some <==> self.knows(v@),
            r is Some ==> self.has_id(r->0 as int) && self.name_of_id(r->0 as int) == Some(v@)
                && self.id_of_name(v@) == Some(r->0 as int),
    {
        match self.find_name(v) {
            Some(k) => Some(self.id_of_pos(k)),
            None => None,
        }
    }

    /// The name of id `id`, if it is known locally.
    pub fn vertex_name_local(&self, id: u64) -> (r: Option<Vertex>)
        requires
            self.wf(),
        ensures
            name_view(r) == self.name_of_id(id as int),
    {
        match self.pos_of_id(id) {
            Some(k) => self.entries[k].name.clone(),
            None => None,
        }
    }
}

/// Bijection integrity: a known vertex has exactly one id, and that id's
/// name is the vertex.
pub proof fn lemma_bijection(d: &NameDag, v: Seq<u8>)
    requires
        d.wf(),
        d.knows(v),
    ensures
        d.id_of_name(v) is Some,
        d.has_id(d.id_of_name(v)->0),
        d.name_of_id(d.id_of_name(v)->0) == Some(v),
        forall|id: int| d.has_id(id) && #[trigger] d.name_of_id(id) == Some(v) ==> id == d.id_of_name(v)->0,
{
    let k = d.pos_of_name(v);
    assert(0 <= k < d.len() && d.name_at(k) == Some(v));
    assert(d.pos_of(d.id_at(k)) == k);
    assert forall|id: int| d.has_id(id) && #[trigger] d.name_of_id(id) == Some(v) implies id == d.id_of_name(v)->0 by {
        assert(d.name_at(d.pos_of(id)) == d.name_at(k));
    }
}

/// Topological order: every parent id is smaller than its child's id.
pub proof fn lemma_parent_id_less(d: &NameDag, k: int, t: int)
    requires
        d.wf(),
        0 <= k < d.len(),
        0 <= t < d.parents_at(k).len(),
    ensures
        d.parents_at(k)[t] < d.id_at(k),
{
    assert(d.has_id(d.parents_at(k)[t] as int));
}

/// Well-formedness depends on the entries and the master boundary alone.
pub proof fn lemma_same_entries_wf(a: &NameDag, b: &NameDag)
    requires
        a.wf(),
        a.entries@ == b.entries@,
        a.master_len == b.master_len,
    ensures
        b.wf(),
        forall|v: Seq<u8>| #[trigger] b.knows(v) == a.knows(v),
{
    assert forall|k: int| 0 <= k < b.len() implies #[trigger] b.name_at(k) == a.name_at(k) && b.parents_at(k)
        == a.parents_at(k) by {}
    assert forall|k: int, t: int| 0 <= k < b.len() && 0 <= t < b.parents_at(k).len() implies {
        &&& b.has_id(#[trigger] b.parents_at(k)[t] as int)
        &&& b.pos_of(b.parents_at(k)[t] as int) < k
    } by {
        assert(a.has_id(a.parents_at(k)[t] as int));
    }
    assert forall|x: int, y: int|
        0 <= x < b.len() && 0 <= y < b.len() && (#[trigger] b.name_at(x)) is Some
            && b.name_at(x) == #[trigger] b.name_at(y) implies x == y by {
        assert(a.name_at(x) == a.name_at(y));
    }
    assert forall|k: int| b.master_len <= k < b.len() implies (#[trigger] b.name_at(k)) is Some by {
        assert(a.name_at(k) is Some);
    }
    assert forall|v: Seq<u8>| #[trigger] b.knows(v) == a.knows(v) by {
        if b.knows(v) {
            let k = choose|k: int| 0 <= k < b.len() && #[trigger] b.name_at(k) == Some(v);
            assert(a.name_at(k) == Some(v));
        }
        if a.knows(v) {
            let k = choose|k: int| 0 <= k < a.len() && #[trigger] a.name_at(k) == Some(v);
            assert(b.name_at(k) == Some(v));
        }
    }
}

/// Appending an entry keeps every id and name, and every known name.
pub proof fn lemma_push_keeps(d0: &NameDag, d1: &NameDag, e: Entry)
    requires
        d0.wf(),
        d1.entries@ == d0.entries@.push(e),
        d1.master_len == d0.master_len,
    ensures
        forall|id: int| #[trigger] d0.has_id(id) ==> d1.has_id(id) && d1.pos_of(id) == d0.pos_of(id)
            && d1.name_of_id(id) == d0.name_of_id(id) && d1.id_at(d0.pos_of(id)) == id,
        forall|k: int| 0 <= k < d0.len() ==> #[trigger] d1.name_at(k) == d0.name_at(k) && d1.parents_at(k)
            == d0.parents_at(k) && d1.id_at(k) == d0.id_at(k),
        forall|v: Seq<u8>| #[trigger] d0.knows(v) ==> d1.knows(v),
        forall|v: Seq<u8>| #[trigger] d1.knows(v) ==> d0.knows(v) || name_view(e.name) == Some(v),
        d1.name_at(d0.len()) == name_view(e.name),
        d1.parents_at(d0.len()) == e.parents@,
{
    assert forall|k: int| 0 <= k < d0.len() implies #[trigger] d1.name_at(k) == d0.name_at(k) && d1.parents_at(k)
        == d0.parents_at(k) && d1.id_at(k) == d0.id_at(k) by {
        assert(d1.entries@[k] == d0.entries@[k]);
    }
    assert forall|id: int| #[trigger] d0.has_id(id) implies d1.has_id(id) && d1.pos_of(id) == d0.pos_of(id)
        && d1.name_of_id(id) == d0.name_of_id(id) && d1.id_at(d0.pos_of(id)) == id by {
        assert(d1.entries@[d0.pos_of(id)] == d0.entries@[d0.pos_of(id)]);
    }
    assert forall|v: Seq<u8>| #[trigger] d0.knows(v) implies d1.knows(v) by {
        let k = choose|k: int| 0 <= k < d0.len() && #[trigger] d0.name_at(k) == Some(v);
        assert(d1.name_at(k) == d0.name_at(k));
    }
    assert forall|v: Seq<u8>| #[trigger] d1.knows(v) implies d0.knows(v) || name_view(e.name) == Some(v) by {
        let k = choose|k: int| 0 <= k < d1.len() && #[trigger] d1.name_at(k) == Some(v);
        if k < d0.len() {
            assert(d1.name_at(k) == d0.name_at(k));
        } else {
            assert(d1.entries@[k] == e);
        }
    }
    assert(d1.entries@[d0.len()] == e);
}

/// Appending an entry with a fresh name and known parents keeps the graph
/// well-formed.
pub proof fn lemma_push_wf(d0: &NameDag, d1: &NameDag, e: Entry)
    requires
        d0.wf(),
        d1.entries@ == d0.entries@.push(e),
        d1.master_len == d0.master_len,
        d0.len() + 1 < NON_MASTER_START,
        e.name is Some,
        !d0.knows(name_view(e.name)->0),
        forall|t: int| 0 <= t < e.parents@.len() ==> d0.has_id(#[trigger] e.parents@[t] as int),
    ensures
        d1.wf(),
{
    lemma_push_keeps(d0, d1, e);
    let n = d0.len();
    assert(d1.name_at(n) == name_view(e.name));
    assert forall|k: int, t: int| 0 <= k < d1.len() && 0 <= t < d1.parents_at(k).len() implies {
        &&& d1.has_id(#[trigger] d1.parents_at(k)[t] as int)
        &&& d1.pos_of(d1.parents_at(k)[t] as int) < k
    } by {
        if k < n {
            assert(d0.has_id(d0.parents_at(k)[t] as int));
        } else {
            assert(d1.parents_at(k) == e.parents@);
            assert(d0.has_id(e.parents@[t] as int));
        }
    }
    assert forall|a: int, b: int|
        0 <= a < d1.len() && 0 <= b < d1.len() && (#[trigger] d1.name_at(a)) is Some
            && d1.name_at(a) == #[trigger] d1.name_at(b) implies a == b by {
        if a < n && b < n {
            assert(d0.name_at(a) == d0.name_at(b));
        } else if a < n {
            assert(d0.name_at(a) == name_view(e.name));
        } else if b < n {
            assert(d0.name_at(b) == name_view(e.name));
        }
    }
    assert forall|k: int| d1.master_len <= k < d1.len() implies (#[trigger] d1.name_at(k)) is Some by {
        if k < n {
            assert(d0.name_at(k) is Some);
        }
    }
}

/// Byte-wise equality of two vertexes.
pub fn same_bytes(a: &Vertex, b: &Vertex) -> (r: bool)
    ensures
        r == (a@ == b@),
{
    if a.len() != b.len() {
        return false;
    }
    let mut i: usize = 0;
    while i < a.len()
        invariant
            a.len() == b.len(),
            i <= a.len(),
            forall|j: int| 0 <= j < i ==> a@[j] == b@[j],
        decreases a.len() - i,
    {
        if a[i] != b[i] {
            return false;
        }
        i += 1;
    }
    assert(a@ =~= b@);
    true
}

} // verus!
