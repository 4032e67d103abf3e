//! Clone data: the master group of one graph as flat segments plus the
//! names a copy needs, and its import into an empty graph.
use vstd::prelude::*;
use crate::namedag::{Entry, NameDag, Vertex, NON_MASTER_START};
use crate::error::DagError;
use crate::parent_map::copy_vertex;
use crate::segment::{Segment, covers, seg_index, lemma_covers_unique, lemma_covers_mono};

verus! {

/// A snapshot of a master group: its flat segments and the names of some
/// of its ids.
pub struct CloneData {
    pub flat_segments: Vec<Segment>,
    pub idmap: Vec<(u64, Vertex)>,
}

/// One past the last id that `segs` cover, where they start at `lo`.
pub open spec fn segs_end(segs: Seq<Segment>, lo: int) -> int {
    if segs.len() == 0 {
        lo
    } else {
        segs[segs.len() - 1].high + 1
    }
}

/// The parents that segments give id `k`: those of its segment at the low
/// end, the previous id inside.
pub open spec fn seg_parents(segs: Seq<Segment>, k: int) -> Seq<u64> {
    let i = seg_index(segs, k);
    if segs[i].low == k {
        segs[i].parents@
    } else {
        seq![(k - 1) as u64]
    }
}

/// Whether `segs` cover `lo..hi` with every segment's parents below it.
pub open spec fn segments_valid(segs: Seq<Segment>, lo: int, hi: int) -> bool {
    &&& covers(segs, lo, hi)
    &&& hi < NON_MASTER_START
    &&& forall|i: int, t: int| 0 <= i < segs.len() && 0 <= t < segs[i].parents@.len() ==> #[trigger] segs[i].parents@[t]
        < segs[i].low
}

/// Whether `idmap` names ids in `lo..hi`, no id and no name twice.
pub open spec fn idmap_valid(idmap: Seq<(u64, Vertex)>, lo: int, hi: int) -> bool {
    &&& forall|i: int| 0 <= i < idmap.len() ==> lo <= (#[trigger] idmap[i]).0 < hi
    &&& forall|i: int, j: int| 0 <= i < idmap.len() && 0 <= j < idmap.len() && i != j ==> (#[trigger] idmap[i]).0
        != (#[trigger] idmap[j]).0 && idmap[i].1@ != idmap[j].1@
}

/// The name that `idmap` gives id `k`.
pub open spec fn idmap_name(idmap: Seq<(u64, Vertex)>, k: int) -> Option<Seq<u8>> {
    if exists|i: int| 0 <= i < idmap.len() && (#[trigger] idmap[i]).0 == k {
        Some(idmap[choose|i: int| 0 <= i < idmap.len() && (#[trigger] idmap[i]).0 == k].1@)
    } else {
        None
    }
}

/// Whether clone data can be imported into an empty graph.
pub open spec fn clone_data_valid(data: &CloneData) -> bool {
    &&& segments_valid(data.flat_segments@, 0, segs_end(data.flat_segments@, 0))
    &&& idmap_valid(data.idmap@, 0, segs_end(data.flat_segments@, 0))
}

/// Whether `d`'s master ids from `lo` to `hi` are the ids that `segs` and
/// `idmap` describe.
pub open spec fn holds_segments(d: &NameDag, segs: Seq<Segment>, idmap: Seq<(u64, Vertex)>, lo: int, hi: int) -> bool {
    forall|k: int| lo <= k < hi ==> #[trigger] d.parents_at(k) == seg_parents(segs, k) && d.name_at(k) == idmap_name(
        idmap,
        k,
    )
}

/// Whether `data` is a faithful export of `d`'s master group.
pub open spec fn exported(d: &NameDag, data: &CloneData) -> bool {
    &&& covers(data.flat_segments@, 0, d.master_len as int)
    &&& forall|i: int| 0 <= i < data.flat_segments.len() ==> d.is_flat_segment(#[trigger] data.flat_segments@[i])
    &&& forall|i: int| 0 <= i < data.idmap.len() ==> (#[trigger] data.idmap@[i]).0 < d.master_len && d.name_of_id(
        data.idmap@[i].0 as int,
    ) == Some(data.idmap@[i].1@)
    &&& forall|i: int, j: int| 0 <= i < j < data.idmap.len() ==> (#[trigger] data.idmap@[i]).0 < (#[trigger] data.idmap@[j]).0
    &&& forall|i: int| 0 <= i < data.flat_segments.len() && d.name_of_id((#[trigger] data.flat_segments@[i]).high as int) is Some
        ==> exists|j: int| 0 <= j < data.idmap.len() && (#[trigger] data.idmap@[j]).0 == data.flat_segments@[i].high
}

impl NameDag {
    /// The master group as clone data: its flat segments, and the name of
    /// the last id of each segment where that name is known.
    pub fn export_clone_data(&self) -> (r: CloneData)
        requires
            self.wf(),
        ensures
            exported(self, &r),
    {
        let segs = self.flat_segments(true);
        let mut idmap: Vec<(u64, Vertex)> = Vec::new();
        let mut i: usize = 0;
        while i < segs.len()
            invariant
                self.wf(),
                covers(segs@, 0, self.master_len as int),
                forall|j: int| 0 <= j < segs.len() ==> self.is_flat_segment(#[trigger] segs@[j]),
                i <= segs.len(),
                forall|j: int| 0 <= j < idmap.len() ==> (#[trigger] idmap@[j]).0 < self.master_len && self.name_of_id(
                    idmap@[j].0 as int,
                ) == Some(idmap@[j].1@),
                forall|a: int, b: int| 0 <= a < b < idmap.len() ==> (#[trigger] idmap@[a]).0 < (#[trigger] idmap@[b]).0,
                forall|j: int| 0 <= j < idmap.len() ==> (#[trigger] idmap@[j]).0 < (if i == 0 { 0 } else { segs@[i - 1].high + 1 }),
                forall|a: int| 0 <= a < i && self.name_of_id((#[trigger] segs@[a]).high as int) is Some ==> exists|j: int|
                    0 <= j < idmap.len() && (#[trigger] idmap@[j]).0 == segs@[a].high,
            decreases segs.len() - i,
        {
            let high = segs[i].high;
            proof {
                lemma_covers_mono(segs@, 0, self.master_len as int, i as int, i as int);
                if i > 0 {
                    assert(segs@[i - 1].high + 1 == segs@[i as int].low);
                }
            }
            let ghost idmap0 = idmap@;
            match self.vertex_name_local(high) {
                Some(v) => {
                    idmap.push((high, v));
                    proof {
                        assert(idmap@[idmap.len() - 1].0 == high);
                        assert forall|a: int| 0 <= a < i + 1 && self.name_of_id((#[trigger] segs@[a]).high as int) is Some implies exists|j: int|
                            0 <= j < idmap.len() && (#[trigger] idmap@[j]).0 == segs@[a].high by {
                            if a < i {
                                let j = choose|j: int| 0 <= j < idmap0.len() && (#[trigger] idmap0[j]).0 == segs@[a].high;
                                assert(idmap@[j] == idmap0[j]);
                            }
                        }
                    }
                },
                None => {},
            }
            i += 1;
        }
        CloneData { flat_segments: segs, idmap }
    }
}

/// Whether `new` is `old` with the master ids `old.master_len..n` that
/// `segs` and `idmap` describe added; the draft ids keep their entries.
pub open spec fn extended(old: &NameDag, new: &NameDag, segs: Seq<Segment>, idmap: Seq<(u64, Vertex)>, n: int) -> bool {
    &&& new.master_len == n
    &&& new.len() == old.len() + (n - old.master_len)
    &&& new.segment_size == old.segment_size
    &&& forall|k: int| 0 <= k < old.master_len ==> #[trigger] new.name_at(k) == old.name_at(k) && new.parents_at(k)
        == old.parents_at(k)
    &&& holds_segments(new, segs, idmap, old.master_len as int, n)
    &&& forall|j: int| 0 <= j < old.len() - old.master_len ==> #[trigger] new.name_at(n + j) == old.name_at(
        old.master_len + j,
    ) && new.parents_at(n + j) == old.parents_at(old.master_len + j)
}

/// Whether no name of `idmap` is known to `d`.
pub open spec fn idmap_fresh(d: &NameDag, idmap: Seq<(u64, Vertex)>) -> bool {
    forall|i: int| 0 <= i < idmap.len() ==> !d.knows((#[trigger] idmap[i]).1@)
}

/// The end of `segs` if they validly cover ids from `lo`.
pub fn check_segments(segs: &Vec<Segment>, lo: u64) -> (r: Option<u64>)
    ensures
        r is Some <==> segments_valid(segs@, lo as int, segs_end(segs@, lo as int)),
        r is Some ==> r->0 == segs_end(segs@, lo as int),
{
    if lo >= NON_MASTER_START {
        proof {
            let end = segs_end(segs@, lo as int);
            if segments_valid(segs@, lo as int, end) && segs.len() > 0 {
                lemma_covers_mono(segs@, lo as int, end, 0, segs.len() - 1);
            }
        }
        return None;
    }
    let mut next: u64 = lo;
    let mut i: usize = 0;
    while i < segs.len()
        invariant
            i <= segs.len(),
            lo <= next < NON_MASTER_START,
            covers(segs@.subrange(0, i as int), lo as int, next as int),
            forall|a: int, t: int| 0 <= a < i && 0 <= t < segs@[a].parents@.len() ==> #[trigger] segs@[a].parents@[t]
                < segs@[a].low,
            i > 0 ==> next == segs@[i - 1].high + 1,
            i == 0 ==> next == lo,
        decreases segs.len() - i,
    {
        let s = &segs[i];
        if s.low != next || s.high < s.low || s.high >= NON_MASTER_START - 1 {
            proof {
                let end = segs_end(segs@, lo as int);
                if segments_valid(segs@, lo as int, end) {
                    lemma_covers_mono(segs@, lo as int, end, i as int, i as int);
                    if i > 0 {
                        assert(segs@[i - 1].high + 1 == segs@[i as int].low);
                    }
                }
            }
            return None;
        }
        let mut t: usize = 0;
        while t < s.parents.len()
            invariant
                i < segs.len(),
                s == &segs@[i as int],
                t <= s.parents.len(),
                forall|u: int| 0 <= u < t ==> s.parents@[u] < s.low,
            decreases s.parents.len() - t,
        {
            if s.parents[t] >= s.low {
                proof {
                    assert(segs@[i as int].parents@[t as int] >= segs@[i as int].low);
                }
                return None;
            }
            t += 1;
        }
        next = s.high + 1;
        i += 1;
    }
    proof {
        assert(segs@.subrange(0, segs.len() as int) =~= segs@);
    }
    Some(next)
}

/// The name that `idmap` gives `id`, where ids are not repeated.
fn idmap_lookup(idmap: &Vec<(u64, Vertex)>, id: u64) -> (r: Option<Vertex>)
    requires
        forall|i: int, j: int| 0 <= i < idmap.len() && 0 <= j < idmap.len() && i != j ==> (#[trigger] idmap@[i]).0
            != (#[trigger] idmap@[j]).0,
    ensures
        crate::namedag::name_view(r) == idmap_name(idmap@, id as int),
{
    let mut i: usize = 0;
    while i < idmap.len()
        invariant
            i <= idmap.len(),
            forall|j: int| 0 <= j < i ==> (#[trigger] idmap@[j]).0 != id,
            forall|a: int, b: int| 0 <= a < idmap.len() && 0 <= b < idmap.len() && a != b ==> (#[trigger] idmap@[a]).0
                != (#[trigger] idmap@[b]).0,
        decreases idmap.len() - i,
    {
        if idmap[i].0 == id {
            proof {
                assert(idmap@[i as int].0 == id);
                let c = choose|c: int| 0 <= c < idmap.len() && (#[trigger] idmap@[c]).0 == id;
                if c != i {
                    assert(idmap@[c].0 != idmap@[i as int].0);
                }
            }
            return Some(copy_vertex(&idmap[i].1));
        }
        i += 1;
    }
    None
}

impl NameDag {
    /// Whether `idmap` names ids in `lo..hi`, no id and no name twice, and
    /// no name this graph knows.
    fn check_idmap(&self, idmap: &Vec<(u64, Vertex)>, lo: u64, hi: u64) -> (r: bool)
        requires
            self.wf(),
        ensures
            r == (idmap_valid(idmap@, lo as int, hi as int) && idmap_fresh(self, idmap@)),
    {
        let mut i: usize = 0;
        while i < idmap.len()
            invariant
                self.wf(),
                i <= idmap.len(),
                forall|a: int| 0 <= a < i ==> lo <= (#[trigger] idmap@[a]).0 < hi && !self.knows(idmap@[a].1@),
                forall|a: int, b: int| 0 <= a < i && 0 <= b < idmap.len() && a != b ==> (#[trigger] idmap@[a]).0
                    != (#[trigger] idmap@[b]).0 && idmap@[a].1@ != idmap@[b].1@,
            decreases idmap.len() - i,
        {
            if idmap[i].0 < lo || idmap[i].0 >= hi || self.find_name(&idmap[i].1).is_some() {
                return false;
            }
            let mut j: usize = 0;
            while j < idmap.len()
                invariant
                    i < idmap.len(),
                    j <= idmap.len(),
                    forall|a: int, b: int| 0 <= a < i && 0 <= b < idmap.len() && a != b ==> (#[trigger] idmap@[a]).0
                        != (#[trigger] idmap@[b]).0 && idmap@[a].1@ != idmap@[b].1@,
                    forall|b: int| 0 <= b < j && b != i ==> idmap@[i as int].0 != (#[trigger] idmap@[b]).0
                        && idmap@[i as int].1@ != idmap@[b].1@,
                decreases idmap.len() - j,
            {
                if j != i && (idmap[i].0 == idmap[j].0 || crate::namedag::same_bytes(&idmap[i].1, &idmap[j].1)) {
                    return false;
                }
                j += 1;
            }
            proof {
                assert forall|a: int, b: int| 0 <= a < i + 1 && 0 <= b < idmap.len() && a != b implies (#[trigger] idmap@[a]).0
                    != (#[trigger] idmap@[b]).0 && idmap@[a].1@ != idmap@[b].1@ by {
                    if a == i {
                        assert(idmap@[i as int].0 != idmap@[b].0);
                    }
                }
            }
            i += 1;
        }
        true
    }

    /// An exact copy of the entry at position `k`.
    fn copy_entry(&self, k: usize) -> (r: Entry)
        requires
            k < self.len(),
        ensures
            crate::namedag::name_view(r.name) == self.name_at(k as int),
            r.parents@ == self.parents_at(k as int),
    {
        let e = &self.entries[k];
        let name = match &e.name {
            Some(v) => Some(copy_vertex(v)),
            None => None,
        };
        Entry { name, parents: crate::segment::copy_ids(&e.parents) }
    }
}

/// Whether the entries `es` from position `lo` to `hi` are the ids that
/// `segs` and `idmap` describe.
pub open spec fn entries_hold_segments(es: Seq<Entry>, segs: Seq<Segment>, idmap: Seq<(u64, Vertex)>, lo: int, hi: int) -> bool {
    forall|k: int| lo <= k < hi ==> #[trigger] es[k].parents@ == seg_parents(segs, k) && crate::namedag::name_view(es[k].name)
        == idmap_name(idmap, k)
}

proof fn lemma_extend_wf(d: &NameDag, r: &NameDag, segs: Seq<Segment>, idmap: Seq<(u64, Vertex)>, n: int)
    requires
        d.wf(),
        segments_valid(segs, d.master_len as int, n),
        idmap_valid(idmap, d.master_len as int, n),
        idmap_fresh(d, idmap),
        d.master_len <= n,
        r.len() == d.len() + (n - d.master_len),
        r.len() < NON_MASTER_START,
        r.master_len == n,
        r.segment_size == d.segment_size,
        forall|j: int| 0 <= j < d.master_len ==> #[trigger] crate::namedag::name_view(r.entries@[j].name) == d.name_at(j)
            && r.entries@[j].parents@ == d.parents_at(j),
        entries_hold_segments(r.entries@, segs, idmap, d.master_len as int, n),
        forall|j: int| 0 <= j < d.len() - d.master_len ==> #[trigger] crate::namedag::name_view(r.entries@[n + j].name) == d.name_at(d.master_len + j)
            && r.entries@[n + j].parents@ == d.parents_at(d.master_len + j),
    ensures
        r.wf(),
        extended(d, r, segs, idmap, n),
{
    let m = d.master_len as int;
    assert forall|k: int| 0 <= k < m implies #[trigger] r.name_at(k) == d.name_at(k) && r.parents_at(k) == d.parents_at(k) by {}
    assert forall|j: int| 0 <= j < d.len() - m implies #[trigger] r.name_at(n + j) == d.name_at(m + j)
        && r.parents_at(n + j) == d.parents_at(m + j) by {}
    assert forall|k: int| m <= k < n implies #[trigger] r.parents_at(k) == seg_parents(segs, k) && r.name_at(k) == idmap_name(idmap, k) by {}
    assert forall|k: int, t: int| 0 <= k < r.len() && 0 <= t < r.parents_at(k).len() implies {
        &&& r.has_id(#[trigger] r.parents_at(k)[t] as int)
        &&& r.pos_of(r.parents_at(k)[t] as int) < k
    } by {
        if k < m {
            assert(d.has_id(d.parents_at(k)[t] as int));
        } else if k < n {
            let i = seg_index(segs, k);
            crate::segment::lemma_covers_find(segs, m, n, k);
            if segs[i].low == k {
                assert(segs[i].parents@[t] < segs[i].low);
            }
        } else {
            let j = k - n;
            assert(k == n + j);
            assert(r.name_at(n + j) == d.name_at(m + j) && r.parents_at(n + j) == d.parents_at(m + j));
            assert(d.has_id(d.parents_at(m + j)[t] as int));
            assert(d.pos_of(d.parents_at(m + j)[t] as int) < m + j);
        }
    }
    assert forall|k: int| r.master_len <= k < r.len() implies (#[trigger] r.name_at(k)) is Some by {
        assert(r.name_at(n + (k - n)) == d.name_at(m + (k - n)));
        assert(d.name_at(m + (k - n)) is Some);
    }
    assert forall|a: int, b: int|
        0 <= a < r.len() && 0 <= b < r.len() && (#[trigger] r.name_at(a)) is Some
            && r.name_at(a) == #[trigger] r.name_at(b) implies a == b by {
        let sa = if a < m { a } else { m + (a - n) };
        let sb = if b < m { b } else { m + (b - n) };
        if a >= n {
            let ja = a - n;
            assert(r.name_at(n + ja) == d.name_at(m + ja));
        } else if a >= m {
            assert(r.parents_at(a) == seg_parents(segs, a));
        }
        if b >= n {
            let jb = b - n;
            assert(r.name_at(n + jb) == d.name_at(m + jb));
        } else if b >= m {
            assert(r.parents_at(b) == seg_parents(segs, b));
        }
        if (a < m || a >= n) && (b < m || b >= n) {
            assert(r.name_at(a) == d.name_at(sa));
            assert(r.name_at(b) == d.name_at(sb));
        } else if a < m || a >= n {
            let ib = choose|i: int| 0 <= i < idmap.len() && (#[trigger] idmap[i]).0 == b;
            assert(r.name_at(a) == d.name_at(sa));
            assert(!d.knows(idmap[ib].1@));
        } else if b < m || b >= n {
            let ia = choose|i: int| 0 <= i < idmap.len() && (#[trigger] idmap[i]).0 == a;
            assert(r.name_at(b) == d.name_at(sb));
            assert(!d.knows(idmap[ia].1@));
        } else {
            let ia = choose|i: int| 0 <= i < idmap.len() && (#[trigger] idmap[i]).0 == a;
            let ib = choose|i: int| 0 <= i < idmap.len() && (#[trigger] idmap[i]).0 == b;
            if ia != ib {
                assert(idmap[ia].1@ != idmap[ib].1@);
            }
        }
    }
}

impl NameDag {
    /// This graph with the master ids that `segs` and `idmap` describe
    /// appended to the master group, draft ids keeping their entries. Fails
    /// with `ImportError` unless the segments start at the current master
    /// end, cover a contiguous range with parents below each segment, and
    /// `idmap` names ids of that range with names not known here.
    pub fn extend_master(&self, segs: &Vec<Segment>, idmap: &Vec<(u64, Vertex)>) -> (r: Result<NameDag, DagError>)
        requires
            self.wf(),
        ensures
            r is Ok <==> ({
                let m = self.master_len as int;
                let n = segs_end(segs@, m);
                &&& segments_valid(segs@, m, n)
                &&& idmap_valid(idmap@, m, n)
                &&& idmap_fresh(self, idmap@)
                &&& self.len() + (n - m) < NON_MASTER_START
            }),
            r is Err ==> r == Err::<NameDag, DagError>(DagError::ImportError),
            r is Ok ==> r->Ok_0.wf() && extended(self, &r->Ok_0, segs@, idmap@, segs_end(segs@, self.master_len as int)),
    {
        let m = self.master_len;
        let len = self.entries.len();
        let n = match check_segments(segs, m as u64) {
            Some(n) => n,
            None => {
                return Err(DagError::ImportError);
            },
        };
        proof {
            if segs.len() > 0 {
                lemma_covers_mono(segs@, m as int, n as int, 0, segs.len() - 1);
            }
        }
        if !self.check_idmap(idmap, m as u64, n) {
            return Err(DagError::ImportError);
        }
        if n - m as u64 >= NON_MASTER_START - len as u64 {
            return Err(DagError::ImportError);
        }
        let ghost gn = n as int;
        let mut es: Vec<Entry> = Vec::new();
        let mut k: usize = 0;
        while k < m
            invariant
                self.wf(),
                m == self.master_len,
                k <= m,
                es.len() == k,
                forall|j: int| 0 <= j < k ==> #[trigger] crate::namedag::name_view(es@[j].name) == self.name_at(j)
                    && es@[j].parents@ == self.parents_at(j),
            decreases m - k,
        {
            es.push(self.copy_entry(k));
            k += 1;
        }
        let mut i: usize = 0;
        while i < segs.len()
            invariant
                self.wf(),
                m == self.master_len,
                segments_valid(segs@, m as int, gn),
                gn == segs_end(segs@, m as int),
                idmap_valid(idmap@, m as int, gn),
                i <= segs.len(),
                m <= gn,
                m <= es.len(),
                es.len() == (if i < segs.len() { segs@[i as int].low as int } else { gn }),
                forall|j: int| 0 <= j < m ==> #[trigger] crate::namedag::name_view(es@[j].name) == self.name_at(j)
                    && es@[j].parents@ == self.parents_at(j),
                entries_hold_segments(es@, segs@, idmap@, m as int, es.len() as int),
            decreases segs.len() - i,
        {
            let seg = &segs[i];
            proof {
                lemma_covers_mono(segs@, m as int, gn, i as int, i as int);
            }
            let mut id: u64 = seg.low;
            while id <= seg.high
                invariant
                    self.wf(),
                    m == self.master_len,
                    segments_valid(segs@, m as int, gn),
                    gn == segs_end(segs@, m as int),
                    idmap_valid(idmap@, m as int, gn),
                    i < segs.len(),
                    seg == &segs@[i as int],
                    m <= seg.low <= id <= seg.high + 1,
                    seg.high < gn,
                    es.len() == id,
                    forall|j: int| 0 <= j < m ==> #[trigger] crate::namedag::name_view(es@[j].name) == self.name_at(j)
                        && es@[j].parents@ == self.parents_at(j),
                    entries_hold_segments(es@, segs@, idmap@, m as int, es.len() as int),
                decreases seg.high + 1 - id,
            {
                let parents = if id == seg.low {
                    crate::segment::copy_ids(&seg.parents)
                } else {
                    vec![id - 1]
                };
                let name = idmap_lookup(idmap, id);
                let ghost es0 = es@;
                es.push(Entry { name, parents });
                proof {
                    lemma_covers_unique(segs@, m as int, gn, i as int, id as int);
                    assert forall|j: int| 0 <= j < m implies #[trigger] crate::namedag::name_view(es@[j].name) == self.name_at(j)
                        && es@[j].parents@ == self.parents_at(j) by {
                        assert(es@[j] == es0[j]);
                    }
                    assert forall|k2: int| m <= k2 < es.len() implies #[trigger] es@[k2].parents@ == seg_parents(segs@, k2)
                        && crate::namedag::name_view(es@[k2].name) == idmap_name(idmap@, k2) by {
                        if k2 < es0.len() {
                            assert(es@[k2] == es0[k2]);
                        } else {
                            assert(seg_parents(segs@, k2) =~= es@[k2].parents@);
                        }
                    }
                }
                id += 1;
            }
            proof {
                if i + 1 < segs.len() {
                    assert(segs@[i as int].high + 1 == segs@[i + 1].low);
                }
            }
            i += 1;
        }
        let n_us = es.len();
        k = m;
        while k < len
            invariant
                self.wf(),
                m == self.master_len,
                len == self.len(),
                m <= k <= len,
                m <= gn,
                n_us == gn,
                es.len() == n_us + (k - m),
                forall|j: int| 0 <= j < m ==> #[trigger] crate::namedag::name_view(es@[j].name) == self.name_at(j)
                    && es@[j].parents@ == self.parents_at(j),
                entries_hold_segments(es@, segs@, idmap@, m as int, gn),
                forall|j: int| 0 <= j < k - m ==> #[trigger] crate::namedag::name_view(es@[n_us + j].name) == self.name_at(m + j)
                    && es@[n_us + j].parents@ == self.parents_at(m + j),
            decreases len - k,
        {
            let ghost es0 = es@;
            es.push(self.copy_entry(k));
            proof {
                assert forall|j: int| 0 <= j < m implies #[trigger] crate::namedag::name_view(es@[j].name) == self.name_at(j)
                    && es@[j].parents@ == self.parents_at(j) by {
                    assert(es@[j] == es0[j]);
                }
                assert forall|k2: int| m <= k2 < gn implies #[trigger] es@[k2].parents@ == seg_parents(segs@, k2)
                    && crate::namedag::name_view(es@[k2].name) == idmap_name(idmap@, k2) by {
                    assert(es@[k2] == es0[k2]);
                }
                assert forall|j: int| 0 <= j < k + 1 - m implies #[trigger] crate::namedag::name_view(es@[n_us + j].name) == self.name_at(m + j)
                    && es@[n_us + j].parents@ == self.parents_at(m + j) by {
                    if j < k - m {
                        assert(es@[n_us + j] == es0[n_us + j]);
                    }
                }
            }
            k += 1;
        }
        let r = NameDag { entries: es, master_len: n_us, segment_size: self.segment_size };
        proof {
            lemma_extend_wf(self, &r, segs@, idmap@, gn);
        }
        Ok(r)
    }
}

impl NameDag {
    /// Imports clone data into this graph, which must be empty. Fails with
    /// `ImportError`, changing nothing, on a graph that is not empty or on
    /// data that is not valid.
    pub fn import_clone_data(&mut self, data: &CloneData) -> (r: Result<(), DagError>)
        requires
            old(self).wf(),
        ensures
            final(self).wf(),
            r is Ok <==> old(self).len() == 0 && clone_data_valid(data),
            r is Err ==> r == Err::<(), DagError>(DagError::ImportError) && final(self).entries@ == old(self).entries@
                && final(self).master_len == old(self).master_len,
            r is Ok ==> extended(old(self), final(self), data.flat_segments@, data.idmap@, segs_end(data.flat_segments@, 0)),
    {
        if self.entries.len() != 0 {
            return Err(DagError::ImportError);
        }
        proof {
            assert forall|v: Seq<u8>| !self.knows(v) by {}
        }
        match self.extend_master(&data.flat_segments, &data.idmap) {
            Ok(d) => {
                *self = d;
                Ok(())
            },
            Err(e) => Err(e),
        }
    }
}

pub proof fn lemma_reaches_same(d1: &NameDag, d2: &NameDag, lim: int, a: int, b: int)
    requires
        d1.wf(),
        d2.wf(),
        lim <= d1.master_len,
        lim <= d2.master_len,
        forall|k: int| 0 <= k < lim ==> #[trigger] d1.parents_at(k) == d2.parents_at(k),
        0 <= a,
        b < lim,
    ensures
        d1.reaches(a, b) == d2.reaches(a, b),
    decreases b - a,
{
    if a < b {
        assert forall|x: int| a < x <= b implies d1.reaches(x, b) == d2.reaches(x, b) by {
            lemma_reaches_same(d1, d2, lim, x, b);
        }
        assert forall|x: int| a < x <= b implies #[trigger] d1.has_parent_pos(x, a) == d2.has_parent_pos(x, a) by {
            assert(d1.parents_at(x) == d2.parents_at(x));
            assert forall|t: int| 0 <= t < d1.parents_at(x).len() implies #[trigger] d1.parent_pos(x, t) == d2.parent_pos(x, t) by {
                assert(d1.has_id(d1.parents_at(x)[t] as int));
                assert(d1.pos_of(d1.parents_at(x)[t] as int) < x);
            }
            if d1.has_parent_pos(x, a) {
                let t = choose|t: int| 0 <= t < d1.parents_at(x).len() && #[trigger] d1.parent_pos(x, t) == a;
                assert(d2.parent_pos(x, t) == a);
            }
            if d2.has_parent_pos(x, a) {
                let t = choose|t: int| 0 <= t < d2.parents_at(x).len() && #[trigger] d2.parent_pos(x, t) == a;
                assert(d1.parent_pos(x, t) == a);
            }
        }
        if d1.reaches(a, b) {
            let x = choose|x: int| a < x <= b && #[trigger] d1.has_parent_pos(x, a) && d1.reaches(x, b);
            assert(d2.has_parent_pos(x, a));
        }
        if d2.reaches(a, b) {
            let x = choose|x: int| a < x <= b && #[trigger] d2.has_parent_pos(x, a) && d2.reaches(x, b);
            assert(d1.has_parent_pos(x, a));
        }
    }
}

/// Where `d` and a list of segments agree: the master ids `lo..hi` of `d`
/// are the chains the segments describe.
pub proof fn lemma_chains_give_parents(d: &NameDag, segs: Seq<Segment>, lo: int, hi: int, k: int)
    requires
        d.wf(),
        hi <= d.master_len,
        covers(segs, lo, hi),
        forall|i: int| 0 <= i < segs.len() ==> d.is_chain_segment(#[trigger] segs[i]),
        0 <= lo <= k < hi,
    ensures
        seg_parents(segs, k) == d.parents_at(k),
{
    crate::segment::lemma_covers_find(segs, lo, hi, k);
    let i = seg_index(segs, k);
    assert(d.is_chain_segment(segs[i]));
    if segs[i].low != k {
        assert(d.links_prev(d.pos_of(k)));
        assert(seg_parents(segs, k) =~= d.parents_at(k));
    }
}

/// Clone round trip: data exported from a graph is valid clone data.
pub proof fn lemma_export_is_valid(src: &NameDag, data: &CloneData)
    requires
        src.wf(),
        exported(src, data),
    ensures
        clone_data_valid(data),
{
    let segs = data.flat_segments@;
    let m = src.master_len as int;
    if segs.len() > 0 {
        assert(segs[segs.len() - 1].high + 1 == m);
    }
    assert forall|i: int, t: int| 0 <= i < segs.len() && 0 <= t < segs[i].parents@.len() implies #[trigger] segs[i].parents@[t]
        < segs[i].low by {
        assert(src.is_flat_segment(segs[i]));
        let k = src.pos_of(segs[i].low as int);
        assert(src.has_id(src.parents_at(k)[t] as int));
    }
    assert forall|i: int, j: int| 0 <= i < data.idmap.len() && 0 <= j < data.idmap.len() && i != j implies (#[trigger] data.idmap@[i]).0
        != (#[trigger] data.idmap@[j]).0 && data.idmap@[i].1@ != data.idmap@[j].1@ by {
        let a = data.idmap@[i].0 as int;
        let b = data.idmap@[j].0 as int;
        if i < j {
            assert(a < b);
        } else {
            assert(b < a);
        }
        assert(src.name_of_id(a) == Some(data.idmap@[i].1@));
        assert(src.name_of_id(b) == Some(data.idmap@[j].1@));
    }
}

/// Clone round trip: importing data exported from `src` into an empty graph
/// gives a master group with the same ids, parents and ancestry as `src`'s,
/// and no name that differs from `src`'s.
pub proof fn lemma_clone_round_trip(src: &NameDag, data: &CloneData, fresh: &NameDag, dst: &NameDag)
    requires
        src.wf(),
        exported(src, data),
        fresh.wf(),
        fresh.len() == 0,
        dst.wf(),
        extended(fresh, dst, data.flat_segments@, data.idmap@, segs_end(data.flat_segments@, 0)),
    ensures
        dst.master_len == src.master_len,
        forall|k: int| 0 <= k < src.master_len ==> #[trigger] dst.parents_at(k) == src.parents_at(k),
        forall|k: int| 0 <= k < src.master_len && (#[trigger] dst.name_at(k)) is Some ==> dst.name_at(k) == src.name_at(k),
        forall|a: int, b: int| 0 <= a && b < src.master_len ==> #[trigger] dst.reaches(a, b) == src.reaches(a, b),
{
    let segs = data.flat_segments@;
    let m = src.master_len as int;
    if segs.len() > 0 {
        assert(segs[segs.len() - 1].high + 1 == m);
    }
    assert forall|k: int| 0 <= k < m implies #[trigger] dst.parents_at(k) == src.parents_at(k) by {
        lemma_chains_give_parents(src, segs, 0, m, k);
        assert(dst.parents_at(k) == seg_parents(segs, k));
    }
    assert forall|k: int| 0 <= k < m && (#[trigger] dst.name_at(k)) is Some implies dst.name_at(k) == src.name_at(k) by {
        assert(dst.parents_at(k) == seg_parents(segs, k));
        let i = choose|i: int| 0 <= i < data.idmap.len() && (#[trigger] data.idmap@[i]).0 == k;
        assert(src.name_of_id(k) == Some(data.idmap@[i].1@));
    }
    assert forall|a: int, b: int| 0 <= a && b < m implies #[trigger] dst.reaches(a, b) == src.reaches(a, b) by {
        lemma_reaches_same(dst, src, m, a, b);
    }
}

} // verus!
