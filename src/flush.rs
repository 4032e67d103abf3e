//! Flushing master heads: the draft ancestors of the heads move into the
//! master group, keeping their relative order; the remaining draft ids are
//! renumbered in order after them.
use vstd::prelude::*;
use crate::namedag::{Entry, NameDag, Vertex, NON_MASTER_START, is_master_id};
use crate::error::DagError;
use crate::parent_map::vertexes_view;

verus! {

/// The number of `true` values in `s[lo..hi]`.
pub open spec fn count_true(s: Seq<bool>, lo: int, hi: int) -> int
    decreases hi - lo,
{
    if hi <= lo {
        0
    } else {
        count_true(s, lo, hi - 1) + if s[hi - 1] {
            1int
        } else {
            0int
        }
    }
}

proof fn lemma_count_mono(s: Seq<bool>, lo: int, a: int, b: int)
    requires
        lo <= a <= b,
    ensures
        0 <= count_true(s, lo, a) <= count_true(s, lo, b),
        count_true(s, lo, b) - count_true(s, lo, a) <= b - a,
    decreases b - a,
{
    if a < b {
        lemma_count_mono(s, lo, a, b - 1);
    } else {
        lemma_count_bound(s, lo, a);
    }
}

proof fn lemma_count_bound(s: Seq<bool>, lo: int, hi: int)
    ensures
        0 <= count_true(s, lo, hi),
        lo <= hi ==> count_true(s, lo, hi) <= hi - lo,
    decreases hi - lo,
{
    if hi > lo {
        lemma_count_bound(s, lo, hi - 1);
    }
}

impl NameDag {
    /// Whether some head in `heads` is at position `k`.
    pub open spec fn is_head_pos(&self, heads: Seq<Seq<u8>>, k: int) -> bool {
        exists|h: int| 0 <= h < heads.len() && self.knows(heads[h]) && #[trigger] self.pos_of_name(heads[h]) == k
    }

    /// Whether position `k` is a draft ancestor (or itself one) of a head in
    /// `heads`.
    pub open spec fn flushed(&self, heads: Seq<Seq<u8>>, k: int) -> bool {
        &&& self.master_len <= k < self.len()
        &&& exists|h: int|
            0 <= h < heads.len() && self.knows(heads[h]) && #[trigger] self.reaches(k, self.pos_of_name(heads[h]))
    }

    /// The positions that a flush of `heads` moves into the master group.
    pub open spec fn flush_marks(&self, heads: Seq<Seq<u8>>) -> Seq<bool> {
        Seq::new(self.len() as nat, |k: int| self.flushed(heads, k))
    }

    /// Where a flush of `heads` puts the entry at position `k`.
    pub open spec fn flush_pos(&self, heads: Seq<Seq<u8>>, k: int) -> int {
        let marks = self.flush_marks(heads);
        let m = self.master_len as int;
        if k < m {
            k
        } else if marks[k] {
            m + count_true(marks, m, k)
        } else {
            m + count_true(marks, m, self.len()) + (k - m - count_true(marks, m, k))
        }
    }
}

pub proof fn lemma_reaches_le(d: &NameDag, a: int, b: int)
    requires
        d.reaches(a, b),
    ensures
        a <= b,
{
}

/// A draft position is flushed exactly when it is a head, or a parent of a
/// flushed position.
proof fn lemma_flushed_step(d: &NameDag, heads: Seq<Seq<u8>>, c: int)
    requires
        d.wf(),
        d.master_len <= c < d.len(),
        forall|h: int| 0 <= h < heads.len() ==> d.knows(#[trigger] heads[h]),
    ensures
        d.flushed(heads, c) == (d.is_head_pos(heads, c) || exists|c2: int|
            c < c2 < d.len() && d.flushed(heads, c2) && #[trigger] d.has_parent_pos(c2, c)),
{
    if d.flushed(heads, c) {
        let h = choose|h: int|
            0 <= h < heads.len() && d.knows(heads[h]) && #[trigger] d.reaches(c, d.pos_of_name(heads[h]));
        let hb = d.pos_of_name(heads[h]);
        assert(0 <= hb < d.len() && d.name_at(hb) == Some(heads[h]));
        if c >= hb {
            assert(d.is_head_pos(heads, c));
        } else {
            let c2 = choose|c2: int| c < c2 <= hb && #[trigger] d.has_parent_pos(c2, c) && d.reaches(c2, hb);
            assert(d.reaches(c2, d.pos_of_name(heads[h])));
            assert(d.flushed(heads, c2));
        }
    }
    if d.is_head_pos(heads, c) {
        let h = choose|h: int| 0 <= h < heads.len() && d.knows(heads[h]) && #[trigger] d.pos_of_name(heads[h]) == c;
        assert(d.reaches(c, d.pos_of_name(heads[h])));
    }
    if exists|c2: int| c < c2 < d.len() && d.flushed(heads, c2) && #[trigger] d.has_parent_pos(c2, c) {
        let c2 = choose|c2: int| c < c2 < d.len() && d.flushed(heads, c2) && #[trigger] d.has_parent_pos(c2, c);
        let h = choose|h: int|
            0 <= h < heads.len() && d.knows(heads[h]) && #[trigger] d.reaches(c2, d.pos_of_name(heads[h]));
        let hb = d.pos_of_name(heads[h]);
        lemma_reaches_le(d, c2, hb);
        assert(c < c2 <= hb && d.has_parent_pos(c2, c) && d.reaches(c2, hb));
        assert(d.reaches(c, hb));
        assert(d.flushed(heads, c));
    }
}

impl NameDag {
    /// Marks the draft positions that a flush of `heads` moves.
    fn flush_marks_exec(&self, heads: &Vec<Vertex>) -> (r: Result<Vec<bool>, DagError>)
        requires
            self.wf(),
        ensures
            r is Ok <==> forall|h: int| 0 <= h < heads.len() ==> self.knows(#[trigger] heads@[h]@),
            r is Ok ==> r->Ok_0@ == self.flush_marks(vertexes_view(heads@)),
            r is Err ==> r == Err::<Vec<bool>, DagError>(DagError::NotFound),
    {
        let ghost hs = vertexes_view(heads@);
        let n = self.entries.len();
        let m = self.master_len;
        let mut marks: Vec<bool> = Vec::new();
        while marks.len() < n
            invariant
                marks.len() <= n,
                forall|q: int| 0 <= q < marks.len() ==> !marks@[q],
            decreases n - marks.len(),
        {
            marks.push(false);
        }
        let mut h: usize = 0;
        while h < heads.len()
            invariant
                self.wf(),
                n == self.len(),
                m == self.master_len,
                hs == vertexes_view(heads@),
                h <= heads.len(),
                marks.len() == n,
                forall|g: int| 0 <= g < h ==> self.knows(#[trigger] hs[g]),
                forall|q: int| 0 <= q < n ==> (#[trigger] marks@[q] <==> (m <= q && exists|g: int|
                    0 <= g < h && self.knows(hs[g]) && #[trigger] self.pos_of_name(hs[g]) == q)),
            decreases heads.len() - h,
        {
            match self.find_name(&heads[h]) {
                Some(k) => {
                    if k >= m {
                        marks.set(k, true);
                    }
                    proof {
                        assert(hs[h as int] == heads@[h as int]@);
                        assert forall|q: int| 0 <= q < n implies (#[trigger] marks@[q] <==> (m <= q && exists|g: int|
                            0 <= g < h + 1 && self.knows(hs[g]) && #[trigger] self.pos_of_name(hs[g]) == q)) by {
                            if q == k && m <= q {
                                assert(self.pos_of_name(hs[h as int]) == q);
                            }
                        }
                    }
                },
                None => {
                    proof {
                        assert(hs[h as int] == heads@[h as int]@);
                    }
                    return Err(DagError::NotFound);
                },
            }
            h += 1;
        }
        proof {
            assert forall|g: int| 0 <= g < heads.len() implies self.knows(#[trigger] heads@[g]@) by {
                assert(hs[g] == heads@[g]@);
            }
        }
        let mut c: usize = n;
        while c > m
            invariant
                self.wf(),
                n == self.len(),
                m == self.master_len,
                hs == vertexes_view(heads@),
                forall|g: int| 0 <= g < hs.len() ==> self.knows(#[trigger] hs[g]),
                m <= c <= n,
                marks.len() == n,
                forall|q: int| 0 <= q < n ==> (#[trigger] marks@[q] <==> (m <= q && (self.is_head_pos(hs, q) || exists|c2: int|
                    c <= c2 < n && marks@[c2] && #[trigger] self.has_parent_pos(c2, q)))),
                forall|q: int| c <= q < n ==> #[trigger] marks@[q] == self.flushed(hs, q),
            decreases c,
        {
            c -= 1;
            proof {
                lemma_flushed_step(self, hs, c as int);
                assert(marks@[c as int] == self.flushed(hs, c as int));
            }
            if marks[c] {
                let ps = &self.entries[c].parents;
                let mut t: usize = 0;
                while t < ps.len()
                    invariant
                        self.wf(),
                        n == self.len(),
                        m == self.master_len,
                        m <= c < n,
                        ps == &self.entries@[c as int].parents,
                        t <= ps.len(),
                        marks.len() == n,
                        marks@[c as int],
                        forall|q: int| 0 <= q < n ==> (#[trigger] marks@[q] <==> (m <= q && (self.is_head_pos(hs, q) || (exists|c2: int|
                            c < c2 < n && marks@[c2] && #[trigger] self.has_parent_pos(c2, q)) || (exists|u: int| 0 <= u < t && #[trigger] self.parent_pos(c as int, u) == q)))),
                        forall|q: int| c <= q < n ==> #[trigger] marks@[q] == self.flushed(hs, q),
                    decreases ps.len() - t,
                {
                    proof {
                        assert(self.has_id(self.parents_at(c as int)[t as int] as int));
                    }
                    let q = self.pos_of_id(ps[t]).unwrap();
                    let ghost marks0 = marks@;
                    if q >= m {
                        marks.set(q, true);
                    }
                    proof {
                        assert(self.parent_pos(c as int, t as int) == q);
                        assert forall|x: int| 0 <= x < n implies (#[trigger] marks@[x] <==> (m <= x && (self.is_head_pos(hs, x) || (exists|c2: int|
                            c < c2 < n && marks@[c2] && #[trigger] self.has_parent_pos(c2, x)) || (exists|u: int| 0 <= u < t + 1 && #[trigger] self.parent_pos(c as int, u) == x)))) by {
                            if x != q {
                                assert(marks@[x] == marks0[x]);
                            }
                            assert forall|c2: int| c < c2 < n implies marks@[c2] == marks0[c2] by {
                                if q >= m {
                                    assert(self.pos_of(self.parents_at(c as int)[t as int] as int) < c);
                                }
                            }
                        }
                    }
                    t += 1;
                }
                proof {
                    assert forall|x: int| 0 <= x < n implies (#[trigger] marks@[x] <==> (m <= x && (self.is_head_pos(hs, x) || exists|c2: int|
                        c <= c2 < n && marks@[c2] && #[trigger] self.has_parent_pos(c2, x)))) by {
                        if exists|c2: int| c <= c2 < n && marks@[c2] && #[trigger] self.has_parent_pos(c2, x) {
                            let c2 = choose|c2: int| c <= c2 < n && marks@[c2] && #[trigger] self.has_parent_pos(c2, x);
                            if c2 == c {
                                let u = choose|u: int| 0 <= u < self.parents_at(c as int).len() && #[trigger] self.parent_pos(c as int, u) == x;
                            }
                        }
                        if exists|u: int| 0 <= u < ps.len() && #[trigger] self.parent_pos(c as int, u) == x {
                            assert(self.has_parent_pos(c as int, x));
                        }
                    }
                }
            }
        }
        proof {
            assert(marks@ =~= self.flush_marks(hs));
        }
        Ok(marks)
    }
}

/// What a flush of `hs` turned `old` into: every entry moved to its flush
/// position, with its name, and its parents renamed to their new ids.
pub open spec fn flush_result(old: &NameDag, new: &NameDag, hs: Seq<Seq<u8>>) -> bool {
    &&& new.len() == old.len()
    &&& new.master_len == old.master_len + count_true(old.flush_marks(hs), old.master_len as int, old.len())
    &&& forall|k: int| 0 <= k < old.len() ==> {
        let x = #[trigger] old.flush_pos(hs, k);
        &&& 0 <= x < new.len()
        &&& new.name_at(x) == old.name_at(k)
        &&& new.parents_at(x).len() == old.parents_at(k).len()
        &&& forall|t: int| 0 <= t < old.parents_at(k).len() ==> #[trigger] new.parents_at(x)[t] == new.id_at(
            old.flush_pos(hs, old.parent_pos(k, t)))
    }
}

/// The id that a flush gives to the entry at old position `k`.
pub open spec fn flush_id(d: &NameDag, hs: Seq<Seq<u8>>, k: int) -> int {
    let marks = d.flush_marks(hs);
    let m = d.master_len as int;
    if k < m {
        k
    } else if marks[k] {
        m + count_true(marks, m, k)
    } else {
        NON_MASTER_START + (k - m - count_true(marks, m, k))
    }
}

proof fn lemma_fp_range(d: &NameDag, hs: Seq<Seq<u8>>, k: int)
    requires
        d.wf(),
        0 <= k < d.len(),
    ensures
        ({
            let marks = d.flush_marks(hs);
            let m = d.master_len as int;
            let big_m = count_true(marks, m, d.len());
            let x = d.flush_pos(hs, k);
            &&& 0 <= big_m <= d.len() - m
            &&& k < m ==> x == k
            &&& m <= k && marks[k] ==> m <= x < m + big_m
            &&& m <= k && !marks[k] ==> m + big_m <= x < d.len()
            &&& 0 <= x < d.len()
        }),
{
    let marks = d.flush_marks(hs);
    let m = d.master_len as int;
    lemma_count_bound(marks, m, d.len());
    if m <= k {
        lemma_count_mono(marks, m, k, d.len());
        lemma_count_mono(marks, m, k + 1, d.len());
        lemma_count_mono(marks, m, k, k + 1);
        lemma_count_bound(marks, m, k);
    }
}

proof fn lemma_fp_lt(d: &NameDag, hs: Seq<Seq<u8>>, q: int, k: int)
    requires
        d.wf(),
        0 <= q < k < d.len(),
        d.master_len <= q && d.flush_marks(hs)[k] ==> d.flush_marks(hs)[q],
    ensures
        d.flush_pos(hs, q) < d.flush_pos(hs, k),
{
    let marks = d.flush_marks(hs);
    let m = d.master_len as int;
    lemma_fp_range(d, hs, q);
    lemma_fp_range(d, hs, k);
    if m <= q {
        lemma_count_mono(marks, m, q + 1, k);
        lemma_count_mono(marks, m, q, q + 1);
    }
}

proof fn lemma_fp_injective(d: &NameDag, hs: Seq<Seq<u8>>, a: int, b: int)
    requires
        d.wf(),
        0 <= a < d.len(),
        0 <= b < d.len(),
        a != b,
    ensures
        d.flush_pos(hs, a) != d.flush_pos(hs, b),
{
    let marks = d.flush_marks(hs);
    let m = d.master_len as int;
    lemma_fp_range(d, hs, a);
    lemma_fp_range(d, hs, b);
    if a < b && m <= a && marks[a] == marks[b] {
        lemma_fp_lt(d, hs, a, b);
    } else if b < a && m <= b && marks[a] == marks[b] {
        lemma_fp_lt(d, hs, b, a);
    }
}

/// The draft parents of a flushed position are flushed.
proof fn lemma_marks_closed(d: &NameDag, hs: Seq<Seq<u8>>, k: int, t: int)
    requires
        d.wf(),
        forall|h: int| 0 <= h < hs.len() ==> d.knows(#[trigger] hs[h]),
        0 <= k < d.len(),
        0 <= t < d.parents_at(k).len(),
        d.flush_marks(hs)[k],
        d.master_len <= d.parent_pos(k, t),
    ensures
        d.flush_marks(hs)[d.parent_pos(k, t)],
{
    let q = d.parent_pos(k, t);
    assert(d.has_id(d.parents_at(k)[t] as int));
    assert(d.has_parent_pos(k, q));
    lemma_flushed_step(d, hs, q);
}

impl NameDag {
    /// A copy of the entry at position `k`, its parents renamed by `newid`
    /// (indexed by old position).
    fn mapped_entry(&self, k: usize, newid: &Vec<u64>) -> (r: Entry)
        requires
            self.wf(),
            k < self.len(),
            newid.len() == self.len(),
        ensures
            crate::namedag::name_view(r.name) == self.name_at(k as int),
            r.parents@.len() == self.parents_at(k as int).len(),
            forall|t: int| 0 <= t < r.parents@.len() ==> #[trigger] r.parents@[t] == newid@[self.parent_pos(k as int, t)],
    {
        let e = &self.entries[k];
        let name = match &e.name {
            Some(v) => Some(crate::parent_map::copy_vertex(v)),
            None => None,
        };
        let mut parents: Vec<u64> = Vec::new();
        let mut t: usize = 0;
        while t < e.parents.len()
            invariant
                self.wf(),
                k < self.len(),
                newid.len() == self.len(),
                e == &self.entries@[k as int],
                t <= e.parents.len(),
                parents.len() == t,
                forall|u: int| 0 <= u < t ==> #[trigger] parents@[u] == newid@[self.parent_pos(k as int, u)],
            decreases e.parents.len() - t,
        {
            proof {
                assert(self.has_id(self.parents_at(k as int)[t as int] as int));
            }
            let q = self.pos_of_id(e.parents[t]).unwrap();
            parents.push(newid[q]);
            t += 1;
        }
        Entry { name, parents }
    }
}

/// Whether `e` is the entry at old position `q` of `d`, its parents renamed
/// by `newid`.
pub open spec fn maps_entry(d: &NameDag, newid: Seq<u64>, e: Entry, q: int) -> bool {
    &&& crate::namedag::name_view(e.name) == d.name_at(q)
    &&& e.parents@.len() == d.parents_at(q).len()
    &&& forall|t: int| 0 <= t < e.parents@.len() ==> #[trigger] e.parents@[t] == newid[d.parent_pos(q, t)]
}

proof fn lemma_flush_id_at(d: &NameDag, hs: Seq<Seq<u8>>, q: int, new: &NameDag)
    requires
        d.wf(),
        0 <= q < d.len(),
        new.len() == d.len(),
        new.master_len == d.master_len + count_true(d.flush_marks(hs), d.master_len as int, d.len()),
    ensures
        new.id_at(d.flush_pos(hs, q)) == flush_id(d, hs, q),
        new.has_id(flush_id(d, hs, q)),
        new.pos_of(flush_id(d, hs, q)) == d.flush_pos(hs, q),
{
    lemma_fp_range(d, hs, q);
}

proof fn lemma_flush_wf(d: &NameDag, new: &NameDag, hs: Seq<Seq<u8>>, newid: Seq<u64>, src: Seq<int>)
    requires
        d.wf(),
        forall|h: int| 0 <= h < hs.len() ==> d.knows(#[trigger] hs[h]),
        newid.len() == d.len(),
        forall|q: int| 0 <= q < d.len() ==> #[trigger] newid[q] == flush_id(d, hs, q),
        new.len() == d.len(),
        new.master_len == d.master_len + count_true(d.flush_marks(hs), d.master_len as int, d.len()),
        src.len() == d.len(),
        forall|x: int| 0 <= x < d.len() ==> 0 <= #[trigger] src[x] < d.len() && d.flush_pos(hs, src[x]) == x
            && maps_entry(d, newid, new.entries@[x], src[x]),
    ensures
        new.wf(),
        flush_result(d, new, hs),
        forall|v: Seq<u8>| #[trigger] new.knows(v) == d.knows(v),
{
    let n = d.len();
    let m = d.master_len as int;
    let marks = d.flush_marks(hs);
    let big_m = count_true(marks, m, n);
    lemma_count_bound(marks, m, n);
    assert forall|k: int| 0 <= k < n implies #[trigger] src[d.flush_pos(hs, k)] == k by {
        lemma_fp_range(d, hs, k);
        let j = src[d.flush_pos(hs, k)];
        if j != k {
            lemma_fp_injective(d, hs, j, k);
        }
    }
    assert forall|k: int| 0 <= k < n implies {
        let x = #[trigger] d.flush_pos(hs, k);
        &&& 0 <= x < new.len()
        &&& new.name_at(x) == d.name_at(k)
        &&& new.parents_at(x).len() == d.parents_at(k).len()
        &&& forall|t: int| 0 <= t < d.parents_at(k).len() ==> #[trigger] new.parents_at(x)[t] == new.id_at(
            d.flush_pos(hs, d.parent_pos(k, t)))
    } by {
        lemma_fp_range(d, hs, k);
        let x = d.flush_pos(hs, k);
        assert(src[x] == k);
        assert(maps_entry(d, newid, new.entries@[x], k));
        assert forall|t: int| 0 <= t < d.parents_at(k).len() implies #[trigger] new.parents_at(x)[t] == new.id_at(
            d.flush_pos(hs, d.parent_pos(k, t))) by {
            assert(d.has_id(d.parents_at(k)[t] as int));
            let q = d.parent_pos(k, t);
            assert(new.entries@[x].parents@[t] == newid[q]);
            lemma_flush_id_at(d, hs, q, new);
        }
    }
    assert forall|x: int, t: int| 0 <= x < new.len() && 0 <= t < new.parents_at(x).len() implies {
        &&& new.has_id(#[trigger] new.parents_at(x)[t] as int)
        &&& new.pos_of(new.parents_at(x)[t] as int) < x
    } by {
        let k = src[x];
        assert(maps_entry(d, newid, new.entries@[x], k));
        assert(d.has_id(d.parents_at(k)[t] as int));
        let q = d.parent_pos(k, t);
        assert(new.parents_at(x)[t] == newid[q]);
        lemma_flush_id_at(d, hs, q, new);
        if m <= q && marks[k] {
            lemma_marks_closed(d, hs, k, t);
        }
        lemma_fp_lt(d, hs, q, k);
    }
    assert forall|x: int| new.master_len <= x < new.len() implies (#[trigger] new.name_at(x)) is Some by {
        let k = src[x];
        assert(maps_entry(d, newid, new.entries@[x], k));
        lemma_fp_range(d, hs, k);
        assert(d.name_at(k) is Some);
    }
    assert forall|a: int, b: int|
        0 <= a < new.len() && 0 <= b < new.len() && (#[trigger] new.name_at(a)) is Some
            && new.name_at(a) == #[trigger] new.name_at(b) implies a == b by {
        assert(maps_entry(d, newid, new.entries@[a], src[a]));
        assert(maps_entry(d, newid, new.entries@[b], src[b]));
        assert(d.name_at(src[a]) == d.name_at(src[b]));
    }
    assert forall|v: Seq<u8>| #[trigger] new.knows(v) == d.knows(v) by {
        if new.knows(v) {
            let x = choose|x: int| 0 <= x < new.len() && #[trigger] new.name_at(x) == Some(v);
            assert(maps_entry(d, newid, new.entries@[x], src[x]));
            assert(d.name_at(src[x]) == Some(v));
        }
        if d.knows(v) {
            let k = choose|k: int| 0 <= k < d.len() && #[trigger] d.name_at(k) == Some(v);
            lemma_fp_range(d, hs, k);
            assert(new.name_at(d.flush_pos(hs, k)) == Some(v));
        }
    }
}

/// Group monotonicity: a flush changes no master id, neither its name nor
/// its parents, and the master group only grows.
pub proof fn lemma_flush_keeps_master(old: &NameDag, new: &NameDag, hs: Seq<Seq<u8>>)
    requires
        old.wf(),
        flush_result(old, new, hs),
    ensures
        new.master_len >= old.master_len,
        forall|k: int| 0 <= k < old.master_len ==> #[trigger] new.name_at(k) == old.name_at(k)
            && new.parents_at(k) == old.parents_at(k),
{
    lemma_count_bound(old.flush_marks(hs), old.master_len as int, old.len());
    assert forall|k: int| 0 <= k < old.master_len implies #[trigger] new.name_at(k) == old.name_at(k)
        && new.parents_at(k) == old.parents_at(k) by {
        assert(old.flush_pos(hs, k) == k);
        assert forall|t: int| 0 <= t < old.parents_at(k).len() implies new.parents_at(k)[t] == old.parents_at(k)[t] by {
            assert(old.has_id(old.parents_at(k)[t] as int));
            let q = old.parent_pos(k, t);
            assert(old.flush_pos(hs, q) == q);
        }
        assert(new.parents_at(k) =~= old.parents_at(k));
    }
}

/// After a flush, every flushed head carries a master id.
pub proof fn lemma_flush_heads_master(old: &NameDag, new: &NameDag, hs: Seq<Seq<u8>>, h: int)
    requires
        old.wf(),
        new.wf(),
        flush_result(old, new, hs),
        0 <= h < hs.len(),
        forall|g: int| 0 <= g < hs.len() ==> old.knows(#[trigger] hs[g]),
    ensures
        new.knows(hs[h]),
        new.id_of_name(hs[h]) is Some,
        is_master_id(new.id_of_name(hs[h])->0),
{
    let k = old.pos_of_name(hs[h]);
    assert(0 <= k < old.len() && old.name_at(k) == Some(hs[h]));
    lemma_fp_range(old, hs, k);
    let x = old.flush_pos(hs, k);
    assert(new.name_at(x) == Some(hs[h]));
    assert(new.knows(hs[h]));
    let y = new.pos_of_name(hs[h]);
    assert(0 <= y < new.len() && new.name_at(y) == Some(hs[h]));
    assert(y == x);
    if old.master_len <= k {
        assert(old.is_head_pos(hs, k));
        lemma_flushed_step(old, hs, k);
    }
}

impl NameDag {
    /// Moves the draft ancestors of `master_heads` into the master group, in
    /// id order, and renumbers the remaining draft ids in order after them.
    /// Every name keeps its parents; master ids never change. Fails, changing
    /// nothing, when a head is unknown.
    pub fn flush(&mut self, master_heads: &Vec<Vertex>) -> (r: Result<(), DagError>)
        requires
            old(self).wf(),
        ensures
            final(self).wf(),
            final(self).segment_size == old(self).segment_size,
            r is Ok <==> forall|h: int| 0 <= h < master_heads.len() ==> old(self).knows(#[trigger] master_heads@[h]@),
            r is Err ==> r == Err::<(), DagError>(DagError::NotFound) && final(self).entries@ == old(self).entries@
                && final(self).master_len == old(self).master_len,
            r is Ok ==> flush_result(old(self), final(self), vertexes_view(master_heads@)),
        r is Ok ==> forall|v: Seq<u8>| #[trigger] final(self).knows(v) == old(self).knows(v),
    {
        let marks = match self.flush_marks_exec(master_heads) {
            Ok(ms) => ms,
            Err(e) => {
                return Err(e);
            },
        };
        let ghost hs = vertexes_view(master_heads@);
        let ghost d = *self;
        let n = self.entries.len();
        let m = self.master_len;
        proof {
            lemma_count_bound(marks@, m as int, n as int);
        }
        let mut newid: Vec<u64> = Vec::new();
        let mut c1: usize = 0;
        let mut c2: usize = 0;
        let mut k: usize = 0;
        while k < n
            invariant
                d == *self,
                d.wf(),
                marks@ == d.flush_marks(hs),
                n == d.len(),
                m == d.master_len,
                k <= n,
                newid.len() == k,
                k < m ==> c1 == 0 && c2 == 0,
                k >= m ==> c1 == count_true(marks@, m as int, k as int) && c2 == k - m - c1,
                forall|q: int| 0 <= q < k ==> #[trigger] newid@[q] == flush_id(&d, hs, q),
            decreases n - k,
        {
            proof {
                lemma_count_bound(marks@, m as int, k as int);
            }
            if k < m {
                newid.push(k as u64);
            } else if marks[k] {
                newid.push((m + c1) as u64);
                c1 += 1;
            } else {
                newid.push(NON_MASTER_START + c2 as u64);
                c2 += 1;
            }
            k += 1;
        }
        let ghost big_m = count_true(marks@, m as int, n as int);
        let mut ne: Vec<Entry> = Vec::new();
        let ghost mut src: Seq<int> = Seq::empty();
        k = 0;
        while k < m
            invariant
                d == *self,
                d.wf(),
                marks@ == d.flush_marks(hs),
                n == d.len(),
                m == d.master_len,
                newid.len() == n,
                k <= m,
                ne.len() == k,
                src.len() == k,
                forall|x: int| 0 <= x < ne.len() ==> 0 <= #[trigger] src[x] < n && d.flush_pos(hs, src[x]) == x
                    && maps_entry(&d, newid@, ne@[x], src[x]),
            decreases m - k,
        {
            ne.push(self.mapped_entry(k, &newid));
            proof {
                src = src.push(k as int);
            }
            k += 1;
        }
        k = m;
        while k < n
            invariant
                d == *self,
                d.wf(),
                marks@ == d.flush_marks(hs),
                n == d.len(),
                m == d.master_len,
                newid.len() == n,
                m <= k <= n,
                ne.len() == m + count_true(marks@, m as int, k as int),
                src.len() == ne.len(),
                forall|x: int| 0 <= x < ne.len() ==> 0 <= #[trigger] src[x] < n && d.flush_pos(hs, src[x]) == x
                    && maps_entry(&d, newid@, ne@[x], src[x]),
            decreases n - k,
        {
            if marks[k] {
                ne.push(self.mapped_entry(k, &newid));
                proof {
                    src = src.push(k as int);
                }
            }
            k += 1;
        }
        k = m;
        while k < n
            invariant
                d == *self,
                d.wf(),
                marks@ == d.flush_marks(hs),
                n == d.len(),
                m == d.master_len,
                newid.len() == n,
                big_m == count_true(marks@, m as int, n as int),
                m <= k <= n,
                ne.len() == m + big_m + (k - m - count_true(marks@, m as int, k as int)),
                src.len() == ne.len(),
                forall|x: int| 0 <= x < ne.len() ==> 0 <= #[trigger] src[x] < n && d.flush_pos(hs, src[x]) == x
                    && maps_entry(&d, newid@, ne@[x], src[x]),
            decreases n - k,
        {
            proof {
                lemma_count_bound(marks@, m as int, k as int);
            }
            if !marks[k] {
                ne.push(self.mapped_entry(k, &newid));
                proof {
                    src = src.push(k as int);
                }
            }
            k += 1;
        }
        self.entries = ne;
        self.master_len = m + c1;
        proof {
            lemma_flush_wf(&d, self, hs, newid@, src);
        }
        Ok(())
    }
}

} // verus!
