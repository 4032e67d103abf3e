//! The segment index: level 0 splits each group's ids into maximal runs in
//! which every id has exactly the previous id as its parent; each higher
//! level merges runs of `segment_size` segments of the level below.
use vstd::prelude::*;
use crate::namedag::{NameDag, NON_MASTER_START};

verus! {

/// A contiguous id range `low..=high` at some level, with the parents that
/// lie below `low`.
pub struct Segment {
    pub level: u8,
    pub low: u64,
    pub high: u64,
    pub parents: Vec<u64>,
}

/// A copy of a list of ids.
pub fn copy_ids(v: &Vec<u64>) -> (r: Vec<u64>)
    ensures
        r@ == v@,
{
    let mut r: Vec<u64> = Vec::new();
    let mut i: usize = 0;
    while i < v.len()
        invariant
            i <= v.len(),
            r@ == v@.subrange(0, i as int),
        decreases v.len() - i,
    {
        r.push(v[i]);
        i += 1;
    }
    assert(r@ =~= v@);
    r
}

/// Whether `segs` cover `lo..hi` exactly, in order, without gap or overlap.
pub open spec fn covers(segs: Seq<Segment>, lo: int, hi: int) -> bool {
    &&& (segs.len() == 0 <==> lo == hi)
    &&& segs.len() > 0 ==> segs[0].low == lo && segs[segs.len() - 1].high + 1 == hi
    &&& forall|i: int| 0 <= i < segs.len() ==> #[trigger] segs[i].low <= segs[i].high
    &&& forall|i: int| 0 <= i < segs.len() - 1 ==> #[trigger] segs[i].high + 1 == segs[i + 1].low
}

pub proof fn lemma_covers_push(segs: Seq<Segment>, lo: int, s: Segment)
    requires
        covers(segs, lo, s.low as int),
        lo <= s.low <= s.high,
    ensures
        covers(segs.push(s), lo, s.high + 1),
{
    let t = segs.push(s);
    assert forall|i: int| 0 <= i < t.len() - 1 implies #[trigger] t[i].high + 1 == t[i + 1].low by {
        if i < segs.len() - 1 {
            assert(t[i] == segs[i] && t[i + 1] == segs[i + 1]);
        }
    }
    assert forall|i: int| 0 <= i < t.len() implies #[trigger] t[i].low <= t[i].high by {
        if i < segs.len() {
            assert(t[i] == segs[i]);
        }
    }
    if segs.len() > 0 {
        assert(t[0] == segs[0]);
    }
}

impl NameDag {
    /// The first and one-past-last id of a group.
    pub open spec fn group_range(&self, master: bool) -> (int, int) {
        if master {
            (0, self.master_len as int)
        } else {
            (NON_MASTER_START as int, NON_MASTER_START + (self.len() - self.master_len))
        }
    }

    /// Whether the entry at position `k` has exactly the previous id, in
    /// the same group, as its parent.
    pub open spec fn links_prev(&self, k: int) -> bool {
        &&& k != self.master_len && k > 0
        &&& self.parents_at(k).len() == 1
        &&& self.parents_at(k)[0] == self.id_at(k - 1)
    }

    /// Whether `s` is a level-0 chain of this graph: every id after `low`
    /// has exactly the previous id as its parent.
    pub open spec fn is_chain_segment(&self, s: Segment) -> bool {
        &&& s.level == 0
        &&& self.has_id(s.low as int) && self.has_id(s.high as int)
        &&& s.low <= s.high
        &&& self.pos_of(s.low as int) <= self.pos_of(s.high as int)
        &&& s.high - s.low == self.pos_of(s.high as int) - self.pos_of(s.low as int)
        &&& s.parents@ == self.parents_at(self.pos_of(s.low as int))
        &&& forall|id: int| s.low < id <= s.high ==> #[trigger] self.links_prev(self.pos_of(id))
    }

    /// Whether `s` is a level-0 segment of this graph: a maximal chain.
    pub open spec fn is_flat_segment(&self, s: Segment) -> bool {
        &&& self.is_chain_segment(s)
        &&& !self.links_prev(self.pos_of(s.low as int))
        &&& (self.pos_of(s.high as int) + 1 < self.len() ==> !self.links_prev(self.pos_of(s.high as int) + 1))
    }

    pub fn links_prev_exec(&self, k: usize) -> (r: bool)
        requires
            self.wf(),
            k < self.len(),
        ensures
            r == self.links_prev(k as int),
    {
        if k == self.master_len || k == 0 {
            return false;
        }
        let ps = &self.entries[k].parents;
        ps.len() == 1 && ps[0] == self.id_of_pos(k - 1)
    }


    /// The chain of positions `start..end`.
    fn make_chain_segment(&self, start: usize, end: usize) -> (r: Segment)
        requires
            self.wf(),
            start < end <= self.len(),
            start < self.master_len ==> end <= self.master_len,
            forall|j: int| start < j < end ==> #[trigger] self.links_prev(j),
        ensures
            self.is_chain_segment(r),
            r.low == self.id_at(start as int),
            r.high == self.id_at(end - 1),
            self.pos_of(r.low as int) == start,
            self.pos_of(r.high as int) == end - 1,
    {
        let r = Segment {
            level: 0,
            low: self.id_of_pos(start),
            high: self.id_of_pos(end - 1),
            parents: copy_ids(&self.entries[start].parents),
        };
        proof {
            assert forall|id: int| r.low < id <= r.high implies #[trigger] self.links_prev(self.pos_of(id)) by {
                assert(start < self.pos_of(id) < end);
            }
        }
        r
    }

    /// The chains that split positions `lo..hi` (within one group): a new
    /// segment starts at `lo` and wherever an id does not continue the
    /// previous one.
    pub fn range_segments(&self, lo: usize, hi: usize) -> (r: Vec<Segment>)
        requires
            self.wf(),
            lo < hi <= self.len(),
            lo < self.master_len ==> hi <= self.master_len,
        ensures
            covers(r@, self.id_at(lo as int), self.id_at(hi - 1) + 1),
            forall|i: int| 0 <= i < r.len() ==> self.is_chain_segment(#[trigger] r@[i]),
            forall|i: int| 0 <= i < r.len() ==> (#[trigger] r@[i]).low == self.id_at(lo as int) || !self.links_prev(
                self.pos_of(r@[i].low as int)),
            forall|i: int| 0 <= i < r.len() ==> self.pos_of((#[trigger] r@[i]).high as int) + 1 == hi || !self.links_prev(
                self.pos_of(r@[i].high as int) + 1),
    {
        let mut segs: Vec<Segment> = Vec::new();
        let mut start: usize = lo;
        let mut k: usize = lo + 1;
        while k < hi
            invariant
                self.wf(),
                lo < hi <= self.len(),
                lo < self.master_len ==> hi <= self.master_len,
                lo <= start < k <= hi,
                start == lo || !self.links_prev(start as int),
                forall|j: int| start < j < k ==> #[trigger] self.links_prev(j),
                covers(segs@, self.id_at(lo as int), self.id_at(start as int)),
                forall|i: int| 0 <= i < segs.len() ==> self.is_chain_segment(#[trigger] segs@[i]),
                forall|i: int| 0 <= i < segs.len() ==> (#[trigger] segs@[i]).low == self.id_at(lo as int) || !self.links_prev(
                    self.pos_of(segs@[i].low as int)),
                forall|i: int| 0 <= i < segs.len() ==> self.pos_of((#[trigger] segs@[i]).high as int) + 1 == hi || !self.links_prev(
                    self.pos_of(segs@[i].high as int) + 1),
            decreases hi - k,
        {
            if !self.links_prev_exec(k) {
                let seg = self.make_chain_segment(start, k);
                proof {
                    lemma_covers_push(segs@, self.id_at(lo as int), seg);
                    assert(self.id_at(k - 1) + 1 == self.id_at(k as int));
                }
                segs.push(seg);
                start = k;
            }
            k += 1;
        }
        let seg = self.make_chain_segment(start, hi);
        proof {
            lemma_covers_push(segs@, self.id_at(lo as int), seg);
        }
        segs.push(seg);
        segs
    }

    /// The level-0 segments of a group, in id order.
    pub fn flat_segments(&self, master: bool) -> (r: Vec<Segment>)
        requires
            self.wf(),
        ensures
            covers(r@, self.group_range(master).0, self.group_range(master).1),
            forall|i: int| 0 <= i < r.len() ==> self.is_flat_segment(#[trigger] r@[i]),
    {
        let (lo, hi) = if master {
            (0, self.master_len)
        } else {
            (self.master_len, self.entries.len())
        };
        if lo == hi {
            return Vec::new();
        }
        let segs = self.range_segments(lo, hi);
        proof {
            assert forall|i: int| 0 <= i < segs.len() implies self.is_flat_segment(#[trigger] segs@[i]) by {
                assert(self.is_chain_segment(segs@[i]));
            }
        }
        segs
    }
}

pub proof fn lemma_covers_chain(segs: Seq<Segment>, lo: int, hi: int, i: int, j: int)
    requires
        covers(segs, lo, hi),
        0 <= i <= j < segs.len(),
    ensures
        segs[i].low <= segs[j].high,
    decreases j - i,
{
    assert(segs[j].low <= segs[j].high);
    if i < j {
        lemma_covers_chain(segs, lo, hi, i, j - 1);
        assert(segs[j - 1].high + 1 == segs[j].low);
    }
}

pub proof fn lemma_covers_mono(segs: Seq<Segment>, lo: int, hi: int, i: int, j: int)
    requires
        covers(segs, lo, hi),
        0 <= i <= j < segs.len(),
    ensures
        segs[i].low <= segs[j].high,
        lo <= segs[i].low,
        segs[j].high < hi,
{
    lemma_covers_chain(segs, lo, hi, i, j);
    if i > 0 {
        lemma_covers_chain(segs, lo, hi, 0, i - 1);
        assert(segs[i - 1].high + 1 == segs[i].low);
    }
    if j < segs.len() - 1 {
        lemma_covers_chain(segs, lo, hi, j + 1, segs.len() - 1);
        assert(segs[j].high + 1 == segs[j + 1].low);
    }
}

/// Segments of a cover are in increasing order.
pub proof fn lemma_covers_ordered(segs: Seq<Segment>, lo: int, hi: int, i: int, j: int)
    requires
        covers(segs, lo, hi),
        0 <= i < j < segs.len(),
    ensures
        segs[i].high < segs[j].low,
    decreases j - i,
{
    assert(segs[j - 1].high + 1 == segs[j].low);
    if i < j - 1 {
        lemma_covers_ordered(segs, lo, hi, i, j - 1);
        assert(segs[j - 1].low <= segs[j - 1].high);
    }
}

/// The index of the segment of a cover that holds `k`.
pub open spec fn seg_index(segs: Seq<Segment>, k: int) -> int {
    choose|i: int| 0 <= i < segs.len() && (#[trigger] segs[i]).low <= k <= segs[i].high
}

/// At most one segment of a cover holds `k`.
pub proof fn lemma_covers_unique(segs: Seq<Segment>, lo: int, hi: int, i: int, k: int)
    requires
        covers(segs, lo, hi),
        0 <= i < segs.len(),
        segs[i].low <= k <= segs[i].high,
    ensures
        seg_index(segs, k) == i,
{
    let j = seg_index(segs, k);
    assert(0 <= i < segs.len() && segs[i].low <= k <= segs[i].high);
    assert(0 <= j < segs.len() && segs[j].low <= k <= segs[j].high);
    if j < i {
        lemma_covers_ordered(segs, lo, hi, j, i);
    } else if i < j {
        lemma_covers_ordered(segs, lo, hi, i, j);
    }
}

/// Every id of a covered range is in some segment.
pub proof fn lemma_covers_find(segs: Seq<Segment>, lo: int, hi: int, k: int)
    requires
        covers(segs, lo, hi),
        lo <= k < hi,
    ensures
        0 <= seg_index(segs, k) < segs.len(),
        segs[seg_index(segs, k)].low <= k <= segs[seg_index(segs, k)].high,
    decreases segs.len(),
{
    let last = segs.len() - 1;
    if k >= segs[last].low {
        assert(segs[last].high + 1 == hi);
        lemma_covers_unique(segs, lo, hi, last, k);
    } else {
        let t = segs.drop_last();
        assert(covers(t, lo, segs[last].low as int)) by {
            assert forall|i: int| 0 <= i < t.len() implies #[trigger] t[i].low <= t[i].high by {
                assert(t[i] == segs[i]);
            }
            assert forall|i: int| 0 <= i < t.len() - 1 implies #[trigger] t[i].high + 1 == t[i + 1].low by {
                assert(t[i] == segs[i] && t[i + 1] == segs[i + 1]);
            }
            if t.len() > 0 {
                assert(t[0] == segs[0]);
                assert(segs[last - 1].high + 1 == segs[last].low);
            }
        }
        lemma_covers_find(t, lo, segs[last].low as int, k);
        let i = seg_index(t, k);
        assert(t[i] == segs[i]);
        lemma_covers_unique(segs, lo, hi, i, k);
    }
}

/// The ids of `ps` below `low`, in order.
pub open spec fn below(ps: Seq<u64>, low: u64) -> Seq<u64>
    decreases ps.len(),
{
    if ps.len() == 0 {
        Seq::empty()
    } else {
        below(ps.drop_last(), low) + if ps.last() < low {
            seq![ps.last()]
        } else {
            Seq::empty()
        }
    }
}

/// The parents below `low` of the segments `segs[a..b]`, in order.
pub open spec fn kept_parents(segs: Seq<Segment>, a: int, b: int, low: u64) -> Seq<u64>
    decreases b - a,
{
    if b <= a {
        Seq::empty()
    } else {
        kept_parents(segs, a, b - 1, low) + below(segs[b - 1].parents@, low)
    }
}

/// The index of the first segment in run `g` of runs of `size`.
#[verifier::opaque]
pub open spec fn run_first(size: int, g: int) -> int {
    g * size
}

/// The index of the last segment in run `g` of `n` segments cut into runs
/// of `size`.
pub open spec fn run_last(n: int, size: int, g: int) -> int {
    if run_first(size, g + 1) < n {
        run_first(size, g + 1) - 1
    } else {
        n - 1
    }
}

/// Whether `r` is `segs` merged at `level` in runs of `size`: one segment
/// per run (the last run may be shorter), from the first segment's `low` to
/// the last one's `high`, keeping the parents below that `low` in order.
pub open spec fn merged(segs: Seq<Segment>, size: int, level: u8, r: Seq<Segment>) -> bool {
    &&& run_first(size, r.len() as int) >= segs.len()
    &&& (r.len() == 0 || run_first(size, r.len() - 1) < segs.len())
    &&& forall|g: int| 0 <= g < r.len() ==> {
        &&& (#[trigger] r[g]).level == level
        &&& r[g].low == segs[run_first(size, g)].low
        &&& r[g].high == segs[run_last(segs.len() as int, size, g)].high
        &&& r[g].parents@ == kept_parents(segs, run_first(size, g), run_last(segs.len() as int, size, g) + 1, r[g].low)
    }
}

proof fn lemma_below_push(ps: Seq<u64>, t: int, low: u64)
    requires
        0 <= t < ps.len(),
    ensures
        below(ps.subrange(0, t + 1), low) == below(ps.subrange(0, t), low) + if ps[t] < low {
            seq![ps[t]]
        } else {
            Seq::<u64>::empty()
        },
{
    assert(ps.subrange(0, t + 1).drop_last() =~= ps.subrange(0, t));
}

proof fn lemma_below_all(ps: Seq<u64>, low: u64)
    ensures
        forall|i: int| 0 <= i < below(ps, low).len() ==> #[trigger] below(ps, low)[i] < low,
    decreases ps.len(),
{
    if ps.len() > 0 {
        lemma_below_all(ps.drop_last(), low);
        let k = below(ps, low);
        let k0 = below(ps.drop_last(), low);
        assert forall|i: int| 0 <= i < k.len() implies #[trigger] k[i] < low by {
            if i < k0.len() {
                assert(k[i] == k0[i]);
            }
        }
    }
}

/// The parents below `low` of `segs[i..end]`, in order.
fn collect_parents(segs: &Vec<Segment>, i: usize, end: usize, low: u64) -> (parents: Vec<u64>)
    requires
        i <= end <= segs.len(),
    ensures
        parents@ == kept_parents(segs@, i as int, end as int, low),
{
    let mut parents: Vec<u64> = Vec::new();
    let mut j: usize = i;
    while j < end
        invariant
            i <= j <= end <= segs.len(),
            parents@ == kept_parents(segs@, i as int, j as int, low),
        decreases end - j,
    {
        let ps = &segs[j].parents;
        let mut t: usize = 0;
        while t < ps.len()
            invariant
                i <= j < end <= segs.len(),
                ps == &segs@[j as int].parents,
                t <= ps.len(),
                parents@ == kept_parents(segs@, i as int, j as int, low) + below(ps@.subrange(0, t as int), low),
            decreases ps.len() - t,
        {
            proof {
                lemma_below_push(ps@, t as int, low);
            }
            if ps[t] < low {
                parents.push(ps[t]);
            }
            proof {
                assert(parents@ =~= kept_parents(segs@, i as int, j as int, low) + below(ps@.subrange(0, t + 1), low));
            }
            t += 1;
        }
        proof {
            assert(ps@.subrange(0, ps.len() as int) =~= ps@);
            assert(kept_parents(segs@, i as int, j + 1, low) == kept_parents(segs@, i as int, j as int, low) + below(
                segs@[j as int].parents@,
                low,
            ));
        }
        j += 1;
    }
    parents
}

/// Merges each run of `size` consecutive segments (the last run may be
/// shorter) into one segment of level `level`, keeping the parents that lie
/// below the merged range.
pub fn merge_segments(segs: &Vec<Segment>, size: usize, level: u8) -> (r: Vec<Segment>)
    requires
        size >= 1,
        exists|lo: int, hi: int| covers(segs@, lo, hi),
    ensures
        merged(segs@, size as int, level, r@),
        forall|lo: int, hi: int| covers(segs@, lo, hi) ==> covers(r@, lo, hi),
        forall|i: int| 0 <= i < r.len() ==> (#[trigger] r@[i]).level == level,
        forall|i: int, t: int| 0 <= i < r.len() && 0 <= t < r@[i].parents.len() ==> #[trigger] r@[i].parents@[t]
            < r@[i].low,
        r.len() <= segs.len(),
{
    let ghost (glo, ghi) = choose|lo: int, hi: int| covers(segs@, lo, hi);
    let ghost n = segs.len() as int;
    let mut r: Vec<Segment> = Vec::new();
    let mut i: usize = 0;
    proof {
        reveal(run_first);
    }
    while i < segs.len()
        invariant
            size >= 1,
            n == segs.len(),
            covers(segs@, glo, ghi),
            i <= segs.len(),
            r.len() <= i,
            i < n ==> i == run_first(size as int, r.len() as int),
            run_first(size as int, r.len() as int) >= i,
            r.len() > 0 ==> run_first(size as int, r.len() - 1) < i,
            i < segs.len() ==> covers(r@, glo, segs@[i as int].low as int),
            i == segs.len() ==> covers(r@, glo, ghi),
            forall|g: int| 0 <= g < r.len() ==> {
                &&& (#[trigger] r@[g]).level == level
                &&& r@[g].low == segs@[run_first(size as int, g)].low
                &&& r@[g].high == segs@[run_last(n, size as int, g)].high
                &&& r@[g].parents@ == kept_parents(segs@, run_first(size as int, g), run_last(n, size as int, g) + 1, r@[g].low)
            },
            forall|j: int, t: int| 0 <= j < r.len() && 0 <= t < r@[j].parents.len() ==> #[trigger] r@[j].parents@[t]
                < r@[j].low,
        decreases segs.len() - i,
    {
        let ghost g0 = r.len() as int;
        let end = if segs.len() - i <= size {
            segs.len()
        } else {
            i + size
        };
        proof {
            reveal(run_first);
            assert((g0 + 1) * size == g0 * size + size) by (nonlinear_arith);
            assert(end - 1 == run_last(n, size as int, g0));
        }
        let low = segs[i].low;
        let high = segs[end - 1].high;
        let parents = collect_parents(segs, i, end, low);
        let seg = Segment { level, low, high, parents };
        proof {
            lemma_covers_mono(segs@, glo, ghi, i as int, end - 1);
            lemma_covers_push(r@, glo, seg);
            if end < segs.len() {
                assert(segs@[end - 1].high + 1 == segs@[end as int].low);
            } else {
                assert(segs@[segs.len() - 1].high + 1 == ghi);
            }
            lemma_kept_below(segs@, i as int, end as int, low);
        }
        let ghost r0 = r@;
        r.push(seg);
        proof {
            assert forall|g: int| 0 <= g < r.len() implies {
                &&& (#[trigger] r@[g]).level == level
                &&& r@[g].low == segs@[run_first(size as int, g)].low
                &&& r@[g].high == segs@[run_last(n, size as int, g)].high
                &&& r@[g].parents@ == kept_parents(segs@, run_first(size as int, g), run_last(n, size as int, g) + 1, r@[g].low)
            } by {
                if g < g0 {
                    assert(r@[g] == r0[g]);
                }
            }
        }
        i = end;
    }
    proof {
        assert forall|lo: int, hi: int| covers(segs@, lo, hi) implies covers(r@, lo, hi) by {
            if segs.len() > 0 {
                assert(lo == segs@[0].low && glo == segs@[0].low);
                assert(hi == segs@[segs.len() - 1].high + 1);
            }
        }
    }
    r
}

proof fn lemma_kept_below(segs: Seq<Segment>, a: int, b: int, low: u64)
    ensures
        forall|i: int| 0 <= i < kept_parents(segs, a, b, low).len() ==> #[trigger] kept_parents(segs, a, b, low)[i] < low,
    decreases b - a,
{
    if b > a {
        lemma_kept_below(segs, a, b - 1, low);
        lemma_below_all(segs[b - 1].parents@, low);
        let k = kept_parents(segs, a, b, low);
        let k0 = kept_parents(segs, a, b - 1, low);
        assert forall|i: int| 0 <= i < k.len() implies #[trigger] k[i] < low by {
            if i >= k0.len() {
                assert(k[i] == below(segs[b - 1].parents@, low)[i - k0.len()]);
            }
        }
    }
}

impl NameDag {
    /// The run length used when merging: `segment_size`, at least one.
    pub open spec fn merge_size(&self) -> int {
        if self.segment_size == 0 {
            1
        } else {
            self.segment_size as int
        }
    }

    /// Whether `segs` are a group's segments at `level`: its flat segments
    /// at level 0, and above that the segments of the level below merged in
    /// runs of `merge_size`.
    pub open spec fn level_segments(&self, master: bool, level: nat, segs: Seq<Segment>) -> bool
        decreases level,
    {
        if level == 0 {
            &&& covers(segs, self.group_range(master).0, self.group_range(master).1)
            &&& forall|i: int| 0 <= i < segs.len() ==> self.is_flat_segment(#[trigger] segs[i])
        } else {
            exists|lower: Seq<Segment>|
                self.level_segments(master, (level - 1) as nat, lower) && #[trigger] merged(
                    lower,
                    self.merge_size(),
                    level as u8,
                    segs,
                )
        }
    }

    /// The segments of a group at a level: level 0 as `flat_segments`, each
    /// higher level merging runs of `segment_size` segments (at least one)
    /// of the level below. At every level they cover the group's ids exactly.
    pub fn segments(&self, level: u8, master: bool) -> (r: Vec<Segment>)
        requires
            self.wf(),
        ensures
            covers(r@, self.group_range(master).0, self.group_range(master).1),
            forall|i: int| 0 <= i < r.len() ==> (#[trigger] r@[i]).level == level,
            level == 0 ==> forall|i: int| 0 <= i < r.len() ==> self.is_flat_segment(#[trigger] r@[i]),
            self.level_segments(master, level as nat, r@),
    {
        let size = if self.segment_size == 0 {
            1
        } else {
            self.segment_size
        };
        let mut segs = self.flat_segments(master);
        let mut l: u8 = 0;
        while l < level
            invariant
                self.wf(),
                size >= 1,
                l <= level,
                covers(segs@, self.group_range(master).0, self.group_range(master).1),
                forall|i: int| 0 <= i < segs.len() ==> (#[trigger] segs@[i]).level == l,
                l == 0 ==> forall|i: int| 0 <= i < segs.len() ==> self.is_flat_segment(#[trigger] segs@[i]),
                size == self.merge_size(),
                self.level_segments(master, l as nat, segs@),
            decreases level - l,
        {
            let ghost lower = segs@;
            l += 1;
            segs = merge_segments(&segs, size, l);
            proof {
                assert(merged(lower, self.merge_size(), l, segs@));
                assert(self.level_segments(master, l as nat, segs@));
            }
        }
        segs
    }
}

} // verus!
