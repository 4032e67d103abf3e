//! Pulling along the master group: the server hands out the master ids
//! after an old head up to a new one, and the client appends them.
use vstd::prelude::*;
use crate::clone::{extended, holds_segments, segs_end, lemma_chains_give_parents, lemma_reaches_same};
use crate::namedag::{NameDag, Vertex};
use crate::error::DagError;
use crate::segment::{Segment, covers};

verus! {

/// The master ids after `base - 1` up to a new master head, as chains,
/// with the names of the last id of each chain where the server knows it.
pub struct PullFastForwardData {
    pub base: u64,
    pub flat_segments: Vec<Segment>,
    pub idmap: Vec<(u64, Vertex)>,
}

/// Whether `data` describes `d`'s master ids `a + 1..=b`.
pub open spec fn pulled(d: &NameDag, a: int, b: int, data: &PullFastForwardData) -> bool {
    &&& 0 <= a <= b < d.master_len
    &&& data.base == a + 1
    &&& covers(data.flat_segments@, a + 1, b + 1)
    &&& forall|i: int| 0 <= i < data.flat_segments.len() ==> d.is_chain_segment(#[trigger] data.flat_segments@[i])
    &&& forall|i: int| 0 <= i < data.idmap.len() ==> a < (#[trigger] data.idmap@[i]).0 <= b && d.name_of_id(
        data.idmap@[i].0 as int,
    ) == Some(data.idmap@[i].1@)
    &&& forall|i: int, j: int| 0 <= i < j < data.idmap.len() ==> (#[trigger] data.idmap@[i]).0 < (#[trigger] data.idmap@[j]).0
    &&& forall|i: int| 0 <= i < data.flat_segments.len() && d.name_of_id((#[trigger] data.flat_segments@[i]).high as int) is Some
        ==> exists|j: int| 0 <= j < data.idmap.len() && (#[trigger] data.idmap@[j]).0 == data.flat_segments@[i].high
}

impl NameDag {
    /// The data that moves a client whose master group ends at
    /// `old_master` to `new_master`. Fails with `NotFound` when a head is
    /// unknown, and with `FastForwardAssumptionViolated` unless both are
    /// master and `old_master` is an ancestor of `new_master`.
    pub fn pull_fast_forward_master(&self, old_master: &Vertex, new_master: &Vertex) -> (r: Result<
        PullFastForwardData,
        DagError,
    >)
        requires
            self.wf(),
        ensures
            r == Err::<PullFastForwardData, DagError>(DagError::NotFound) <==> !self.knows(old_master@) || !self.knows(
                new_master@,
            ),
            r == Err::<PullFastForwardData, DagError>(DagError::FastForwardAssumptionViolated) <==> self.knows(old_master@)
                && self.knows(new_master@) && !(self.pos_of_name(old_master@) < self.master_len && self.pos_of_name(
                new_master@,
            ) < self.master_len && self.reaches(self.pos_of_name(old_master@), self.pos_of_name(new_master@))),
            r is Err ==> r == Err::<PullFastForwardData, DagError>(DagError::NotFound) || r == Err::<
                PullFastForwardData,
                DagError,
            >(DagError::FastForwardAssumptionViolated),
            r is Ok ==> pulled(self, self.pos_of_name(old_master@), self.pos_of_name(new_master@), &r->Ok_0),
    {
        let ka = match self.find_name(old_master) {
            Some(k) => k,
            None => {
                return Err(DagError::NotFound);
            },
        };
        let kb = match self.find_name(new_master) {
            Some(k) => k,
            None => {
                return Err(DagError::NotFound);
            },
        };
        if ka >= self.master_len || kb >= self.master_len {
            return Err(DagError::FastForwardAssumptionViolated);
        }
        let marks = self.ancestor_marks(kb);
        if !marks[ka] {
            return Err(DagError::FastForwardAssumptionViolated);
        }
        proof {
            crate::flush::lemma_reaches_le(self, ka as int, kb as int);
        }
        let segs = if ka < kb {
            self.range_segments(ka + 1, kb + 1)
        } else {
            Vec::new()
        };
        let mut idmap: Vec<(u64, Vertex)> = Vec::new();
        let mut i: usize = 0;
        while i < segs.len()
            invariant
                self.wf(),
                ka <= kb < self.master_len,
                covers(segs@, ka + 1, kb + 1),
                forall|j: int| 0 <= j < segs.len() ==> self.is_chain_segment(#[trigger] segs@[j]),
                i <= segs.len(),
                forall|j: int| 0 <= j < idmap.len() ==> ka < (#[trigger] idmap@[j]).0 <= kb && self.name_of_id(
                    idmap@[j].0 as int,
                ) == Some(idmap@[j].1@),
                forall|a: int, b: int| 0 <= a < b < idmap.len() ==> (#[trigger] idmap@[a]).0 < (#[trigger] idmap@[b]).0,
                forall|j: int| 0 <= j < idmap.len() ==> (#[trigger] idmap@[j]).0 < (if i == 0 { ka + 1 } else { segs@[i - 1].high + 1 }),
                forall|a: int| 0 <= a < i && self.name_of_id((#[trigger] segs@[a]).high as int) is Some ==> exists|j: int|
                    0 <= j < idmap.len() && (#[trigger] idmap@[j]).0 == segs@[a].high,
            decreases segs.len() - i,
        {
            let high = segs[i].high;
            proof {
                crate::segment::lemma_covers_mono(segs@, ka + 1, kb + 1, i as int, i as int);
                if i > 0 {
                    assert(segs@[i - 1].high + 1 == segs@[i as int].low);
                }
            }
            let ghost idmap0 = idmap@;
            match self.vertex_name_local(high) {
                Some(v) => {
                    idmap.push((high, v));
                    proof {
                        assert(idmap@[idmap.len() - 1].0 == high);
                        assert forall|a: int| 0 <= a < i + 1 && self.name_of_id((#[trigger] segs@[a]).high as int) is Some implies exists|j: int|
                            0 <= j < idmap.len() && (#[trigger] idmap@[j]).0 == segs@[a].high by {
                            if a < i {
                                let j = choose|j: int| 0 <= j < idmap0.len() && (#[trigger] idmap0[j]).0 == segs@[a].high;
                                assert(idmap@[j] == idmap0[j]);
                            }
                        }
                    }
                },
                None => {},
            }
            i += 1;
        }
        Ok(PullFastForwardData { base: (ka + 1) as u64, flat_segments: segs, idmap })
    }

    /// Applies pull data: the master group grows by the ids it describes.
    /// Fails with `ImportError`, changing nothing, when the data does not
    /// start at this graph's master end, or is not valid here.
    pub fn import_pull_data(&mut self, data: &PullFastForwardData) -> (r: Result<(), DagError>)
        requires
            old(self).wf(),
        ensures
            final(self).wf(),
            r is Ok <==> ({
                let m = old(self).master_len as int;
                let n = segs_end(data.flat_segments@, m);
                &&& data.base == m
                &&& crate::clone::segments_valid(data.flat_segments@, m, n)
                &&& crate::clone::idmap_valid(data.idmap@, m, n)
                &&& crate::clone::idmap_fresh(old(self), data.idmap@)
                &&& old(self).len() + (n - m) < crate::namedag::NON_MASTER_START
            }),
            r is Err ==> r == Err::<(), DagError>(DagError::ImportError) && final(self).entries@ == old(self).entries@
                && final(self).master_len == old(self).master_len,
            r is Ok ==> extended(
                old(self),
                final(self),
                data.flat_segments@,
                data.idmap@,
                segs_end(data.flat_segments@, old(self).master_len as int),
            ),
    {
        if data.base != self.master_len as u64 {
            return Err(DagError::ImportError);
        }
        match self.extend_master(&data.flat_segments, &data.idmap) {
            Ok(d) => {
                *self = d;
                Ok(())
            },
            Err(e) => Err(e),
        }
    }
}

/// Fast-forward equivalence: a client whose master group is the server's
/// up to `a`, after applying the server's pull data from `a` to `b`, has
/// the server's master ids up to `b` with the same parents and ancestry, as
/// a clone of the server cut at `b` has, and no name that differs from the
/// server's.
pub proof fn lemma_pull_matches_truncated_clone(
    server: &NameDag,
    a: int,
    b: int,
    data: &PullFastForwardData,
    client: &NameDag,
    after: &NameDag,
)
    requires
        server.wf(),
        client.wf(),
        after.wf(),
        pulled(server, a, b, data),
        client.master_len == a + 1,
        forall|k: int| 0 <= k <= a ==> #[trigger] client.parents_at(k) == server.parents_at(k),
        extended(client, after, data.flat_segments@, data.idmap@, segs_end(data.flat_segments@, a + 1)),
    ensures
        after.master_len == b + 1,
        forall|k: int| 0 <= k <= b ==> #[trigger] after.parents_at(k) == server.parents_at(k),
        forall|k: int| a < k <= b && (#[trigger] after.name_at(k)) is Some ==> after.name_at(k) == server.name_at(k),
        forall|x: int, y: int| 0 <= x && y <= b ==> #[trigger] after.reaches(x, y) == server.reaches(x, y),
{
    let segs = data.flat_segments@;
    if segs.len() > 0 {
        assert(segs[segs.len() - 1].high + 1 == b + 1);
    }
    assert forall|k: int| 0 <= k <= b implies #[trigger] after.parents_at(k) == server.parents_at(k) by {
        if k <= a {
            assert(after.name_at(k) == client.name_at(k) && after.parents_at(k) == client.parents_at(k));
        } else {
            lemma_chains_give_parents(server, segs, a + 1, b + 1, k);
            assert(holds_segments(after, segs, data.idmap@, a + 1, b + 1));
            assert(after.parents_at(k) == crate::clone::seg_parents(segs, k));
        }
    }
    assert forall|k: int| a < k <= b && (#[trigger] after.name_at(k)) is Some implies after.name_at(k) == server.name_at(k) by {
        assert(after.parents_at(k) == crate::clone::seg_parents(segs, k));
        let i = choose|i: int| 0 <= i < data.idmap.len() && (#[trigger] data.idmap@[i]).0 == k;
        assert(server.name_of_id(k) == Some(data.idmap@[i].1@));
    }
    assert forall|x: int, y: int| 0 <= x && y <= b implies #[trigger] after.reaches(x, y) == server.reaches(x, y) by {
        lemma_reaches_same(after, server, b + 1, x, y);
    }
}

} // verus!
