//! The persisted form of a graph: the master boundary, the segment size and
//! every entry (its name, if known, and its parent ids), as little-endian
//! 64-bit words and name bytes. Decoding accepts exactly the encodings of
//! well-formed graphs.
use vstd::prelude::*;
use crate::error::DagError;
use crate::namedag::{Entry, NameDag, NON_MASTER_START, name_view};

verus! {

/// Eight little-endian bytes of `x`.
pub open spec fn enc_u64(x: u64) -> Seq<u8> {
    seq![
        (x & 0xff) as u8,
        ((x >> 8u64) & 0xff) as u8,
        ((x >> 16u64) & 0xff) as u8,
        ((x >> 24u64) & 0xff) as u8,
        ((x >> 32u64) & 0xff) as u8,
        ((x >> 40u64) & 0xff) as u8,
        ((x >> 48u64) & 0xff) as u8,
        ((x >> 56u64) & 0xff) as u8,
    ]
}

/// The word that eight little-endian bytes hold.
pub open spec fn dec_u64(b: Seq<u8>) -> u64 {
    (b[0] as u64) | ((b[1] as u64) << 8u64) | ((b[2] as u64) << 16u64) | ((b[3] as u64) << 24u64) | ((b[4] as u64)
        << 32u64) | ((b[5] as u64) << 40u64) | ((b[6] as u64) << 48u64) | ((b[7] as u64) << 56u64)
}

pub proof fn lemma_dec_enc(x: u64)
    ensures
        dec_u64(enc_u64(x)) == x,
{
    let b = enc_u64(x);
    assert(((x & 0xff) as u8 as u64) | ((((x >> 8u64) & 0xff) as u8 as u64) << 8u64) | ((((x >> 16u64) & 0xff) as u8 as u64)
        << 16u64) | ((((x >> 24u64) & 0xff) as u8 as u64) << 24u64) | ((((x >> 32u64) & 0xff) as u8 as u64) << 32u64)
        | ((((x >> 40u64) & 0xff) as u8 as u64) << 40u64) | ((((x >> 48u64) & 0xff) as u8 as u64) << 48u64) | ((((x
        >> 56u64) & 0xff) as u8 as u64) << 56u64) == x) by (bit_vector);
}

pub proof fn lemma_enc_dec(b: Seq<u8>)
    requires
        b.len() == 8,
    ensures
        enc_u64(dec_u64(b)) == b,
{
    let (b0, b1, b2, b3, b4, b5, b6, b7) = (b[0], b[1], b[2], b[3], b[4], b[5], b[6], b[7]);
    let x = dec_u64(b);
    assert(x == (b0 as u64) | ((b1 as u64) << 8u64) | ((b2 as u64) << 16u64) | ((b3 as u64) << 24u64) | ((b4 as u64)
        << 32u64) | ((b5 as u64) << 40u64) | ((b6 as u64) << 48u64) | ((b7 as u64) << 56u64));
    assert((x & 0xff) as u8 == b0 && ((x >> 8u64) & 0xff) as u8 == b1 && ((x >> 16u64) & 0xff) as u8 == b2 && ((x
        >> 24u64) & 0xff) as u8 == b3 && ((x >> 32u64) & 0xff) as u8 == b4 && ((x >> 40u64) & 0xff) as u8 == b5 && ((x
        >> 48u64) & 0xff) as u8 == b6 && ((x >> 56u64) & 0xff) as u8 == b7) by (bit_vector)
        requires
            x == (b0 as u64) | ((b1 as u64) << 8u64) | ((b2 as u64) << 16u64) | ((b3 as u64) << 24u64) | ((b4 as u64)
                << 32u64) | ((b5 as u64) << 40u64) | ((b6 as u64) << 48u64) | ((b7 as u64) << 56u64),
    ;
    assert(enc_u64(x) =~= b);
}

/// A list of ids, one word each.
pub open spec fn enc_ids(ps: Seq<u64>) -> Seq<u8>
    decreases ps.len(),
{
    if ps.len() == 0 {
        Seq::empty()
    } else {
        enc_u64(ps[0]) + enc_ids(ps.drop_first())
    }
}

/// An entry: a word 0 without a name, or 1, the name's length and its bytes;
/// then the number of parents and the parent ids.
pub open spec fn enc_item(name: Option<Seq<u8>>, ps: Seq<u64>) -> Seq<u8> {
    let head = match name {
        None => enc_u64(0),
        Some(v) => enc_u64(1) + enc_u64(v.len() as u64) + v,
    };
    head + enc_u64(ps.len() as u64) + enc_ids(ps)
}

/// The entries of `d` from position `k` on.
pub open spec fn enc_entries(d: &NameDag, k: int) -> Seq<u8>
    decreases d.len() - k,
{
    if k >= d.len() || k < 0 {
        Seq::empty()
    } else {
        enc_item(d.name_at(k), d.parents_at(k)) + enc_entries(d, k + 1)
    }
}

/// The persisted form of `d`.
pub open spec fn enc_dag(d: &NameDag) -> Seq<u8> {
    enc_u64(d.master_len as u64) + enc_u64(d.segment_size as u64) + enc_u64(d.len() as u64) + enc_entries(d, 0)
}

fn push_u64(out: &mut Vec<u8>, x: u64)
    ensures
        final(out)@ == old(out)@ + enc_u64(x),
{
    out.push((x & 0xff) as u8);
    out.push(((x >> 8u64) & 0xff) as u8);
    out.push(((x >> 16u64) & 0xff) as u8);
    out.push(((x >> 24u64) & 0xff) as u8);
    out.push(((x >> 32u64) & 0xff) as u8);
    out.push(((x >> 40u64) & 0xff) as u8);
    out.push(((x >> 48u64) & 0xff) as u8);
    out.push(((x >> 56u64) & 0xff) as u8);
    assert(final(out)@ =~= old(out)@ + enc_u64(x));
}

fn read_u64(bytes: &Vec<u8>, pos: usize) -> (r: Option<u64>)
    ensures
        r is Some <==> pos + 8 <= bytes.len(),
        r is Some ==> r->0 == dec_u64(bytes@.subrange(pos as int, pos + 8)),
{
    if pos > bytes.len() || bytes.len() - pos < 8 {
        return None;
    }
    let ghost b = bytes@.subrange(pos as int, pos + 8);
    let x = (bytes[pos] as u64) | ((bytes[pos + 1] as u64) << 8u64) | ((bytes[pos + 2] as u64) << 16u64) | ((bytes[pos
        + 3] as u64) << 24u64) | ((bytes[pos + 4] as u64) << 32u64) | ((bytes[pos + 5] as u64) << 40u64) | ((bytes[pos
        + 6] as u64) << 48u64) | ((bytes[pos + 7] as u64) << 56u64);
    assert(b[0] == bytes@[pos as int] && b[1] == bytes@[pos + 1] && b[2] == bytes@[pos + 2] && b[3] == bytes@[pos + 3]
        && b[4] == bytes@[pos + 4] && b[5] == bytes@[pos + 5] && b[6] == bytes@[pos + 6] && b[7] == bytes@[pos + 7]);
    Some(x)
}

impl NameDag {
    /// The persisted form of this graph.
    pub fn to_bytes(&self) -> (r: Vec<u8>)
        requires
            self.wf(),
        ensures
            r@ == enc_dag(self),
    {
        let mut out: Vec<u8> = Vec::new();
        push_u64(&mut out, self.master_len as u64);
        push_u64(&mut out, self.segment_size as u64);
        push_u64(&mut out, self.entries.len() as u64);
        let mut k: usize = 0;
        while k < self.entries.len()
            invariant
                self.wf(),
                k <= self.len(),
                out@ + enc_entries(self, k as int) == enc_dag(self),
            decreases self.len() - k,
        {
            let e = &self.entries[k];
            let ghost before = out@;
            match &e.name {
                None => push_u64(&mut out, 0),
                Some(v) => {
                    push_u64(&mut out, 1);
                    push_u64(&mut out, v.len() as u64);
                    let mut i: usize = 0;
                    let ghost mid = out@;
                    while i < v.len()
                        invariant
                            i <= v.len(),
                            out@ == mid + v@.subrange(0, i as int),
                        decreases v.len() - i,
                    {
                        out.push(v[i]);
                        i += 1;
                        assert(out@ =~= mid + v@.subrange(0, i as int));
                    }
                    assert(v@.subrange(0, v.len() as int) =~= v@);
                },
            }
            let ghost head = out@;
            push_u64(&mut out, e.parents.len() as u64);
            proof {
                assert(e.parents@.subrange(0, e.parents.len() as int) =~= e.parents@);
            }
            let mut t: usize = 0;
            while t < e.parents.len()
                invariant
                    k < self.len(),
                    e == &self.entries@[k as int],
                    t <= e.parents.len(),
                    out@ + enc_ids(e.parents@.subrange(t as int, e.parents.len() as int)) == head + enc_u64(
                        e.parents.len() as u64,
                    ) + enc_ids(e.parents@),
                decreases e.parents.len() - t,
            {
                let ghost rest = e.parents@.subrange(t as int, e.parents.len() as int);
                push_u64(&mut out, e.parents[t]);
                assert(rest.drop_first() =~= e.parents@.subrange(t + 1, e.parents.len() as int));
                t += 1;
            }
            proof {
                assert(e.parents@.subrange(0, e.parents.len() as int) =~= e.parents@);
                assert(e.parents@.subrange(e.parents.len() as int, e.parents.len() as int) =~= Seq::<u64>::empty());
                assert(out@ =~= before + enc_item(self.name_at(k as int), self.parents_at(k as int)));
                assert(enc_entries(self, k as int) == enc_item(self.name_at(k as int), self.parents_at(k as int))
                    + enc_entries(self, k + 1));
                assert(out@ + enc_entries(self, k + 1) =~= before + enc_entries(self, k as int));
            }
            k += 1;
        }
        proof {
            assert(enc_entries(self, k as int) =~= Seq::<u8>::empty());
            assert(out@ =~= enc_dag(self));
        }
        out
    }
}

/// Whether `b` holds `x` from position `pos` on.
pub open spec fn prefix_at(b: Seq<u8>, pos: int, x: Seq<u8>) -> bool {
    0 <= pos && pos + x.len() <= b.len() && b.subrange(pos, pos + x.len()) == x
}

proof fn lemma_prefix_concat(b: Seq<u8>, pos: int, x: Seq<u8>, y: Seq<u8>)
    ensures
        prefix_at(b, pos, x + y) <==> prefix_at(b, pos, x) && prefix_at(b, pos + x.len(), y),
{
    if prefix_at(b, pos, x + y) {
        assert(b.subrange(pos, pos + x.len()) =~= (x + y).subrange(0, x.len() as int));
        assert((x + y).subrange(0, x.len() as int) =~= x);
        assert(b.subrange(pos + x.len(), pos + x.len() + y.len()) =~= (x + y).subrange(x.len() as int, (x + y).len() as int));
        assert((x + y).subrange(x.len() as int, (x + y).len() as int) =~= y);
    }
    if prefix_at(b, pos, x) && prefix_at(b, pos + x.len(), y) {
        assert(b.subrange(pos, pos + (x + y).len()) =~= x + y);
    }
}

proof fn lemma_enc_ids_len(ps: Seq<u64>)
    ensures
        enc_ids(ps).len() == 8 * ps.len(),
    decreases ps.len(),
{
    if ps.len() > 0 {
        lemma_enc_ids_len(ps.drop_first());
    }
}

proof fn lemma_enc_ids_push(ps: Seq<u64>, x: u64)
    ensures
        enc_ids(ps.push(x)) == enc_ids(ps) + enc_u64(x),
    decreases ps.len(),
{
    if ps.len() == 0 {
        assert(ps.push(x).drop_first() =~= Seq::<u64>::empty());
        assert(ps.push(x)[0] == x);
        assert(enc_ids(ps.push(x).drop_first()) =~= Seq::<u8>::empty());
        assert(enc_ids(ps.push(x)) =~= enc_u64(x));
        assert(enc_ids(ps) =~= Seq::<u8>::empty());
        assert(enc_ids(ps) + enc_u64(x) =~= enc_u64(x));
    } else {
        assert(ps.push(x).drop_first() =~= ps.drop_first().push(x));
        lemma_enc_ids_push(ps.drop_first(), x);
        assert(enc_ids(ps.push(x)) =~= enc_ids(ps) + enc_u64(x));
    }
}

proof fn lemma_enc_ids_injective(a: Seq<u64>, b: Seq<u64>)
    requires
        a.len() == b.len(),
        enc_ids(a) == enc_ids(b),
    ensures
        a == b,
    decreases a.len(),
{
    if a.len() > 0 {
        lemma_enc_ids_len(a.drop_first());
        lemma_enc_ids_len(b.drop_first());
        let ea = enc_u64(a[0]) + enc_ids(a.drop_first());
        let eb = enc_u64(b[0]) + enc_ids(b.drop_first());
        assert(ea.subrange(0, 8) =~= enc_u64(a[0]));
        assert(eb.subrange(0, 8) =~= enc_u64(b[0]));
        assert(ea.subrange(8, ea.len() as int) =~= enc_ids(a.drop_first()));
        assert(eb.subrange(8, eb.len() as int) =~= enc_ids(b.drop_first()));
        assert(enc_ids(a) == ea);
        assert(enc_ids(b) == eb);
        lemma_dec_enc(a[0]);
        lemma_dec_enc(b[0]);
        assert(a[0] == b[0]);
        lemma_enc_ids_injective(a.drop_first(), b.drop_first());
        assert forall|i: int| 0 <= i < a.len() implies a[i] == b[i] by {
            if i > 0 {
                assert(a[i] == a.drop_first()[i - 1]);
                assert(b[i] == b.drop_first()[i - 1]);
            }
        }
        assert(a =~= b);
    } else {
        assert(a =~= b);
    }
}

/// Reads `c` ids from position `pos`.
fn parse_ids(bytes: &Vec<u8>, pos: usize, c: u64) -> (r: Option<(Vec<u64>, usize)>)
    requires
        pos <= bytes.len(),
    ensures
        r is Some ==> (r->0).0.len() == c && pos <= (r->0).1 <= bytes.len() && (r->0).1 == pos + enc_ids((r->0).0@).len()
            && prefix_at(bytes@, pos as int, enc_ids((r->0).0@)),
        forall|ps: Seq<u64>| ps.len() == c && #[trigger] prefix_at(bytes@, pos as int, enc_ids(ps)) ==> r is Some
            && (r->0).0@ == ps,
{
    let ghost has = exists|ps: Seq<u64>| ps.len() == c && #[trigger] prefix_at(bytes@, pos as int, enc_ids(ps));
    let ghost ps0 = choose|ps: Seq<u64>| ps.len() == c && #[trigger] prefix_at(bytes@, pos as int, enc_ids(ps));
    let mut ids: Vec<u64> = Vec::new();
    let mut p: usize = pos;
    let mut t: u64 = 0;
    proof {
        assert(bytes@.subrange(pos as int, pos as int) =~= enc_ids(ids@));
        if has {
            assert(ps0.subrange(0, 0) =~= ids@);
            assert(ps0.subrange(0, ps0.len() as int) =~= ps0);
        }
    }
    while t < c
        invariant
            pos <= p <= bytes.len(),
            t <= c,
            ids.len() == t,
            p == pos + enc_ids(ids@).len(),
            prefix_at(bytes@, pos as int, enc_ids(ids@)),
            has == exists|ps: Seq<u64>| ps.len() == c && #[trigger] prefix_at(bytes@, pos as int, enc_ids(ps)),
            has ==> ps0.len() == c && ids@ == ps0.subrange(0, t as int) && prefix_at(bytes@, p as int, enc_ids(
                ps0.subrange(t as int, c as int),
            )),
        decreases c - t,
    {
        let x = match read_u64(bytes, p) {
            Some(x) => x,
            None => {
                proof {
                    assert(!has) by {
                        if has {
                            let rest = ps0.subrange(t as int, c as int);
                            assert(enc_ids(rest) == enc_u64(rest[0]) + enc_ids(rest.drop_first()));
                            lemma_prefix_concat(bytes@, p as int, enc_u64(rest[0]), enc_ids(rest.drop_first()));
                        }
                    }
                    assert forall|ps: Seq<u64>| ps.len() == c && #[trigger] prefix_at(bytes@, pos as int, enc_ids(ps))
                        implies false by {
                        assert(has);
                    }
                }
                return None;
            },
        };
        proof {
            let old_ids = ids@;
            lemma_enc_ids_push(old_ids, x);
            lemma_enc_enc_word(bytes@, p as int);
            lemma_prefix_concat(bytes@, pos as int, enc_ids(old_ids), enc_u64(x));
            if has {
                let rest = ps0.subrange(t as int, c as int);
                assert(enc_ids(rest) == enc_u64(rest[0]) + enc_ids(rest.drop_first()));
                lemma_prefix_concat(bytes@, p as int, enc_u64(rest[0]), enc_ids(rest.drop_first()));
                lemma_dec_enc(rest[0]);
                assert(bytes@.subrange(p as int, p + 8) == enc_u64(rest[0]));
                assert(rest.drop_first() =~= ps0.subrange(t + 1, c as int));
                assert(old_ids.push(x) =~= ps0.subrange(0, t + 1));
            }
        }
        ids.push(x);
        p = p + 8;
        t = t + 1;
    }
    proof {
        assert forall|ps: Seq<u64>| ps.len() == c && #[trigger] prefix_at(bytes@, pos as int, enc_ids(ps)) implies ids@
            == ps by {
            lemma_enc_ids_len(ps);
            lemma_enc_ids_len(ids@);
            lemma_enc_ids_injective(ids@, ps);
        }
    }
    Some((ids, p))
}

/// The eight bytes at `pos` are the encoding of the word they hold.
proof fn lemma_enc_enc_word(b: Seq<u8>, pos: int)
    requires
        0 <= pos,
        pos + 8 <= b.len(),
    ensures
        prefix_at(b, pos, enc_u64(dec_u64(b.subrange(pos, pos + 8)))),
{
    lemma_enc_dec(b.subrange(pos, pos + 8));
}

/// The tag word of an entry: whether it carries a name.
pub open spec fn name_tag(name: Option<Seq<u8>>) -> u64 {
    if name is Some {
        1
    } else {
        0
    }
}

/// The length of the name part of an entry.
pub open spec fn head_len(name: Option<Seq<u8>>) -> int {
    match name {
        None => 8,
        Some(v) => 16 + v.len() as int,
    }
}

/// An encoded entry, taken apart.
proof fn lemma_item_parts(b: Seq<u8>, pos: int, name: Option<Seq<u8>>, ps: Seq<u64>)
    ensures
        prefix_at(b, pos, enc_item(name, ps)) <==> ({
            &&& prefix_at(b, pos, enc_u64(name_tag(name)))
            &&& (name matches Some(v) ==> prefix_at(b, pos + 8, enc_u64(v.len() as u64)) && prefix_at(b, pos + 16, v))
            &&& prefix_at(b, pos + head_len(name), enc_u64(ps.len() as u64))
            &&& prefix_at(b, pos + head_len(name) + 8, enc_ids(ps))
        }),
        enc_item(name, ps).len() == head_len(name) + 8 + enc_ids(ps).len(),
{
    let tail = enc_u64(ps.len() as u64) + enc_ids(ps);
    let head = match name {
        None => enc_u64(0),
        Some(v) => enc_u64(1) + enc_u64(v.len() as u64) + v,
    };
    assert(enc_item(name, ps) =~= head + tail);
    lemma_prefix_concat(b, pos, head, tail);
    lemma_prefix_concat(b, pos + head.len(), enc_u64(ps.len() as u64), enc_ids(ps));
    match name {
        None => {},
        Some(v) => {
            lemma_prefix_concat(b, pos, enc_u64(1) + enc_u64(v.len() as u64), v);
            lemma_prefix_concat(b, pos, enc_u64(1), enc_u64(v.len() as u64));
        },
    }
}

/// Reads one entry from position `pos`.
fn parse_entry(bytes: &Vec<u8>, pos: usize) -> (r: Option<(Entry, usize)>)
    requires
        pos <= bytes.len(),
    ensures
        r is Some ==> pos < (r->0).1 <= bytes.len() && (r->0).1 == pos + enc_item(name_view((r->0).0.name), (r->0).0.parents@).len()
            && prefix_at(bytes@, pos as int, enc_item(name_view((r->0).0.name), (r->0).0.parents@)),
        forall|name: Option<Seq<u8>>, ps: Seq<u64>| #[trigger] prefix_at(bytes@, pos as int, enc_item(name, ps)) ==> r is Some
            && name_view((r->0).0.name) == name && (r->0).0.parents@ == ps,
{
    let flag = match read_u64(bytes, pos) {
        Some(f) => f,
        None => {
            proof {
                assert forall|name: Option<Seq<u8>>, ps: Seq<u64>| #[trigger] prefix_at(bytes@, pos as int, enc_item(name, ps))
                    implies false by {
                    lemma_item_parts(bytes@, pos as int, name, ps);
                }
            }
            return None;
        },
    };
    proof {
        lemma_enc_enc_word(bytes@, pos as int);
        assert forall|name: Option<Seq<u8>>, ps: Seq<u64>| #[trigger] prefix_at(bytes@, pos as int, enc_item(name, ps))
            implies flag == name_tag(name) by {
            lemma_item_parts(bytes@, pos as int, name, ps);
            lemma_dec_enc(name_tag(name));
        }
    }
    let mut p: usize = pos + 8;
    let name: Option<Vec<u8>> = if flag == 0 {
        None
    } else if flag == 1 {
        let l = match read_u64(bytes, p) {
            Some(l) => l,
            None => {
                proof {
                    assert forall|name: Option<Seq<u8>>, ps: Seq<u64>| #[trigger] prefix_at(bytes@, pos as int, enc_item(name, ps))
                        implies false by {
                        lemma_item_parts(bytes@, pos as int, name, ps);
                    }
                }
                return None;
            },
        };
        proof {
            lemma_enc_enc_word(bytes@, p as int);
            assert forall|name: Option<Seq<u8>>, ps: Seq<u64>| #[trigger] prefix_at(bytes@, pos as int, enc_item(name, ps))
                implies name is Some && l == name->0.len() && name->0.len() <= bytes.len() - (p + 8) by {
                lemma_item_parts(bytes@, pos as int, name, ps);
                lemma_dec_enc(name->0.len() as u64);
            }
        }
        p = p + 8;
        if l > (bytes.len() - p) as u64 {
            return None;
        }
        let end = p + l as usize;
        let mut v: Vec<u8> = Vec::new();
        let mut i: usize = p;
        while i < end
            invariant
                p <= i <= end <= bytes.len(),
                v@ == bytes@.subrange(p as int, i as int),
            decreases end - i,
        {
            v.push(bytes[i]);
            i += 1;
            assert(v@ =~= bytes@.subrange(p as int, i as int));
        }
        proof {
            assert forall|name: Option<Seq<u8>>, ps: Seq<u64>| #[trigger] prefix_at(bytes@, pos as int, enc_item(name, ps))
                implies name == Some(v@) by {
                lemma_item_parts(bytes@, pos as int, name, ps);
                assert(name->0 =~= v@);
            }
            assert(prefix_at(bytes@, pos + 8, enc_u64(v@.len() as u64)));
            assert(prefix_at(bytes@, pos + 16, v@));
        }
        p = end;
        Some(v)
    } else {
        proof {
            assert forall|name: Option<Seq<u8>>, ps: Seq<u64>| #[trigger] prefix_at(bytes@, pos as int, enc_item(name, ps))
                implies false by {}
        }
        return None;
    };
    proof {
        assert(p == pos + head_len(name_view(name)));
        assert(prefix_at(bytes@, pos as int, enc_u64(name_tag(name_view(name)))));
        assert forall|nm: Option<Seq<u8>>, ps: Seq<u64>| #[trigger] prefix_at(bytes@, pos as int, enc_item(nm, ps))
            implies nm == name_view(name) by {}
    }
    let c = match read_u64(bytes, p) {
        Some(c) => c,
        None => {
            proof {
                assert forall|nm: Option<Seq<u8>>, ps: Seq<u64>| #[trigger] prefix_at(bytes@, pos as int, enc_item(nm, ps))
                    implies false by {
                    lemma_item_parts(bytes@, pos as int, nm, ps);
                }
            }
            return None;
        },
    };
    proof {
        lemma_enc_enc_word(bytes@, p as int);
        assert forall|nm: Option<Seq<u8>>, ps: Seq<u64>| #[trigger] prefix_at(bytes@, pos as int, enc_item(nm, ps))
            implies ps.len() == c && prefix_at(bytes@, p + 8, enc_ids(ps)) by {
            lemma_item_parts(bytes@, pos as int, nm, ps);
            lemma_enc_ids_len(ps);
            lemma_dec_enc(ps.len() as u64);
        }
    }
    let q = p + 8;
    match parse_ids(bytes, q, c) {
        Some((ids, end)) => {
            let e = Entry { name, parents: ids };
            proof {
                lemma_enc_dec(bytes@.subrange(p as int, p + 8));
                assert(enc_u64(e.parents@.len() as u64) == enc_u64(c));
                lemma_item_parts(bytes@, pos as int, name_view(e.name), e.parents@);
                assert forall|nm: Option<Seq<u8>>, ps: Seq<u64>| #[trigger] prefix_at(bytes@, pos as int, enc_item(nm, ps))
                    implies name_view(e.name) == nm && e.parents@ == ps by {
                    assert(ps.len() == c && prefix_at(bytes@, q as int, enc_ids(ps)));
                }
            }
            Some((e, end))
        },
        None => {
            proof {
                assert forall|nm: Option<Seq<u8>>, ps: Seq<u64>| #[trigger] prefix_at(bytes@, pos as int, enc_item(nm, ps))
                    implies false by {
                    assert(ps.len() == c && prefix_at(bytes@, q as int, enc_ids(ps)));
                }
            }
            None
        },
    }
}

impl NameDag {
    /// Whether this graph is well-formed.
    pub fn is_well_formed(&self) -> (r: bool)
        ensures
            r == self.wf(),
    {
        let n = self.entries.len();
        let m = self.master_len;
        if m > n || n as u64 >= NON_MASTER_START {
            return false;
        }
        let mut k: usize = 0;
        while k < n
            invariant
                n == self.len(),
                m == self.master_len,
                m <= n < NON_MASTER_START,
                k <= n,
                forall|j: int, t: int| 0 <= j < k && 0 <= t < self.parents_at(j).len() ==> {
                    &&& self.has_id(#[trigger] self.parents_at(j)[t] as int)
                    &&& self.pos_of(self.parents_at(j)[t] as int) < j
                },
            decreases n - k,
        {
            let ps = &self.entries[k].parents;
            let mut t: usize = 0;
            while t < ps.len()
                invariant
                    n == self.len(),
                    m == self.master_len,
                    m <= n < NON_MASTER_START,
                    k < n,
                    ps == &self.entries@[k as int].parents,
                    t <= ps.len(),
                    forall|j: int, u: int| 0 <= j < k && 0 <= u < self.parents_at(j).len() ==> {
                        &&& self.has_id(#[trigger] self.parents_at(j)[u] as int)
                        &&& self.pos_of(self.parents_at(j)[u] as int) < j
                    },
                    forall|u: int| 0 <= u < t ==> {
                        &&& self.has_id(#[trigger] self.parents_at(k as int)[u] as int)
                        &&& self.pos_of(self.parents_at(k as int)[u] as int) < k
                    },
                decreases ps.len() - t,
            {
                let p = ps[t];
                let ok = if p < NON_MASTER_START {
                    p < m as u64 && p < k as u64
                } else {
                    let d = p - NON_MASTER_START;
                    d < (n - m) as u64 && (m as u64) + d < k as u64
                };
                if !ok {
                    proof {
                        assert(self.parents_at(k as int)[t as int] == p);
                    }
                    return false;
                }
                t += 1;
            }
            k += 1;
        }
        let mut k2: usize = m;
        while k2 < n
            invariant
                n == self.len(),
                m == self.master_len,
                m <= k2 <= n,
                forall|j: int| m <= j < k2 ==> (#[trigger] self.name_at(j)) is Some,
            decreases n - k2,
        {
            if self.entries[k2].name.is_none() {
                proof {
                    assert(self.name_at(k2 as int) is None);
                }
                return false;
            }
            k2 += 1;
        }
        let mut a: usize = 0;
        while a < n
            invariant
                n == self.len(),
                a <= n,
                forall|x: int, y: int|
                    0 <= x < n && 0 <= y < n && (x < a || y < a) && (#[trigger] self.name_at(x)) is Some && self.name_at(x)
                        == #[trigger] self.name_at(y) ==> x == y,
            decreases n - a,
        {
            if let Some(va) = &self.entries[a].name {
                let mut b: usize = 0;
                while b < n
                    invariant
                        n == self.len(),
                        a < n,
                        b <= n,
                        self.name_at(a as int) == Some(va@),
                        forall|x: int, y: int|
                            0 <= x < n && 0 <= y < n && (x < a || y < a) && (#[trigger] self.name_at(x)) is Some
                                && self.name_at(x) == #[trigger] self.name_at(y) ==> x == y,
                        forall|y: int| 0 <= y < b && y != a ==> #[trigger] self.name_at(y) != Some(va@),
                    decreases n - b,
                {
                    if b != a {
                        if let Some(vb) = &self.entries[b].name {
                            if crate::namedag::same_bytes(va, vb) {
                                proof {
                                    assert(self.name_at(b as int) == Some(vb@));
                                }
                                return false;
                            }
                        }
                    }
                    b += 1;
                }
            }
            a += 1;
        }
        true
    }
}

/// Whether two graphs hold the same entries and settings.
pub open spec fn same_state(a: &NameDag, b: &NameDag) -> bool {
    &&& a.len() == b.len()
    &&& a.master_len == b.master_len
    &&& a.segment_size == b.segment_size
    &&& forall|k: int| 0 <= k < a.len() ==> #[trigger] a.name_at(k) == b.name_at(k) && a.parents_at(k) == b.parents_at(k)
}

/// Whether `es` are encoded in `bytes` one after another, entry `i`
/// starting at `st[i]`.
pub open spec fn laid_out(bytes: Seq<u8>, es: Seq<Entry>, st: Seq<usize>) -> bool {
    &&& st.len() == es.len() + 1
    &&& forall|i: int| 0 <= i < es.len() ==> #[trigger] prefix_at(bytes, st[i] as int, enc_item(name_view(es[i].name), es[i].parents@))
        && st[i + 1] == st[i] + enc_item(name_view(es[i].name), es[i].parents@).len()
}

/// Whether `es` holds the entries of `d` below `k`.
pub open spec fn holds_entries(es: Seq<Entry>, d: &NameDag, k: int) -> bool {
    forall|i: int| 0 <= i < k ==> name_view(#[trigger] es[i].name) == d.name_at(i) && es[i].parents@ == d.parents_at(i)
}

proof fn lemma_split_item(bytes: Seq<u8>, pos: int, it: Seq<u8>, rest: Seq<u8>)
    requires
        0 <= pos <= bytes.len(),
        bytes.subrange(pos, bytes.len() as int) == it + rest,
    ensures
        prefix_at(bytes, pos, it),
        bytes.subrange(pos + it.len(), bytes.len() as int) == rest,
{
    assert(bytes.subrange(pos, pos + it.len()) =~= (it + rest).subrange(0, it.len() as int));
    assert((it + rest).subrange(0, it.len() as int) =~= it);
    assert(bytes.subrange(pos + it.len(), bytes.len() as int) =~= (it + rest).subrange(it.len() as int, (it + rest).len() as int));
    assert((it + rest).subrange(it.len() as int, (it + rest).len() as int) =~= rest);
}

/// Reads `n` entries from position 24 on.
#[verifier::rlimit(40)]
fn parse_entries(bytes: &Vec<u8>, n: u64) -> (r: Option<(Vec<Entry>, Vec<usize>)>)
    requires
        24 <= bytes.len(),
    ensures
        r is Some ==> (r->0).0.len() == n && laid_out(bytes@, (r->0).0@, (r->0).1@) && (r->0).1@[0] == 24
            && (r->0).1@[n as int] <= bytes.len(),
        forall|d: NameDag| d.wf() && #[trigger] enc_dag(&d) == bytes@ && n == d.len() && bytes@.subrange(24, bytes.len() as int)
            == enc_entries(&d, 0) ==> r is Some && holds_entries((r->0).0@, &d, n as int) && (r->0).1@[n as int] == bytes.len(),
{
    let mut pos: usize = 24;
    let mut es: Vec<Entry> = Vec::new();
    let mut st: Vec<usize> = vec![24];
    while (es.len() as u64) < n
        invariant
            24 <= pos <= bytes.len(),
            es.len() <= n,
            es.len() <= pos,
            st@[0] == 24,
            st@[es.len() as int] == pos,
            laid_out(bytes@, es@, st@),
            forall|d: NameDag| d.wf() && #[trigger] enc_dag(&d) == bytes@ && n == d.len() && bytes@.subrange(24, bytes.len() as int)
                == enc_entries(&d, 0) ==> bytes@.subrange(pos as int, bytes.len() as int) == enc_entries(&d, es.len() as int)
                && holds_entries(es@, &d, es.len() as int),
        decreases bytes.len() - pos,
    {
        let k = es.len();
        proof {
            assert forall|d: NameDag| d.wf() && #[trigger] enc_dag(&d) == bytes@ && n == d.len() && bytes@.subrange(24, bytes.len() as int)
                == enc_entries(&d, 0) implies prefix_at(bytes@, pos as int, enc_item(d.name_at(k as int), d.parents_at(k as int)))
                && bytes@.subrange(pos + enc_item(d.name_at(k as int), d.parents_at(k as int)).len(), bytes.len() as int)
                == enc_entries(&d, k + 1) by {
                assert(enc_entries(&d, k as int) == enc_item(d.name_at(k as int), d.parents_at(k as int)) + enc_entries(&d, k + 1));
                lemma_split_item(bytes@, pos as int, enc_item(d.name_at(k as int), d.parents_at(k as int)), enc_entries(&d, k + 1));
            }
        }
        match parse_entry(bytes, pos) {
            Some((e, end)) => {
                let ghost es0 = es@;
                let ghost st0 = st@;
                es.push(e);
                st.push(end);
                proof {
                    assert forall|i: int| 0 <= i < es.len() implies #[trigger] prefix_at(bytes@, st@[i] as int, enc_item(name_view(es@[i].name), es@[i].parents@))
                        && st@[i + 1] == st@[i] + enc_item(name_view(es@[i].name), es@[i].parents@).len() by {
                        if i < k {
                            assert(es@[i] == es0[i]);
                            assert(st@[i] == st0[i] && st@[i + 1] == st0[i + 1]);
                            assert(prefix_at(bytes@, st0[i] as int, enc_item(name_view(es0[i].name), es0[i].parents@)));
                        } else {
                            assert(es@[i] == e);
                            assert(st@[i] == pos && st@[i + 1] == end);
                        }
                    }
                    assert forall|d: NameDag| d.wf() && #[trigger] enc_dag(&d) == bytes@ && n == d.len() && bytes@.subrange(24, bytes.len() as int)
                        == enc_entries(&d, 0) implies holds_entries(es@, &d, es.len() as int) by {
                        assert forall|i: int| 0 <= i < es.len() implies name_view(#[trigger] es@[i].name) == d.name_at(i)
                            && es@[i].parents@ == d.parents_at(i) by {
                            if i < k {
                                assert(es@[i] == es0[i]);
                                assert(holds_entries(es0, &d, k as int));
                            } else {
                                assert(es@[i] == e);
                            }
                        }
                    }
                }
                pos = end;
            },
            None => {
                return None;
            },
        }
    }
    proof {
        assert forall|d: NameDag| d.wf() && #[trigger] enc_dag(&d) == bytes@ && n == d.len() && bytes@.subrange(24, bytes.len() as int)
            == enc_entries(&d, 0) implies pos == bytes.len() by {
            assert(enc_entries(&d, es.len() as int) =~= Seq::<u8>::empty());
        }
    }
    Some((es, st))
}

proof fn lemma_enc_entries_laid_out(d: &NameDag, bytes: Seq<u8>, st: Seq<usize>, j: int)
    requires
        0 <= j <= d.len(),
        st.len() == d.len() + 1,
        st[d.len() as int] == bytes.len(),
        forall|i: int| 0 <= i < d.len() ==> #[trigger] prefix_at(bytes, st[i] as int, enc_item(d.name_at(i), d.parents_at(i)))
            && st[i + 1] == st[i] + enc_item(d.name_at(i), d.parents_at(i)).len(),
    ensures
        bytes.subrange(st[j] as int, bytes.len() as int) == enc_entries(d, j),
    decreases d.len() - j,
{
    if j == d.len() {
        assert(bytes.subrange(st[j] as int, bytes.len() as int) =~= Seq::<u8>::empty());
    } else {
        lemma_enc_entries_laid_out(d, bytes, st, j + 1);
        assert(prefix_at(bytes, st[j] as int, enc_item(d.name_at(j), d.parents_at(j))));
        assert(bytes.subrange(st[j] as int, bytes.len() as int) =~= bytes.subrange(st[j] as int, st[j + 1] as int) + bytes.subrange(
            st[j + 1] as int,
            bytes.len() as int,
        ));
    }
}

/// The header of an encoding, taken apart.
proof fn lemma_header(d: &NameDag, bytes: Seq<u8>)
    requires
        enc_dag(d) == bytes,
    ensures
        bytes.len() >= 24,
        dec_u64(bytes.subrange(0, 8)) == d.master_len as u64,
        dec_u64(bytes.subrange(8, 16)) == d.segment_size as u64,
        dec_u64(bytes.subrange(16, 24)) == d.len() as u64,
        bytes.subrange(24, bytes.len() as int) == enc_entries(d, 0),
{
    assert(bytes.subrange(0, 8) =~= enc_u64(d.master_len as u64));
    assert(bytes.subrange(8, 16) =~= enc_u64(d.segment_size as u64));
    assert(bytes.subrange(16, 24) =~= enc_u64(d.len() as u64));
    assert(bytes.subrange(24, bytes.len() as int) =~= enc_entries(d, 0));
    lemma_dec_enc(d.master_len as u64);
    lemma_dec_enc(d.segment_size as u64);
    lemma_dec_enc(d.len() as u64);
}

/// Reads a persisted graph. Succeeds exactly on the encodings of
/// well-formed graphs, and then gives back that graph's entries and
/// settings; fails with `PersistenceFailure` on anything else.
pub fn from_bytes(bytes: &Vec<u8>) -> (r: Result<NameDag, DagError>)
    ensures
        r is Ok ==> r->Ok_0.wf() && enc_dag(&r->Ok_0) == bytes@,
        forall|d: NameDag| d.wf() && #[trigger] enc_dag(&d) == bytes@ ==> r is Ok && same_state(&r->Ok_0, &d),
        r is Err ==> r == Err::<NameDag, DagError>(DagError::PersistenceFailure),
{
    proof {
        assert forall|d: NameDag| d.wf() && #[trigger] enc_dag(&d) == bytes@ implies bytes.len() >= 24 by {
            lemma_header(&d, bytes@);
        }
    }
    if bytes.len() < 24 {
        return Err(DagError::PersistenceFailure);
    }
    let m = read_u64(bytes, 0).unwrap();
    let ss = read_u64(bytes, 8).unwrap();
    let n = read_u64(bytes, 16).unwrap();
    proof {
        assert forall|d: NameDag| d.wf() && #[trigger] enc_dag(&d) == bytes@ implies m == d.master_len as u64 && ss
            == d.segment_size as u64 && n == d.len() as u64 && bytes@.subrange(24, bytes.len() as int) == enc_entries(&d, 0) by {
            lemma_header(&d, bytes@);
        }
    }
    let (es, st) = match parse_entries(bytes, n) {
        Some(x) => x,
        None => {
            return Err(DagError::PersistenceFailure);
        },
    };
    if st[es.len()] != bytes.len() || m > n || ss > usize::MAX as u64 {
        return Err(DagError::PersistenceFailure);
    }
    let d1 = NameDag { entries: es, master_len: m as usize, segment_size: ss as usize };
    proof {
        assert forall|d: NameDag| d.wf() && #[trigger] enc_dag(&d) == bytes@ implies same_state(&d1, &d) && d1.wf() by {
            assert(holds_entries(d1.entries@, &d, n as int));
            assert forall|k: int| 0 <= k < d1.len() implies #[trigger] d1.name_at(k) == d.name_at(k) && d1.parents_at(k)
                == d.parents_at(k) by {
                assert(name_view(d1.entries@[k].name) == d.name_at(k));
            }
            crate::protocol::lemma_same_views_wf(&d, &d1);
        }
    }
    if !d1.is_well_formed() {
        return Err(DagError::PersistenceFailure);
    }
    proof {
        assert forall|i: int| 0 <= i < d1.len() implies #[trigger] prefix_at(bytes@, st@[i] as int, enc_item(d1.name_at(i), d1.parents_at(i)))
            && st@[i + 1] == st@[i] + enc_item(d1.name_at(i), d1.parents_at(i)).len() by {
            assert(prefix_at(bytes@, st@[i] as int, enc_item(name_view(d1.entries@[i].name), d1.entries@[i].parents@)));
        }
        lemma_enc_entries_laid_out(&d1, bytes@, st@, 0);
        lemma_enc_dec(bytes@.subrange(0, 8));
        lemma_enc_dec(bytes@.subrange(8, 16));
        lemma_enc_dec(bytes@.subrange(16, 24));
        assert(bytes@ =~= bytes@.subrange(0, 8) + bytes@.subrange(8, 16) + bytes@.subrange(16, 24) + bytes@.subrange(
            24,
            bytes.len() as int,
        ));
        assert(enc_dag(&d1) =~= bytes@);
    }
    Ok(d1)
}

} // verus!
