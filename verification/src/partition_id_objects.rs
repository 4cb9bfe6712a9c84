//! Serialised objects keyed by their ElementId, found in one pass.
//!
//! Many objects in a `Partitions/*` stream open with `01 00 00 00` and the
//! object's `u64` ElementId. [`find_id_objects`] visits every `01 00 00 00`
//! once and keeps those followed by a wanted id; `01 00 00 00` cannot
//! overlap itself, so it finds exactly what a search per id finds.

use vstd::prelude::*;
use std::collections::BTreeSet;
use crate::bytes::{
    find_from, iter_hits_from, keep_some, le_u32, lemma_iter_hits_none, lemma_iter_hits_skip,
    lemma_iter_hit_occurs, lemma_iter_hits_step, lemma_keep_some_step, le_u64, occurs_at, read_u32,
};

verus! {

broadcast use vstd::std_specs::btree::group_btree_axioms;

/// The bytes an object's ElementId follows.
pub const OBJECT_PREFIX: [u8; 4] = [1, 0, 0, 0];

/// What the prefix found at `at` gives: the id and where its `u64` starts,
/// when the `u64` fits the buffer, has a zero upper half, and its lower
/// half is one of `ids`.
pub open spec fn id_object_at(buf: Seq<u8>, ids: Set<u32>, at: int) -> Option<(u32, int)> {
    let id_at = at + 4;
    if id_at + 8 <= buf.len() && le_u32(buf, id_at + 4) == 0 && ids.contains(
        le_u32(buf, id_at) as u32,
    ) {
        Some((le_u32(buf, id_at) as u32, id_at))
    } else {
        None
    }
}

/// [`id_object_at`] for a fixed buffer and id set.
pub open spec fn id_object_fn(buf: Seq<u8>, ids: Set<u32>) -> spec_fn(int) -> Option<(u32, int)> {
    |at: int| id_object_at(buf, ids, at)
}

/// The pairs as values.
pub open spec fn id_offsets(v: Seq<(u32, usize)>) -> Seq<(u32, int)> {
    v.map_values(|p: (u32, usize)| (p.0, p.1 as int))
}

/// Every `(id, offset)` in `buf` where `01 00 00 00 · u64 id` starts for an
/// id in `ids`; `offset` is where the `u64` id starts. In buffer order.
pub fn find_id_objects(buf: &[u8], ids: &BTreeSet<u32>) -> (r: Vec<(u32, usize)>)
    ensures
        id_offsets(r@) == keep_some(
            iter_hits_from(buf@, OBJECT_PREFIX@, 0),
            id_object_fn(buf@, ids@),
        ),
{
    let prefix = OBJECT_PREFIX;
    let ghost n = prefix@;
    let ghost f = id_object_fn(buf@, ids@);
    assert(n =~= seq![1u8, 0, 0, 0]);
    assert(OBJECT_PREFIX@ =~= seq![1u8, 0, 0, 0]);
    let mut out: Vec<(u32, usize)> = Vec::new();
    let mut cursor: usize = 0;
    let len = buf.len();
    while cursor <= len && len - cursor >= 4
        invariant
            len == buf@.len(),
            n == prefix@,
            n == OBJECT_PREFIX@,
            n.len() == 4,
            f == id_object_fn(buf@, ids@),
            keep_some(iter_hits_from(buf@, n, 0), f) == id_offsets(out@) + keep_some(
                iter_hits_from(buf@, n, cursor as int),
                f,
            ),
        ensures
            iter_hits_from(buf@, n, cursor as int) == Seq::<int>::empty(),
        decreases len + 1 - cursor,
    {
        let at = match find_from(buf, cursor, &prefix) {
            Some(h) => h,
            None => {
                proof {
                    lemma_iter_hits_none(buf@, n, cursor as int);
                }
                break;
            },
        };
        proof {
            lemma_iter_hits_skip(buf@, n, cursor as int, at as int);
            lemma_iter_hits_step(buf@, n, at as int);
            lemma_keep_some_step(iter_hits_from(buf@, n, at as int), f);
            assert((seq![at as int] + iter_hits_from(buf@, n, at + 4)).drop_first()
                =~= iter_hits_from(buf@, n, at + 4));
        }
        let ghost before = out@;
        let id_at = at + 4;
        if len - id_at >= 8 {
            let low = read_u32(buf, id_at).unwrap();
            let high = read_u32(buf, id_at + 4).unwrap();
            if high == 0 && ids.contains(&low) {
                out.push((low, id_at));
                proof {
                    assert(id_offsets(out@) =~= id_offsets(before).push((low, id_at as int)));
                    assert(id_offsets(out@) + keep_some(iter_hits_from(buf@, n, at + 4), f)
                        =~= id_offsets(before) + (seq![(low, id_at as int)] + keep_some(
                        iter_hits_from(buf@, n, at + 4),
                        f,
                    )));
                }
            }
        }
        cursor = at + 4;
    }
    proof {
        assert(id_offsets(out@) + Seq::<(u32, int)>::empty() =~= id_offsets(out@));
    }
    out
}

/// Every object the scan reports is one of the wanted ids, opening with
/// `01 00 00 00` right before its `u64` ElementId.
pub proof fn id_objects_are_wanted(buf: Seq<u8>, ids: Set<u32>, k: int)
    requires
        0 <= k < keep_some(iter_hits_from(buf, OBJECT_PREFIX@, 0), id_object_fn(buf, ids)).len(),
    ensures
        ({
            let (id, off) = keep_some(iter_hits_from(buf, OBJECT_PREFIX@, 0), id_object_fn(buf, ids))[k];
            &&& ids.contains(id)
            &&& 4 <= off && off + 8 <= buf.len()
            &&& buf.subrange(off - 4, off) == OBJECT_PREFIX@
            &&& le_u64(buf, off) == id as int
        }),
{
    let hits = iter_hits_from(buf, OBJECT_PREFIX@, 0);
    let f = id_object_fn(buf, ids);
    crate::bytes::lemma_keep_some_member(hits, f, k);
    let j = choose|j: int| 0 <= j < hits.len() && f(#[trigger] hits[j]) == Some(keep_some(hits, f)[k]);
    lemma_iter_hit_occurs(buf, OBJECT_PREFIX@, 0, j);
}

/// `01 00 00 00` cannot overlap itself, so the non-overlapping scan from
/// `from` reports every occurrence at or after `from`.
proof fn lemma_prefix_found(hay: Seq<u8>, from: int, p: int)
    requires
        0 <= from <= p,
        occurs_at(hay, OBJECT_PREFIX@, p),
    ensures
        iter_hits_from(hay, OBJECT_PREFIX@, from).contains(p),
    decreases hay.len() - from,
{
    let n = OBJECT_PREFIX@;
    assert(n =~= seq![1u8, 0, 0, 0]);
    assert(hay.subrange(p, p + 4)[0] == hay[p]);
    if occurs_at(hay, n, from) {
        let rest = iter_hits_from(hay, n, from + 4);
        assert(iter_hits_from(hay, n, from) == seq![from] + rest);
        if p == from {
            assert((seq![from] + rest)[0] == from);
        } else {
            if p < from + 4 {
                assert(hay.subrange(from, from + 4)[p - from] == hay[p]);
                assert(false);
            }
            lemma_prefix_found(hay, from + 4, p);
            let k = choose|k: int| 0 <= k < rest.len() && rest[k] == p;
            assert((seq![from] + rest)[k + 1] == p);
        }
    } else {
        assert(p != from);
        lemma_prefix_found(hay, from + 1, p);
    }
}

proof fn lemma_kept<V>(hits: Seq<int>, f: spec_fn(int) -> Option<V>, p: int, v: V)
    requires
        hits.contains(p),
        f(p) == Some(v),
    ensures
        keep_some(hits, f).contains(v),
    decreases hits.len(),
{
    let rest = keep_some(hits.drop_first(), f);
    if hits[0] == p {
        assert(keep_some(hits, f) == seq![v] + rest);
        assert((seq![v] + rest)[0] == v);
    } else {
        let k = choose|k: int| 0 <= k < hits.len() && hits[k] == p;
        assert(hits.drop_first()[k - 1] == p);
        lemma_kept(hits.drop_first(), f, p, v);
        let j = choose|j: int| 0 <= j < rest.len() && rest[j] == v;
        match f(hits[0]) {
            Some(w) => {
                assert(keep_some(hits, f) == seq![w] + rest);
                assert((seq![w] + rest)[j + 1] == v);
            },
            None => {},
        }
    }
}

/// One pass finds exactly what a search per id finds: every object
/// `01 00 00 00 · u64 id` of a wanted id in the buffer is reported, at the
/// offset of its id.
pub proof fn every_wanted_object_is_found(buf: Seq<u8>, ids: Set<u32>, off: int)
    requires
        4 <= off,
        off + 8 <= buf.len(),
        buf.subrange(off - 4, off) == OBJECT_PREFIX@,
        le_u32(buf, off + 4) == 0,
        ids.contains(le_u32(buf, off) as u32),
    ensures
        keep_some(iter_hits_from(buf, OBJECT_PREFIX@, 0), id_object_fn(buf, ids)).contains(
            (le_u32(buf, off) as u32, off),
        ),
{
    assert(OBJECT_PREFIX@.len() == 4);
    lemma_prefix_found(buf, 0, off - 4);
    lemma_kept(
        iter_hits_from(buf, OBJECT_PREFIX@, 0),
        id_object_fn(buf, ids),
        off - 4,
        (le_u32(buf, off) as u32, off),
    );
}

} // verus!
