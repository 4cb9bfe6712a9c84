//! Family and type names from partition name entries: `u64 ElementId · u32
//! n · n UTF-16 units · i64 BuiltInCategory`. An element's type is the one
//! id in its reference list with a name entry of the element's category;
//! the type's own partition record names its family the same way.

use vstd::prelude::*;
use std::collections::{BTreeMap, BTreeSet};
use crate::bytes::{
    find_from, iter_hits_from, keep_some, le_u16, le_u32, le_u64, lemma_iter_hits_none,
    lemma_iter_hits_skip, lemma_iter_hits_step, lemma_keep_some_step, read_u16, read_u32, read_u64,
};
use crate::partition_element_records::{
    as_signed, bbox_marker, partition_record_chain, spec_bbox_marker, spec_chain_from,
    spec_record_prologue_constant, to_signed, PartitionRecordSpan, BUILTIN_CATEGORY_MAX,
    BUILTIN_CATEGORY_MIN,
};
use crate::partitions::{partition_views, InflatedPartition};
use crate::text::{any_control, chars_of, from_utf16, has_control, trim, trim_chars, utf16_decode};

verus! {

broadcast use vstd::std_specs::btree::group_btree_axioms;

/// Longest name, in UTF-16 code units, a name entry is searched for.
pub const NAME_MAX_UNITS: usize = 256;

/// One partition name entry.
#[derive(Debug, Clone, PartialEq, Eq)]
pub struct NameEntry {
    /// The ElementId the name belongs to.
    pub element_id: u32,
    /// The name as stored.
    pub name: String,
    /// The element's `BuiltInCategory`.
    pub builtin_category: i64,
}

/// What a [`NameEntry`] holds, as values.
pub struct NameEntryView {
    pub element_id: u32,
    pub name: Seq<char>,
    pub builtin_category: i64,
}

impl View for NameEntry {
    type V = NameEntryView;

    open spec fn view(&self) -> NameEntryView {
        NameEntryView {
            element_id: self.element_id,
            name: self.name@,
            builtin_category: self.builtin_category,
        }
    }
}

/// Names by ElementId, with the family candidates of each named type.
#[derive(Debug, Clone)]
pub struct ElementNames {
    /// Every declared ElementId with exactly one name entry.
    pub entries: BTreeMap<u32, NameEntry>,
    /// Named ids that are family candidates of each named type: the named
    /// ids of the type's category found in the type's own partition record.
    pub type_family_candidates: BTreeMap<u32, BTreeSet<u32>>,
}

impl Default for ElementNames {
    /// No entry and no candidate.
    fn default() -> (r: ElementNames)
        ensures
            r.entries@ == Map::<u32, NameEntry>::empty(),
            r.type_family_candidates@ == Map::<u32, BTreeSet<u32>>::empty(),
    {
        ElementNames { entries: BTreeMap::new(), type_family_candidates: BTreeMap::new() }
    }
}

/// The views of a list of entries.
pub open spec fn entry_views(v: Seq<NameEntry>) -> Seq<NameEntryView> {
    v.map_values(|e: NameEntry| e@)
}

/// Whether some entry names `id`.
pub open spec fn has_entry(entries: Seq<NameEntryView>, id: u32) -> bool {
    exists|i: int| 0 <= i < entries.len() && #[trigger] entries[i].element_id == id
}

/// Whether every entry naming `id` is the same entry.
pub open spec fn entries_agree(entries: Seq<NameEntryView>, id: u32) -> bool {
    forall|i: int, j: int|
        0 <= i < entries.len() && 0 <= j < entries.len() && entries[i].element_id == id
            && entries[j].element_id == id ==> #[trigger] entries[i] == #[trigger] entries[j]
}

/// Whether `m` keeps exactly the ids whose entries all agree, each with
/// that entry.
pub open spec fn keeps_unique(m: Map<u32, NameEntry>, entries: Seq<NameEntryView>) -> bool {
    &&& forall|id: u32| #[trigger]
        m.contains_key(id) <==> has_entry(entries, id) && entries_agree(entries, id)
    &&& forall|id: u32, i: int|
        #[trigger] m.contains_key(id) && 0 <= i < entries.len() && #[trigger] entries[i].element_id
            == id ==> m[id]@ == entries[i]
}

fn same_entry(a: &NameEntry, b: &NameEntry) -> (r: bool)
    ensures
        r == (a@ == b@),
{
    a.element_id == b.element_id && a.name == b.name && a.builtin_category == b.builtin_category
}

fn copy_entry(e: &NameEntry) -> (r: NameEntry)
    ensures
        r@ == e@,
{
    NameEntry { element_id: e.element_id, name: e.name.clone(), builtin_category: e.builtin_category }
}

/// One entry per ElementId, dropping any id whose entries disagree.
pub fn unique_entries(entries: Vec<NameEntry>) -> (r: BTreeMap<u32, NameEntry>)
    ensures
        keeps_unique(r@, entry_views(entries@)),
{
    let ghost v = entry_views(entries@);
    let mut by_id: BTreeMap<u32, NameEntry> = BTreeMap::new();
    let mut spoiled: Vec<u32> = Vec::new();
    let mut i: usize = 0;
    while i < entries.len()
        invariant
            i <= entries@.len(),
            v == entry_views(entries@),
            forall|id: u32| #[trigger] by_id@.contains_key(id) <==> has_entry(v.take(i as int), id),
            forall|id: u32|
                #[trigger] by_id@.contains_key(id) ==> by_id@[id]@.element_id == id && exists|j: int|
                    0 <= j < i && v[j] == #[trigger] by_id@[id]@,
            forall|id: u32|
                #[trigger] spoiled@.contains(id) <==> by_id@.contains_key(id) && exists|j: int|
                    0 <= j < i && v[j].element_id == id && #[trigger] v[j] != by_id@[id]@,
        decreases entries@.len() - i,
    {
        let e = &entries[i];
        let id = e.element_id;
        let ghost ev = v[i as int];
        assert(ev == e@);
        let ghost before = by_id@;
        let ghost spoiled_before = spoiled@;
        match by_id.get(&id) {
            Some(held) => {
                if !same_entry(held, e) {
                    spoiled.push(id);
                }
            },
            None => {
                by_id.insert(id, copy_entry(e));
            },
        }
        proof {
            assert forall|k: u32| #[trigger] by_id@.contains_key(k) <==> has_entry(v.take(i + 1), k) by {
                if has_entry(v.take(i + 1), k) {
                    let j = choose|j: int| 0 <= j < i + 1 && #[trigger] v.take(i + 1)[j].element_id == k;
                    if j < i {
                        assert(v.take(i as int)[j].element_id == k);
                    }
                }
                if has_entry(v.take(i as int), k) {
                    let j = choose|j: int| 0 <= j < i && #[trigger] v.take(i as int)[j].element_id == k;
                    assert(v.take(i + 1)[j].element_id == k);
                }
                if k == id {
                    assert(v.take(i + 1)[i as int].element_id == k);
                }
            }
            assert forall|k: u32| #[trigger] by_id@.contains_key(k) implies by_id@[k]@.element_id == k
                && exists|j: int| 0 <= j < i + 1 && v[j] == #[trigger] by_id@[k]@ by {
                if k == id && !before.contains_key(k) {
                    assert(v[i as int] == by_id@[k]@);
                } else {
                    assert(by_id@[k] == before[k]);
                }
            }
            assert forall|k: u32| #[trigger] spoiled@.contains(k) <==> by_id@.contains_key(k)
                && exists|j: int| 0 <= j < i + 1 && v[j].element_id == k && #[trigger] v[j]
                != by_id@[k]@ by {
                crate::bytes::lemma_push_contains(spoiled_before, id, k);
                if before.contains_key(k) {
                    assert(by_id@[k] == before[k]);
                }
                if k != id {
                    if by_id@.contains_key(k) && exists|j: int| 0 <= j < i + 1 && v[j].element_id == k
                        && #[trigger] v[j] != by_id@[k]@ {
                        let j = choose|j: int| 0 <= j < i + 1 && v[j].element_id == k && #[trigger] v[j]
                            != by_id@[k]@;
                        assert(j < i);
                    }
                } else if before.contains_key(k) {
                    if !spoiled_before.contains(k) && exists|j: int| 0 <= j < i + 1 && v[j].element_id
                        == k && #[trigger] v[j] != by_id@[k]@ {
                        let j = choose|j: int| 0 <= j < i + 1 && v[j].element_id == k && #[trigger] v[j]
                            != by_id@[k]@;
                        assert(j == i);
                    }
                    if spoiled@.contains(k) && !spoiled_before.contains(k) {
                        assert(v[i as int] != by_id@[k]@);
                    }
                } else {
                    assert(!spoiled_before.contains(k));
                    if exists|j: int| 0 <= j < i + 1 && v[j].element_id == k && #[trigger] v[j]
                        != by_id@[k]@ {
                        let j = choose|j: int| 0 <= j < i + 1 && v[j].element_id == k && #[trigger] v[j]
                            != by_id@[k]@;
                        if j < i {
                            assert(v.take(i as int)[j].element_id == k);
                        }
                    }
                }
            }
        }
        i += 1;
    }
    assert(v.take(v.len() as int) =~= v);
    let ghost gathered = by_id@;
    let mut k: usize = 0;
    while k < spoiled.len()
        invariant
            k <= spoiled@.len(),
            forall|id: u32| #[trigger]
                by_id@.contains_key(id) <==> (gathered.contains_key(id) && !spoiled@.take(
                    k as int,
                ).contains(id)),
            forall|id: u32| #[trigger] by_id@.contains_key(id) ==> by_id@[id] == gathered[id],
        decreases spoiled@.len() - k,
    {
        let id = spoiled[k];
        by_id.remove(&id);
        proof {
            assert(spoiled@.take(k + 1) =~= spoiled@.take(k as int).push(id));
            assert forall|x: u32| #[trigger] by_id@.contains_key(x) <==> (gathered.contains_key(x)
                && !spoiled@.take(k + 1).contains(x)) by {
                crate::bytes::lemma_push_contains(spoiled@.take(k as int), id, x);
            }
        }
        k += 1;
    }
    assert(spoiled@.take(spoiled@.len() as int) =~= spoiled@);
    proof {
        assert forall|id: u32| #[trigger] by_id@.contains_key(id) <==> has_entry(v, id) && entries_agree(v, id) by {
            if gathered.contains_key(id) {
                let w = gathered[id]@;
                let j = choose|j: int| 0 <= j < v.len() && v[j] == #[trigger] gathered[id]@;
                if spoiled@.contains(id) {
                    let m = choose|m: int| 0 <= m < v.len() && v[m].element_id == id && #[trigger] v[m] != w;
                    assert(v[j].element_id == id);
                    assert(!entries_agree(v, id));
                } else {
                    assert forall|a: int, b: int|
                        0 <= a < v.len() && 0 <= b < v.len() && v[a].element_id == id && v[b].element_id
                            == id implies #[trigger] v[a] == #[trigger] v[b] by {
                        if v[a] != w {
                            assert(exists|m: int| 0 <= m < v.len() && v[m].element_id == id && #[trigger] v[m] != w);
                        }
                        if v[b] != w {
                            assert(exists|m: int| 0 <= m < v.len() && v[m].element_id == id && #[trigger] v[m] != w);
                        }
                    }
                }
            }
        }
        assert forall|id: u32, i: int|
            #[trigger] by_id@.contains_key(id) && 0 <= i < v.len() && #[trigger] v[i].element_id == id implies by_id@[id]@
            == v[i] by {
            let w = gathered[id]@;
            if v[i] != w {
                assert(exists|m: int| 0 <= m < v.len() && v[m].element_id == id && #[trigger] v[m] != w);
            }
        }
    }
    by_id
}

/// Whether `id` has a name entry of `category`.
pub open spec fn named_in(entries: Map<u32, NameEntry>, id: u32, category: i64) -> bool {
    entries.contains_key(id) && entries[id].builtin_category == category
}

/// Whether the `u64` at some offset of `body` is `id`.
pub open spec fn body_holds(body: Seq<u8>, id: u32) -> bool {
    exists|at: int| 0 <= at && at + 8 <= body.len() && #[trigger] le_u64(body, at) == id
}

/// Named ids of `category` other than `own` that appear as a `u64` at any
/// offset of `body`.
pub fn named_ids_in(
    body: &[u8],
    entries: &BTreeMap<u32, NameEntry>,
    category: i64,
    own: u32,
) -> (r: BTreeSet<u32>)
    ensures
        forall|id: u32| #[trigger]
            r@.contains(id) <==> (id != own && named_in(entries@, id, category) && body_holds(
                body@,
                id,
            )),
{
    let mut out: BTreeSet<u32> = BTreeSet::new();
    let len = body.len();
    let stop: usize = if len >= 7 {
        len - 7
    } else {
        0
    };
    let mut at: usize = 0;
    while at < stop
        invariant
            len == body@.len(),
            stop == if len >= 7 { len - 7 } else { 0 },
            at <= stop,
            forall|id: u32| #[trigger]
                out@.contains(id) <==> (id != own && named_in(entries@, id, category) && exists|
                    a: int,
                | 0 <= a < at && #[trigger] le_u64(body@, a) == id),
        decreases stop - at,
    {
        let v = read_u64(body, at).unwrap();
        let ghost before = out@;
        if v <= 0xffff_ffff {
            let id = v as u32;
            if id != own {
                match entries.get(&id) {
                    Some(e) => {
                        if e.builtin_category == category {
                            out.insert(id);
                        }
                    },
                    None => {},
                }
            }
        }
        proof {
            assert forall|x: u32| #[trigger] out@.contains(x) <==> (x != own && named_in(
                entries@,
                x,
                category,
            ) && exists|a: int| 0 <= a < at + 1 && #[trigger] le_u64(body@, a) == x) by {
                if x != own && named_in(entries@, x, category) && exists|a: int|
                    0 <= a < at + 1 && #[trigger] le_u64(body@, a) == x {
                    let a = choose|a: int| 0 <= a < at + 1 && #[trigger] le_u64(body@, a) == x;
                    if a < at {
                        assert(before.contains(x));
                    }
                }
                if before.contains(x) {
                    let a = choose|a: int| 0 <= a < at && #[trigger] le_u64(body@, a) == x;
                    assert(0 <= a < at + 1 && le_u64(body@, a) == x);
                }
            }
        }
        at += 1;
    }
    proof {
        assert forall|x: u32| #[trigger] out@.contains(x) <==> (x != own && named_in(
            entries@,
            x,
            category,
        ) && body_holds(body@, x)) by {
            if body_holds(body@, x) {
                let a = choose|a: int| 0 <= a && a + 8 <= body@.len() && #[trigger] le_u64(body@, a) == x;
                assert(0 <= a < at && le_u64(body@, a) == x);
            }
        }
    }
    out
}

/// Whether `id`, other than `own`, is listed in `references` and has a name
/// entry of `category`: a type candidate.
pub open spec fn type_candidate(
    entries: Map<u32, NameEntry>,
    references: Seq<u64>,
    category: i64,
    own: u32,
    id: u32,
) -> bool {
    id != own && named_in(entries, id, category) && references.contains(id as u64)
}

/// The one type candidate, when there is exactly one.
pub open spec fn only_type(
    entries: Map<u32, NameEntry>,
    references: Seq<u64>,
    category: i64,
    own: u32,
    x: u32,
) -> bool {
    type_candidate(entries, references, category, own, x) && forall|y: u32|
        #[trigger] type_candidate(entries, references, category, own, y) ==> y == x
}

/// The one id in `references`, other than `own`, that carries a name entry
/// of `category`: the element's type. `None` when there is none or more
/// than one.
pub fn resolve_type(names: &ElementNames, references: &[u64], category: i64, own: u32) -> (r:
    Option<u32>)
    ensures
        match r {
            Some(x) => only_type(names.entries@, references@, category, own, x),
            None => forall|x: u32| !#[trigger] only_type(names.entries@, references@, category, own, x),
        },
{
    let ghost m = names.entries@;
    let mut found: Option<u32> = None;
    let mut i: usize = 0;
    while i < references.len()
        invariant
            i <= references@.len(),
            m == names.entries@,
            match found {
                Some(x) => type_candidate(m, references@, category, own, x) && forall|y: u32|
                    #[trigger] type_candidate(m, references@.take(i as int), category, own, y) ==> y
                        == x,
                None => forall|y: u32| !#[trigger] type_candidate(m, references@.take(i as int), category, own, y),
            },
        decreases references@.len() - i,
    {
        let v = references[i];
        let ghost before = found;
        assert(references@.take(i + 1) =~= references@.take(i as int).push(v));
        let mut candidate = false;
        if v <= 0xffff_ffff {
            let id = v as u32;
            if id != own {
                match names.entries.get(&id) {
                    Some(e) => {
                        candidate = e.builtin_category == category;
                    },
                    None => {},
                }
            }
        }
        proof {
            assert forall|y: u32| #[trigger] type_candidate(m, references@.take(i + 1), category, own, y)
                <==> (type_candidate(m, references@.take(i as int), category, own, y) || (y as u64 == v
                && y != own && named_in(m, y, category))) by {
                crate::bytes::lemma_push_contains(references@.take(i as int), v, y as u64);
            }
            assert(candidate ==> (v <= 0xffff_ffff && type_candidate(m, references@, category, own, v as u32)));
            assert(candidate ==> references@[i as int] == v);
        }
        if candidate {
            let id = v as u32;
            match found {
                None => {
                    found = Some(id);
                },
                Some(x) => {
                    if x != id {
                        proof {
                            assert(type_candidate(m, references@, category, own, id));
                            assert forall|z: u32| !#[trigger] only_type(m, references@, category, own, z) by {
                                if only_type(m, references@, category, own, z) {
                                    assert(type_candidate(m, references@, category, own, x));
                                }
                            }
                        }
                        return None;
                    }
                },
            }
        } else {
            proof {
                assert forall|y: u32| #[trigger] type_candidate(m, references@.take(i + 1), category, own, y)
                    implies type_candidate(m, references@.take(i as int), category, own, y) by {
                    if y as u64 == v && y != own && named_in(m, y, category) {
                        assert(v <= 0xffff_ffff);
                        assert(v as u32 == y);
                    }
                }
            }
        }
        i += 1;
    }
    assert(references@.take(references@.len() as int) =~= references@);
    found
}

pub(crate) fn set_elements(s: &BTreeSet<u32>) -> (v: Vec<u32>)
    ensures
        v@.to_set() == s@,
        v@.no_duplicates(),
{
    let iter = s.iter();
    let ghost all = vstd::std_specs::iter::IteratorSpec::remaining(&iter).unref();
    assert(all.to_set() == s@);
    assert(all.no_duplicates());
    let mut v: Vec<u32> = Vec::new();
    let ghost mut count: int = 0;
    for x in it: iter
        invariant
            it.seq().unref() == all,
            count == it.index(),
            v@ == all.take(count),
    {
        proof {
            assert(*it.seq()[count] == all[count]);
        }
        v.push(*x);
        proof {
            assert(all.take(count + 1) =~= all.take(count).push(all[count]));
            count = count + 1;
        }
    }
    proof {
        assert(count == all.len());
        assert(all.take(count) =~= all);
    }
    v
}

/// Whether `x` is the one element of `s`.
pub open spec fn unique_in(s: Set<u32>, x: u32) -> bool {
    s.contains(x) && forall|y: u32| #[trigger] s.contains(y) ==> y == x
}

/// Whether candidate `f` of the set `c` has a candidate set of its own that
/// holds every other candidate of `c`: the family the others are nested
/// in.
pub open spec fn hosts_all(tfc: Map<u32, BTreeSet<u32>>, c: Set<u32>, f: u32) -> bool {
    c.contains(f) && tfc.contains_key(f) && forall|o: u32|
        #[trigger] c.contains(o) ==> o == f || tfc[f]@.contains(o)
}

/// The family of type `type_id`: its one candidate, or, among several, the
/// one candidate that hosts all the others when exactly one does.
pub open spec fn spec_resolve_family(tfc: Map<u32, BTreeSet<u32>>, type_id: u32) -> Option<u32> {
    if !tfc.contains_key(type_id) {
        None
    } else {
        let c = tfc[type_id]@;
        if exists|x: u32| unique_in(c, x) {
            Some(choose|x: u32| unique_in(c, x))
        } else if exists|h: u32|
            hosts_all(tfc, c, h) && forall|g: u32| #[trigger] hosts_all(tfc, c, g) ==> g == h {
            Some(choose|h: u32| hosts_all(tfc, c, h) && forall|g: u32| #[trigger] hosts_all(tfc, c, g) ==> g == h)
        } else {
            None
        }
    }
}

fn hosts_others(names: &ElementNames, cs: &Vec<u32>, f: u32) -> (r: bool)
    ensures
        r == (names.type_family_candidates@.contains_key(f) && forall|o: u32|
            #[trigger] cs@.contains(o) ==> o == f || names.type_family_candidates@[f]@.contains(o)),
{
    let nested = match names.type_family_candidates.get(&f) {
        Some(n) => n,
        None => {
            return false;
        },
    };
    let mut i: usize = 0;
    while i < cs.len()
        invariant
            i <= cs@.len(),
            names.type_family_candidates@.contains_key(f),
            *nested == names.type_family_candidates@[f],
            forall|k: int| 0 <= k < i ==> cs@[k] == f || nested@.contains(#[trigger] cs@[k]),
        decreases cs@.len() - i,
    {
        let o = cs[i];
        if o != f && !nested.contains(&o) {
            assert(cs@.contains(o));
            return false;
        }
        i += 1;
    }
    true
}

/// The type's family: the named id of the type's category in the type's
/// own partition record. Where the type names several, the family is the
/// one candidate whose own record names every other candidate, the
/// families nested in it. `None` when there is no candidate, or when no
/// candidate, or more than one, names all the others.
pub fn resolve_family(names: &ElementNames, type_id: u32) -> (r: Option<u32>)
    ensures
        r == spec_resolve_family(names.type_family_candidates@, type_id),
{
    let ghost tfc = names.type_family_candidates@;
    let candidates = match names.type_family_candidates.get(&type_id) {
        Some(c) => c,
        None => {
            return None;
        },
    };
    let ghost c = candidates@;
    let cs = set_elements(candidates);
    assert forall|x: u32| #[trigger] cs@.contains(x) <==> c.contains(x) by {
        assert(cs@.to_set().contains(x) == cs@.contains(x));
    }
    if cs.len() == 1 {
        proof {
            assert(cs@.contains(cs@[0]));
            assert(unique_in(c, cs@[0]));
            assert forall|y: u32| c.contains(y) implies y == cs@[0] by {
                let j = choose|j: int| 0 <= j < cs@.len() && cs@[j] == y;
            }
        }
        return Some(cs[0]);
    }
    proof {
        assert forall|x: u32| !unique_in(c, x) by {
            if unique_in(c, x) && cs@.len() >= 2 {
                assert(c.contains(cs@[0]) && c.contains(cs@[1]));
                assert(cs@[0] != cs@[1]);
            }
        }
    }
    let mut host: Option<u32> = None;
    let mut i: usize = 0;
    while i < cs.len()
        invariant
            i <= cs@.len(),
            tfc == names.type_family_candidates@,
            c == tfc[type_id]@,
            tfc.contains_key(type_id),
            forall|x: u32| #[trigger] cs@.contains(x) <==> c.contains(x),
            cs@.no_duplicates(),
            match host {
                Some(h) => hosts_all(tfc, c, h) && (exists|k: int| 0 <= k < i && cs@[k] == h)
                    && forall|k: int| 0 <= k < i && #[trigger] hosts_all(tfc, c, cs@[k]) ==> cs@[k] == h,
                None => forall|k: int| 0 <= k < i ==> !#[trigger] hosts_all(tfc, c, cs@[k]),
            },
        decreases cs@.len() - i,
    {
        let f = cs[i];
        assert(cs@.contains(f));
        if hosts_others(names, &cs, f) {
            assert forall|o: u32| #[trigger] c.contains(o) implies o == f || tfc[f]@.contains(o) by {
                assert(cs@.contains(o));
            }
            assert(hosts_all(tfc, c, f));
            match host {
                None => {
                    host = Some(f);
                },
                Some(h) => {
                    proof {
                        assert(h != f) by {
                            let k = choose|k: int| 0 <= k < i && cs@[k] == h;
                            assert(cs@[k] != cs@[i as int]);
                        }
                        assert forall|x: u32| !(hosts_all(tfc, c, x) && forall|g: u32| #[trigger] hosts_all(tfc, c, g) ==> g == x) by {
                            if hosts_all(tfc, c, x) && forall|g: u32| #[trigger] hosts_all(tfc, c, g) ==> g == x {
                                assert(hosts_all(tfc, c, h));
                            }
                        }
                    }
                    return None;
                },
            }
        }
        i += 1;
    }
    proof {
        match host {
            Some(h) => {
                assert(hosts_all(tfc, c, h));
                assert forall|g: u32| #[trigger] hosts_all(tfc, c, g) implies g == h by {
                    assert(cs@.contains(g));
                    let k = choose|k: int| 0 <= k < cs@.len() && cs@[k] == g;
                    assert(hosts_all(tfc, c, cs@[k]));
                }
            },
            None => {
                assert forall|g: u32| !(hosts_all(tfc, c, g) && forall|x: u32| #[trigger] hosts_all(tfc, c, x) ==> x == g) by {
                    if hosts_all(tfc, c, g) {
                        assert(cs@.contains(g));
                        let k = choose|k: int| 0 <= k < cs@.len() && cs@[k] == g;
                        assert(hosts_all(tfc, c, cs@[k]));
                    }
                }
            },
        }
    }
    host
}

/// The `n` UTF-16 code units at `start`.
pub open spec fn name_units(buf: Seq<u8>, start: int, n: int) -> Seq<u16> {
    Seq::new(n as nat, |k: int| le_u16(buf, start + 2 * k) as u16)
}

/// The entry a name of `u` code units would make, ending where the category
/// at `at` starts: a `u32` length of `u` and a declared `u64` ElementId
/// before the name, and a name that decodes, is not only white space and
/// holds no control character.
pub open spec fn entry_with_units(
    buf: Seq<u8>,
    declared: Set<u32>,
    at: int,
    category: i64,
    u: int,
) -> Option<NameEntryView> {
    let start = at - 2 * u;
    let length_at = start - 4;
    let id_at = length_at - 8;
    if id_at < 0 || le_u32(buf, length_at) != u {
        None
    } else if le_u64(buf, id_at) > 0xffff_ffff || !declared.contains(le_u64(buf, id_at) as u32) {
        None
    } else {
        match utf16_decode(name_units(buf, start, u)) {
            None => None,
            Some(name) => if trim(name).len() == 0 || has_control(name) {
                None
            } else {
                Some(
                    NameEntryView {
                        element_id: le_u64(buf, id_at) as u32,
                        name,
                        builtin_category: category,
                    },
                )
            },
        }
    }
}

/// Whether `u` is the shortest name length, 1 to [`NAME_MAX_UNITS`], that
/// makes an entry.
pub open spec fn shortest_units(buf: Seq<u8>, declared: Set<u32>, at: int, category: i64, u: int) -> bool {
    1 <= u <= NAME_MAX_UNITS && entry_with_units(buf, declared, at, category, u) is Some && forall|
        v: int,
    | 1 <= v < u ==> #[trigger] entry_with_units(buf, declared, at, category, v) is None
}

/// The category `i64` at `at`.
pub open spec fn anchor_category(buf: Seq<u8>, at: int) -> i64 {
    as_signed(le_u64(buf, at) as u64) as i64
}

/// The entry whose closing category `i64` has its five `ff` bytes at `h`:
/// a category in the `BuiltInCategory` band, and the entry with the
/// shortest name that fits before it.
pub open spec fn entry_at_anchor(buf: Seq<u8>, declared: Set<u32>, h: int) -> Option<NameEntryView> {
    let at = h - 3;
    if at < 0 || at + 8 > buf.len() {
        None
    } else {
        let category = as_signed(le_u64(buf, at) as u64);
        if category < BUILTIN_CATEGORY_MIN || category > BUILTIN_CATEGORY_MAX {
            None
        } else if exists|u: int| #[trigger] shortest_units(buf, declared, at, anchor_category(buf, at), u) {
            entry_with_units(
                buf,
                declared,
                at,
                anchor_category(buf, at),
                choose|u: int| #[trigger] shortest_units(buf, declared, at, anchor_category(buf, at), u),
            )
        } else {
            None
        }
    }
}

/// [`entry_at_anchor`] as a function of the anchor.
pub open spec fn anchor_fn(buf: Seq<u8>, declared: Set<u32>) -> spec_fn(int) -> Option<NameEntryView> {
    |h: int| entry_at_anchor(buf, declared, h)
}

/// The five `ff` bytes that end every name entry's category.
pub open spec fn entry_anchor() -> Seq<u8> {
    seq![0xffu8, 0xff, 0xff, 0xff, 0xff]
}

fn entry_with(buf: &[u8], declared: &BTreeSet<u32>, at: usize, category: i64, u: usize) -> (r: Option<
    NameEntry,
>)
    requires
        1 <= u <= NAME_MAX_UNITS,
        at + 8 <= buf@.len(),
    ensures
        match r {
            Some(e) => entry_with_units(buf@, declared@, at as int, category, u as int) == Some(e@),
            None => entry_with_units(buf@, declared@, at as int, category, u as int) is None,
        },
{
    if at < 2 * u + 12 {
        return None;
    }
    let start = at - 2 * u;
    let length_at = start - 4;
    let len_word = read_u32(buf, length_at).unwrap();
    if len_word as usize != u {
        return None;
    }
    let id_at = length_at - 8;
    let id = read_u64(buf, id_at).unwrap();
    if id > 0xffff_ffff {
        return None;
    }
    let element_id = id as u32;
    if !declared.contains(&element_id) {
        return None;
    }
    let mut units: Vec<u16> = Vec::new();
    let blen = buf.len();
    let mut k: usize = 0;
    while k < u
        invariant
            blen == buf@.len(),
            k <= u <= NAME_MAX_UNITS,
            start + 2 * u <= buf@.len(),
            units@ == name_units(buf@, start as int, k as int),
        decreases u - k,
    {
        let unit = read_u16(buf, start + 2 * k).unwrap();
        units.push(unit);
        assert(units@ =~= name_units(buf@, start as int, k + 1));
        k += 1;
    }
    let name = match from_utf16(units.as_slice()) {
        Some(n) => n,
        None => {
            return None;
        },
    };
    let chars = chars_of(name.as_str());
    let trimmed = trim_chars(&chars);
    if trimmed.len() == 0 || any_control(&chars) {
        return None;
    }
    Some(NameEntry { element_id, name, builtin_category: category })
}

fn entry_at(buf: &[u8], declared: &BTreeSet<u32>, hit: usize) -> (r: Option<NameEntry>)
    ensures
        match r {
            Some(e) => entry_at_anchor(buf@, declared@, hit as int) == Some(e@),
            None => entry_at_anchor(buf@, declared@, hit as int) is None,
        },
{
    if hit < 3 {
        return None;
    }
    let at = hit - 3;
    let raw = match read_u64(buf, at) {
        Some(v) => v,
        None => {
            return None;
        },
    };
    let category = to_signed(raw);
    if category < BUILTIN_CATEGORY_MIN || category > BUILTIN_CATEGORY_MAX {
        return None;
    }
    let ghost c = category;
    let mut u: usize = 1;
    while u <= NAME_MAX_UNITS
        invariant
            1 <= u <= NAME_MAX_UNITS + 1,
            at + 8 <= buf@.len(),
            at == hit - 3,
            c == category,
            category == as_signed(le_u64(buf@, at as int) as u64),
            c == anchor_category(buf@, at as int),
            BUILTIN_CATEGORY_MIN <= category <= BUILTIN_CATEGORY_MAX,
            forall|v: int| 1 <= v < u ==> #[trigger] entry_with_units(buf@, declared@, at as int, c, v) is None,
        decreases NAME_MAX_UNITS + 1 - u,
    {
        match entry_with(buf, declared, at, category, u) {
            Some(e) => {
                proof {
                    assert(shortest_units(buf@, declared@, at as int, c, u as int));
                    let w = choose|w: int| shortest_units(buf@, declared@, at as int, c, w);
                    if w < u {
                    } else if w > u {
                        assert(entry_with_units(buf@, declared@, at as int, c, u as int) is None);
                    }
                    assert(w == u);
                }
                return Some(e);
            },
            None => {},
        }
        u += 1;
    }
    proof {
        assert forall|w: int| !shortest_units(buf@, declared@, at as int, c, w) by {
            if shortest_units(buf@, declared@, at as int, c, w) {
                assert(entry_with_units(buf@, declared@, at as int, c, w) is None);
            }
        }
    }
    None
}

/// Every name entry in `buf` whose ElementId is declared: each run of five
/// `ff` bytes `memmem::find_iter` reports, taken as the top of an entry's
/// closing category, with the shortest name that makes an entry before it.
pub fn find_name_entries(buf: &[u8], declared_ids: &BTreeSet<u32>) -> (r: Vec<NameEntry>)
    ensures
        entry_views(r@) == keep_some(
            iter_hits_from(buf@, entry_anchor(), 0),
            anchor_fn(buf@, declared_ids@),
        ),
{
    let needle: [u8; 5] = [0xff, 0xff, 0xff, 0xff, 0xff];
    assert(needle@ =~= entry_anchor());
    let ghost f = anchor_fn(buf@, declared_ids@);
    let ghost n = needle@;
    let mut out: Vec<NameEntry> = Vec::new();
    let mut cursor: usize = 0;
    let len = buf.len();
    while cursor <= len && len - cursor >= 5
        invariant
            len == buf@.len(),
            n == needle@,
            n == entry_anchor(),
            f == anchor_fn(buf@, declared_ids@),
            keep_some(iter_hits_from(buf@, n, 0), f) == entry_views(out@) + keep_some(
                iter_hits_from(buf@, n, cursor as int),
                f,
            ),
        ensures
            iter_hits_from(buf@, n, cursor as int) == Seq::<int>::empty(),
        decreases len + 1 - cursor,
    {
        let hit = match find_from(buf, cursor, needle.as_slice()) {
            Some(h) => h,
            None => {
                proof {
                    lemma_iter_hits_none(buf@, n, cursor as int);
                }
                break;
            },
        };
        proof {
            lemma_iter_hits_skip(buf@, n, cursor as int, hit as int);
            lemma_iter_hits_step(buf@, n, hit as int);
            lemma_keep_some_step(iter_hits_from(buf@, n, hit as int), f);
            assert((seq![hit as int] + iter_hits_from(buf@, n, hit + 5)).drop_first() =~= iter_hits_from(buf@, n, hit + 5));
        }
        let ghost before = out@;
        match entry_at(buf, declared_ids, hit) {
            Some(e) => {
                out.push(e);
                proof {
                    assert(entry_views(out@) =~= entry_views(before).push(e@));
                    assert(entry_views(out@) + keep_some(iter_hits_from(buf@, n, hit + 5), f)
                        =~= entry_views(before) + (seq![e@] + keep_some(
                        iter_hits_from(buf@, n, hit + 5),
                        f,
                    )));
                }
            },
            None => {},
        }
        cursor = hit + 5;
    }
    proof {
        assert(entry_views(out@) + Seq::<NameEntryView>::empty() =~= entry_views(out@));
    }
    out
}

/// The name entries of every stream, in stream order.
pub open spec fn all_name_entries(parts: Seq<(Seq<char>, Seq<u8>)>, declared: Set<u32>) -> Seq<
    NameEntryView,
>
    decreases parts.len(),
{
    if parts.len() == 0 {
        Seq::empty()
    } else {
        all_name_entries(parts.drop_last(), declared) + keep_some(
            iter_hits_from(parts.last().1, entry_anchor(), 0),
            anchor_fn(parts.last().1, declared),
        )
    }
}

/// The leading record chain of stream `s`.
pub open spec fn stream_chain(parts: Seq<(Seq<char>, Seq<u8>)>, c: int, s: int) -> Seq<
    PartitionRecordSpan,
> {
    spec_chain_from(parts[s].1, 0, c)
}

/// Whether record `j` of stream `s` is the partition record of named type
/// `t`, with its body inside the stream.
pub open spec fn span_opens(
    parts: Seq<(Seq<char>, Seq<u8>)>,
    c: int,
    entries: Map<u32, NameEntry>,
    s: int,
    j: int,
    t: u32,
) -> bool {
    let sp = stream_chain(parts, c, s)[j];
    sp.element_id == t as u64 && entries.contains_key(t) && sp.start <= sp.end <= parts[s].1.len()
}

/// Whether record `j` of stream `s`, the record of named type `t`, names
/// `x`: another named id of `t`'s category held at some offset of its body.
pub open spec fn span_names(
    parts: Seq<(Seq<char>, Seq<u8>)>,
    c: int,
    entries: Map<u32, NameEntry>,
    s: int,
    j: int,
    t: u32,
    x: u32,
) -> bool {
    let sp = stream_chain(parts, c, s)[j];
    span_opens(parts, c, entries, s, j, t) && x != t && named_in(
        entries,
        x,
        entries[t].builtin_category,
    ) && body_holds(parts[s].1.subrange(sp.start as int, sp.end as int), x)
}

/// Whether record `j` of stream `s` exists and comes before record `j0` of
/// stream `i`.
pub open spec fn span_before(
    parts: Seq<(Seq<char>, Seq<u8>)>,
    c: int,
    i: int,
    j0: int,
    s: int,
    j: int,
) -> bool {
    0 <= s < parts.len() && 0 <= j < stream_chain(parts, c, s).len() && (s < i || (s == i && j
        < j0))
}

/// Whether the candidate map holds, for the records before record `j0` of
/// stream `i`, each type with its candidates.
pub open spec fn candidates_upto(
    parts: Seq<(Seq<char>, Seq<u8>)>,
    c: int,
    entries: Map<u32, NameEntry>,
    i: int,
    j0: int,
    tfc: Map<u32, BTreeSet<u32>>,
) -> bool {
    &&& forall|t: u32| #[trigger]
        tfc.contains_key(t) <==> exists|s: int, j: int|
            #[trigger] span_before(parts, c, i, j0, s, j) && span_opens(parts, c, entries, s, j, t)
    &&& forall|t: u32, x: u32|
        #[trigger] tfc.contains_key(t) ==> (#[trigger] tfc[t]@.contains(x) <==> exists|s: int, j: int|
            #[trigger] span_before(parts, c, i, j0, s, j) && span_names(parts, c, entries, s, j, t, x))
}

fn add_candidates(
    tfc: &mut BTreeMap<u32, BTreeSet<u32>>,
    t: u32,
    more: &BTreeSet<u32>,
)
    ensures
        forall|k: u32| #[trigger] final(tfc)@.contains_key(k) <==> (old(tfc)@.contains_key(k) || k == t),
        forall|k: u32| k != t && #[trigger] final(tfc)@.contains_key(k) ==> final(tfc)@[k] == old(tfc)@[k],
        forall|x: u32| #[trigger] final(tfc)@[t]@.contains(x) <==> ((old(tfc)@.contains_key(t)
            && old(tfc)@[t]@.contains(x)) || more@.contains(x)),
{
    let ghost before = tfc@;
    let mut held = match tfc.remove(&t) {
        Some(h) => h,
        None => BTreeSet::new(),
    };
    let ghost start = held@;
    assert(forall|x: u32| start.contains(x) <==> (before.contains_key(t) && before[t]@.contains(x)));
    let xs = set_elements(more);
    let mut i: usize = 0;
    while i < xs.len()
        invariant
            i <= xs@.len(),
            forall|x: u32| #[trigger] held@.contains(x) <==> (start.contains(x) || xs@.take(i as int).contains(x)),
        decreases xs@.len() - i,
    {
        let x = xs[i];
        held.insert(x);
        proof {
            assert(xs@.take(i + 1) =~= xs@.take(i as int).push(x));
            assert forall|y: u32| #[trigger] held@.contains(y) <==> (start.contains(y)
                || xs@.take(i + 1).contains(y)) by {
                crate::bytes::lemma_push_contains(xs@.take(i as int), x, y);
            }
        }
        i += 1;
    }
    proof {
        assert(xs@.take(xs@.len() as int) =~= xs@);
        assert forall|y: u32| #[trigger] xs@.contains(y) <==> more@.contains(y) by {
            assert(xs@.to_set().contains(y) == xs@.contains(y));
        }
    }
    tfc.insert(t, held);
}

/// Name entries and type-to-family candidates for a whole model: every
/// declared ElementId with exactly one name entry, and for each named type
/// the named ids of its category that its own partition record holds.
/// Empty where the release's record shape is not proven.
pub fn compute_element_names(
    partitions: &[InflatedPartition],
    revit_version: u32,
    declared: &BTreeSet<u32>,
) -> (r: ElementNames)
    ensures
        spec_bbox_marker(revit_version) is None ==> r.entries@.is_empty()
            && r.type_family_candidates@.is_empty(),
        spec_bbox_marker(revit_version) matches Some(m) ==> keeps_unique(
            r.entries@,
            all_name_entries(partition_views(partitions@), declared@),
        ) && candidates_upto(
            partition_views(partitions@),
            spec_record_prologue_constant(m),
            r.entries@,
            partitions@.len() as int,
            0,
            r.type_family_candidates@,
        ),
{
    let mut out = ElementNames::default();
    let marker = match bbox_marker(revit_version) {
        Some(m) => m,
        None => {
            assert(out.entries@ =~= Map::<u32, NameEntry>::empty());
            assert(out.type_family_candidates@ =~= Map::<u32, BTreeSet<u32>>::empty());
            return out;
        },
    };
    let ghost parts = partition_views(partitions@);
    let ghost c = spec_record_prologue_constant(marker@);
    let mut found: Vec<NameEntry> = Vec::new();
    let mut i: usize = 0;
    while i < partitions.len()
        invariant
            i <= partitions@.len(),
            parts == partition_views(partitions@),
            entry_views(found@) == all_name_entries(parts.take(i as int), declared@),
        decreases partitions@.len() - i,
    {
        let part = &partitions[i];
        let mut more = find_name_entries(part.bytes.as_slice(), declared);
        let ghost before = found@;
        let ghost got = more@;
        found.append(&mut more);
        proof {
            assert(entry_views(found@) =~= entry_views(before) + entry_views(got));
            assert(parts.take(i + 1).drop_last() =~= parts.take(i as int));
            assert(parts[i as int] == (part.stream@, part.bytes@));
        }
        i += 1;
    }
    assert(parts.take(parts.len() as int) =~= parts);
    out.entries = unique_entries(found);
    let ghost entries = out.entries@;
    let mut tfc: BTreeMap<u32, BTreeSet<u32>> = BTreeMap::new();
    let mut s: usize = 0;
    while s < partitions.len()
        invariant
            s <= partitions@.len(),
            parts == partition_views(partitions@),
            c == spec_record_prologue_constant(marker@),
            entries == out.entries@,
            candidates_upto(parts, c, entries, s as int, 0, tfc@),
        decreases partitions@.len() - s,
    {
        let part = &partitions[s];
        let buf = part.bytes.as_slice();
        assert(parts[s as int].1 == buf@);
        let chain = partition_record_chain(buf, &marker);
        let mut j: usize = 0;
        while j < chain.len()
            invariant
                s < partitions@.len(),
                j <= chain@.len(),
                parts == partition_views(partitions@),
                parts[s as int].1 == buf@,
                chain@ == stream_chain(parts, c, s as int),
                entries == out.entries@,
                candidates_upto(parts, c, entries, s as int, j as int, tfc@),
            decreases chain@.len() - j,
        {
            let span = chain[j];
            let ghost before = tfc@;
            let mut opened = false;
            if span.element_id <= 0xffff_ffff {
                let t = span.element_id as u32;
                match out.entries.get(&t) {
                    Some(entry) => {
                        if span.start <= span.end && span.end <= buf.len() {
                            let body = &buf[span.start..span.end];
                            let more = named_ids_in(body, &out.entries, entry.builtin_category, t);
                            add_candidates(&mut tfc, t, &more);
                            opened = true;
                            proof {
                                assert(body@ == buf@.subrange(span.start as int, span.end as int));
                                assert(span_opens(parts, c, entries, s as int, j as int, t));
                                assert forall|x: u32| #[trigger] more@.contains(x) <==> span_names(
                                    parts,
                                    c,
                                    entries,
                                    s as int,
                                    j as int,
                                    t,
                                    x,
                                ) by {}
                            }
                        }
                    },
                    None => {},
                }
            }
            proof {
                let sp = chain@[j as int];
                let t0 = sp.element_id as u32;
                assert forall|t: u32| span_opens(parts, c, entries, s as int, j as int, t) implies opened
                    && t == t0 by {}
                if opened {
                    assert(span_opens(parts, c, entries, s as int, j as int, t0));
                    assert(forall|x: u32| #[trigger] tfc@[t0]@.contains(x) <==> ((before.contains_key(t0)
                        && before[t0]@.contains(x)) || span_names(parts, c, entries, s as int, j as int, t0, x)));
                } else {
                    assert(tfc@ == before);
                }
                assert forall|s2: int, j2: int| #[trigger] span_before(parts, c, s as int, j + 1, s2, j2)
                    <==> (span_before(parts, c, s as int, j as int, s2, j2) || (s2 == s && j2 == j)) by {}
                assert forall|t: u32| #[trigger] tfc@.contains_key(t) <==> exists|s2: int, j2: int|
                    #[trigger] span_before(parts, c, s as int, j + 1, s2, j2) && span_opens(
                        parts,
                        c,
                        entries,
                        s2,
                        j2,
                        t,
                    ) by {
                    if tfc@.contains_key(t) && !before.contains_key(t) {
                        assert(span_before(parts, c, s as int, j + 1, s as int, j as int));
                    }
                    if before.contains_key(t) {
                        let (s2, j2) = choose|s2: int, j2: int|
                            #[trigger] span_before(parts, c, s as int, j as int, s2, j2) && span_opens(
                                parts,
                                c,
                                entries,
                                s2,
                                j2,
                                t,
                            );
                        assert(span_before(parts, c, s as int, j + 1, s2, j2));
                    }
                }
                assert forall|t: u32, x: u32| #[trigger] tfc@.contains_key(t) implies (
                #[trigger] tfc@[t]@.contains(x) <==> exists|s2: int, j2: int|
                    #[trigger] span_before(parts, c, s as int, j + 1, s2, j2) && span_names(
                        parts,
                        c,
                        entries,
                        s2,
                        j2,
                        t,
                        x,
                    )) by {
                    let old_side = exists|s2: int, j2: int|
                        #[trigger] span_before(parts, c, s as int, j as int, s2, j2) && span_names(
                            parts,
                            c,
                            entries,
                            s2,
                            j2,
                            t,
                            x,
                        );
                    let new_side = exists|s2: int, j2: int|
                        #[trigger] span_before(parts, c, s as int, j + 1, s2, j2) && span_names(
                            parts,
                            c,
                            entries,
                            s2,
                            j2,
                            t,
                            x,
                        );
                    if old_side {
                        let (s2, j2) = choose|s2: int, j2: int|
                            #[trigger] span_before(parts, c, s as int, j as int, s2, j2) && span_names(
                                parts,
                                c,
                                entries,
                                s2,
                                j2,
                                t,
                                x,
                            );
                        assert(span_before(parts, c, s as int, j + 1, s2, j2));
                        assert(before.contains_key(t));
                    }
                    if new_side {
                        let (s2, j2) = choose|s2: int, j2: int|
                            #[trigger] span_before(parts, c, s as int, j + 1, s2, j2) && span_names(
                                parts,
                                c,
                                entries,
                                s2,
                                j2,
                                t,
                                x,
                            );
                        if !(s2 == s && j2 == j) {
                            assert(span_before(parts, c, s as int, j as int, s2, j2));
                        }
                    }
                    if span_names(parts, c, entries, s as int, j as int, t, x) {
                        assert(span_before(parts, c, s as int, j + 1, s as int, j as int));
                    }
                    assert(new_side <==> (old_side || span_names(parts, c, entries, s as int, j as int, t, x)));
                    if before.contains_key(t) {
                        assert(before[t]@.contains(x) <==> old_side);
                    } else {
                        assert(!old_side);
                    }
                    if opened && t == t0 {
                    } else {
                        assert(!span_names(parts, c, entries, s as int, j as int, t, x));
                        assert(tfc@[t] == before[t]);
                    }
                }
            }
            j += 1;
        }
        proof {
            let n = chain@.len() as int;
            assert forall|s2: int, j2: int| #[trigger] span_before(parts, c, s + 1, 0, s2, j2)
                <==> span_before(parts, c, s as int, n, s2, j2) by {}
            assert forall|t: u32| #[trigger] tfc@.contains_key(t) <==> exists|s2: int, j2: int|
                #[trigger] span_before(parts, c, s + 1, 0, s2, j2) && span_opens(parts, c, entries, s2, j2, t) by {
                if tfc@.contains_key(t) {
                    let (s2, j2) = choose|s2: int, j2: int|
                        #[trigger] span_before(parts, c, s as int, n, s2, j2) && span_opens(parts, c, entries, s2, j2, t);
                    assert(span_before(parts, c, s + 1, 0, s2, j2));
                }
                if exists|s2: int, j2: int|
                    #[trigger] span_before(parts, c, s + 1, 0, s2, j2) && span_opens(parts, c, entries, s2, j2, t) {
                    let (s2, j2) = choose|s2: int, j2: int|
                        #[trigger] span_before(parts, c, s + 1, 0, s2, j2) && span_opens(parts, c, entries, s2, j2, t);
                    assert(span_before(parts, c, s as int, n, s2, j2));
                }
            }
            assert forall|t: u32, x: u32| #[trigger] tfc@.contains_key(t) implies (#[trigger] tfc@[t]@.contains(x)
                <==> exists|s2: int, j2: int|
                #[trigger] span_before(parts, c, s + 1, 0, s2, j2) && span_names(parts, c, entries, s2, j2, t, x)) by {
                if tfc@[t]@.contains(x) {
                    let (s2, j2) = choose|s2: int, j2: int|
                        #[trigger] span_before(parts, c, s as int, n, s2, j2) && span_names(parts, c, entries, s2, j2, t, x);
                    assert(span_before(parts, c, s + 1, 0, s2, j2));
                }
                if exists|s2: int, j2: int|
                    #[trigger] span_before(parts, c, s + 1, 0, s2, j2) && span_names(parts, c, entries, s2, j2, t, x) {
                    let (s2, j2) = choose|s2: int, j2: int|
                        #[trigger] span_before(parts, c, s + 1, 0, s2, j2) && span_names(parts, c, entries, s2, j2, t, x);
                    assert(span_before(parts, c, s as int, n, s2, j2));
                }
            }
        }
        s += 1;
    }
    out.type_family_candidates = tfc;
    out
}

} // verus!
