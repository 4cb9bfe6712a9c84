//! One value per ElementId out of entries read from several places: an id
//! whose entries disagree is dropped, since a value that cannot be read
//! unambiguously is not a value.

use vstd::prelude::*;
use std::collections::BTreeMap;

verus! {

broadcast use vstd::std_specs::btree::group_btree_axioms;

/// A value the scans read, with an exact comparison and copy.
pub trait Comparable: View + Sized {
    /// Whether the two values are the same.
    fn same(&self, other: &Self) -> (r: bool)
        ensures
            r == (self@ == other@),
    ;

    /// A copy of the value.
    fn duplicate(&self) -> (r: Self)
        ensures
            r@ == self@,
    ;
}

impl Comparable for String {
    fn same(&self, other: &Self) -> (r: bool) {
        *self == *other
    }

    fn duplicate(&self) -> (r: Self) {
        self.clone()
    }
}

impl Comparable for u32 {
    fn same(&self, other: &Self) -> (r: bool) {
        *self == *other
    }

    fn duplicate(&self) -> (r: Self) {
        *self
    }
}

/// The entries as values.
pub open spec fn id_values<V: View>(v: Seq<(u32, V)>) -> Seq<(u32, V::V)> {
    v.map_values(|p: (u32, V)| (p.0, p.1@))
}

/// Whether some entry names `id`.
pub open spec fn names_id<A>(entries: Seq<(u32, A)>, id: u32) -> bool {
    exists|i: int| 0 <= i < entries.len() && #[trigger] entries[i].0 == id
}

/// Whether every entry naming `id` carries the same value.
pub open spec fn agrees_on<A>(entries: Seq<(u32, A)>, id: u32) -> bool {
    forall|i: int, j: int|
        0 <= i < entries.len() && 0 <= j < entries.len() && entries[i].0 == id
            && entries[j].0 == id ==> #[trigger] entries[i].1
            == #[trigger] entries[j].1
}

/// The one value the entries give `id`: present when some entry names `id`
/// and all that do agree.
pub open spec fn collapsed<A>(entries: Seq<(u32, A)>, id: u32) -> Option<A> {
    if names_id(entries, id) && agrees_on(entries, id) {
        Some(
            entries[choose|i: int| 0 <= i < entries.len() && #[trigger] entries[i].0 == id].1,
        )
    } else {
        None
    }
}

/// Whether the map holds, for each id, exactly what [`collapsed`] gives it.
pub open spec fn is_collapse_of<V: View>(m: Map<u32, V>, entries: Seq<(u32, V::V)>) -> bool {
    forall|id: u32|
        #[trigger] m.contains_key(id) == collapsed(entries, id) is Some && (m.contains_key(id)
            ==> m[id]@ == collapsed(entries, id)->0)
}

/// One value per id: an id whose entries carry two different values is
/// dropped.
pub fn collapse_values<V: Comparable>(entries: &Vec<(u32, V)>) -> (r: BTreeMap<u32, V>)
    ensures
        is_collapse_of(r@, id_values(entries@)),
{
    let ghost v = id_values(entries@);
    let mut out: BTreeMap<u32, V> = BTreeMap::new();
    let mut conflicting: Vec<u32> = Vec::new();
    let mut i: usize = 0;
    while i < entries.len()
        invariant
            i <= entries@.len(),
            v == id_values(entries@),
            forall|id: u32|
                #[trigger] out@.contains_key(id) <==> names_id(v.take(i as int), id),
            forall|id: u32|
                #[trigger] out@.contains_key(id) ==> exists|j: int|
                    0 <= j < i && v[j].0 == id && #[trigger] v[j].1 == out@[id]@,
            forall|id: u32|
                #[trigger] conflicting@.contains(id) <==> out@.contains_key(id) && exists|j: int|
                    0 <= j < i && v[j].0 == id && #[trigger] v[j].1 != out@[id]@,
        decreases entries@.len() - i,
    {
        let id = entries[i].0;
        let ghost e = v[i as int];
        assert(e == (entries@[i as int].0, entries@[i as int].1@));
        let ghost out_before = out@;
        let ghost conf_before = conflicting@;
        let held = out.get(&id);
        match held {
            Some(existing) => {
                if !existing.same(&entries[i].1) {
                    conflicting.push(id);
                }
            },
            None => {
                out.insert(id, entries[i].1.duplicate());
            },
        }
        proof {
            assert forall|k: u32| #[trigger] out@.contains_key(k) <==> names_id(v.take(i + 1), k) by {
                if names_id(v.take(i + 1), k) {
                    let j = choose|j: int| 0 <= j < i + 1 && #[trigger] v.take(i + 1)[j].0 == k;
                    if j < i {
                        assert(v.take(i as int)[j].0 == k);
                    }
                }
                if names_id(v.take(i as int), k) {
                    let j = choose|j: int| 0 <= j < i && #[trigger] v.take(i as int)[j].0 == k;
                    assert(v.take(i + 1)[j].0 == k);
                }
                if k == id {
                    assert(v.take(i + 1)[i as int].0 == k);
                }
            }
            assert forall|k: u32| #[trigger] out@.contains_key(k) implies exists|j: int|
                0 <= j < i + 1 && v[j].0 == k && #[trigger] v[j].1 == out@[k]@ by {
                if k == id && !out_before.contains_key(k) {
                    assert(v[i as int].1 == out@[k]@);
                } else {
                    assert(out@[k] == out_before[k]);
                }
            }
            assert forall|k: u32| #[trigger] conflicting@.contains(k) <==> out@.contains_key(k)
                && exists|j: int| 0 <= j < i + 1 && v[j].0 == k && #[trigger] v[j].1
                != out@[k]@ by {
                crate::bytes::lemma_push_contains(conf_before, id, k);
                if k != id {
                    if out_before.contains_key(k) {
                        assert(out@[k] == out_before[k]);
                    }
                    if out@.contains_key(k) && exists|j: int| 0 <= j < i + 1 && v[j].0 == k
                        && #[trigger] v[j].1 != out@[k]@ {
                        let j = choose|j: int| 0 <= j < i + 1 && v[j].0 == k && #[trigger] v[j].1
                            != out@[k]@;
                        assert(j < i);
                    }
                } else if out_before.contains_key(k) {
                    assert(out@[k] == out_before[k]);
                    if !(conf_before.contains(k)) && exists|j: int| 0 <= j < i + 1 && v[j].0 == k
                        && #[trigger] v[j].1 != out@[k]@ {
                        let j = choose|j: int| 0 <= j < i + 1 && v[j].0 == k && #[trigger] v[j].1
                            != out@[k]@;
                        assert(j == i);
                    }
                    if conflicting@.contains(k) && !conf_before.contains(k) {
                        assert(v[i as int].1 != out@[k]@);
                    }
                } else {
                    assert(!conf_before.contains(k));
                    if exists|j: int| 0 <= j < i + 1 && v[j].0 == k && #[trigger] v[j].1
                        != out@[k]@ {
                        let j = choose|j: int| 0 <= j < i + 1 && v[j].0 == k && #[trigger] v[j].1
                            != out@[k]@;
                        if j < i {
                            assert(v.take(i as int)[j].0 == k);
                        }
                    }
                }
            }
        }
        i += 1;
    }
    assert(v.take(v.len() as int) =~= v);
    let ghost gathered = out@;
    let mut k: usize = 0;
    while k < conflicting.len()
        invariant
            k <= conflicting@.len(),
            forall|id: u32|
                #[trigger] out@.contains_key(id) <==> (gathered.contains_key(id)
                    && !conflicting@.take(k as int).contains(id)),
            forall|id: u32| #[trigger] out@.contains_key(id) ==> out@[id] == gathered[id],
        decreases conflicting@.len() - k,
    {
        let id = conflicting[k];
        let ghost before = out@;
        out.remove(&id);
        proof {
            assert(conflicting@.take(k + 1) =~= conflicting@.take(k as int).push(id));
            assert forall|x: u32| #[trigger] out@.contains_key(x) <==> (gathered.contains_key(x)
                && !conflicting@.take(k + 1).contains(x)) by {
                crate::bytes::lemma_push_contains(conflicting@.take(k as int), id, x);
            }
        }
        k += 1;
    }
    assert(conflicting@.take(conflicting@.len() as int) =~= conflicting@);
    assert forall|id: u32| #[trigger] out@.contains_key(id) == collapsed(v, id) is Some && (
    out@.contains_key(id) ==> out@[id]@ == collapsed(v, id)->0) by {
        if gathered.contains_key(id) {
            let w = gathered[id]@;
            if agrees_on(v, id) {
                let c = choose|i: int| 0 <= i < v.len() && #[trigger] v[i].0 == id;
                let j = choose|j: int| 0 <= j < v.len() && v[j].0 == id && #[trigger] v[j].1 == w;
                assert(v[c].1 == v[j].1);
                if conflicting@.contains(id) {
                    let m = choose|m: int| 0 <= m < v.len() && v[m].0 == id && #[trigger] v[m].1 != w;
                    assert(v[m].1 == v[j].1);
                }
            } else {
                let (a, b) = choose|a: int, b: int|
                    !(0 <= a < v.len() && 0 <= b < v.len() && v[a].0 == id && v[b].0
                        == id ==> #[trigger] v[a].1 == #[trigger] v[b].1);
                if !conflicting@.contains(id) {
                    assert(v[a].1 == w) by {
                        if v[a].1 != w {
                            assert(exists|j: int| 0 <= j < v.len() && v[j].0 == id && #[trigger] v[j].1 != w);
                        }
                    }
                    assert(v[b].1 == w) by {
                        if v[b].1 != w {
                            assert(exists|j: int| 0 <= j < v.len() && v[j].0 == id && #[trigger] v[j].1 != w);
                        }
                    }
                }
            }
        } else {
            assert(!names_id(v, id));
        }
    }
    out
}


/// Whether some other id collapses to the same value as `id`.
pub open spec fn shared_value<A>(entries: Seq<(u32, A)>, id: u32) -> bool {
    exists|other: u32|
        other != id && #[trigger] collapsed(entries, other) is Some && collapsed(entries, other)
            == collapsed(entries, id)
}

/// Whether the map holds, for each id, the value it collapses to, when no
/// other id collapses to that value too.
pub open spec fn is_unshared_collapse_of<V: View>(m: Map<u32, V>, entries: Seq<(u32, V::V)>) -> bool {
    forall|id: u32|
        #[trigger] m.contains_key(id) == (collapsed(entries, id) is Some && !shared_value(entries, id))
            && (m.contains_key(id) ==> m[id]@ == collapsed(entries, id)->0)
}

/// The collapse `m` of `entries` without the values two or more ids share.
pub fn drop_shared_values<V: Comparable>(entries: &Vec<(u32, V)>, m: &BTreeMap<u32, V>) -> (r: BTreeMap<
    u32,
    V,
>)
    requires
        is_collapse_of(m@, id_values(entries@)),
    ensures
        is_unshared_collapse_of(r@, id_values(entries@)),
{
    let ghost v = id_values(entries@);
    let mut out: BTreeMap<u32, V> = BTreeMap::new();
    let mut i: usize = 0;
    while i < entries.len()
        invariant
            i <= entries@.len(),
            v == id_values(entries@),
            is_collapse_of(m@, v),
            forall|id: u32| #[trigger]
                out@.contains_key(id) ==> collapsed(v, id) is Some && !shared_value(v, id)
                    && out@[id]@ == collapsed(v, id)->0,
            forall|j: int|
                0 <= j < i && collapsed(v, #[trigger] v[j].0) is Some && !shared_value(v, v[j].0)
                    ==> out@.contains_key(v[j].0),
        decreases entries@.len() - i,
    {
        let id = entries[i].0;
        assert(v[i as int].0 == id);
        let ghost before = out@;
        if let Some(value) = m.get(&id) {
            let mut shared = false;
            let mut k: usize = 0;
            while k < entries.len()
                invariant
                    k <= entries@.len(),
                    v == id_values(entries@),
                    is_collapse_of(m@, v),
                    m@.contains_key(id),
                    *value == m@[id],
                    shared <==> exists|j: int|
                        0 <= j < k && #[trigger] v[j].0 != id && m@.contains_key(v[j].0) && m@[v[j].0]@
                            == value@,
                decreases entries@.len() - k,
            {
                let other = entries[k].0;
                assert(v[k as int].0 == other);
                if other != id {
                    if let Some(t) = m.get(&other) {
                        if t.same(value) {
                            shared = true;
                        }
                    }
                }
                k += 1;
            }
            proof {
                assert(m@.contains_key(id));
                assert(collapsed(v, id) is Some);
                if shared {
                    let j = choose|j: int|
                        0 <= j < entries@.len() && #[trigger] v[j].0 != id && m@.contains_key(v[j].0)
                            && m@[v[j].0]@ == value@;
                    assert(m@.contains_key(v[j].0));
                    assert(shared_value(v, id));
                } else {
                    if shared_value(v, id) {
                        let other = choose|other: u32|
                            other != id && #[trigger] collapsed(v, other) is Some && collapsed(v, other)
                                == collapsed(v, id);
                        assert(m@.contains_key(other));
                        assert(names_id(v, other));
                        let j = choose|j: int| 0 <= j < v.len() && #[trigger] v[j].0 == other;
                        assert(m@[v[j].0]@ == value@);
                    }
                }
            }
            if !shared {
                out.insert(id, value.duplicate());
            }
        } else {
            assert(collapsed(v, id) is None);
        }
        proof {
            assert forall|id2: u32| #[trigger] out@.contains_key(id2) implies collapsed(v, id2) is Some
                && !shared_value(v, id2) && out@[id2]@ == collapsed(v, id2)->0 by {
                if id2 != id || before.contains_key(id2) {
                    assert(out@[id2] == before[id2] || id2 == id);
                }
            }
            assert forall|j: int|
                0 <= j < i + 1 && collapsed(v, #[trigger] v[j].0) is Some && !shared_value(v, v[j].0)
                implies out@.contains_key(v[j].0) by {
                if j < i {
                    assert(before.contains_key(v[j].0));
                }
            }
        }
        i += 1;
    }
    proof {
        assert forall|id: u32| #[trigger] out@.contains_key(id) == (collapsed(v, id) is Some
            && !shared_value(v, id)) && (out@.contains_key(id) ==> out@[id]@ == collapsed(v, id)->0) by {
            if collapsed(v, id) is Some && !shared_value(v, id) {
                let j = choose|j: int| 0 <= j < v.len() && #[trigger] v[j].0 == id;
                assert(collapsed(v, v[j].0) is Some);
            }
        }
    }
    out
}

/// Once the shared values are dropped, no two ids keep the same value.
pub proof fn unshared_values_distinct<V: View>(m: Map<u32, V>, entries: Seq<(u32, V::V)>, a: u32, b: u32)
    requires
        is_unshared_collapse_of(m, entries),
        m.contains_key(a),
        m.contains_key(b),
        a != b,
    ensures
        m[a]@ != m[b]@,
{
    if m[a]@ == m[b]@ {
        assert(m.contains_key(a) && m.contains_key(b));
        assert(collapsed(entries, b) is Some && collapsed(entries, b) == collapsed(entries, a));
        assert(shared_value(entries, a));
    }
}

/// A kept value is the value of every entry for its id.
pub proof fn collapsed_value_agrees<V: View>(m: Map<u32, V>, entries: Seq<(u32, V::V)>, id: u32, k: int)
    requires
        is_collapse_of(m, entries),
        m.contains_key(id),
        0 <= k < entries.len(),
        entries[k].0 == id,
    ensures
        m[id]@ == entries[k].1,
{
    let c = choose|i: int| 0 <= i < entries.len() && #[trigger] entries[i].0 == id;
    assert(entries[c].1 == entries[k].1);
}

} // verus!
