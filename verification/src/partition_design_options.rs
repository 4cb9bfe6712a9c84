//! Design option sets and their primary options. An element in a design
//! option carries the option's ElementId at `+0x2a` of its record; an
//! option-set partition record lists the set's options after its own id,
//! and the set's name entry closes with the ElementId of its primary
//! option. Only an option of a resolved set that is not its primary is
//! non-primary: a set with no name entry, or whose entries disagree, stays
//! unresolved.

use vstd::prelude::*;
use std::collections::{BTreeMap, BTreeSet};
use crate::bytes::{
    find_from, iter_hits_from, keep_some, le_u32, le_u64, lemma_iter_hits_none,
    lemma_iter_hits_skip, lemma_iter_hits_step, lemma_keep_some_step, read_u16, read_u32, read_u64,
};
use crate::partition_name_candidates::{chars_lt, lemma_seq_lt_total, lemma_seq_lt_transitive, seq_lt};
use crate::partition_names::{name_units, span_before, stream_chain};
use crate::partitions::{partition_views, InflatedPartition};
use crate::text::{any_control, chars_of, from_utf16, has_control, trim, trim_chars, utf16_decode};
use crate::partition_element_records::{
    bbox_marker, from_signed, from_signed_spec, partition_record_chain, spec_bbox_marker,
    spec_le_bytes, spec_record_prologue_constant, u64_le_bytes, PartitionElementRecord,
    CATEGORY_OFFSET, categories_records_in, record_views, scan_category_records_multi,
    ElementRecordView, SecondPrologueIds, CONTAINER_NONE, PLACEMENT_KIND_INSTANCE,
    RECOVERED_CATEGORIES, recovered_codes, class_count_views,
};

verus! {

broadcast use vstd::std_specs::btree::group_btree_axioms;

/// Autodesk `BuiltInCategory.OST_DesignOptions`.
pub const OST_DESIGN_OPTIONS: i64 = -2_006_114;
/// Autodesk `BuiltInCategory.OST_DesignOptionSets`.
pub const OST_DESIGN_OPTION_SETS: i64 = -2_006_112;
/// Offset, from the start of an option-set partition record, of the `u32`
/// count that opens the set's id list.
pub const OPTION_LIST_OFFSET: usize = 0x56;
/// Most options a set is read with. A count above it is not a set list.
pub const OPTIONS_PER_SET_MAX: usize = 64;
/// Longest set name, in UTF-16 code units, read from a name entry.
pub const SET_NAME_MAX_UNITS: usize = 256;

/// A design option set whose primary option was read.
#[derive(Debug, Clone, PartialEq, Eq)]
pub struct DesignOptionSet {
    /// The set's ElementId.
    pub set_id: u32,
    /// The set's name as stored.
    pub name: String,
    /// The set's options, in the order the set lists them.
    pub options: Vec<u32>,
    /// The primary option, one of `options`.
    pub primary: u32,
}

/// Every design option set of a file.
#[derive(Debug, Clone)]
pub struct DesignOptions {
    /// Sets whose primary option was read, by set ElementId.
    pub sets: BTreeMap<u32, DesignOptionSet>,
    /// Sets found in a partition record chain whose name entry is missing
    /// or ambiguous. Their options are neither primary nor non-primary.
    pub unresolved_sets: BTreeSet<u32>,
}

impl Default for DesignOptions {
    /// No set, resolved or not.
    fn default() -> (r: DesignOptions)
        ensures
            r.sets@ == Map::<u32, DesignOptionSet>::empty(),
            r.unresolved_sets@ == Set::<u32>::empty(),
    {
        DesignOptions { sets: BTreeMap::new(), unresolved_sets: BTreeSet::new() }
    }
}

/// Whether `option` is one of `set`'s options other than its primary.
pub open spec fn set_excludes(set: DesignOptionSet, option: u32) -> bool {
    set.primary != option && set.options@.contains(option)
}

/// Whether `option` is a non-primary option of a set in `sets`.
pub open spec fn spec_is_non_primary(sets: Map<u32, DesignOptionSet>, option: u32) -> bool {
    exists|k: u32| sets.contains_key(k) && #[trigger] set_excludes(sets[k], option)
}

fn holds_id(v: &Vec<u32>, x: u32) -> (r: bool)
    ensures
        r == v@.contains(x),
{
    let mut i: usize = 0;
    while i < v.len()
        invariant
            i <= v@.len(),
            forall|j: int| 0 <= j < i ==> v@[j] != x,
        decreases v@.len() - i,
    {
        if v[i] == x {
            assert(v@[i as int] == x);
            return true;
        }
        i += 1;
    }
    false
}

impl DesignOptions {
    /// Whether `option` belongs to a resolved set and is not its primary.
    pub fn is_non_primary(&self, option: u32) -> (r: bool)
        ensures
            r == spec_is_non_primary(self.sets@, option),
    {
        let values = self.sets.values();
        let ghost keys = choose|key_seq: Seq<u32>|
            {
                &&& vstd::std_specs::btree::increasing_seq(key_seq)
                &&& key_seq.to_set() == self.sets@.dom()
                &&& key_seq.no_duplicates()
                &&& vstd::std_specs::iter::IteratorSpec::remaining(&values) == key_seq.map(|i: int, k: u32| &self.sets@[k])
            };
        let ghost mut count: int = 0;
        for set in it: values
            invariant
                it.seq() == keys.map(|i: int, k: u32| &self.sets@[k]),
                keys.to_set() == self.sets@.dom(),
                count == it.index(),
                forall|j: int| 0 <= j < count ==> !#[trigger] set_excludes(self.sets@[keys[j]], option),
        {
            if set.primary != option && holds_id(&set.options, option) {
                proof {
                    let j = it.index();
                    assert(keys.to_set().contains(keys[j]));
                    assert(self.sets@.contains_key(keys[j]));
                    assert(set_excludes(self.sets@[keys[j]], option));
                }
                return true;
            }
            proof {
                count = count + 1;
            }
        }
        proof {
            assert(count == keys.len());
            assert forall|k: u32| self.sets@.contains_key(k) implies !#[trigger] set_excludes(
                self.sets@[k],
                option,
            ) by {
                assert(keys.to_set().contains(k));
                let j = choose|j: int| 0 <= j < keys.len() && keys[j] == k;
                assert(!set_excludes(self.sets@[keys[j]], option));
            }
        }
        false
    }

    /// Every option of a resolved set other than its primary.
    pub fn non_primary_options(&self) -> (r: BTreeSet<u32>)
        ensures
            forall|o: u32| #[trigger] r@.contains(o) <==> spec_is_non_primary(self.sets@, o),
    {
        let mut out: BTreeSet<u32> = BTreeSet::new();
        let values = self.sets.values();
        let ghost keys = choose|key_seq: Seq<u32>|
            {
                &&& vstd::std_specs::btree::increasing_seq(key_seq)
                &&& key_seq.to_set() == self.sets@.dom()
                &&& key_seq.no_duplicates()
                &&& vstd::std_specs::iter::IteratorSpec::remaining(&values) == key_seq.map(
                    |i: int, k: u32| &self.sets@[k],
                )
            };
        let ghost mut count: int = 0;
        for set in it: values
            invariant
                it.seq() == keys.map(|i: int, k: u32| &self.sets@[k]),
                keys.to_set() == self.sets@.dom(),
                count == it.index(),
                forall|o: u32| #[trigger]
                    out@.contains(o) <==> exists|j: int|
                        0 <= j < count && #[trigger] set_excludes(self.sets@[keys[j]], o),
        {
            let ghost before = out@;
            let ghost cur = self.sets@[keys[count]];
            assert(*set == cur);
            let mut i: usize = 0;
            while i < set.options.len()
                invariant
                    i <= set.options@.len(),
                    *set == cur,
                    forall|o: u32| #[trigger]
                        out@.contains(o) <==> (before.contains(o) || (o != cur.primary
                            && cur.options@.take(i as int).contains(o))),
                decreases set.options@.len() - i,
            {
                let o = set.options[i];
                assert(cur.options@.take(i + 1) =~= cur.options@.take(i as int).push(o));
                if o != set.primary {
                    out.insert(o);
                }
                proof {
                    assert forall|x: u32| #[trigger] out@.contains(x) <==> (before.contains(x) || (x
                        != cur.primary && cur.options@.take(i + 1).contains(x))) by {
                        crate::bytes::lemma_push_contains(cur.options@.take(i as int), o, x);
                    }
                }
                i += 1;
            }
            proof {
                assert(cur.options@.take(cur.options@.len() as int) =~= cur.options@);
                assert forall|o: u32| #[trigger] out@.contains(o) <==> exists|j: int|
                    0 <= j < count + 1 && #[trigger] set_excludes(self.sets@[keys[j]], o) by {
                    if out@.contains(o) && !before.contains(o) {
                        assert(set_excludes(self.sets@[keys[count]], o));
                    }
                    if exists|j: int| 0 <= j < count + 1 && #[trigger] set_excludes(self.sets@[keys[j]], o) {
                        let j = choose|j: int| 0 <= j < count + 1 && #[trigger] set_excludes(self.sets@[keys[j]], o);
                        if j < count {
                            assert(before.contains(o));
                        }
                    }
                }
                count = count + 1;
            }
        }
        proof {
            assert(count == keys.len());
            assert forall|o: u32| #[trigger] out@.contains(o) <==> spec_is_non_primary(self.sets@, o) by {
                if out@.contains(o) {
                    let j = choose|j: int| 0 <= j < count && #[trigger] set_excludes(self.sets@[keys[j]], o);
                    assert(keys.to_set().contains(keys[j]));
                    assert(self.sets@.contains_key(keys[j]));
                }
                if spec_is_non_primary(self.sets@, o) {
                    let k = choose|k: u32| self.sets@.contains_key(k) && #[trigger] set_excludes(self.sets@[k], o);
                    assert(keys.to_set().contains(k));
                    let j = choose|j: int| 0 <= j < keys.len() && keys[j] == k;
                    assert(set_excludes(self.sets@[keys[j]], o));
                }
            }
        }
        out
    }

    /// Whether `record` is in a non-primary design option, which Revit's
    /// export leaves out.
    pub fn excludes(&self, record: &PartitionElementRecord) -> (r: bool)
        ensures
            r == (record.design_option matches Some(o) && spec_is_non_primary(self.sets@, o)),
    {
        match record.design_option {
            Some(o) => self.is_non_primary(o),
            None => false,
        }
    }
}

/// The `count - 1` ids after the set's own id in a list whose ids start at
/// `ids_at`.
pub open spec fn listed_ids(buf: Seq<u8>, ids_at: int, count: int) -> Seq<u64> {
    Seq::new((count - 1) as nat, |k: int| le_u64(buf, ids_at + 8 * (k + 1)) as u64)
}

/// The options the option-set record in `buf[start..end]` lists: its
/// category is [`OST_DESIGN_OPTION_SETS`], and the `u32` count at
/// [`OPTION_LIST_OFFSET`] is 2 to 65 and opens a list of `u64` ids that
/// fits the record, starts with `set_id` and goes on with distinct options
/// in the `u32` range, none of them `set_id`.
pub open spec fn spec_option_set_members(buf: Seq<u8>, start: int, end: int, set_id: u64) -> Option<
    Seq<u32>,
> {
    let cat_at = start + CATEGORY_OFFSET;
    let list_at = start + OPTION_LIST_OFFSET;
    let ids_at = list_at + 4;
    if cat_at + 8 > buf.len() || le_u64(buf, cat_at) != from_signed_spec(OST_DESIGN_OPTION_SETS) {
        None
    } else if list_at + 4 > buf.len() {
        None
    } else {
        let count = le_u32(buf, list_at);
        let ids = listed_ids(buf, ids_at, count);
        if count < 2 || count > OPTIONS_PER_SET_MAX + 1 || ids_at + 8 * count > end || ids_at + 8
            * count > buf.len() || le_u64(buf, ids_at) != set_id {
            None
        } else if exists|k: int|
            0 <= k < ids.len() && (#[trigger] ids[k] > 0xffff_ffff || ids[k] == set_id) {
            None
        } else if !ids.no_duplicates() {
            None
        } else {
            Some(ids.map_values(|x: u64| x as u32))
        }
    }
}

/// Whether the record in `buf[start..end]` opens a set list for `set_id`:
/// the checks before the options are read.
pub open spec fn set_list_opens(buf: Seq<u8>, start: int, end: int, set_id: u64) -> bool {
    let cat_at = start + CATEGORY_OFFSET;
    let list_at = start + OPTION_LIST_OFFSET;
    let ids_at = list_at + 4;
    let count = le_u32(buf, list_at);
    &&& cat_at + 8 <= buf.len()
    &&& le_u64(buf, cat_at) == from_signed_spec(OST_DESIGN_OPTION_SETS)
    &&& list_at + 4 <= buf.len()
    &&& 2 <= count <= OPTIONS_PER_SET_MAX + 1
    &&& ids_at + 8 * count <= end
    &&& ids_at + 8 * count <= buf.len()
    &&& le_u64(buf, ids_at) == set_id
}

fn open_set_list(buf: &[u8], start: usize, end: usize, set_id: u64) -> (r: Option<(usize, usize)>)
    ensures
        r is Some <==> set_list_opens(buf@, start as int, end as int, set_id),
        r matches Some(p) ==> p.0 == start + OPTION_LIST_OFFSET + 4 && p.1 == le_u32(
            buf@,
            start + OPTION_LIST_OFFSET,
        ),
{
    let len = buf.len();
    if start > len || len - start < CATEGORY_OFFSET + 8 {
        return None;
    }
    let category = read_u64(buf, start + CATEGORY_OFFSET).unwrap();
    if category != from_signed(OST_DESIGN_OPTION_SETS) {
        return None;
    }
    if len - start < OPTION_LIST_OFFSET + 4 {
        return None;
    }
    let list_at = start + OPTION_LIST_OFFSET;
    let count = read_u32(buf, list_at).unwrap() as usize;
    if count < 2 || count > OPTIONS_PER_SET_MAX + 1 {
        return None;
    }
    let ids_at = list_at + 4;
    if ids_at > end || end - ids_at < count * 8 {
        return None;
    }
    if ids_at > len || len - ids_at < count * 8 {
        return None;
    }
    let own = read_u64(buf, ids_at).unwrap();
    if own != set_id {
        return None;
    }
    Some((ids_at, count))
}

/// The options an option-set partition record lists, or `None` when the
/// record in `buf[start..end]` is not one: its category must be
/// [`OST_DESIGN_OPTION_SETS`], and the list at [`OPTION_LIST_OFFSET`] must
/// start with the record's own `set_id`, stay inside the record, and name
/// at least one option distinct from the set.
#[verifier::rlimit(40)]
pub fn option_set_members(buf: &[u8], start: usize, end: usize, set_id: u64) -> (r: Option<
    Vec<u32>,
>)
    ensures
        match r {
            Some(v) => spec_option_set_members(buf@, start as int, end as int, set_id) == Some(v@),
            None => spec_option_set_members(buf@, start as int, end as int, set_id) is None,
        },
{
    let (ids_at, count) = match open_set_list(buf, start, end, set_id) {
        Some(p) => p,
        None => {
            return None;
        },
    };
    let len = buf.len();
    let ghost ids = listed_ids(buf@, ids_at as int, count as int);
    let mut options: Vec<u32> = Vec::new();
    let mut index: usize = 1;
    while index < count
        invariant
            len == buf@.len(),
            1 <= index <= count,
            2 <= count <= OPTIONS_PER_SET_MAX + 1,
            ids_at + 8 * count <= len,
            ids == listed_ids(buf@, ids_at as int, count as int),
            set_list_opens(buf@, start as int, end as int, set_id),
            ids_at == start + OPTION_LIST_OFFSET + 4,
            count == le_u32(buf@, start + OPTION_LIST_OFFSET),
            options@.len() == index - 1,
            forall|k: int| 0 <= k < index - 1 ==> #[trigger] options@[k] as u64 == ids[k],
            forall|k: int| 0 <= k < index - 1 ==> #[trigger] options@[k] != set_id,
            options@.no_duplicates(),
        decreases count - index,
    {
        let id = read_u64(buf, ids_at + index * 8).unwrap();
        assert(id == ids[index - 1]);
        if id > 0xffff_ffff || id == set_id {
            assert(ids[index - 1] > 0xffff_ffff || ids[index - 1] == set_id);
            return None;
        }
        let id32 = id as u32;
        if holds_id(&options, id32) {
            proof {
                let k = choose|k: int| 0 <= k < options@.len() && options@[k] == id32;
                assert(ids[k] == ids[index - 1]);
                assert(!ids.no_duplicates());
            }
            return None;
        }
        let ghost before = options@;
        options.push(id32);
        proof {
            assert forall|a: int, b: int| 0 <= a < b < options@.len() implies options@[a]
                != options@[b] by {
                if b == options@.len() - 1 {
                    assert(before.contains(before[a]));
                }
            }
        }
        index += 1;
    }
    proof {
        assert forall|k: int| 0 <= k < ids.len() implies !(#[trigger] ids[k] > 0xffff_ffff || ids[k] == set_id) by {
            assert(options@[k] as u64 == ids[k]);
        }
        assert forall|a: int, b: int| 0 <= a < b < ids.len() implies ids[a] != ids[b] by {
            assert(options@[a] as u64 == ids[a]);
            assert(options@[b] as u64 == ids[b]);
        }
        assert(options@ =~= ids.map_values(|x: u64| x as u32));
    }
    Some(options)
}

/// The eight little-endian bytes of each option, in order.
pub open spec fn options_bytes(options: Seq<u32>) -> Seq<u8>
    decreases options.len(),
{
    if options.len() == 0 {
        Seq::empty()
    } else {
        options_bytes(options.drop_last()) + spec_le_bytes(options.last() as u64)
    }
}

/// The bytes a set's name entry opens with: the `u32` option count, the
/// options as `u64`, and a `u32` 1.
pub open spec fn set_needle(options: Seq<u32>) -> Seq<u8> {
    spec_le_bytes(options.len() as u32 as u64).take(4) + options_bytes(options) + spec_le_bytes(
        1,
    ).take(4)
}

/// The `(name, primary)` the name entry whose opening bytes sit at `h`
/// gives: a name of 1 to 256 UTF-16 units that decodes, is not only white
/// space and holds no control character, and after it a primary in the
/// `u32` range that is one of the set's options.
pub open spec fn set_entry_at(buf: Seq<u8>, options: Seq<u32>, h: int) -> Option<(Seq<char>, u32)> {
    let length_at = h + set_needle(options).len();
    let name_at = length_at + 4;
    if length_at + 4 > buf.len() {
        None
    } else {
        let units = le_u32(buf, length_at);
        if units < 1 || units > SET_NAME_MAX_UNITS || name_at + 2 * units > buf.len() {
            None
        } else {
            match utf16_decode(name_units(buf, name_at, units)) {
                None => None,
                Some(name) => {
                    let at = name_at + 2 * units;
                    if trim(name).len() == 0 || has_control(name) || at + 8 > buf.len() || le_u64(
                        buf,
                        at,
                    ) > 0xffff_ffff || !options.contains(le_u64(buf, at) as u32) {
                        None
                    } else {
                        Some((name, le_u64(buf, at) as u32))
                    }
                },
            }
        }
    }
}

/// [`set_entry_at`] as a function of the hit.
pub open spec fn set_entry_fn(buf: Seq<u8>, options: Seq<u32>) -> spec_fn(int) -> Option<
    (Seq<char>, u32),
> {
    |h: int| set_entry_at(buf, options, h)
}

/// The names and primaries of a list of set entries.
pub open spec fn pair_views(v: Seq<(String, u32)>) -> Seq<(Seq<char>, u32)> {
    v.map_values(|p: (String, u32)| (p.0@, p.1))
}

fn push_le(out: &mut Vec<u8>, v: u64, n: usize)
    requires
        n <= 8,
    ensures
        final(out)@ == old(out)@ + spec_le_bytes(v).take(n as int),
{
    let bytes = u64_le_bytes(v);
    let ghost start = out@;
    let mut k: usize = 0;
    while k < n
        invariant
            k <= n <= 8,
            bytes@ == spec_le_bytes(v),
            out@ == start + spec_le_bytes(v).take(k as int),
        decreases n - k,
    {
        out.push(bytes[k]);
        assert(spec_le_bytes(v).take(k + 1) =~= spec_le_bytes(v).take(k as int).push(bytes@[k as int]));
        k += 1;
    }
}

fn set_needle_bytes(options: &[u32]) -> (r: Vec<u8>)
    ensures
        r@ == set_needle(options@),
{
    let mut needle: Vec<u8> = Vec::new();
    let count = options.len() as u32;
    push_le(&mut needle, count as u64, 4);
    let ghost head = needle@;
    let mut i: usize = 0;
    while i < options.len()
        invariant
            i <= options@.len(),
            needle@ == head + options_bytes(options@.take(i as int)),
        decreases options@.len() - i,
    {
        push_le(&mut needle, options[i] as u64, 8);
        proof {
            assert(options@.take(i + 1).drop_last() =~= options@.take(i as int));
            assert(spec_le_bytes(options@[i as int] as u64).take(8) =~= spec_le_bytes(options@[i as int] as u64));
            assert(head + options_bytes(options@.take(i as int)) + spec_le_bytes(options@[i as int] as u64)
                =~= head + (options_bytes(options@.take(i as int)) + spec_le_bytes(options@[i as int] as u64)));
        }
        i += 1;
    }
    assert(options@.take(options@.len() as int) =~= options@);
    push_le(&mut needle, 1, 4);
    assert(needle@ =~= set_needle(options@));
    needle
}

fn holds_u32(v: &[u32], x: u32) -> (r: bool)
    ensures
        r == v@.contains(x),
{
    let mut i: usize = 0;
    while i < v.len()
        invariant
            i <= v@.len(),
            forall|j: int| 0 <= j < i ==> v@[j] != x,
        decreases v@.len() - i,
    {
        if v[i] == x {
            assert(v@[i as int] == x);
            return true;
        }
        i += 1;
    }
    false
}

fn set_entry(buf: &[u8], options: &[u32], h: usize, needle_len: usize) -> (r: Option<(String, u32)>)
    requires
        needle_len == set_needle(options@).len(),
        h + needle_len <= buf@.len(),
    ensures
        match r {
            Some(p) => set_entry_at(buf@, options@, h as int) == Some((p.0@, p.1)),
            None => set_entry_at(buf@, options@, h as int) is None,
        },
{
    let len = buf.len();
    let length_at = h + needle_len;
    let units = match read_u32(buf, length_at) {
        Some(u) => u as usize,
        None => {
            return None;
        },
    };
    if units < 1 || units > SET_NAME_MAX_UNITS {
        return None;
    }
    let name_at = length_at + 4;
    if len - name_at < 2 * units {
        return None;
    }
    let mut code: Vec<u16> = Vec::new();
    let mut k: usize = 0;
    while k < units
        invariant
            len == buf@.len(),
            k <= units <= SET_NAME_MAX_UNITS,
            name_at + 2 * units <= len,
            code@ == name_units(buf@, name_at as int, k as int),
        decreases units - k,
    {
        let unit = read_u16(buf, name_at + 2 * k).unwrap();
        code.push(unit);
        assert(code@ =~= name_units(buf@, name_at as int, k + 1));
        k += 1;
    }
    let name = match from_utf16(code.as_slice()) {
        Some(n) => n,
        None => {
            return None;
        },
    };
    let chars = chars_of(name.as_str());
    if trim_chars(&chars).len() == 0 || any_control(&chars) {
        return None;
    }
    let primary = match read_u64(buf, name_at + 2 * units) {
        Some(p) => p,
        None => {
            return None;
        },
    };
    if primary > 0xffff_ffff {
        return None;
    }
    let p = primary as u32;
    if !holds_u32(options, p) {
        return None;
    }
    Some((name, p))
}

/// Every `(name, primary)` the name entries in `buf` give for the set that
/// lists `options`, in the order `memmem::find_iter` reports their opening
/// bytes. A primary that is not one of `options`, or a name with a control
/// character or an unpaired surrogate, is not an entry.
pub fn find_set_entries(buf: &[u8], options: &[u32]) -> (r: Vec<(String, u32)>)
    ensures
        pair_views(r@) == keep_some(
            iter_hits_from(buf@, set_needle(options@), 0),
            set_entry_fn(buf@, options@),
        ),
{
    let needle = set_needle_bytes(options);
    let ghost n = needle@;
    let ghost f = set_entry_fn(buf@, options@);
    let nlen = needle.len();
    let mut out: Vec<(String, u32)> = Vec::new();
    let mut cursor: usize = 0;
    let len = buf.len();
    while cursor <= len && len - cursor >= nlen
        invariant
            len == buf@.len(),
            n == needle@,
            n == set_needle(options@),
            nlen == n.len(),
            nlen >= 8,
            f == set_entry_fn(buf@, options@),
            keep_some(iter_hits_from(buf@, n, 0), f) == pair_views(out@) + keep_some(
                iter_hits_from(buf@, n, cursor as int),
                f,
            ),
        ensures
            iter_hits_from(buf@, n, cursor as int) == Seq::<(int)>::empty(),
        decreases len + 1 - cursor,
    {
        let hit = match find_from(buf, cursor, needle.as_slice()) {
            Some(h) => h,
            None => {
                proof {
                    lemma_iter_hits_none(buf@, n, cursor as int);
                }
                break;
            },
        };
        proof {
            lemma_iter_hits_skip(buf@, n, cursor as int, hit as int);
            lemma_iter_hits_step(buf@, n, hit as int);
            lemma_keep_some_step(iter_hits_from(buf@, n, hit as int), f);
            assert((seq![hit as int] + iter_hits_from(buf@, n, hit + nlen)).drop_first() =~= iter_hits_from(buf@, n, hit + nlen));
        }
        let ghost before = out@;
        match set_entry(buf, options, hit, nlen) {
            Some(e) => {
                out.push(e);
                proof {
                    assert(pair_views(out@) =~= pair_views(before).push((e.0@, e.1)));
                    assert(pair_views(out@) + keep_some(iter_hits_from(buf@, n, hit + nlen), f)
                        =~= pair_views(before) + (seq![(e.0@, e.1)] + keep_some(
                        iter_hits_from(buf@, n, hit + nlen),
                        f,
                    )));
                }
            },
            None => {},
        }
        cursor = hit + nlen;
    }
    proof {
        assert(pair_views(out@) + Seq::<(Seq<char>, u32)>::empty() =~= pair_views(out@));
    }
    out
}

/// The entries stream `s` gives for the set listing `options`.
pub open spec fn stream_set_entries(parts: Seq<(Seq<char>, Seq<u8>)>, options: Seq<u32>, s: int) -> Seq<
    (Seq<char>, u32),
> {
    keep_some(iter_hits_from(parts[s].1, set_needle(options), 0), set_entry_fn(parts[s].1, options))
}

/// Whether an entry of stream `s`, one before entry `k0` of stream `s0`,
/// gives `(name, p)` for the set listing `options`.
pub open spec fn entry_upto(
    parts: Seq<(Seq<char>, Seq<u8>)>,
    options: Seq<u32>,
    s0: int,
    k0: int,
    name: Seq<char>,
    p: u32,
) -> bool {
    exists|s: int, k: int|
        0 <= s < parts.len() && (s < s0 || (s == s0 && k < k0)) && 0 <= k < stream_set_entries(
            parts,
            options,
            s,
        ).len() && #[trigger] stream_set_entries(parts, options, s)[k] == (name, p)
}

/// Whether some stream's entries give `(name, p)` for the set listing
/// `options`.
pub open spec fn entry_found(
    parts: Seq<(Seq<char>, Seq<u8>)>,
    options: Seq<u32>,
    name: Seq<char>,
    p: u32,
) -> bool {
    entry_upto(parts, options, parts.len() as int, 0, name, p)
}

/// Whether the entries found for the set listing `options` all name `p`
/// as its primary, and at least one does.
pub open spec fn single_primary(parts: Seq<(Seq<char>, Seq<u8>)>, options: Seq<u32>, p: u32) -> bool {
    (exists|name: Seq<char>| #[trigger] entry_found(parts, options, name, p)) && forall|
        n2: Seq<char>,
        p2: u32,
    | #[trigger] entry_found(parts, options, n2, p2) ==> p2 == p
}

/// Whether `name` is the least name, in code-point order, the entries give
/// with primary `p`.
pub open spec fn least_name(
    parts: Seq<(Seq<char>, Seq<u8>)>,
    options: Seq<u32>,
    p: u32,
    name: Seq<char>,
) -> bool {
    entry_found(parts, options, name, p) && forall|n2: Seq<char>|
        #[trigger] entry_found(parts, options, n2, p) ==> n2 == name || seq_lt(name, n2)
}

/// Whether the running choice accounts for the entries before entry `k0`
/// of stream `s0`.
spec fn primary_state(
    parts: Seq<(Seq<char>, Seq<u8>)>,
    options: Seq<u32>,
    s0: int,
    k0: int,
    prim: Option<u32>,
    best: Seq<char>,
    ambiguous: bool,
) -> bool {
    match prim {
        None => !ambiguous && forall|n: Seq<char>, p: u32| !#[trigger] entry_upto(parts, options, s0, k0, n, p),
        Some(p0) => {
            &&& entry_upto(parts, options, s0, k0, best, p0)
            &&& ambiguous <==> exists|n: Seq<char>, p: u32|
                #[trigger] entry_upto(parts, options, s0, k0, n, p) && p != p0
            &&& forall|n: Seq<char>| #[trigger]
                entry_upto(parts, options, s0, k0, n, p0) ==> n == best || seq_lt(best, n)
        },
    }
}

proof fn lemma_entry_upto_step(
    parts: Seq<(Seq<char>, Seq<u8>)>,
    options: Seq<u32>,
    s0: int,
    k0: int,
)
    requires
        0 <= s0 < parts.len(),
        0 <= k0 < stream_set_entries(parts, options, s0).len(),
    ensures
        forall|n: Seq<char>, p: u32|
            #[trigger] entry_upto(parts, options, s0, k0 + 1, n, p) <==> (entry_upto(
                parts,
                options,
                s0,
                k0,
                n,
                p,
            ) || stream_set_entries(parts, options, s0)[k0] == (n, p)),
{
    assert forall|n: Seq<char>, p: u32|
        #[trigger] entry_upto(parts, options, s0, k0 + 1, n, p) <==> (entry_upto(
            parts,
            options,
            s0,
            k0,
            n,
            p,
        ) || stream_set_entries(parts, options, s0)[k0] == (n, p)) by {
        if entry_upto(parts, options, s0, k0 + 1, n, p) {
            let (s, k) = choose|s: int, k: int|
                0 <= s < parts.len() && (s < s0 || (s == s0 && k < k0 + 1)) && 0 <= k
                    < stream_set_entries(parts, options, s).len() && #[trigger] stream_set_entries(
                    parts,
                    options,
                    s,
                )[k] == (n, p);
            if s == s0 && k == k0 {
            } else {
                assert(entry_upto(parts, options, s0, k0, n, p));
            }
        }
        if stream_set_entries(parts, options, s0)[k0] == (n, p) {
            assert(entry_upto(parts, options, s0, k0 + 1, n, p));
        }
        if entry_upto(parts, options, s0, k0, n, p) {
            let (s, k) = choose|s: int, k: int|
                0 <= s < parts.len() && (s < s0 || (s == s0 && k < k0)) && 0 <= k
                    < stream_set_entries(parts, options, s).len() && #[trigger] stream_set_entries(
                    parts,
                    options,
                    s,
                )[k] == (n, p);
            assert(entry_upto(parts, options, s0, k0 + 1, n, p));
        }
    }
}

proof fn lemma_entry_upto_next_stream(parts: Seq<(Seq<char>, Seq<u8>)>, options: Seq<u32>, s0: int)
    requires
        0 <= s0 < parts.len(),
    ensures
        forall|n: Seq<char>, p: u32|
            #[trigger] entry_upto(parts, options, s0 + 1, 0, n, p) <==> entry_upto(
                parts,
                options,
                s0,
                stream_set_entries(parts, options, s0).len() as int,
                n,
                p,
            ),
{
    let m = stream_set_entries(parts, options, s0).len() as int;
    assert forall|n: Seq<char>, p: u32|
        #[trigger] entry_upto(parts, options, s0 + 1, 0, n, p) <==> entry_upto(parts, options, s0, m, n, p) by {
        if entry_upto(parts, options, s0 + 1, 0, n, p) {
            let (s, k) = choose|s: int, k: int|
                0 <= s < parts.len() && (s < s0 + 1 || (s == s0 + 1 && k < 0)) && 0 <= k
                    < stream_set_entries(parts, options, s).len() && #[trigger] stream_set_entries(
                    parts,
                    options,
                    s,
                )[k] == (n, p);
            assert(entry_upto(parts, options, s0, m, n, p));
        }
        if entry_upto(parts, options, s0, m, n, p) {
            let (s, k) = choose|s: int, k: int|
                0 <= s < parts.len() && (s < s0 || (s == s0 && k < m)) && 0 <= k
                    < stream_set_entries(parts, options, s).len() && #[trigger] stream_set_entries(
                    parts,
                    options,
                    s,
                )[k] == (n, p);
            assert(entry_upto(parts, options, s0 + 1, 0, n, p));
        }
    }
}

proof fn lemma_primary_state_next(
    parts: Seq<(Seq<char>, Seq<u8>)>,
    options: Seq<u32>,
    s0: int,
    prim: Option<u32>,
    best: Seq<char>,
    ambiguous: bool,
)
    requires
        0 <= s0 < parts.len(),
        primary_state(
            parts,
            options,
            s0,
            stream_set_entries(parts, options, s0).len() as int,
            prim,
            best,
            ambiguous,
        ),
    ensures
        primary_state(parts, options, s0 + 1, 0, prim, best, ambiguous),
{
    let m = stream_set_entries(parts, options, s0).len() as int;
    lemma_entry_upto_next_stream(parts, options, s0);
    match prim {
        None => {},
        Some(p0) => {
            assert(entry_upto(parts, options, s0, m, best, p0));
            if ambiguous {
                let (n, q) = choose|n: Seq<char>, q: u32|
                    #[trigger] entry_upto(parts, options, s0, m, n, q) && q != p0;
                assert(entry_upto(parts, options, s0 + 1, 0, n, q));
            }
            assert forall|n: Seq<char>| #[trigger] entry_upto(parts, options, s0 + 1, 0, n, p0) implies n
                == best || seq_lt(best, n) by {
                assert(entry_upto(parts, options, s0, m, n, p0));
            }
            if exists|n: Seq<char>, q: u32| #[trigger] entry_upto(parts, options, s0 + 1, 0, n, q) && q != p0 {
                let (n, q) = choose|n: Seq<char>, q: u32|
                    #[trigger] entry_upto(parts, options, s0 + 1, 0, n, q) && q != p0;
                assert(entry_upto(parts, options, s0, m, n, q));
            }
        },
    }
}

fn set_primary(partitions: &[InflatedPartition], options: &Vec<u32>) -> (r: Option<(String, u32)>)
    ensures
        match r {
            Some(e) => single_primary(partition_views(partitions@), options@, e.1) && least_name(
                partition_views(partitions@),
                options@,
                e.1,
                e.0@,
            ),
            None => forall|p: u32| !single_primary(partition_views(partitions@), options@, p),
        },
{
    let ghost parts = partition_views(partitions@);
    let ghost l = options@;
    let mut prim: Option<u32> = None;
    let mut best: Vec<char> = Vec::new();
    let mut best_name = String::new();
    let mut ambiguous = false;
    let mut s: usize = 0;
    while s < partitions.len()
        invariant
            s <= partitions@.len(),
            parts == partition_views(partitions@),
            l == options@,
            best_name@ == best@,
            primary_state(parts, l, s as int, 0, prim, best@, ambiguous),
        decreases partitions@.len() - s,
    {
        let part = &partitions[s];
        let entries = find_set_entries(part.bytes.as_slice(), options.as_slice());
        assert(parts[s as int].1 == part.bytes@);
        let ghost es = stream_set_entries(parts, l, s as int);
        assert(pair_views(entries@) == es);
        let mut k: usize = 0;
        while k < entries.len()
            invariant
                s < partitions@.len(),
                k <= entries@.len(),
                parts == partition_views(partitions@),
                l == options@,
                pair_views(entries@) == es,
                es == stream_set_entries(parts, l, s as int),
                best_name@ == best@,
                primary_state(parts, l, s as int, k as int, prim, best@, ambiguous),
            decreases entries@.len() - k,
        {
            let name = &entries[k].0;
            let p = entries[k].1;
            assert(es[k as int] == (name@, p));
            proof {
                lemma_entry_upto_step(parts, l, s as int, k as int);
            }
            let ghost old_prim = prim;
            let ghost old_best = best@;
            let ghost old_amb = ambiguous;
            match prim {
                None => {
                    prim = Some(p);
                    best = chars_of(name.as_str());
                    best_name = name.clone();
                },
                Some(p0) => {
                    if p != p0 {
                        ambiguous = true;
                    } else {
                        let cand = chars_of(name.as_str());
                        if chars_lt(&cand, &best) {
                            best = cand;
                            best_name = name.clone();
                        }
                    }
                },
            }
            proof {
                let k1 = k + 1;
                match prim {
                    None => {},
                    Some(p0) => {
                        if old_prim is None {
                            assert forall|n: Seq<char>| #[trigger]
                                entry_upto(parts, l, s as int, k1, n, p0) implies n == best@ || seq_lt(best@, n) by {}
                            assert(!ambiguous);
                            assert forall|n: Seq<char>, q: u32|
                                #[trigger] entry_upto(parts, l, s as int, k1, n, q) implies q == p0 by {}
                        } else {
                            if p == p0 && seq_lt(name@, old_best) {
                                assert forall|n: Seq<char>| #[trigger]
                                    entry_upto(parts, l, s as int, k1, n, p0) implies n == best@ || seq_lt(best@, n) by {
                                    if n != name@ {
                                        assert(n == old_best || seq_lt(old_best, n));
                                        if n != old_best {
                                            lemma_seq_lt_transitive(name@, old_best, n);
                                        }
                                    }
                                }
                            } else if p == p0 {
                                assert forall|n: Seq<char>| #[trigger]
                                    entry_upto(parts, l, s as int, k1, n, p0) implies n == best@ || seq_lt(best@, n) by {
                                    if n == name@ && n != old_best {
                                        lemma_seq_lt_total(n, old_best);
                                    }
                                }
                            }
                            if p != p0 {
                                assert(entry_upto(parts, l, s as int, k1, name@, p));
                            }
                            if ambiguous && old_amb {
                                let (n, q) = choose|n: Seq<char>, q: u32|
                                    #[trigger] entry_upto(parts, l, s as int, k as int, n, q) && q != p0;
                                assert(entry_upto(parts, l, s as int, k1, n, q));
                            }
                        }
                        assert(entry_upto(parts, l, s as int, k1, best@, p0));
                    },
                }
            }
            k += 1;
        }
        proof {
            lemma_primary_state_next(parts, l, s as int, prim, best@, ambiguous);
        }
        s += 1;
    }
    match prim {
        Some(p0) => {
            if ambiguous {
                proof {
                    let (n, q) = choose|n: Seq<char>, q: u32|
                        #[trigger] entry_upto(parts, l, parts.len() as int, 0, n, q) && q != p0;
                    assert forall|p: u32| !single_primary(parts, l, p) by {
                        if single_primary(parts, l, p) {
                            assert(entry_found(parts, l, n, q));
                            assert(entry_found(parts, l, best@, p0));
                        }
                    }
                }
                None
            } else {
                proof {
                    assert(entry_found(parts, l, best@, p0));
                    assert forall|n2: Seq<char>, p2: u32| #[trigger] entry_found(parts, l, n2, p2) implies p2 == p0 by {
                        if p2 != p0 {
                            assert(entry_upto(parts, l, parts.len() as int, 0, n2, p2));
                        }
                    }
                }
                Some((best_name, p0))
            }
        },
        None => {
            proof {
                assert forall|p: u32| !single_primary(parts, l, p) by {
                    if single_primary(parts, l, p) {
                        let n = choose|n: Seq<char>| #[trigger] entry_found(parts, l, n, p);
                    }
                }
            }
            None
        },
    }
}

/// The set record `j` of stream `s` is, as its id and options: a record of
/// the chain whose id fits a `u32` and that lists its options.
pub open spec fn set_candidate(parts: Seq<(Seq<char>, Seq<u8>)>, c: int, s: int, j: int) -> Option<
    (u32, Seq<u32>),
> {
    let sp = stream_chain(parts, c, s)[j];
    if sp.element_id > 0xffff_ffff {
        None
    } else {
        match spec_option_set_members(parts[s].1, sp.start as int, sp.end as int, sp.element_id) {
            Some(l) => Some((sp.element_id as u32, l)),
            None => None,
        }
    }
}

/// Whether a set record before record `j0` of stream `i` lists set `id`
/// with options `l`.
#[verifier::opaque]
pub open spec fn lists_upto(
    parts: Seq<(Seq<char>, Seq<u8>)>,
    c: int,
    i: int,
    j0: int,
    id: u32,
    l: Seq<u32>,
) -> bool {
    exists|s: int, j: int|
        #[trigger] span_before(parts, c, i, j0, s, j) && set_candidate(parts, c, s, j) == Some((id, l))
}

/// Whether some set record lists set `id` with options `l`.
pub open spec fn set_listed_as(parts: Seq<(Seq<char>, Seq<u8>)>, c: int, id: u32, l: Seq<u32>) -> bool {
    lists_upto(parts, c, parts.len() as int, 0, id, l)
}

/// Whether some set record lists set `id`.
pub open spec fn set_listed(parts: Seq<(Seq<char>, Seq<u8>)>, c: int, id: u32) -> bool {
    exists|l: Seq<u32>| #[trigger] set_listed_as(parts, c, id, l)
}

/// Whether every record of set `id` lists the same options.
pub open spec fn lists_agree(parts: Seq<(Seq<char>, Seq<u8>)>, c: int, id: u32) -> bool {
    forall|l1: Seq<u32>, l2: Seq<u32>|
        #[trigger] set_listed_as(parts, c, id, l1) && #[trigger] set_listed_as(parts, c, id, l2) ==> l1 == l2
}

/// The options a record of set `id` lists.
pub open spec fn set_list(parts: Seq<(Seq<char>, Seq<u8>)>, c: int, id: u32) -> Seq<u32> {
    choose|l: Seq<u32>| set_listed_as(parts, c, id, l)
}

/// Whether set `id` is resolved with primary `p`: listed, always with the
/// same options, and its name entries all naming `p`.
pub open spec fn resolved_as(parts: Seq<(Seq<char>, Seq<u8>)>, c: int, id: u32, p: u32) -> bool {
    set_listed(parts, c, id) && lists_agree(parts, c, id) && single_primary(
        parts,
        set_list(parts, c, id),
        p,
    )
}

/// Whether the collected sets account for the records before record `j0`
/// of stream `i`.
spec fn members_state(
    parts: Seq<(Seq<char>, Seq<u8>)>,
    c: int,
    i: int,
    j0: int,
    members: Map<u32, Vec<u32>>,
    unresolved: Set<u32>,
    ids: Seq<u32>,
) -> bool {
    &&& members_cover(parts, c, i, j0, members)
    &&& unresolved_cover(parts, c, i, j0, members, unresolved)
    &&& ids.no_duplicates()
    &&& forall|id: u32| #[trigger] ids.contains(id) <==> members.contains_key(id)
}

fn same_list(a: &Vec<u32>, b: &Vec<u32>) -> (r: bool)
    ensures
        r == (a@ == b@),
{
    if a.len() != b.len() {
        return false;
    }
    let mut i: usize = 0;
    while i < a.len()
        invariant
            a@.len() == b@.len(),
            i <= a@.len(),
            forall|j: int| 0 <= j < i ==> a@[j] == b@[j],
        decreases a@.len() - i,
    {
        if a[i] != b[i] {
            return false;
        }
        i += 1;
    }
    assert(a@ =~= b@);
    true
}

proof fn lemma_lists_step(
    parts: Seq<(Seq<char>, Seq<u8>)>,
    c: int,
    i: int,
    j0: int,
)
    requires
        0 <= i < parts.len(),
        0 <= j0 < stream_chain(parts, c, i).len(),
    ensures
        forall|id: u32, l: Seq<u32>|
            #[trigger] lists_upto(parts, c, i, j0 + 1, id, l) <==> (lists_upto(parts, c, i, j0, id, l)
                || set_candidate(parts, c, i, j0) == Some((id, l))),
{
    reveal(lists_upto);
    assert forall|id: u32, l: Seq<u32>|
        #[trigger] lists_upto(parts, c, i, j0 + 1, id, l) <==> (lists_upto(parts, c, i, j0, id, l)
            || set_candidate(parts, c, i, j0) == Some((id, l))) by {
        if lists_upto(parts, c, i, j0 + 1, id, l) {
            let (s, j) = choose|s: int, j: int|
                #[trigger] span_before(parts, c, i, j0 + 1, s, j) && set_candidate(parts, c, s, j) == Some((id, l));
            if !(s == i && j == j0) {
                assert(span_before(parts, c, i, j0, s, j));
            }
        }
        if lists_upto(parts, c, i, j0, id, l) {
            let (s, j) = choose|s: int, j: int|
                #[trigger] span_before(parts, c, i, j0, s, j) && set_candidate(parts, c, s, j) == Some((id, l));
            assert(span_before(parts, c, i, j0 + 1, s, j));
        }
        if set_candidate(parts, c, i, j0) == Some((id, l)) {
            assert(span_before(parts, c, i, j0 + 1, i, j0));
        }
    }
}

proof fn lemma_lists_next_stream(parts: Seq<(Seq<char>, Seq<u8>)>, c: int, i: int)
    requires
        0 <= i < parts.len(),
    ensures
        forall|id: u32, l: Seq<u32>|
            #[trigger] lists_upto(parts, c, i + 1, 0, id, l) <==> lists_upto(
                parts,
                c,
                i,
                stream_chain(parts, c, i).len() as int,
                id,
                l,
            ),
{
    let n = stream_chain(parts, c, i).len() as int;
    reveal(lists_upto);
    assert forall|id: u32, l: Seq<u32>|
        #[trigger] lists_upto(parts, c, i + 1, 0, id, l) <==> lists_upto(parts, c, i, n, id, l) by {
        if lists_upto(parts, c, i + 1, 0, id, l) {
            let (s, j) = choose|s: int, j: int|
                #[trigger] span_before(parts, c, i + 1, 0, s, j) && set_candidate(parts, c, s, j) == Some((id, l));
            assert(span_before(parts, c, i, n, s, j));
        }
        if lists_upto(parts, c, i, n, id, l) {
            let (s, j) = choose|s: int, j: int|
                #[trigger] span_before(parts, c, i, n, s, j) && set_candidate(parts, c, s, j) == Some((id, l));
            assert(span_before(parts, c, i + 1, 0, s, j));
        }
    }
}

/// Whether the sets before record `j0` of stream `i` are exactly those in
/// `members`, each with a list a record gives it.
spec fn members_cover(
    parts: Seq<(Seq<char>, Seq<u8>)>,
    c: int,
    i: int,
    j0: int,
    members: Map<u32, Vec<u32>>,
) -> bool {
    &&& forall|id: u32| #[trigger]
        members.contains_key(id) <==> exists|l: Seq<u32>| #[trigger] lists_upto(parts, c, i, j0, id, l)
    &&& forall|id: u32| #[trigger]
        members.contains_key(id) ==> lists_upto(parts, c, i, j0, id, members[id]@)
}

/// Whether `unresolved` holds exactly the sets before record `j0` of stream
/// `i` that some record lists otherwise than `members` keeps.
spec fn unresolved_cover(
    parts: Seq<(Seq<char>, Seq<u8>)>,
    c: int,
    i: int,
    j0: int,
    members: Map<u32, Vec<u32>>,
    unresolved: Set<u32>,
) -> bool {
    forall|id: u32| #[trigger]
        unresolved.contains(id) <==> members.contains_key(id) && exists|l: Seq<u32>|
            #[trigger] lists_upto(parts, c, i, j0, id, l) && l != members[id]@
}

proof fn lemma_members_step(
    parts: Seq<(Seq<char>, Seq<u8>)>,
    c: int,
    s: int,
    j: int,
    m0: Map<u32, Vec<u32>>,
    m1: Map<u32, Vec<u32>>,
    id: u32,
    l: Seq<u32>,
)
    requires
        members_cover(parts, c, s, j, m0),
        forall|x: u32, l2: Seq<u32>|
            #[trigger] lists_upto(parts, c, s, j + 1, x, l2) <==> (lists_upto(parts, c, s, j, x, l2) || (
            x == id && l2 == l)),
        forall|x: u32| #[trigger] m1.contains_key(x) <==> (m0.contains_key(x) || x == id),
        forall|x: u32| x != id && #[trigger] m1.contains_key(x) ==> m1[x] == m0[x],
        m1[id]@ == l || (m0.contains_key(id) && m1[id] == m0[id]),
    ensures
        members_cover(parts, c, s, j + 1, m1),
{
    assert forall|x: u32| #[trigger] m1.contains_key(x) <==> exists|l2: Seq<u32>|
        #[trigger] lists_upto(parts, c, s, j + 1, x, l2) by {
        if x == id {
            assert(lists_upto(parts, c, s, j + 1, id, l));
        } else if exists|l2: Seq<u32>| #[trigger] lists_upto(parts, c, s, j + 1, x, l2) {
            let l2 = choose|l2: Seq<u32>| #[trigger] lists_upto(parts, c, s, j + 1, x, l2);
            assert(lists_upto(parts, c, s, j, x, l2));
        } else if m0.contains_key(x) {
            let l2 = choose|l2: Seq<u32>| #[trigger] lists_upto(parts, c, s, j, x, l2);
            assert(lists_upto(parts, c, s, j + 1, x, l2));
        }
    }
    assert forall|x: u32| #[trigger] m1.contains_key(x) implies lists_upto(parts, c, s, j + 1, x, m1[x]@) by {
        if x == id && m1[id]@ == l {
        } else {
            assert(lists_upto(parts, c, s, j, x, m0[x]@));
        }
    }
}

proof fn lemma_unresolved_step(
    parts: Seq<(Seq<char>, Seq<u8>)>,
    c: int,
    s: int,
    j: int,
    m0: Map<u32, Vec<u32>>,
    u0: Set<u32>,
    m1: Map<u32, Vec<u32>>,
    u1: Set<u32>,
    id: u32,
    l: Seq<u32>,
)
    requires
        members_cover(parts, c, s, j, m0),
        unresolved_cover(parts, c, s, j, m0, u0),
        forall|x: u32, l2: Seq<u32>|
            #[trigger] lists_upto(parts, c, s, j + 1, x, l2) <==> (lists_upto(parts, c, s, j, x, l2) || (
            x == id && l2 == l)),
        forall|x: u32| #[trigger] m1.contains_key(x) <==> (m0.contains_key(x) || x == id),
        forall|x: u32| x != id && #[trigger] m1.contains_key(x) ==> m1[x] == m0[x],
        m0.contains_key(id) ==> m1[id]@ == m0[id]@,
        !m0.contains_key(id) ==> m1[id]@ == l,
        forall|x: u32| #[trigger] u1.contains(x) <==> (u0.contains(x) || (x == id && m0.contains_key(id)
            && m0[id]@ != l)),
    ensures
        unresolved_cover(parts, c, s, j + 1, m1, u1),
{
    assert forall|x: u32| #[trigger] u1.contains(x) <==> m1.contains_key(x) && exists|l2: Seq<u32>|
        #[trigger] lists_upto(parts, c, s, j + 1, x, l2) && l2 != m1[x]@ by {
        let rhs = m1.contains_key(x) && exists|l2: Seq<u32>|
            #[trigger] lists_upto(parts, c, s, j + 1, x, l2) && l2 != m1[x]@;
        if x != id {
            if m1.contains_key(x) {
                assert(m1[x] == m0[x]);
            }
            if u0.contains(x) {
                let l2 = choose|l2: Seq<u32>| #[trigger] lists_upto(parts, c, s, j, x, l2) && l2 != m0[x]@;
                assert(lists_upto(parts, c, s, j + 1, x, l2));
            }
            if rhs {
                let l2 = choose|l2: Seq<u32>| #[trigger] lists_upto(parts, c, s, j + 1, x, l2) && l2 != m1[x]@;
                assert(lists_upto(parts, c, s, j, x, l2));
            }
        } else if m0.contains_key(id) {
            if u0.contains(x) {
                let l2 = choose|l2: Seq<u32>| #[trigger] lists_upto(parts, c, s, j, x, l2) && l2 != m0[x]@;
                assert(lists_upto(parts, c, s, j + 1, x, l2));
            }
            if m0[id]@ != l {
                assert(lists_upto(parts, c, s, j + 1, id, l));
            }
            if rhs {
                let l2 = choose|l2: Seq<u32>| #[trigger] lists_upto(parts, c, s, j + 1, x, l2) && l2 != m1[x]@;
                if l2 != l {
                    assert(lists_upto(parts, c, s, j, x, l2));
                }
            }
        } else {
            assert(!u0.contains(x));
            if rhs {
                let l2 = choose|l2: Seq<u32>| #[trigger] lists_upto(parts, c, s, j + 1, x, l2) && l2 != m1[x]@;
                assert(lists_upto(parts, c, s, j, x, l2));
                assert(false);
            }
        }
    }
}

proof fn lemma_lists_none(parts: Seq<(Seq<char>, Seq<u8>)>, c: int)
    ensures
        forall|id: u32, l: Seq<u32>| !#[trigger] lists_upto(parts, c, 0, 0, id, l),
{
    reveal(lists_upto);
}

proof fn lemma_lists_same(
    parts: Seq<(Seq<char>, Seq<u8>)>,
    c: int,
    s: int,
    j: int,
    m: Map<u32, Vec<u32>>,
    u: Set<u32>,
)
    requires
        members_cover(parts, c, s, j, m),
        unresolved_cover(parts, c, s, j, m, u),
        forall|x: u32, l2: Seq<u32>|
            #[trigger] lists_upto(parts, c, s, j + 1, x, l2) <==> lists_upto(parts, c, s, j, x, l2),
    ensures
        members_cover(parts, c, s, j + 1, m),
        unresolved_cover(parts, c, s, j + 1, m, u),
{
    assert forall|x: u32| #[trigger] m.contains_key(x) <==> exists|l2: Seq<u32>|
        #[trigger] lists_upto(parts, c, s, j + 1, x, l2) by {
        if exists|l2: Seq<u32>| #[trigger] lists_upto(parts, c, s, j + 1, x, l2) {
            let l2 = choose|l2: Seq<u32>| #[trigger] lists_upto(parts, c, s, j + 1, x, l2);
            assert(lists_upto(parts, c, s, j, x, l2));
        }
        if m.contains_key(x) {
            let l2 = choose|l2: Seq<u32>| #[trigger] lists_upto(parts, c, s, j, x, l2);
            assert(lists_upto(parts, c, s, j + 1, x, l2));
        }
    }
    assert forall|x: u32| #[trigger] u.contains(x) <==> m.contains_key(x) && exists|l2: Seq<u32>|
        #[trigger] lists_upto(parts, c, s, j + 1, x, l2) && l2 != m[x]@ by {
        if u.contains(x) {
            let l2 = choose|l2: Seq<u32>| #[trigger] lists_upto(parts, c, s, j, x, l2) && l2 != m[x]@;
            assert(lists_upto(parts, c, s, j + 1, x, l2));
        }
        if m.contains_key(x) && exists|l2: Seq<u32>|
            #[trigger] lists_upto(parts, c, s, j + 1, x, l2) && l2 != m[x]@ {
            let l2 = choose|l2: Seq<u32>| #[trigger] lists_upto(parts, c, s, j + 1, x, l2) && l2 != m[x]@;
            assert(lists_upto(parts, c, s, j, x, l2));
        }
    }
}

fn absorb_candidate(
    members: &mut BTreeMap<u32, Vec<u32>>,
    unresolved: &mut BTreeSet<u32>,
    ids: &mut Vec<u32>,
    cand: Option<(u32, Vec<u32>)>,
    Ghost(parts): Ghost<Seq<(Seq<char>, Seq<u8>)>>,
    Ghost(c): Ghost<int>,
    Ghost(s): Ghost<int>,
    Ghost(j): Ghost<int>,
)
    requires
        0 <= s < parts.len(),
        0 <= j < stream_chain(parts, c, s).len(),
        members_state(parts, c, s, j, old(members)@, old(unresolved)@, old(ids)@),
        match cand {
            Some(p) => set_candidate(parts, c, s, j) == Some((p.0, p.1@)),
            None => set_candidate(parts, c, s, j) is None,
        },
    ensures
        members_state(parts, c, s, j + 1, final(members)@, final(unresolved)@, final(ids)@),
{
    proof {
        lemma_lists_step(parts, c, s, j);
    }
    let ghost m0 = members@;
    let ghost u0 = unresolved@;
    let ghost ids0 = ids@;
    assert(members_cover(parts, c, s, j, m0));
    assert(unresolved_cover(parts, c, s, j, m0, u0));
    match cand {
        Some(pair) => {
            let id = pair.0;
            let options = pair.1;
            let ghost l = options@;
            let mut conflict = false;
            let mut fresh = false;
            match members.get(&id) {
                Some(held) => {
                    conflict = !same_list(held, &options);
                },
                None => {
                    fresh = true;
                },
            }
            if conflict {
                unresolved.insert(id);
            } else {
                members.insert(id, options);
                if fresh {
                    ids.push(id);
                }
            }
            proof {
                assert forall|x: u32, l2: Seq<u32>|
                    #[trigger] lists_upto(parts, c, s, j + 1, x, l2) <==> (lists_upto(parts, c, s, j, x, l2)
                        || (x == id && l2 == l)) by {}
                lemma_members_step(parts, c, s, j, m0, members@, id, l);
                lemma_unresolved_step(parts, c, s, j, m0, u0, members@, unresolved@, id, l);
                if fresh && !conflict {
                    assert forall|a: int, b: int| 0 <= a < b < ids@.len() implies ids@[a] != ids@[b] by {
                        if b == ids@.len() - 1 {
                            assert(ids0.contains(ids0[a]));
                        }
                    }
                }
                assert forall|x: u32| #[trigger] ids@.contains(x) <==> members@.contains_key(x) by {
                    if fresh && !conflict {
                        crate::bytes::lemma_push_contains(ids0, id, x);
                    }
                }
            }
        },
        None => {
            proof {
                assert forall|x: u32, l2: Seq<u32>|
                    #[trigger] lists_upto(parts, c, s, j + 1, x, l2) <==> lists_upto(parts, c, s, j, x, l2) by {}
                lemma_lists_same(parts, c, s, j, m0, u0);
            }
        },
    }
}

fn collect_members(partitions: &[InflatedPartition], marker: &[u8; 8]) -> (r: (
    BTreeMap<u32, Vec<u32>>,
    BTreeSet<u32>,
    Vec<u32>,
))
    ensures
        members_state(
            partition_views(partitions@),
            spec_record_prologue_constant(marker@),
            partitions@.len() as int,
            0,
            r.0@,
            r.1@,
            r.2@,
        ),
{
    let ghost parts = partition_views(partitions@);
    let ghost c = spec_record_prologue_constant(marker@);
    let mut members: BTreeMap<u32, Vec<u32>> = BTreeMap::new();
    let mut unresolved: BTreeSet<u32> = BTreeSet::new();
    let mut ids: Vec<u32> = Vec::new();
    proof {
        lemma_lists_none(parts, c);
    }
    let mut s: usize = 0;
    while s < partitions.len()
        invariant
            s <= partitions@.len(),
            parts == partition_views(partitions@),
            c == spec_record_prologue_constant(marker@),
            members_state(parts, c, s as int, 0, members@, unresolved@, ids@),
        decreases partitions@.len() - s,
    {
        let part = &partitions[s];
        let buf = part.bytes.as_slice();
        assert(parts[s as int].1 == buf@);
        let chain = partition_record_chain(buf, marker);
        let mut j: usize = 0;
        while j < chain.len()
            invariant
                s < partitions@.len(),
                j <= chain@.len(),
                parts == partition_views(partitions@),
                parts[s as int].1 == buf@,
                c == spec_record_prologue_constant(marker@),
                chain@ == stream_chain(parts, c, s as int),
                members_state(parts, c, s as int, j as int, members@, unresolved@, ids@),
            decreases chain@.len() - j,
        {
            let span = chain[j];
            let mut cand: Option<(u32, Vec<u32>)> = None;
            if span.element_id <= 0xffff_ffff {
                match option_set_members(buf, span.start, span.end, span.element_id) {
                    Some(options) => {
                        cand = Some((span.element_id as u32, options));
                    },
                    None => {},
                }
            }
            proof {
                if cand is Some {
                    assert(set_candidate(parts, c, s as int, j as int) == Some(((cand->0).0, (cand->0).1@)));
                } else {
                    assert(set_candidate(parts, c, s as int, j as int) is None);
                }
            }
            absorb_candidate(
                &mut members,
                &mut unresolved,
                &mut ids,
                cand,
                Ghost(parts),
                Ghost(c),
                Ghost(s as int),
                Ghost(j as int),
            );
            j += 1;
        }
        proof {
            lemma_lists_next_stream(parts, c, s as int);
            let n = chain@.len() as int;
            let s1 = s + 1;
            assert forall|x: u32| #[trigger] members@.contains_key(x) <==> exists|l2: Seq<u32>|
                #[trigger] lists_upto(parts, c, s1, 0, x, l2) by {
                if exists|l2: Seq<u32>| #[trigger] lists_upto(parts, c, s1, 0, x, l2) {
                    let l2 = choose|l2: Seq<u32>| #[trigger] lists_upto(parts, c, s1, 0, x, l2);
                    assert(lists_upto(parts, c, s as int, n, x, l2));
                }
                if members@.contains_key(x) {
                    let l2 = choose|l2: Seq<u32>| #[trigger] lists_upto(parts, c, s as int, n, x, l2);
                    assert(lists_upto(parts, c, s1, 0, x, l2));
                }
            }
            assert forall|x: u32| #[trigger] unresolved@.contains(x) <==> members@.contains_key(x)
                && exists|l2: Seq<u32>|
                #[trigger] lists_upto(parts, c, s1, 0, x, l2) && l2 != members@[x]@ by {
                if unresolved@.contains(x) {
                    let l2 = choose|l2: Seq<u32>|
                        #[trigger] lists_upto(parts, c, s as int, n, x, l2) && l2 != members@[x]@;
                    assert(lists_upto(parts, c, s1, 0, x, l2));
                }
                if members@.contains_key(x) && exists|l2: Seq<u32>|
                    #[trigger] lists_upto(parts, c, s1, 0, x, l2) && l2 != members@[x]@ {
                    let l2 = choose|l2: Seq<u32>|
                        #[trigger] lists_upto(parts, c, s1, 0, x, l2) && l2 != members@[x]@;
                    assert(lists_upto(parts, c, s as int, n, x, l2));
                }
            }
        }
        s += 1;
    }
    (members, unresolved, ids)
}

/// Whether set `id` resolves to some primary.
pub open spec fn resolves(parts: Seq<(Seq<char>, Seq<u8>)>, c: int, id: u32) -> bool {
    exists|p: u32| #[trigger] resolved_as(parts, c, id, p)
}

/// Whether `sets` and `unresolved` are the design options the partitions
/// give: a set whose records all list the same options and whose name
/// entries all name one primary is resolved, with its least name; any other
/// listed set is unresolved.
pub open spec fn design_options_of(
    parts: Seq<(Seq<char>, Seq<u8>)>,
    c: int,
    sets: Map<u32, DesignOptionSet>,
    unresolved: Set<u32>,
) -> bool {
    &&& forall|id: u32| #[trigger] sets.contains_key(id) <==> resolves(parts, c, id)
    &&& forall|id: u32, p: u32|
        #[trigger] sets.contains_key(id) && #[trigger] resolved_as(parts, c, id, p) ==> {
            &&& sets[id].set_id == id
            &&& sets[id].options@ == set_list(parts, c, id)
            &&& sets[id].primary == p
            &&& least_name(parts, set_list(parts, c, id), p, sets[id].name@)
        }
    &&& forall|id: u32| #[trigger]
        unresolved.contains(id) <==> set_listed(parts, c, id) && !resolves(parts, c, id)
}

proof fn lemma_members_final(
    parts: Seq<(Seq<char>, Seq<u8>)>,
    c: int,
    members: Map<u32, Vec<u32>>,
    unresolved: Set<u32>,
    ids: Seq<u32>,
    id: u32,
)
    requires
        members_state(parts, c, parts.len() as int, 0, members, unresolved, ids),
    ensures
        members.contains_key(id) <==> set_listed(parts, c, id),
        unresolved.contains(id) <==> set_listed(parts, c, id) && !lists_agree(parts, c, id),
        members.contains_key(id) && lists_agree(parts, c, id) ==> set_list(parts, c, id)
            == members[id]@,
{
    let n = parts.len() as int;
    if members.contains_key(id) {
        assert(set_listed_as(parts, c, id, members[id]@));
        if lists_agree(parts, c, id) {
            let l = choose|l: Seq<u32>| set_listed_as(parts, c, id, l);
            assert(set_listed_as(parts, c, id, l));
        } else {
            let (l1, l2) = choose|l1: Seq<u32>, l2: Seq<u32>|
                !(#[trigger] set_listed_as(parts, c, id, l1) && #[trigger] set_listed_as(parts, c, id, l2)
                    ==> l1 == l2);
            if l1 != members[id]@ {
                assert(lists_upto(parts, c, n, 0, id, l1));
            } else {
                assert(lists_upto(parts, c, n, 0, id, l2));
            }
        }
        if unresolved.contains(id) {
            let l2 = choose|l2: Seq<u32>| #[trigger] lists_upto(parts, c, n, 0, id, l2) && l2 != members[id]@;
            assert(set_listed_as(parts, c, id, l2));
        }
    }
    if set_listed(parts, c, id) {
        let l = choose|l: Seq<u32>| #[trigger] set_listed_as(parts, c, id, l);
        assert(lists_upto(parts, c, n, 0, id, l));
    }
}

proof fn lemma_single_primary_unique(parts: Seq<(Seq<char>, Seq<u8>)>, l: Seq<u32>, p: u32, q: u32)
    requires
        single_primary(parts, l, p),
        single_primary(parts, l, q),
    ensures
        p == q,
{
    let n = choose|name: Seq<char>| #[trigger] entry_found(parts, l, name, p);
}

/// The design option sets of a whole model and their primary options.
/// Empty where the release's record shape is not proven.
pub fn compute_design_options(partitions: &[InflatedPartition], revit_version: u32) -> (r:
    DesignOptions)
    ensures
        spec_bbox_marker(revit_version) is None ==> r.sets@.is_empty()
            && r.unresolved_sets@.is_empty(),
        spec_bbox_marker(revit_version) matches Some(m) ==> design_options_of(
            partition_views(partitions@),
            spec_record_prologue_constant(m),
            r.sets@,
            r.unresolved_sets@,
        ),
{
    let mut out = DesignOptions::default();
    let marker = match bbox_marker(revit_version) {
        Some(m) => m,
        None => {
            assert(out.sets@ =~= Map::<u32, DesignOptionSet>::empty());
            assert(out.unresolved_sets@ =~= Set::<u32>::empty());
            return out;
        },
    };
    let ghost parts = partition_views(partitions@);
    let ghost c = spec_record_prologue_constant(marker@);
    let (mut members, unresolved, ids) = collect_members(partitions, &marker);
    let ghost m1 = members@;
    let ghost u1 = unresolved@;
    proof {
        assert forall|id: u32| #![all_triggers] true implies (m1.contains_key(id) <==> set_listed(parts, c, id))
            && (u1.contains(id) <==> set_listed(parts, c, id) && !lists_agree(parts, c, id))
            && (m1.contains_key(id) && lists_agree(parts, c, id) ==> set_list(parts, c, id) == m1[id]@) by {
            lemma_members_final(parts, c, m1, u1, ids@, id);
        }
    }
    out.unresolved_sets = unresolved;
    let mut k: usize = 0;
    while k < ids.len()
        invariant
            k <= ids@.len(),
            parts == partition_views(partitions@),
            c == spec_record_prologue_constant(marker@),
            ids@.no_duplicates(),
            forall|id: u32| #[trigger] ids@.contains(id) <==> m1.contains_key(id),
            forall|id: u32| #![all_triggers] (m1.contains_key(id) <==> set_listed(parts, c, id)) && (
            u1.contains(id) <==> set_listed(parts, c, id) && !lists_agree(parts, c, id)) && (
            m1.contains_key(id) && lists_agree(parts, c, id) ==> set_list(parts, c, id) == m1[id]@),
            forall|id: u32| !ids@.take(k as int).contains(id) ==> (#[trigger] members@.contains_key(id)
                <==> m1.contains_key(id)) && (members@.contains_key(id) ==> members@[id] == m1[id]),
            forall|id: u32| #[trigger]
                out.sets@.contains_key(id) <==> ids@.take(k as int).contains(id) && resolves(parts, c, id),
            forall|id: u32, p: u32|
                #[trigger] out.sets@.contains_key(id) && #[trigger] resolved_as(parts, c, id, p) ==> {
                    &&& out.sets@[id].set_id == id
                    &&& out.sets@[id].options@ == set_list(parts, c, id)
                    &&& out.sets@[id].primary == p
                    &&& least_name(parts, set_list(parts, c, id), p, out.sets@[id].name@)
                },
            forall|id: u32| #[trigger]
                out.unresolved_sets@.contains(id) <==> u1.contains(id) || (ids@.take(k as int).contains(id)
                    && set_listed(parts, c, id) && !resolves(parts, c, id)),
        decreases ids@.len() - k,
    {
        let id = ids[k];
        let ghost done = ids@.take(k as int);
        assert(ids@.take(k + 1) =~= done.push(id));
        assert(!done.contains(id)) by {
            if done.contains(id) {
                let a = choose|a: int| 0 <= a < done.len() && done[a] == id;
                assert(ids@[a] == ids@[k as int]);
            }
        }
        assert(m1.contains_key(id)) by {
            assert(ids@.contains(id));
        }
        let ghost sets0 = out.sets@;
        let ghost un0 = out.unresolved_sets@;
        let ghost mem0 = members@;
        if out.unresolved_sets.contains(&id) {
            proof {
                assert(u1.contains(id));
                assert forall|p: u32| !resolved_as(parts, c, id, p) by {}
                assert forall|x: u32| #[trigger] members@.contains_key(x) && !ids@.take(k + 1).contains(x)
                    implies members@[x] == m1[x] by {
                    crate::bytes::lemma_push_contains(done, id, x);
                }
                assert forall|x: u32| !ids@.take(k + 1).contains(x) implies (#[trigger] members@.contains_key(x)
                    <==> m1.contains_key(x)) by {
                    crate::bytes::lemma_push_contains(done, id, x);
                }
                assert forall|x: u32| #[trigger] out.sets@.contains_key(x) <==> ids@.take(k + 1).contains(x)
                    && resolves(parts, c, x) by {
                    crate::bytes::lemma_push_contains(done, id, x);
                }
                assert forall|x: u32| #[trigger] out.unresolved_sets@.contains(x) <==> u1.contains(x) || (
                ids@.take(k + 1).contains(x) && set_listed(parts, c, x) && !resolves(parts, c, x)) by {
                    crate::bytes::lemma_push_contains(done, id, x);
                }
            }
            k += 1;
            continue;
        }
        assert(!u1.contains(id));
        assert(lists_agree(parts, c, id));
        let options = members.remove(&id).unwrap();
        assert(options@ == set_list(parts, c, id));
        match set_primary(partitions, &options) {
            Some(e) => {
                let p = e.1;
                let set = DesignOptionSet { set_id: id, name: e.0, options, primary: p };
                out.sets.insert(id, set);
                proof {
                    assert(resolved_as(parts, c, id, p));
                    assert forall|q: u32| #[trigger] resolved_as(parts, c, id, q) implies q == p by {
                        lemma_single_primary_unique(parts, set_list(parts, c, id), p, q);
                    }
                }
            },
            None => {
                out.unresolved_sets.insert(id);
                proof {
                    assert forall|q: u32| !resolved_as(parts, c, id, q) by {}
                }
            },
        }
        proof {
            assert forall|x: u32| !ids@.take(k + 1).contains(x) implies (#[trigger] members@.contains_key(x)
                <==> m1.contains_key(x)) && (members@.contains_key(x) ==> members@[x] == m1[x]) by {
                crate::bytes::lemma_push_contains(done, id, x);
            }
            assert forall|x: u32| #[trigger] out.sets@.contains_key(x) <==> ids@.take(k + 1).contains(x)
                && resolves(parts, c, x) by {
                crate::bytes::lemma_push_contains(done, id, x);
            }
            assert forall|x: u32| #[trigger] out.unresolved_sets@.contains(x) <==> u1.contains(x) || (
            ids@.take(k + 1).contains(x) && set_listed(parts, c, x) && !resolves(parts, c, x)) by {
                crate::bytes::lemma_push_contains(done, id, x);
            }
            assert forall|x: u32, q: u32|
                #[trigger] out.sets@.contains_key(x) && #[trigger] resolved_as(parts, c, x, q) implies {
                &&& out.sets@[x].set_id == x
                &&& out.sets@[x].options@ == set_list(parts, c, x)
                &&& out.sets@[x].primary == q
                &&& least_name(parts, set_list(parts, c, x), q, out.sets@[x].name@)
            } by {
                if x != id {
                    assert(out.sets@[x] == sets0[x]);
                }
            }
        }
        k += 1;
    }
    proof {
        assert(ids@.take(ids@.len() as int) =~= ids@);
        assert forall|id: u32| #[trigger] out.sets@.contains_key(id) <==> resolves(parts, c, id) by {
            if resolves(parts, c, id) {
                let p = choose|p: u32| #[trigger] resolved_as(parts, c, id, p);
                assert(ids@.contains(id));
            }
        }
        assert forall|id: u32| #[trigger] out.unresolved_sets@.contains(id) <==> set_listed(parts, c, id)
            && !resolves(parts, c, id) by {
            if set_listed(parts, c, id) {
                assert(ids@.contains(id));
            }
            if u1.contains(id) {
                assert forall|p: u32| !resolved_as(parts, c, id, p) by {}
            }
        }
    }
    out
}

/// The `(ElementId, category)` of each exported instance among `records`
/// that a non-primary design option leaves out, in record order.
pub open spec fn left_out(records: Seq<ElementRecordView>, sets: Map<u32, DesignOptionSet>) -> Seq<(u32, i64)>
    decreases records.len(),
{
    if records.len() == 0 {
        Seq::empty()
    } else {
        let r = records.last();
        left_out(records.drop_last(), sets) + if r.container == CONTAINER_NONE && r.placement_kind
            == PLACEMENT_KIND_INSTANCE && (r.design_option matches Some(o) && spec_is_non_primary(sets, o)) {
            seq![(r.element_id, r.builtin_category as i64)]
        } else {
            Seq::empty()
        }
    }
}

/// How many ElementIds, among those of `f` and not in `later`, have a last
/// entry of category `c`.
pub open spec fn count_last(f: Seq<(u32, i64)>, c: i64, later: Set<u32>) -> nat
    decreases f.len(),
{
    if f.len() == 0 {
        0
    } else {
        let (id, cat) = f.last();
        (if !later.contains(id) && cat == c {
            1nat
        } else {
            0nat
        }) + count_last(f.drop_last(), c, later.insert(id))
    }
}

/// For each row of `rows` in order, its class and how many ElementIds of
/// `f`, leaving out those of `except`, have a last entry of its category,
/// when any do.
pub open spec fn class_counts(f: Seq<(u32, i64)>, rows: Seq<(i64, &'static str)>, except: Set<u32>) -> Seq<
    (Seq<char>, nat),
>
    decreases rows.len(),
{
    if rows.len() == 0 {
        Seq::empty()
    } else {
        let n = count_last(f, rows.last().0, except);
        class_counts(f, rows.drop_last(), except) + if n > 0 {
            seq![(rows.last().1@, n)]
        } else {
            Seq::empty()
        }
    }
}

fn count_last_of(f: &Vec<(u32, i64)>, c: i64, except: &BTreeSet<u32>) -> (r: usize)
    ensures
        r == count_last(f@, c, except@),
{
    let mut seen: BTreeSet<u32> = BTreeSet::new();
    let mut acc: usize = 0;
    let mut i: usize = f.len();
    assert(f@.take(i as int) =~= f@);
    assert(except@.union(seen@) =~= except@);
    while i > 0
        invariant
            i <= f@.len(),
            acc <= f.len() - i,
            count_last(f@, c, except@) == acc + count_last(f@.take(i as int), c, except@.union(seen@)),
        decreases i,
    {
        let (id, cat) = f[i - 1];
        proof {
            assert(f@.take(i as int).last() == (id, cat));
            assert(f@.take(i as int).drop_last() =~= f@.take(i - 1));
        }
        if !seen.contains(&id) && !except.contains(&id) && cat == c {
            acc += 1;
        }
        let ghost was = seen@;
        seen.insert(id);
        assert(except@.union(seen@) =~= except@.union(was).insert(id));
        i -= 1;
    }
    acc
}

/// Placed instances of the [`RECOVERED_CATEGORIES`] that a non-primary
/// design option leaves out, one per ElementId (its last record's
/// category counting), by class in the order of the table, a class listed
/// only when some instance has it. The export leaves them out, as Revit's
/// does; this counts them so the diagnostics can say so. Empty for a
/// release the layout is not measured on, or without design option sets.
pub fn scan_non_primary_option_instances(
    partitions: &[InflatedPartition],
    revit_version: u32,
    declared: &BTreeSet<u32>,
    options: &DesignOptions,
    assigned_all: &SecondPrologueIds,
) -> (r: Vec<(String, usize)>)
    ensures
        spec_bbox_marker(revit_version) is None || options.sets@.is_empty() ==> r@.len() == 0,
        spec_bbox_marker(revit_version) is Some && !options.sets@.is_empty() && declared@.is_empty()
            ==> r@.len() == 0,
        spec_bbox_marker(revit_version) is Some && !options.sets@.is_empty() && !declared@.is_empty()
            ==> class_count_views(r@) == class_counts(
            left_out(
                categories_records_in(
                    partition_views(partitions@),
                    recovered_codes(),
                    declared@,
                    spec_bbox_marker(revit_version)->0,
                    assigned_all@,
                ),
                options.sets@,
            ),
            RECOVERED_CATEGORIES@,
            Set::empty(),
        ),
{
    let mut out: Vec<(String, usize)> = Vec::new();
    if bbox_marker(revit_version).is_none() || options.sets.is_empty() {
        return out;
    }
    let table = RECOVERED_CATEGORIES;
    let mut codes: Vec<i64> = Vec::new();
    let mut t: usize = 0;
    while t < table.len()
        invariant
            t <= table@.len(),
            table@ == RECOVERED_CATEGORIES@,
            codes@ == recovered_codes().take(t as int),
        decreases table@.len() - t,
    {
        codes.push(table[t].0);
        assert(codes@ =~= recovered_codes().take(t + 1));
        t += 1;
    }
    assert(recovered_codes().take(table@.len() as int) =~= recovered_codes());
    let records = scan_category_records_multi(partitions, revit_version, codes.as_slice(), declared, assigned_all);
    if declared.is_empty() {
        return out;
    }
    let ghost rv = record_views(records@);
    let mut left: Vec<(u32, i64)> = Vec::new();
    let mut k: usize = 0;
    while k < records.len()
        invariant
            k <= records@.len(),
            rv == record_views(records@),
            left@ == left_out(rv.take(k as int), options.sets@),
        decreases records@.len() - k,
    {
        let record = &records[k];
        proof {
            assert(rv.take(k + 1).drop_last() =~= rv.take(k as int));
            assert(rv.take(k + 1).last() == record@);
        }
        if record.is_exported_instance() && options.excludes(record) {
            left.push((record.element_id, record.builtin_category));
        } else {
            assert(left@ =~= left@ + Seq::<(u32, i64)>::empty());
        }
        k += 1;
    }
    assert(rv.take(rv.len() as int) =~= rv);
    let no_ids: BTreeSet<u32> = BTreeSet::new();
    let mut t: usize = 0;
    assert(table@.take(0) =~= Seq::<(i64, &'static str)>::empty());
    while t < table.len()
        invariant
            t <= table@.len(),
            table@ == RECOVERED_CATEGORIES@,
            class_count_views(out@) == class_counts(left@, table@.take(t as int), Set::empty()),
            no_ids@ == Set::<u32>::empty(),
        decreases table@.len() - t,
    {
        let (code, class) = table[t];
        let n = count_last_of(&left, code, &no_ids);
        proof {
            assert(table@.take(t + 1).drop_last() =~= table@.take(t as int));
            assert(table@.take(t + 1).last() == (code, class));
        }
        if n > 0 {
            let name = class.to_string();
            let ghost before = out@;
            out.push((name, n));
            assert(class_count_views(out@) =~= class_count_views(before).push((class@, n as nat)));
        } else {
            assert(class_count_views(out@) =~= class_count_views(out@) + Seq::<(Seq<char>, nat)>::empty());
        }
        t += 1;
    }
    assert(table@.take(table@.len() as int) =~= table@);
    out
}


/// The exported instances among `records` that no non-primary design
/// option leaves out, each with its ElementId, its category and whether its
/// bounding box has volume (`volumes`, one per record).
pub open spec fn kept_instances(
    records: Seq<ElementRecordView>,
    volumes: Seq<bool>,
    sets: Map<u32, DesignOptionSet>,
) -> Seq<(u32, i64, bool)>
    decreases records.len(),
{
    if records.len() == 0 {
        Seq::empty()
    } else {
        let r = records.last();
        kept_instances(records.drop_last(), volumes, sets) + if r.container == CONTAINER_NONE && r.placement_kind
            == PLACEMENT_KIND_INSTANCE && !(r.design_option matches Some(o) && spec_is_non_primary(sets, o)) {
            seq![(r.element_id, r.builtin_category as i64, volumes[records.len() - 1])]
        } else {
            Seq::empty()
        }
    }
}

/// The `(ElementId, category)` of each kept instance without volume, in
/// order.
pub open spec fn volumeless_entries(k: Seq<(u32, i64, bool)>) -> Seq<(u32, i64)>
    decreases k.len(),
{
    if k.len() == 0 {
        Seq::empty()
    } else {
        volumeless_entries(k.drop_last()) + if !k.last().2 {
            seq![(k.last().0, k.last().1)]
        } else {
            Seq::empty()
        }
    }
}

/// The ElementIds of kept instances some frame of which has volume.
pub open spec fn volumed_ids(k: Seq<(u32, i64, bool)>) -> Set<u32>
    decreases k.len(),
{
    if k.len() == 0 {
        Set::empty()
    } else if k.last().2 {
        volumed_ids(k.drop_last()).insert(k.last().0)
    } else {
        volumed_ids(k.drop_last())
    }
}

/// Placed instances of the [`RECOVERED_CATEGORIES`] whose bounding box has
/// no volume, one per ElementId, by class in the order of the table, a
/// class listed only when some instance has it. `volumes[k]` says whether
/// `records[k]`'s box has volume. An instance a non-primary design option
/// leaves out is not counted here; an ElementId framed more than once
/// counts once (its last volumeless frame's category), and only when no
/// frame of it has volume.
pub fn count_volumeless_instances(
    records: &Vec<PartitionElementRecord>,
    volumes: &Vec<bool>,
    options: &DesignOptions,
) -> (r: Vec<(String, usize)>)
    requires
        volumes@.len() == records@.len(),
    ensures
        class_count_views(r@) == class_counts(
            volumeless_entries(kept_instances(record_views(records@), volumes@, options.sets@)),
            RECOVERED_CATEGORIES@,
            volumed_ids(kept_instances(record_views(records@), volumes@, options.sets@)),
        ),
{
    let ghost rv = record_views(records@);
    let mut without: Vec<(u32, i64)> = Vec::new();
    let mut with_volume: BTreeSet<u32> = BTreeSet::new();
    let mut k: usize = 0;
    assert(rv.take(0) =~= Seq::<ElementRecordView>::empty());
    assert(with_volume@ =~= Set::<u32>::empty());
    while k < records.len()
        invariant
            k <= records@.len(),
            volumes@.len() == records@.len(),
            rv == record_views(records@),
            without@ == volumeless_entries(kept_instances(rv.take(k as int), volumes@, options.sets@)),
            with_volume@ == volumed_ids(kept_instances(rv.take(k as int), volumes@, options.sets@)),
        decreases records@.len() - k,
    {
        let record = &records[k];
        let ghost before = kept_instances(rv.take(k as int), volumes@, options.sets@);
        proof {
            assert(rv.take(k + 1).drop_last() =~= rv.take(k as int));
            assert(rv.take(k + 1).last() == record@);
        }
        if record.is_exported_instance() && !options.excludes(record) {
            let entry = (record.element_id, record.builtin_category, volumes[k]);
            let ghost after = kept_instances(rv.take(k + 1), volumes@, options.sets@);
            assert(after == before.push(entry));
            assert(after.drop_last() =~= before);
            if volumes[k] {
                with_volume.insert(record.element_id);
                assert(without@ =~= without@ + Seq::<(u32, i64)>::empty());
            } else {
                without.push((record.element_id, record.builtin_category));
            }
        } else {
            assert(kept_instances(rv.take(k + 1), volumes@, options.sets@) =~= before);
        }
        k += 1;
    }
    assert(rv.take(rv.len() as int) =~= rv);
    let mut out: Vec<(String, usize)> = Vec::new();
    let table = RECOVERED_CATEGORIES;
    let mut t: usize = 0;
    assert(table@.take(0) =~= Seq::<(i64, &'static str)>::empty());
    while t < table.len()
        invariant
            t <= table@.len(),
            table@ == RECOVERED_CATEGORIES@,
            class_count_views(out@) == class_counts(without@, table@.take(t as int), with_volume@),
        decreases table@.len() - t,
    {
        let (code, class) = table[t];
        let n = count_last_of(&without, code, &with_volume);
        proof {
            assert(table@.take(t + 1).drop_last() =~= table@.take(t as int));
            assert(table@.take(t + 1).last() == (code, class));
        }
        if n > 0 {
            let name = class.to_string();
            let ghost prior = out@;
            out.push((name, n));
            assert(class_count_views(out@) =~= class_count_views(prior).push((class@, n as nat)));
        } else {
            assert(class_count_views(out@) =~= class_count_views(out@) + Seq::<(Seq<char>, nat)>::empty());
        }
        t += 1;
    }
    assert(table@.take(table@.len() as int) =~= table@);
    out
}

} // verus!
