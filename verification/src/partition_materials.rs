//! Material names (RE-58): a Revit material is serialised as an object
//! `01 00 00 00 · u64 id` whose class tag sits [`MATERIAL_TAG_OFFSET`]
//! bytes past the id, `0x0a28` on Revit 2024 and `0x0a6b` on Revit 2025.
//! Its name comes from the same object: its own name field after the class
//! tag, else the name ended by a terminator, a framed string or a name
//! parameter entry further on.

use vstd::prelude::*;
use std::collections::{BTreeMap, BTreeSet};
use crate::bytes::{
    find_next, find_from, iter_hits_from, keep_some, le_u16, le_u32, le_u64, lemma_iter_hits_none,
    lemma_iter_hits_skip, lemma_iter_hits_step, lemma_keep_some_step, next_occurrence, read_u16,
    read_u32, read_u64,
};
use crate::collapse::{collapse_values, drop_shared_values, id_values, is_collapse_of, is_unshared_collapse_of, Comparable};
use crate::partition_element_records::{as_signed, to_signed};
use crate::partition_id_objects::OBJECT_PREFIX;
use crate::partition_names::name_units;
use crate::partitions::{partition_views, InflatedPartition};
use crate::text::{from_utf16, opt_string_text, utf16_decode};

verus! {

broadcast use vstd::std_specs::btree::group_btree_axioms;

/// Offset past a material's ElementId of its object's class tag.
pub const MATERIAL_TAG_OFFSET: usize = 0x47;
/// How far past the id the shading frame is looked for.
pub const APPEARANCE_WINDOW: usize = 0x2000;

/// The material object class tag of a release.
pub open spec fn object_tag(revit_version: u32) -> Option<[u8; 2]> {
    if revit_version == 2024 {
        Some([0x28u8, 0x0au8])
    } else if revit_version == 2025 {
        Some([0x6bu8, 0x0au8])
    } else {
        None
    }
}

/// The name frame tag of a release.
pub open spec fn name_frame_tag(revit_version: u32) -> Option<[u8; 2]> {
    if revit_version == 2024 {
        Some([0x49u8, 0x01u8])
    } else if revit_version == 2025 {
        Some([0x5cu8, 0x01u8])
    } else {
        None
    }
}

/// The name end tag of a release.
pub open spec fn name_end_tag(revit_version: u32) -> Option<[u8; 2]> {
    if revit_version == 2024 {
        Some([0x17u8, 0x0cu8])
    } else if revit_version == 2025 {
        Some([0x6bu8, 0x0cu8])
    } else {
        None
    }
}

/// The material object class tag: `0x0a28` on Revit 2024, `0x0a6b` on
/// Revit 2025, none where it is not measured.
pub fn material_object_tag(revit_version: u32) -> (r: Option<[u8; 2]>)
    ensures
        r == object_tag(revit_version),
        revit_version == 2024 ==> r == Some([0x28u8, 0x0au8]),
        revit_version == 2025 ==> r == Some([0x6bu8, 0x0au8]),
        revit_version != 2024 && revit_version != 2025 ==> r is None,
{
    if revit_version == 2024 {
        Some([0x28, 0x0a])
    } else if revit_version == 2025 {
        Some([0x6b, 0x0a])
    } else {
        None
    }
}

/// The tag that frames a material's name string: `0x0149` on Revit 2024,
/// `0x015c` on Revit 2025, none elsewhere.
pub fn material_name_frame_tag(revit_version: u32) -> (r: Option<[u8; 2]>)
    ensures
        r == name_frame_tag(revit_version),
        revit_version == 2024 ==> r == Some([0x49u8, 0x01u8]),
        revit_version == 2025 ==> r == Some([0x5cu8, 0x01u8]),
        revit_version != 2024 && revit_version != 2025 ==> r is None,
{
    if revit_version == 2024 {
        Some([0x49, 0x01])
    } else if revit_version == 2025 {
        Some([0x5c, 0x01])
    } else {
        None
    }
}

/// The tag after `ff ff ff ff` that ends a material's own name: `0x0c17`
/// on Revit 2024, `0x0c6b` on Revit 2025, none elsewhere.
pub fn material_name_end_tag(revit_version: u32) -> (r: Option<[u8; 2]>)
    ensures
        r == name_end_tag(revit_version),
        revit_version == 2024 ==> r == Some([0x17u8, 0x0cu8]),
        revit_version == 2025 ==> r == Some([0x6bu8, 0x0cu8]),
        revit_version != 2024 && revit_version != 2025 ==> r is None,
{
    if revit_version == 2024 {
        Some([0x17, 0x0c])
    } else if revit_version == 2025 {
        Some([0x6b, 0x0c])
    } else {
        None
    }
}

/// How far past a material's ElementId its name is looked for.
pub const NAME_WINDOW: usize = 0x1000;

/// The BuiltInParameter some materials keep their name under: the entry
/// `i64 -1001203 · u32 0 · u32 n · UTF-16 × n`.
pub const NAME_PARAMETER: i64 = -1_001_203;

/// Where a material's own name field starts, past the class tag.
pub const NAME_FIELD: usize = 0x49;

/// Whether the `n` UTF-16 units at `at` fit `o` and may make a name: 1 to
/// 256 of them, none a control character or a noncharacter.
pub open spec fn name_units_ok(o: Seq<u8>, at: int, n: int) -> bool {
    &&& 1 <= n <= 256
    &&& 0 <= at
    &&& at + 2 * n <= o.len()
    &&& forall|k: int| 0 <= k < n ==> 0x20 <= #[trigger] name_units(o, at, n)[k] < 0xfffe
}

/// The name the `n` units at `at` make: present when they may make one and
/// are valid UTF-16.
pub open spec fn unit_name(o: Seq<u8>, at: int, n: int) -> Option<Seq<char>> {
    if name_units_ok(o, at, n) {
        utf16_decode(name_units(o, at, n))
    } else {
        None
    }
}

/// The `n` UTF-16 code units at `at`, when they are a name: 1 to 256 of
/// them, none a control character or a noncharacter, and valid UTF-16.
fn utf16_name(buf: &[u8], at: usize, n: u32) -> (r: Option<String>)
    ensures
        opt_string_text(r) == unit_name(buf@, at as int, n as int),
{
    if n < 1 || n > 256 {
        return None;
    }
    let count = n as usize;
    if at > buf.len() || buf.len() - at < 2 * count {
        return None;
    }
    let ghost all = name_units(buf@, at as int, n as int);
    let mut units: Vec<u16> = Vec::new();
    let mut k: usize = 0;
    while k < count
        invariant
            k <= count <= 256, count == n,
            at + 2 * count <= buf.len(),
            buf.len() == buf@.len(),
            all == name_units(buf@, at as int, n as int),
            units@ == all.take(k as int),
            forall|j: int| 0 <= j < k ==> 0x20 <= #[trigger] all[j] < 0xfffe,
        decreases count - k,
    {
        let u = read_u16(buf, at + 2 * k).unwrap();
        assert(all[k as int] == u);
        if u < 0x20 || u >= 0xfffe {
            assert(name_units(buf@, at as int, n as int)[k as int] == u);
            assert(!name_units_ok(buf@, at as int, n as int));
            assert(unit_name(buf@, at as int, n as int) is None);
            return None;
        }
        units.push(u);
        assert(all.take(k + 1) =~= all.take(k as int).push(u));
        k += 1;
    }
    assert(all.take(count as int) =~= all);
    from_utf16(units.as_slice())
}

/// Whether an `i64` is a BuiltInParameter id.
pub open spec fn builtin_parameter(id: int) -> bool {
    -2_000_000 <= id <= -1_000_000
}

/// `ff ff ff ff` and a two-byte tag.
pub open spec fn tag_frame(tag: [u8; 2]) -> Seq<u8> {
    seq![0xffu8, 0xff, 0xff, 0xff, tag[0], tag[1]]
}

fn tag_frame_bytes(tag: [u8; 2]) -> (r: [u8; 6])
    ensures
        r@ == tag_frame(tag),
{
    let r = [0xff, 0xff, 0xff, 0xff, tag[0], tag[1]];
    assert(r@ =~= tag_frame(tag));
    r
}

/// The name of `n` units whose last unit sits right before `end`: its
/// `u32 n` lies at or past the name field.
pub open spec fn ending_name(o: Seq<u8>, end: int, n: int) -> Option<Seq<char>> {
    let at = end - 4 - 2 * n;
    if at >= NAME_FIELD && le_u32(o, at) == n {
        unit_name(o, at + 4, n)
    } else {
        None
    }
}

/// The names of `n` to 256 units that end right before `end`, shortest
/// first.
pub open spec fn ending_names_from(o: Seq<u8>, end: int, n: int) -> Seq<Seq<char>>
    decreases 257 - n,
{
    if n < 1 || n > 256 {
        Seq::empty()
    } else {
        match ending_name(o, end, n) {
            Some(s) => seq![s] + ending_names_from(o, end, n + 1),
            None => ending_names_from(o, end, n + 1),
        }
    }
}

/// The one name, of 1 to 256 units, that ends right before `end`; none
/// when no length or more than one makes a name.
pub open spec fn sole_ending_name(o: Seq<u8>, end: int) -> Option<Seq<char>> {
    let names = ending_names_from(o, end, 1);
    if names.len() == 1 {
        Some(names[0])
    } else {
        None
    }
}

/// The name ended by the first `ff ff ff ff` and end tag past the class
/// tag.
pub open spec fn spec_terminated_name(o: Seq<u8>, revit_version: u32) -> Option<Seq<char>> {
    match name_end_tag(revit_version) {
        None => None,
        Some(t) => match next_occurrence(o, tag_frame(t), NAME_FIELD as int) {
            None => None,
            Some(end) => sole_ending_name(o, end),
        },
    }
}

/// The name that ends at the first `ff ff ff ff` and
/// [`material_name_end_tag`] past the class tag: the one `u32 n · UTF-16 ×
/// n` whose last unit sits right before it.
fn terminated_name(object: &[u8], revit_version: u32) -> (r: Option<String>)
    ensures
        opt_string_text(r) == spec_terminated_name(object@, revit_version),
{
    let end_tag = match material_name_end_tag(revit_version) {
        Some(t) => t,
        None => {
            return None;
        },
    };
    let terminator = tag_frame_bytes(end_tag);
    let end = match find_next(object, NAME_FIELD, &terminator) {
        Some(e) => e,
        None => {
            return None;
        },
    };
    proof {
        crate::bytes::lemma_next_occurrence_bounds(object@, tag_frame(end_tag), NAME_FIELD as int);
    }
    let ghost o = object@;
    let mut found: Option<String> = None;
    let ghost mut got: Seq<Seq<char>> = Seq::empty();
    let mut n: u32 = 1;
    while n <= 256
        invariant
            1 <= n <= 257,
            o == object@,
            name_end_tag(revit_version) == Some(end_tag),
            next_occurrence(o, tag_frame(end_tag), NAME_FIELD as int) == Some(end as int),
            NAME_FIELD <= end,
            end + 6 <= o.len(),
            got.len() <= 1,
            ending_names_from(o, end as int, 1) == got + ending_names_from(o, end as int, n as int),
            found is None <==> got.len() == 0,
            found is Some ==> opt_string_text(found) == Some(got[0]),
        decreases 257 - n,
    {
        let ghost before = got;
        let span = 4 + 2 * (n as usize);
        let mut name: Option<String> = None;
        if end >= span && end - span >= NAME_FIELD {
            let at = end - span;
            let count = read_u32(object, at).unwrap();
            if count == n {
                name = utf16_name(object, at + 4, n);
            }
        }
        assert(opt_string_text(name) == ending_name(o, end as int, n as int));
        match name {
            Some(v) => {
                proof {
                    got = got.push(v@);
                    assert(got =~= before + seq![v@]);
                    assert(before + ending_names_from(o, end as int, n as int) =~= got
                        + ending_names_from(o, end as int, n + 1));
                }
                if found.is_some() {
                    proof {
                        assert(ending_names_from(o, end as int, 1).len() >= 2);
                    }
                    return None;
                }
                found = Some(v);
            },
            None => {},
        }
        n += 1;
    }
    proof {
        assert(got + ending_names_from(o, end as int, 257) =~= got);
    }
    found
}

/// The bytes of the material object whose ElementId starts at `id_at`: at
/// most [`NAME_WINDOW`] of them.
pub open spec fn object_window(b: Seq<u8>, id_at: int) -> Seq<u8> {
    b.subrange(id_at, if id_at + NAME_WINDOW <= b.len() { id_at + NAME_WINDOW } else { b.len() as int })
}

/// How many zero `u32`s, at most four, follow the class tag from the
/// `k`-th on.
pub open spec fn lead_zeros(o: Seq<u8>, k: int) -> int
    decreases 4 - k,
{
    if 0 <= k < 4 && NAME_FIELD + 4 * k + 4 <= o.len() && le_u32(o, NAME_FIELD + 4 * k) == 0 {
        lead_zeros(o, k + 1)
    } else {
        k
    }
}

/// The object's own name field: two to four zero `u32`s after the class
/// tag, then `u32 n` and the name, unless a BuiltInParameter id follows the
/// `u32` (a parameter entry, not a name).
pub open spec fn own_name(o: Seq<u8>) -> Option<Seq<char>> {
    let z = lead_zeros(o, 0);
    let at = NAME_FIELD + 4 * z;
    if z >= 2 && at + 4 <= o.len() && !(at + 12 <= o.len() && builtin_parameter(
        as_signed(le_u64(o, at + 4) as u64),
    )) {
        unit_name(o, at + 4, le_u32(o, at))
    } else {
        None
    }
}

/// The name a `u32 n · UTF-16 × n` at `p` makes.
pub open spec fn counted_name(o: Seq<u8>, p: int) -> Option<Seq<char>> {
    if 0 <= p && p + 4 <= o.len() {
        unit_name(o, p + 4, le_u32(o, p))
    } else {
        None
    }
}

/// [`counted_name`] `skip` bytes past each hit.
pub open spec fn counted_name_fn(o: Seq<u8>, skip: int) -> spec_fn(int) -> Option<Seq<char>> {
    |hit: int| counted_name(o, hit + skip)
}

/// The first of a list, if any.
pub open spec fn first_of(s: Seq<Seq<char>>) -> Option<Seq<char>> {
    if s.len() > 0 {
        Some(s[0])
    } else {
        None
    }
}

/// The first name a `needle` reported by `memmem::find_iter` is followed
/// by.
pub open spec fn first_counted_name(o: Seq<u8>, needle: Seq<u8>) -> Option<Seq<char>> {
    first_of(keep_some(iter_hits_from(o, needle, 0), counted_name_fn(o, needle.len() as int)))
}

/// The first string framed with the release's name frame tag.
pub open spec fn framed_name(o: Seq<u8>, revit_version: u32) -> Option<Seq<char>> {
    match name_frame_tag(revit_version) {
        None => None,
        Some(t) => first_counted_name(o, tag_frame(t)),
    }
}

/// The opening of a [`NAME_PARAMETER`] entry: the `i64` and a zero `u32`.
pub open spec fn parameter_entry() -> Seq<u8> {
    seq![0x0du8, 0xb9, 0xf0, 0xff, 0xff, 0xff, 0xff, 0xff, 0, 0, 0, 0]
}

/// The material name an object holds, the first of: its own name field,
/// the terminated name, the first framed string, the first name parameter
/// entry.
pub open spec fn object_name(o: Seq<u8>, revit_version: u32) -> Option<Seq<char>> {
    match own_name(o) {
        Some(n) => Some(n),
        None => match spec_terminated_name(o, revit_version) {
            Some(n) => Some(n),
            None => match framed_name(o, revit_version) {
                Some(n) => Some(n),
                None => first_counted_name(o, parameter_entry()),
            },
        },
    }
}

/// The name of the material whose ElementId starts at `id_at`.
pub open spec fn spec_name_at(b: Seq<u8>, id_at: int, revit_version: u32) -> Option<Seq<char>> {
    if id_at <= b.len() {
        object_name(object_window(b, id_at), revit_version)
    } else {
        None
    }
}

fn counted_name_at(o: &[u8], p: usize) -> (r: Option<String>)
    ensures
        opt_string_text(r) == counted_name(o@, p as int),
{
    if p > o.len() || o.len() - p < 4 {
        return None;
    }
    let n = read_u32(o, p).unwrap();
    utf16_name(o, p + 4, n)
}

fn first_name_after(o: &[u8], needle: &[u8]) -> (r: Option<String>)
    requires
        needle@.len() > 0,
    ensures
        opt_string_text(r) == first_counted_name(o@, needle@),
{
    let ghost n = needle@;
    let ghost f = counted_name_fn(o@, n.len() as int);
    let nlen = needle.len();
    let len = o.len();
    let mut cursor: usize = 0;
    while cursor <= len && len - cursor >= nlen
        invariant
            len == o@.len(),
            n == needle@,
            nlen == n.len(),
            nlen > 0,
            f == counted_name_fn(o@, n.len() as int),
            keep_some(iter_hits_from(o@, n, 0), f) == keep_some(iter_hits_from(o@, n, cursor as int), f),
        ensures
            iter_hits_from(o@, n, cursor as int) == Seq::<int>::empty(),
        decreases len + 1 - cursor,
    {
        let hit = match find_from(o, cursor, needle) {
            Some(h) => h,
            None => {
                proof {
                    lemma_iter_hits_none(o@, n, cursor as int);
                }
                break;
            },
        };
        proof {
            lemma_iter_hits_skip(o@, n, cursor as int, hit as int);
            lemma_iter_hits_step(o@, n, hit as int);
            lemma_keep_some_step(iter_hits_from(o@, n, hit as int), f);
            assert((seq![hit as int] + iter_hits_from(o@, n, hit + nlen)).drop_first()
                =~= iter_hits_from(o@, n, hit + nlen));
        }
        let name = counted_name_at(o, hit + nlen);
        if name.is_some() {
            return name;
        }
        cursor = hit + nlen;
    }
    proof {
        name_none_after(o@, n, cursor as int, f);
    }
    None
}

proof fn name_none_after(o: Seq<u8>, n: Seq<u8>, cursor: int, f: spec_fn(int) -> Option<Seq<char>>)
    requires
        iter_hits_from(o, n, cursor) == Seq::<int>::empty(),
    ensures
        keep_some(iter_hits_from(o, n, cursor), f) == Seq::<Seq<char>>::empty(),
{
}

/// A material's name from its object at the ElementId `id_at` (RE-58), the
/// first of:
/// - its own name field: after the class tag at [`MATERIAL_TAG_OFFSET`], two
///   to four zero `u32`s, then `u32 n` and the name. A slot followed by a
///   BuiltInParameter id is a parameter entry, not a name;
/// - the name ended by `ff ff ff ff` and [`material_name_end_tag`], found
///   from that end where parameter entries of several kinds come first;
/// - the first string framed with [`material_name_frame_tag`];
/// - the first [`NAME_PARAMETER`] entry.
pub fn name_at(buf: &[u8], id_at: usize, revit_version: u32) -> (r: Option<String>)
    ensures
        opt_string_text(r) == spec_name_at(buf@, id_at as int, revit_version),
{
    if id_at > buf.len() {
        return None;
    }
    let end = if buf.len() - id_at >= NAME_WINDOW { id_at + NAME_WINDOW } else { buf.len() };
    let object = &buf[id_at..end];
    assert(object@ == object_window(buf@, id_at as int));
    let ghost o = object@;
    let mut at: usize = NAME_FIELD;
    let mut zeros: usize = 0;
    while zeros < 4 && object.len() >= at && object.len() - at >= 4 && read_u32(object, at).unwrap() == 0
        invariant
            zeros <= 4,
            at == NAME_FIELD + 4 * zeros,
            o == object@,
            lead_zeros(o, 0) == lead_zeros(o, zeros as int),
        decreases 4 - zeros,
    {
        at += 4;
        zeros += 1;
    }
    assert(lead_zeros(o, zeros as int) == zeros);
    if zeros >= 2 && object.len() >= at && object.len() - at >= 4 {
        let n = read_u32(object, at).unwrap();
        let parameter = if object.len() - at >= 12 {
            let raw = to_signed(read_u64(object, at + 4).unwrap());
            -2_000_000 <= raw && raw <= -1_000_000
        } else {
            false
        };
        if !parameter {
            let own = utf16_name(object, at + 4, n);
            if own.is_some() {
                return own;
            }
        }
    }
    assert(own_name(o) is None);
    let terminated = terminated_name(object, revit_version);
    if terminated.is_some() {
        return terminated;
    }
    match material_name_frame_tag(revit_version) {
        Some(tag) => {
            let frame = tag_frame_bytes(tag);
            let framed = first_name_after(object, &frame);
            if framed.is_some() {
                return framed;
            }
        },
        None => {},
    }
    let entry: [u8; 12] = [0x0d, 0xb9, 0xf0, 0xff, 0xff, 0xff, 0xff, 0xff, 0, 0, 0, 0];
    assert(entry@ =~= parameter_entry());
    first_name_after(object, &entry)
}

/// The `(id, name)` the object prefix found at `at` gives: a declared
/// `u64` ElementId after it, the release's class tag at
/// [`MATERIAL_TAG_OFFSET`] past the id, and a name ([`spec_name_at`]).
pub open spec fn material_name_entry(
    b: Seq<u8>,
    declared: Set<u32>,
    revit_version: u32,
    at: int,
) -> Option<(u32, Seq<char>)> {
    let id_at = at + 4;
    match object_tag(revit_version) {
        None => None,
        Some(tag) => if id_at + 8 <= b.len() && le_u64(b, id_at) <= 0xffff_ffff && declared.contains(
            le_u64(b, id_at) as u32,
        ) && id_at + MATERIAL_TAG_OFFSET + 2 <= b.len() && b[id_at + MATERIAL_TAG_OFFSET] == tag[0]
            && b[id_at + MATERIAL_TAG_OFFSET + 1] == tag[1] {
            match spec_name_at(b, id_at, revit_version) {
                Some(n) => Some((le_u64(b, id_at) as u32, n)),
                None => None,
            }
        } else {
            None
        },
    }
}

/// [`material_name_entry`] for a fixed buffer.
pub open spec fn material_name_fn(b: Seq<u8>, declared: Set<u32>, revit_version: u32) -> spec_fn(
    int,
) -> Option<(u32, Seq<char>)> {
    |at: int| material_name_entry(b, declared, revit_version, at)
}

/// The material names one buffer holds, in the order `memmem::find_iter`
/// reports the object prefixes.
pub open spec fn buffer_material_names(b: Seq<u8>, declared: Set<u32>, revit_version: u32) -> Seq<
    (u32, Seq<char>),
> {
    keep_some(
        iter_hits_from(b, OBJECT_PREFIX@, 0),
        material_name_fn(b, declared, revit_version),
    )
}

/// The material names every stream holds, in stream order.
pub open spec fn all_material_names(
    parts: Seq<(Seq<char>, Seq<u8>)>,
    declared: Set<u32>,
    revit_version: u32,
) -> Seq<(u32, Seq<char>)>
    decreases parts.len(),
{
    if parts.len() == 0 {
        Seq::empty()
    } else {
        all_material_names(parts.drop_last(), declared, revit_version) + buffer_material_names(
            parts.last().1,
            declared,
            revit_version,
        )
    }
}

/// Every `(id, name)` of a material object in one inflated stream.
pub fn find_material_names(buf: &[u8], revit_version: u32, declared: &BTreeSet<u32>) -> (r: Vec<
    (u32, String),
>)
    ensures
        id_values(r@) == buffer_material_names(buf@, declared@, revit_version),
{
    let ghost f = material_name_fn(buf@, declared@, revit_version);
    let prefix = OBJECT_PREFIX;
    let ghost n = prefix@;
    assert(n =~= seq![1u8, 0, 0, 0]);
    assert(OBJECT_PREFIX@ =~= seq![1u8, 0, 0, 0]);
    let mut out: Vec<(u32, String)> = Vec::new();
    let tag = match material_object_tag(revit_version) {
        Some(t) => t,
        None => {
            proof {
                lemma_keep_none(iter_hits_from(buf@, n, 0), f);
            }
            return out;
        },
    };
    let len = buf.len();
    let mut cursor: usize = 0;
    while cursor <= len && len - cursor >= 4
        invariant
            len == buf@.len(),
            n == prefix@,
            n == OBJECT_PREFIX@,
            n.len() == 4,
            object_tag(revit_version) == Some(tag),
            f == material_name_fn(buf@, declared@, revit_version),
            keep_some(iter_hits_from(buf@, n, 0), f) == id_values(out@) + keep_some(
                iter_hits_from(buf@, n, cursor as int),
                f,
            ),
        ensures
            iter_hits_from(buf@, n, cursor as int) == Seq::<int>::empty(),
        decreases len + 1 - cursor,
    {
        let at = match find_from(buf, cursor, &prefix) {
            Some(h) => h,
            None => {
                proof {
                    lemma_iter_hits_none(buf@, n, cursor as int);
                }
                break;
            },
        };
        proof {
            lemma_iter_hits_skip(buf@, n, cursor as int, at as int);
            lemma_iter_hits_step(buf@, n, at as int);
            lemma_keep_some_step(iter_hits_from(buf@, n, at as int), f);
            assert((seq![at as int] + iter_hits_from(buf@, n, at + 4)).drop_first()
                =~= iter_hits_from(buf@, n, at + 4));
        }
        let ghost before = out@;
        let id_at = at + 4;
        if len - id_at >= 8 {
            let raw = read_u64(buf, id_at).unwrap();
            if raw <= 0xffff_ffff && declared.contains(&(raw as u32)) && len - id_at
                >= MATERIAL_TAG_OFFSET + 2 && buf[id_at + MATERIAL_TAG_OFFSET] == tag[0] && buf[id_at
                + MATERIAL_TAG_OFFSET + 1] == tag[1] {
                match name_at(buf, id_at, revit_version) {
                    Some(name) => {
                        let ghost e = (raw as u32, name@);
                        out.push((raw as u32, name));
                        proof {
                            assert(id_values(out@) =~= id_values(before).push(e));
                            assert(id_values(out@) + keep_some(iter_hits_from(buf@, n, at + 4), f)
                                =~= id_values(before) + (seq![e] + keep_some(
                                iter_hits_from(buf@, n, at + 4),
                                f,
                            )));
                        }
                    },
                    None => {},
                }
            }
        }
        cursor = at + 4;
    }
    proof {
        assert(id_values(out@) + Seq::<(u32, Seq<char>)>::empty() =~= id_values(out@));
    }
    out
}

proof fn lemma_keep_none(hits: Seq<int>, f: spec_fn(int) -> Option<(u32, Seq<char>)>)
    requires
        forall|h: int| #[trigger] f(h) is None,
    ensures
        keep_some(hits, f) == Seq::<(u32, Seq<char>)>::empty(),
    decreases hits.len(),
{
    if hits.len() > 0 {
        lemma_keep_none(hits.drop_first(), f);
    }
}

/// Every material's name, by ElementId, read from every partition (RE-58).
/// Only ids in `declared` count. An id whose copies disagree is dropped,
/// and so is a name read for two or more materials: Revit keeps material
/// names unique, so one of them is misread. Empty for a release the layout
/// is not measured on.
pub fn scan_material_names(
    partitions: &[InflatedPartition],
    revit_version: u32,
    declared: &BTreeSet<u32>,
) -> (r: BTreeMap<u32, String>)
    ensures
        object_tag(revit_version) is None ==> r@.is_empty(),
        object_tag(revit_version) is Some ==> is_unshared_collapse_of(
            r@,
            all_material_names(partition_views(partitions@), declared@, revit_version),
        ),
{
    if material_object_tag(revit_version).is_none() || material_name_frame_tag(revit_version).is_none() {
        let empty = BTreeMap::new();
        assert(empty@ =~= Map::<u32, String>::empty());
        return empty;
    }
    let ghost parts = partition_views(partitions@);
    let mut entries: Vec<(u32, String)> = Vec::new();
    let mut i: usize = 0;
    while i < partitions.len()
        invariant
            i <= partitions@.len(),
            parts == partition_views(partitions@),
            id_values(entries@) == all_material_names(parts.take(i as int), declared@, revit_version),
        decreases partitions@.len() - i,
    {
        let part = &partitions[i];
        let mut found = find_material_names(part.bytes.as_slice(), revit_version, declared);
        let ghost before = entries@;
        let ghost got = found@;
        entries.append(&mut found);
        assert(id_values(entries@) =~= id_values(before) + id_values(got));
        proof {
            assert(parts.take(i + 1).drop_last() =~= parts.take(i as int));
            assert(parts.take(i + 1).last() == parts[i as int]);
            assert(parts[i as int] == (part.stream@, part.bytes@));
        }
        i += 1;
    }
    assert(parts.take(parts.len() as int) =~= parts);
    let collapsed = collapse_values(&entries);
    drop_shared_values(&entries, &collapsed)
}

/// Whether an `f32` word is a plausible unit fraction: 0 to 1, and either
/// zero or a normal number.
pub open spec fn plausible_unit(bits: u32) -> bool {
    bits == 0 || bits == 0x8000_0000 || (0x0080_0000 <= bits <= 0x3f80_0000)
}

/// A material's shading as Revit's shaded views and its IFC export use it.
/// The transparency is kept as its IEEE-754 `f32` word.
#[derive(Debug, Clone, Copy, PartialEq, Eq)]
pub struct MaterialAppearance {
    /// Shading colour, sRGB.
    pub rgb: [u8; 3],
    /// 0 opaque to 1 fully transparent.
    pub transparency_bits: u32,
    /// Revit's shininess, 0 to 128.
    pub shininess: u32,
}

/// A transparency as compared: its value, both zeros alike.
pub open spec fn transparency_value(bits: u32) -> u32 {
    if bits == 0x8000_0000 {
        0
    } else {
        bits
    }
}

impl View for MaterialAppearance {
    type V = (u8, u8, u8, u32, u32);

    open spec fn view(&self) -> (u8, u8, u8, u32, u32) {
        (self.rgb[0], self.rgb[1], self.rgb[2], transparency_value(self.transparency_bits), self.shininess)
    }
}

impl MaterialAppearance {
    /// The colour packed as `0x00BBGGRR`.
    pub fn color_packed(&self) -> (r: u32)
        ensures
            r == self.rgb[0] + 256 * self.rgb[1] + 65536 * self.rgb[2],
    {
        self.rgb[0] as u32 + 256 * (self.rgb[1] as u32) + 65536 * (self.rgb[2] as u32)
    }
}

impl Comparable for MaterialAppearance {
    fn same(&self, other: &Self) -> (r: bool) {
        let a = if self.transparency_bits == 0x8000_0000 { 0 } else { self.transparency_bits };
        let b = if other.transparency_bits == 0x8000_0000 { 0 } else { other.transparency_bits };
        self.rgb[0] == other.rgb[0] && self.rgb[1] == other.rgb[1] && self.rgb[2] == other.rgb[2] && a == b
            && self.shininess == other.shininess
    }

    fn duplicate(&self) -> (r: Self) {
        *self
    }
}

/// The shading frame whose colour starts at `at`: eight `ff` bytes 32
/// before it, two plausible unit fractions 24 and 20 before it (the first
/// the transparency), the high byte of each COLORREF (13, 9, 5 and 1 before
/// it and 3 past it) zero, and the shininess `u32` 4 past it. As
/// `(r, g, b, transparency word, shininess)`.
pub open spec fn spec_frame_at(b: Seq<u8>, at: int) -> Option<(u8, u8, u8, u32, u32)> {
    if 32 <= at && at + 8 <= b.len() && (forall|k: int| at - 32 <= k < at - 24 ==> #[trigger] b[k] == 0xff)
        && plausible_unit(le_u32(b, at - 24) as u32) && plausible_unit(le_u32(b, at - 20) as u32) && b[at - 13]
        == 0 && b[at - 9] == 0 && b[at - 5] == 0 && b[at - 1] == 0 && b[at + 3] == 0 {
        Some((b[at], b[at + 1], b[at + 2], le_u32(b, at - 24) as u32, le_u32(b, at + 4) as u32))
    } else {
        None
    }
}

/// Whether `a` is the appearance a frame reads as.
pub open spec fn reads_as(a: MaterialAppearance, f: (u8, u8, u8, u32, u32)) -> bool {
    a.rgb[0] == f.0 && a.rgb[1] == f.1 && a.rgb[2] == f.2 && a.transparency_bits == f.3 && a.shininess == f.4
}

fn frame_at(buf: &[u8], at: usize) -> (r: Option<MaterialAppearance>)
    ensures
        match r {
            Some(a) => spec_frame_at(buf@, at as int) matches Some(f) && reads_as(a, f),
            None => spec_frame_at(buf@, at as int) is None,
        },
{
    if at < 32 || at > buf.len() || buf.len() - at < 8 {
        return None;
    }
    let mut k: usize = at - 32;
    while k < at - 24
        invariant
            32 <= at,
            at + 8 <= buf@.len(),
            at - 32 <= k <= at - 24,
            forall|j: int| at - 32 <= j < k ==> #[trigger] buf@[j] == 0xff,
        decreases at - 24 - k,
    {
        if buf[k] != 0xff {
            assert(buf@[k as int] != 0xff);
            return None;
        }
        k += 1;
    }
    let transparency = read_u32(buf, at - 24).unwrap();
    let second = read_u32(buf, at - 20).unwrap();
    let plausible = |v: u32| -> (ok: bool)
        ensures
            ok == plausible_unit(v),
        { v == 0 || v == 0x8000_0000 || (0x0080_0000 <= v && v <= 0x3f80_0000) };
    if !plausible(transparency) || !plausible(second) {
        return None;
    }
    if buf[at - 13] != 0 || buf[at - 9] != 0 || buf[at - 5] != 0 || buf[at - 1] != 0 || buf[at + 3] != 0 {
        return None;
    }
    let shininess = read_u32(buf, at + 4).unwrap();
    Some(MaterialAppearance { rgb: [buf[at], buf[at + 1], buf[at + 2]], transparency_bits: transparency, shininess })
}

/// Where the search for a material's shading frame ends: 0x2000 past its
/// ElementId, or 8 before the buffer's end.
pub open spec fn appearance_search_end(b: Seq<u8>, id_at: int) -> int {
    let window_end = id_at + APPEARANCE_WINDOW;
    let last = if b.len() >= 8 { b.len() - 8 } else { 0 };
    if window_end <= last { window_end } else { last }
}

/// The first shading frame at `at` or later, before `to`.
pub open spec fn first_frame_from(b: Seq<u8>, at: int, to: int) -> Option<(u8, u8, u8, u32, u32)>
    decreases to - at,
{
    if at >= to {
        None
    } else if spec_frame_at(b, at) is Some {
        spec_frame_at(b, at)
    } else {
        first_frame_from(b, at + 1, to)
    }
}

/// The first shading frame after the material ElementId at `id_at`: from
/// 40 bytes past it to [`appearance_search_end`].
pub open spec fn spec_appearance_at(b: Seq<u8>, id_at: int) -> Option<(u8, u8, u8, u32, u32)> {
    first_frame_from(b, id_at + 8 + 32, appearance_search_end(b, id_at))
}

/// The first shading frame after the material ElementId at `id_at`.
pub fn appearance_at(buf: &[u8], id_at: usize) -> (r: Option<MaterialAppearance>)
    ensures
        match r {
            Some(a) => spec_appearance_at(buf@, id_at as int) matches Some(f) && reads_as(a, f),
            None => spec_appearance_at(buf@, id_at as int) is None,
        },
{
    let len = buf.len();
    let last = if len >= 8 { len - 8 } else { 0 };
    if id_at > last || last - id_at < 40 {
        proof {
            let to = appearance_search_end(buf@, id_at as int);
            assert(id_at + 40 >= to);
        }
        return None;
    }
    let to = if last - id_at >= APPEARANCE_WINDOW { id_at + APPEARANCE_WINDOW } else { last };
    assert(to == appearance_search_end(buf@, id_at as int));
    let mut at: usize = id_at + 40;
    while at < to
        invariant
            id_at + 40 <= at,
            to == appearance_search_end(buf@, id_at as int),
            first_frame_from(buf@, at as int, to as int) == spec_appearance_at(buf@, id_at as int),
        decreases to - at,
    {
        match frame_at(buf, at) {
            Some(a) => {
                return Some(a);
            },
            None => {},
        }
        at += 1;
    }
    None
}

/// The `(id, appearance)` the object prefix found at `at` gives: a
/// declared `u64` ElementId after it, the release's class tag at
/// [`MATERIAL_TAG_OFFSET`] past the id, and a shading frame after it.
pub open spec fn appearance_entry(b: Seq<u8>, declared: Set<u32>, revit_version: u32, at: int) -> Option<
    (u32, (u8, u8, u8, u32, u32)),
> {
    let id_at = at + 4;
    match object_tag(revit_version) {
        None => None,
        Some(tag) => if id_at + 8 <= b.len() && le_u64(b, id_at) <= 0xffff_ffff && declared.contains(
            le_u64(b, id_at) as u32,
        ) && id_at + MATERIAL_TAG_OFFSET + 2 <= b.len() && b[id_at + MATERIAL_TAG_OFFSET] == tag[0]
            && b[id_at + MATERIAL_TAG_OFFSET + 1] == tag[1] {
            match spec_appearance_at(b, id_at) {
                Some(f) => Some((le_u64(b, id_at) as u32, (f.0, f.1, f.2, transparency_value(f.3), f.4))),
                None => None,
            }
        } else {
            None
        },
    }
}

/// [`appearance_entry`] for a fixed buffer.
pub open spec fn appearance_fn(b: Seq<u8>, declared: Set<u32>, revit_version: u32) -> spec_fn(int) -> Option<
    (u32, (u8, u8, u8, u32, u32)),
> {
    |at: int| appearance_entry(b, declared, revit_version, at)
}

/// The material appearances one buffer holds, as compared, in the order
/// `memmem::find_iter` reports the object prefixes.
pub open spec fn buffer_appearances(b: Seq<u8>, declared: Set<u32>, revit_version: u32) -> Seq<
    (u32, (u8, u8, u8, u32, u32)),
> {
    keep_some(iter_hits_from(b, OBJECT_PREFIX@, 0), appearance_fn(b, declared, revit_version))
}

/// The material appearances every stream holds, in stream order.
pub open spec fn all_appearances(parts: Seq<(Seq<char>, Seq<u8>)>, declared: Set<u32>, revit_version: u32) -> Seq<
    (u32, (u8, u8, u8, u32, u32)),
>
    decreases parts.len(),
{
    if parts.len() == 0 {
        Seq::empty()
    } else {
        all_appearances(parts.drop_last(), declared, revit_version) + buffer_appearances(
            parts.last().1,
            declared,
            revit_version,
        )
    }
}

fn find_appearances(buf: &[u8], revit_version: u32, declared: &BTreeSet<u32>) -> (r: Vec<(u32, MaterialAppearance)>)
    ensures
        id_values(r@) == buffer_appearances(buf@, declared@, revit_version),
{
    let ghost f = appearance_fn(buf@, declared@, revit_version);
    let prefix = OBJECT_PREFIX;
    let hits = crate::bytes::find_iter_all(buf, &prefix);
    let ghost ps = crate::bytes::positions(hits@);
    let mut out: Vec<(u32, MaterialAppearance)> = Vec::new();
    let tag_opt = material_object_tag(revit_version);
    let mut k: usize = 0;
    assert(ps.take(0) =~= Seq::<int>::empty());
    while k < hits.len()
        invariant
            k <= hits@.len(),
            ps == crate::bytes::positions(hits@),
            ps == iter_hits_from(buf@, OBJECT_PREFIX@, 0),
            tag_opt == object_tag(revit_version),
            f == appearance_fn(buf@, declared@, revit_version),
            id_values(out@) == keep_some(ps.take(k as int), f),
        decreases hits@.len() - k,
    {
        let at = hits[k];
        proof {
            assert(ps.take(k + 1) =~= ps.take(k as int).push(at as int));
            crate::bytes::lemma_keep_some_push(ps.take(k as int), at as int, f);
        }
        let ghost before = out@;
        let len = buf.len();
        let mut got: Option<(u32, MaterialAppearance)> = None;
        match tag_opt {
            Some(tag) => {
                if at <= len && len - at >= 4 && len - (at + 4) >= 8 {
                    let id_at = at + 4;
                    let raw = read_u64(buf, id_at).unwrap();
                    if raw <= 0xffff_ffff && declared.contains(&(raw as u32)) && len - id_at >= MATERIAL_TAG_OFFSET + 2
                        && buf[id_at + MATERIAL_TAG_OFFSET] == tag[0] && buf[id_at + MATERIAL_TAG_OFFSET + 1]
                        == tag[1] {
                        match appearance_at(buf, id_at) {
                            Some(a) => {
                                got = Some((raw as u32, a));
                            },
                            None => {},
                        }
                    }
                }
            },
            None => {},
        }
        match got {
            Some(e) => {
                assert(f(at as int) == Some((e.0, e.1@)));
                out.push(e);
                assert(id_values(out@) =~= id_values(before).push((e.0, e.1@)));
            },
            None => {
                assert(f(at as int) is None);
            },
        }
        k += 1;
    }
    assert(ps.take(ps.len() as int) =~= ps);
    out
}

/// Every material's shading, by ElementId, read from every partition. Only
/// ids in `declared` count; an id whose copies disagree is dropped. Empty
/// for a release the layout is not measured on.
pub fn scan_material_appearances(
    partitions: &[InflatedPartition],
    revit_version: u32,
    declared: &BTreeSet<u32>,
) -> (r: BTreeMap<u32, MaterialAppearance>)
    ensures
        object_tag(revit_version) is None ==> r@.is_empty(),
        is_collapse_of(r@, all_appearances(partition_views(partitions@), declared@, revit_version)),
{
    let ghost parts = partition_views(partitions@);
    let mut entries: Vec<(u32, MaterialAppearance)> = Vec::new();
    let mut i: usize = 0;
    while i < partitions.len()
        invariant
            i <= partitions@.len(),
            parts == partition_views(partitions@),
            id_values(entries@) == all_appearances(parts.take(i as int), declared@, revit_version),
        decreases partitions@.len() - i,
    {
        let part = &partitions[i];
        let mut found = find_appearances(part.bytes.as_slice(), revit_version, declared);
        let ghost before = entries@;
        let ghost got = found@;
        entries.append(&mut found);
        assert(id_values(entries@) =~= id_values(before) + id_values(got));
        proof {
            assert(parts.take(i + 1).drop_last() =~= parts.take(i as int));
            assert(parts.take(i + 1).last() == parts[i as int]);
            assert(parts[i as int] == (part.stream@, part.bytes@));
        }
        i += 1;
    }
    assert(parts.take(parts.len() as int) =~= parts);
    let m = collapse_values(&entries);
    proof {
        if object_tag(revit_version) is None {
            lemma_no_appearances(parts, declared@, revit_version);
            assert forall|id: u32| !#[trigger] m@.contains_key(id) by {
                assert(!crate::collapse::names_id(id_values(entries@), id));
            }
            assert(m@ =~= Map::<u32, MaterialAppearance>::empty());
        }
    }
    m
}

proof fn lemma_no_appearances(parts: Seq<(Seq<char>, Seq<u8>)>, declared: Set<u32>, revit_version: u32)
    requires
        object_tag(revit_version) is None,
    ensures
        all_appearances(parts, declared, revit_version).len() == 0,
    decreases parts.len(),
{
    if parts.len() > 0 {
        lemma_no_appearances(parts.drop_last(), declared, revit_version);
        let b = parts.last().1;
        lemma_keep_nothing(iter_hits_from(b, OBJECT_PREFIX@, 0), appearance_fn(b, declared, revit_version));
    }
}

proof fn lemma_keep_nothing<V>(hits: Seq<int>, f: spec_fn(int) -> Option<V>)
    requires
        forall|h: int| #[trigger] f(h) is None,
    ensures
        keep_some(hits, f).len() == 0,
    decreases hits.len(),
{
    if hits.len() > 0 {
        lemma_keep_nothing(hits.drop_first(), f);
    }
}

} // verus!
