//! Per-element IFC export-type overrides: the `Ifc…` value string of an
//! element's parameter block, with the owning ElementId twice before it,
//! and the four IFC export parameters an element's serialised data sets.

use vstd::prelude::*;
use std::collections::{BTreeMap, BTreeSet};
use crate::bytes::{
    find_from, rfind_within, occurs_at, iter_hits_from, lemma_iter_hits_none, lemma_iter_hits_skip,
    lemma_iter_hits_step, hits_from, keep_some, le_u16, le_u32, le_u64, lemma_hits_none, lemma_hits_skip,
    lemma_hits_step, lemma_keep_some_step, read_u16, read_u32, read_u64,
};
use crate::partition_element_records::{from_signed, from_signed_spec, spec_le_bytes, u64_le_bytes};
use crate::collapse::{collapse_values, id_values, is_collapse_of};
use crate::partitions::{partition_views, InflatedPartition};
use crate::text::{
    byte_char, chars_of, equals_str, is_ascii_alnum, lower, lower_chars, push_char, string_of, utf8_len,
};

verus! {

broadcast use vstd::std_specs::btree::group_btree_axioms;

/// Bytes from the value string back to the owning `ElementId`.
pub const OWNER_OFFSET_BEFORE_VALUE: usize = 220;
/// Bytes from the value string back to the confirmation copy of the owner.
pub const OWNER_CONFIRM_OFFSET_BEFORE_VALUE: usize = 286;
/// Bytes from the value string back to its `u32` length prefix.
pub const LENGTH_PREFIX_OFFSET_BEFORE_VALUE: usize = 4;
/// Shortest override value the scan will accept, in UTF-16 units.
pub const MIN_VALUE_CHARS: usize = 4;
/// Longest override value the scan will accept, in UTF-16 units.
pub const MAX_VALUE_CHARS: usize = 64;
/// Autodesk `BuiltInParameter.IFC_EXPORT_ELEMENT_AS`.
pub const IFC_EXPORT_ELEMENT_AS: i64 = -1_019_014;
/// Autodesk `BuiltInParameter.IFC_EXPORT_ELEMENT_TYPE_AS`.
pub const IFC_EXPORT_ELEMENT_TYPE_AS: i64 = -1_019_015;
/// Autodesk `BuiltInParameter.IFC_EXPORT_PREDEFINEDTYPE`.
pub const IFC_EXPORT_PREDEFINEDTYPE: i64 = -1_019_016;
/// Autodesk `BuiltInParameter.IFC_EXPORT_PREDEFINEDTYPE_TYPE`.
pub const IFC_EXPORT_PREDEFINEDTYPE_TYPE: i64 = -1_019_017;
/// Furthest an export parameter entry may sit past its element's header.
pub const EXPORT_PARAMETER_WINDOW: usize = 0x800;

/// Whether this release's override framing is proven: 2024 only.
pub fn supports_revit_version(revit_version: u32) -> (r: bool)
    ensures
        r == (revit_version == 2024),
{
    revit_version == 2024
}

/// One accepted override entry.
#[derive(Debug, Clone, PartialEq, Eq)]
pub struct IfcExportOverride {
    /// Stream the entry was found in.
    pub stream: String,
    /// Byte offset of the value string in the inflated stream.
    pub offset: usize,
    /// ElementId the override applies to.
    pub element_id: u32,
    /// The value string, verbatim.
    pub value: String,
}

/// What an [`IfcExportOverride`] holds, as values.
pub struct OverrideView {
    pub stream: Seq<char>,
    pub offset: int,
    pub element_id: u32,
    pub value: Seq<char>,
}

impl View for IfcExportOverride {
    type V = OverrideView;

    open spec fn view(&self) -> OverrideView {
        OverrideView {
            stream: self.stream@,
            offset: self.offset as int,
            element_id: self.element_id,
            value: self.value@,
        }
    }
}

/// The `n` UTF-16 units at `at`, as characters, when every one is an ASCII
/// letter or digit.
pub open spec fn ascii_alnum_units(buf: Seq<u8>, at: int, n: int) -> bool {
    forall|i: int|
        0 <= i < n ==> #[trigger] le_u16(buf, at + 2 * i) < 256 && is_ascii_alnum(
            le_u16(buf, at + 2 * i) as char,
        )
}

/// The `n` UTF-16 units at `at`, each read as the character of that code.
pub open spec fn unit_chars(buf: Seq<u8>, at: int, n: int) -> Seq<char> {
    Seq::new(n as nat, |i: int| le_u16(buf, at + 2 * i) as char)
}

/// The override whose value string starts at `offset`, when every check
/// passes: a length of 4 to 64 units that fits the buffer, units that are
/// ASCII letters and digits starting `Ifc`, two equal owner slots holding a
/// non-zero `u32`-range id, and that id declared.
pub open spec fn spec_override_at(
    stream: Seq<char>,
    buf: Seq<u8>,
    offset: int,
    declared: Set<u32>,
) -> Option<OverrideView> {
    if offset < OWNER_CONFIRM_OFFSET_BEFORE_VALUE || offset > buf.len() {
        None
    } else {
        let chars = le_u32(buf, offset - 4);
        let owner = le_u64(buf, offset - OWNER_OFFSET_BEFORE_VALUE);
        let confirm = le_u64(buf, offset - OWNER_CONFIRM_OFFSET_BEFORE_VALUE);
        let value = unit_chars(buf, offset, chars);
        if chars < MIN_VALUE_CHARS || chars > MAX_VALUE_CHARS || offset + 2 * chars > buf.len()
            || !ascii_alnum_units(buf, offset, chars) || value[0] != 'I' || value[1] != 'f'
            || value[2] != 'c' || owner != confirm || owner == 0 || owner > 0xffff_ffff
            || !declared.contains(owner as u32) {
            None
        } else {
            Some(OverrideView { stream, offset, element_id: owner as u32, value })
        }
    }
}

/// Decode one override entry whose value string starts at `offset`,
/// fail-closed at every step.
pub fn decode_at(stream: &str, buf: &[u8], offset: usize, declared: &BTreeSet<u32>) -> (r: Option<
    IfcExportOverride,
>)
    ensures
        match r {
            Some(e) => spec_override_at(stream@, buf@, offset as int, declared@) == Some(e@),
            None => spec_override_at(stream@, buf@, offset as int, declared@) is None,
        },
{
    let len = buf.len();
    if offset < OWNER_CONFIRM_OFFSET_BEFORE_VALUE || offset > len {
        return None;
    }
    let chars = read_u32(buf, offset - LENGTH_PREFIX_OFFSET_BEFORE_VALUE).unwrap() as usize;
    if chars < MIN_VALUE_CHARS || chars > MAX_VALUE_CHARS {
        return None;
    }
    if len - offset < chars * 2 {
        return None;
    }
    let mut value = String::new();
    let mut index: usize = 0;
    while index < chars
        invariant
            len == buf@.len(),
            offset + 2 * chars <= len,
            MIN_VALUE_CHARS <= chars <= MAX_VALUE_CHARS,
            OWNER_CONFIRM_OFFSET_BEFORE_VALUE <= offset,
            chars == le_u32(buf@, offset - 4),
            index <= chars,
            ascii_alnum_units(buf@, offset as int, index as int),
            value@ == unit_chars(buf@, offset as int, index as int),
        decreases chars - index,
    {
        let unit = read_u16(buf, offset + index * 2).unwrap();
        assert(unit == le_u16(buf@, offset + 2 * index));
        if unit >= 256 {
            assert(!ascii_alnum_units(buf@, offset as int, chars as int));
            return None;
        }
        let c = byte_char(unit as u8);
        if !(('0' <= c && c <= '9') || ('A' <= c && c <= 'Z') || ('a' <= c && c <= 'z')) {
            assert(!(le_u16(buf@, offset + 2 * index) < 256 && is_ascii_alnum(
                le_u16(buf@, offset + 2 * index) as char,
            )));
            assert(!ascii_alnum_units(buf@, offset as int, chars as int));
            return None;
        }
        push_char(&mut value, c);
        proof {
            assert(value@ =~= unit_chars(buf@, offset as int, index + 1));
            assert forall|i: int| 0 <= i < index + 1 implies #[trigger] le_u16(
                buf@,
                offset + 2 * i,
            ) < 256 && is_ascii_alnum(le_u16(buf@, offset + 2 * i) as char) by {
                if i < index {
                    assert(ascii_alnum_units(buf@, offset as int, index as int));
                }
            }
        }
        index += 1;
    }
    let v0 = read_u16(buf, offset).unwrap();
    let v1 = read_u16(buf, offset + 2).unwrap();
    let v2 = read_u16(buf, offset + 4).unwrap();
    if v0 != 0x49 || v1 != 0x66 || v2 != 0x63 {
        return None;
    }
    let owner = read_u64(buf, offset - OWNER_OFFSET_BEFORE_VALUE).unwrap();
    let confirm = read_u64(buf, offset - OWNER_CONFIRM_OFFSET_BEFORE_VALUE).unwrap();
    if owner != confirm || owner == 0 || owner > 0xffff_ffff {
        return None;
    }
    let element_id = owner as u32;
    if !declared.contains(&element_id) {
        return None;
    }
    Some(IfcExportOverride { stream: stream_string(stream), offset, element_id, value })
}

fn stream_string(stream: &str) -> (s: String)
    ensures
        s@ == stream@,
{
    stream.to_owned()
}

/// The UTF-16LE encoding of `Ifc`, the scan anchor.
pub open spec fn ifc_needle() -> Seq<u8> {
    seq![0x49u8, 0x00, 0x66, 0x00, 0x63, 0x00]
}

/// The override a scan keeps at a hit of the anchor.
pub open spec fn override_hit_fn(stream: Seq<char>, buf: Seq<u8>, declared: Set<u32>) -> spec_fn(
    int,
) -> Option<OverrideView> {
    |h: int| spec_override_at(stream, buf, h, declared)
}

/// The views of a list of overrides.
pub open spec fn override_views(v: Seq<IfcExportOverride>) -> Seq<OverrideView> {
    v.map_values(|e: IfcExportOverride| e@)
}

/// Every accepted override entry in one inflated stream: each occurrence of
/// the UTF-16LE `Ifc` anchor, in order, decoded with [`decode_at`].
pub fn find_overrides(stream: &str, buf: &[u8], declared: &BTreeSet<u32>) -> (r: Vec<
    IfcExportOverride,
>)
    ensures
        override_views(r@) == keep_some(
            hits_from(buf@, ifc_needle(), 0),
            override_hit_fn(stream@, buf@, declared@),
        ),
{
    let needle: [u8; 6] = [0x49, 0x00, 0x66, 0x00, 0x63, 0x00];
    assert(needle@ =~= ifc_needle());
    let ghost f = override_hit_fn(stream@, buf@, declared@);
    let ghost n = needle@;
    let mut out: Vec<IfcExportOverride> = Vec::new();
    let mut cursor: usize = 0;
    let len = buf.len();
    while cursor <= len && len - cursor >= 6
        invariant
            len == buf@.len(),
            n == needle@,
            n == ifc_needle(),
            f == override_hit_fn(stream@, buf@, declared@),
            keep_some(hits_from(buf@, n, 0), f) == override_views(out@) + keep_some(
                hits_from(buf@, n, cursor as int),
                f,
            ),
        ensures
            hits_from(buf@, n, cursor as int) == Seq::<int>::empty(),
        decreases len + 1 - cursor,
    {
        let found = find_from(buf, cursor, needle.as_slice());
        let hit = match found {
            Some(h) => h,
            None => {
                proof {
                    lemma_hits_none(buf@, n, cursor as int);
                }
                break;
            },
        };
        proof {
            lemma_hits_skip(buf@, n, cursor as int, hit as int);
            lemma_hits_step(buf@, n, hit as int);
            lemma_keep_some_step(hits_from(buf@, n, hit as int), f);
        }
        let ghost before = out@;
        match decode_at(stream, buf, hit, declared) {
            Some(entry) => {
                out.push(entry);
                proof {
                    assert(override_views(out@) =~= override_views(before).push(entry@));
                    assert(override_views(out@) + keep_some(hits_from(buf@, n, hit + 1), f)
                        =~= override_views(before) + (seq![entry@] + keep_some(
                        hits_from(buf@, n, hit + 1),
                        f,
                    )));
                }
            },
            None => {},
        }
        cursor = hit + 1;
    }
    proof {
        assert(override_views(out@) + Seq::<OverrideView>::empty() =~= override_views(out@));
    }
    out
}

/// Each override as an id and its text.
pub open spec fn override_texts(v: Seq<OverrideView>) -> Seq<(u32, Seq<char>)> {
    v.map_values(|o: OverrideView| (o.element_id, o.value))
}

/// Collapse accepted entries to one value per ElementId. An ElementId that
/// names two different values is dropped: an override that cannot be read
/// unambiguously is not an override.
pub fn overrides_by_element_id(entries: Vec<IfcExportOverride>) -> (r: BTreeMap<u32, String>)
    ensures
        is_collapse_of(r@, override_texts(override_views(entries@))),
{
    let mut pairs: Vec<(u32, String)> = Vec::new();
    let mut i: usize = 0;
    while i < entries.len()
        invariant
            i <= entries@.len(),
            pairs@.len() == i,
            id_values(pairs@) == override_texts(override_views(entries@)).take(i as int),
        decreases entries@.len() - i,
    {
        let ghost before = pairs@;
        let value = entries[i].value.clone();
        pairs.push((entries[i].element_id, value));
        assert(override_views(entries@)[i as int] == entries@[i as int]@);
        assert(pairs@ == before.push((entries@[i as int].element_id, value)));
        assert(id_values(pairs@)[i as int] == (entries@[i as int].element_id, value@));
        assert(id_values(pairs@) =~= override_texts(override_views(entries@)).take(i + 1));
        i += 1;
    }
    assert(override_texts(override_views(entries@)).take(entries@.len() as int) =~= override_texts(
        override_views(entries@),
    ));
    collapse_values(&pairs)
}

/// The overrides every stream carries, in stream order.
pub open spec fn all_overrides(parts: Seq<(Seq<char>, Seq<u8>)>, declared: Set<u32>) -> Seq<
    OverrideView,
>
    decreases parts.len(),
{
    if parts.len() == 0 {
        Seq::empty()
    } else {
        all_overrides(parts.drop_last(), declared) + keep_some(
            hits_from(parts.last().1, ifc_needle(), 0),
            override_hit_fn(parts.last().0, parts.last().1, declared),
        )
    }
}

/// Every partition scanned for IFC export-type overrides and collapsed per
/// ElementId. Empty for an unsupported release or when nothing is declared.
pub fn scan_ifc_export_overrides(
    partitions: &[InflatedPartition],
    revit_version: u32,
    declared: &BTreeSet<u32>,
) -> (r: BTreeMap<u32, String>)
    ensures
        revit_version != 2024 || declared@.is_empty() ==> r@.is_empty(),
        revit_version == 2024 && !declared@.is_empty() ==> is_collapse_of(
            r@,
            override_texts(all_overrides(partition_views(partitions@), declared@)),
        ),
{
    if !supports_revit_version(revit_version) || declared.is_empty() {
        let empty = BTreeMap::new();
        assert(empty@ =~= Map::<u32, String>::empty());
        return empty;
    }
    let ghost parts = partition_views(partitions@);
    let mut entries: Vec<IfcExportOverride> = Vec::new();
    let mut i: usize = 0;
    while i < partitions.len()
        invariant
            i <= partitions@.len(),
            parts == partition_views(partitions@),
            override_views(entries@) == all_overrides(parts.take(i as int), declared@),
        decreases partitions@.len() - i,
    {
        let part = &partitions[i];
        let mut found = find_overrides(part.stream.as_str(), part.bytes.as_slice(), declared);
        let ghost before = entries@;
        let ghost got = found@;
        entries.append(&mut found);
        assert(override_views(entries@) =~= override_views(before) + override_views(got));
        proof {
            assert(parts.take(i + 1).drop_last() =~= parts.take(i as int));
            assert(parts.take(i + 1).last() == parts[i as int]);
            assert(parts[i as int] == (part.stream@, part.bytes@));
        }
        i += 1;
    }
    assert(parts.take(parts.len() as int) =~= parts);
    overrides_by_element_id(entries)
}

/// The four IFC export parameters one element's serialised data sets.
#[derive(Debug, Clone, PartialEq, Eq)]
pub struct ExportParameters {
    /// [`IFC_EXPORT_ELEMENT_AS`], verbatim (e.g. `"ifcSlab"`).
    pub export_as: Option<String>,
    /// [`IFC_EXPORT_PREDEFINEDTYPE`], verbatim (e.g. `"ROOF"`).
    pub predefined_type: Option<String>,
    /// [`IFC_EXPORT_ELEMENT_TYPE_AS`], verbatim (e.g. `"IfcCoveringType"`).
    pub type_export_as: Option<String>,
    /// [`IFC_EXPORT_PREDEFINEDTYPE_TYPE`], verbatim (e.g. `"CLADDING"`).
    pub type_predefined_type: Option<String>,
}

/// The text of an optional string.
pub open spec fn opt_text(o: Option<String>) -> Option<Seq<char>> {
    match o {
        Some(s) => Some(s@),
        None => None,
    }
}

/// What an [`ExportParameters`] holds, as values.
pub struct ExportParametersView {
    pub export_as: Option<Seq<char>>,
    pub predefined_type: Option<Seq<char>>,
    pub type_export_as: Option<Seq<char>>,
    pub type_predefined_type: Option<Seq<char>>,
}

impl View for ExportParameters {
    type V = ExportParametersView;

    open spec fn view(&self) -> ExportParametersView {
        ExportParametersView {
            export_as: opt_text(self.export_as),
            predefined_type: opt_text(self.predefined_type),
            type_export_as: opt_text(self.type_export_as),
            type_predefined_type: opt_text(self.type_predefined_type),
        }
    }
}

impl Default for ExportParameters {
    fn default() -> (r: ExportParameters)
        ensures
            r.export_as is None,
            r.predefined_type is None,
            r.type_export_as is None,
            r.type_predefined_type is None,
    {
        ExportParameters {
            export_as: None,
            predefined_type: None,
            type_export_as: None,
            type_predefined_type: None,
        }
    }
}

/// The view of an optional reference to parameters.
pub open spec fn opt_params(o: Option<&ExportParameters>) -> Option<ExportParametersView> {
    match o {
        Some(p) => Some(p@),
        None => None,
    }
}

/// An IFC type entity's name without its trailing `Type`, compared without
/// case (`IfcCoveringType` is `IfcCovering`); any other name as it is.
pub open spec fn entity_of_type(v: Seq<char>) -> Seq<char> {
    if v.len() >= 4 && lower(v.skip(v.len() - 4)) == "type"@ {
        v.take(v.len() - 4)
    } else {
        v
    }
}

/// Whether cutting four bytes off the UTF-8 encoding of `v` lands on a
/// character boundary, or `v` is shorter than four bytes.
pub open spec fn type_cut_on_boundary(v: Seq<char>) -> bool {
    utf8_len(v) < 4 || exists|k: int| 0 <= k <= v.len() && utf8_len(v.take(k)) == utf8_len(v) - 4
}

/// The entity an element exports as: its own value, else its type's with
/// the type entity's trailing `Type` dropped.
pub open spec fn spec_effective_export_as(
    p: ExportParametersView,
    t: Option<ExportParametersView>,
) -> Option<Seq<char>> {
    if p.export_as is Some {
        p.export_as
    } else {
        match t {
            Some(t) => match t.type_export_as {
                Some(v) => Some(entity_of_type(v)),
                None => None,
            },
            None => None,
        }
    }
}

/// The predefined type: the element's own, else its type's.
pub open spec fn spec_effective_predefined_type(
    p: ExportParametersView,
    t: Option<ExportParametersView>,
) -> Option<Seq<char>> {
    if p.predefined_type is Some {
        p.predefined_type
    } else {
        match t {
            Some(t) => t.type_predefined_type,
            None => None,
        }
    }
}

impl ExportParameters {
    /// The entity an element of this type or instance exports as: the
    /// instance's own value, else its type's with the trailing `Type` of an
    /// IFC type entity dropped (`IfcCoveringType` is `IfcCovering`).
    pub fn effective_export_as(&self, type_parameters: Option<&ExportParameters>) -> (r: Option<
        String,
    >)
        requires
            (self.export_as is None && type_parameters is Some
                && type_parameters->0.type_export_as is Some) ==> type_cut_on_boundary(
                type_parameters->0.type_export_as->0@,
            ),
        ensures
            opt_text(r) == spec_effective_export_as(self@, opt_params(type_parameters)),
    {
        match &self.export_as {
            Some(value) => {
                return Some(value.clone());
            },
            None => {},
        }
        let t = match type_parameters {
            Some(t) => t,
            None => {
                return None;
            },
        };
        let value = match &t.type_export_as {
            Some(v) => v,
            None => {
                return None;
            },
        };
        let chars = chars_of(value.as_str());
        let n = chars.len();
        if n >= 4 {
            let mut tail: Vec<char> = Vec::new();
            let mut k: usize = n - 4;
            while k < n
                invariant
                    n == chars@.len(),
                    n >= 4,
                    n - 4 <= k <= n,
                    tail@ == chars@.subrange(n - 4, k as int),
                decreases n - k,
            {
                tail.push(chars[k]);
                assert(chars@.subrange(n - 4, k + 1) =~= chars@.subrange(n - 4, k as int).push(chars@[k as int]));
                k += 1;
            }
            assert(tail@ =~= chars@.skip(n - 4));
            if equals_str(&lower_chars(&tail), "type") {
                let mut head: Vec<char> = Vec::new();
                let mut j: usize = 0;
                while j < n - 4
                    invariant
                        n == chars@.len(),
                        n >= 4,
                        j <= n - 4,
                        head@ == chars@.take(j as int),
                    decreases n - 4 - j,
                {
                    head.push(chars[j]);
                    assert(chars@.take(j + 1) =~= chars@.take(j as int).push(chars@[j as int]));
                    j += 1;
                }
                return Some(string_of(&head));
            }
        }
        Some(string_of(&chars))
    }

    /// The predefined type: the instance's own, else its type's.
    pub fn effective_predefined_type(&self, type_parameters: Option<&ExportParameters>) -> (r:
        Option<String>)
        ensures
            opt_text(r) == spec_effective_predefined_type(self@, opt_params(type_parameters)),
    {
        match &self.predefined_type {
            Some(v) => Some(v.clone()),
            None => match type_parameters {
                Some(t) => match &t.type_predefined_type {
                    Some(v) => Some(v.clone()),
                    None => None,
                },
                None => None,
            },
        }
    }
}

/// Whether `key` names an IFC entity (the two "export as" keys) rather than
/// a predefined type.
pub open spec fn is_entity_key(key: i64) -> bool {
    key == IFC_EXPORT_ELEMENT_AS || key == IFC_EXPORT_ELEMENT_TYPE_AS
}

/// Whether each of the `n` UTF-16 units at `at` is an ASCII letter, digit or
/// `_`.
pub open spec fn identifier_units(buf: Seq<u8>, at: int, n: int) -> bool {
    forall|i: int|
        0 <= i < n ==> #[trigger] le_u16(buf, at + 2 * i) < 256 && (is_ascii_alnum(
            le_u16(buf, at + 2 * i) as char,
        ) || le_u16(buf, at + 2 * i) as char == '_')
}

/// The export parameter value whose `u32` unit count sits at `at`: one to
/// 64 units, each an ASCII letter, digit or `_`; for an entity key, also
/// starting with `Ifc` in any case, longer than that, and free of `_`.
pub open spec fn spec_export_value(buf: Seq<u8>, at: int, key: i64) -> Option<Seq<char>> {
    if at < 0 || at + 4 > buf.len() {
        None
    } else {
        let n = le_u32(buf, at);
        let v = unit_chars(buf, at + 4, n);
        if n < 1 || n > MAX_VALUE_CHARS || at + 4 + 2 * n > buf.len() || !identifier_units(
            buf,
            at + 4,
            n,
        ) {
            None
        } else if is_entity_key(key) && (n <= 3 || lower(v.take(3)) != "ifc"@ || v.contains('_')) {
            None
        } else {
            Some(v)
        }
    }
}

fn holds_char(v: &Vec<char>, c: char) -> (r: bool)
    ensures
        r == v@.contains(c),
{
    let mut k: usize = 0;
    while k < v.len()
        invariant
            k <= v@.len(),
            forall|j: int| 0 <= j < k ==> v@[j] != c,
        decreases v@.len() - k,
    {
        if v[k] == c {
            assert(v@[k as int] == c);
            return true;
        }
        k += 1;
    }
    false
}

fn export_parameter_value(buf: &[u8], at: usize, key: i64) -> (r: Option<Vec<char>>)
    ensures
        match r {
            Some(v) => spec_export_value(buf@, at as int, key) == Some(v@),
            None => spec_export_value(buf@, at as int, key) is None,
        },
{
    let len = buf.len();
    let units = match read_u32(buf, at) {
        Some(u) => u as usize,
        None => {
            return None;
        },
    };
    if units < 1 || units > MAX_VALUE_CHARS {
        return None;
    }
    if len - at - 4 < units * 2 {
        return None;
    }
    let start = at + 4;
    let mut value: Vec<char> = Vec::new();
    let mut index: usize = 0;
    while index < units
        invariant
            len == buf@.len(),
            start == at + 4,
            start + 2 * units <= len,
            1 <= units <= MAX_VALUE_CHARS,
            units == le_u32(buf@, at as int),
            index <= units,
            identifier_units(buf@, start as int, index as int),
            value@ == unit_chars(buf@, start as int, index as int),
        decreases units - index,
    {
        let unit = read_u16(buf, start + index * 2).unwrap();
        assert(unit == le_u16(buf@, start + 2 * index));
        if unit >= 256 {
            assert(!identifier_units(buf@, start as int, units as int));
            return None;
        }
        let c = byte_char(unit as u8);
        if !(('0' <= c && c <= '9') || ('A' <= c && c <= 'Z') || ('a' <= c && c <= 'z') || c
            == '_') {
            assert(!identifier_units(buf@, start as int, units as int));
            return None;
        }
        value.push(c);
        proof {
            assert(value@ =~= unit_chars(buf@, start as int, index + 1));
            assert forall|i: int| 0 <= i < index + 1 implies #[trigger] le_u16(
                buf@,
                start + 2 * i,
            ) < 256 && (is_ascii_alnum(le_u16(buf@, start + 2 * i) as char) || le_u16(
                buf@,
                start + 2 * i,
            ) as char == '_') by {
                if i < index {
                    assert(identifier_units(buf@, start as int, index as int));
                }
            }
        }
        index += 1;
    }
    if key == IFC_EXPORT_ELEMENT_AS || key == IFC_EXPORT_ELEMENT_TYPE_AS {
        if units <= 3 {
            return None;
        }
        let mut head: Vec<char> = Vec::new();
        head.push(value[0]);
        head.push(value[1]);
        head.push(value[2]);
        assert(head@ =~= value@.take(3));
        if !equals_str(&lower_chars(&head), "ifc") {
            return None;
        }
        if holds_char(&value, '_') {
            return None;
        }
        assert(!value@.contains('_'));
    }
    Some(value)
}

/// Whether a whole copy of `header` lies in `buf[lo..hi]` at `s`.
pub open spec fn header_within(buf: Seq<u8>, header: Seq<u8>, lo: int, hi: int, s: int) -> bool {
    lo <= s && s + header.len() <= hi && occurs_at(buf, header, s)
}

/// Whether `s` is the last whole copy of `header` in `buf[lo..hi]`.
pub open spec fn last_header_within(buf: Seq<u8>, header: Seq<u8>, lo: int, hi: int, s: int) -> bool {
    header_within(buf, header, lo, hi, s) && forall|t: int|
        s < t ==> !#[trigger] header_within(buf, header, lo, hi, t)
}

/// Where the search for an entry's element-data header starts: no more
/// than [`EXPORT_PARAMETER_WINDOW`] before the entry, and not before the
/// buffer.
pub open spec fn window_start(h: int) -> int {
    if h >= EXPORT_PARAMETER_WINDOW {
        h - EXPORT_PARAMETER_WINDOW
    } else {
        0
    }
}

/// The element an export parameter entry at `h` belongs to: the id after
/// the last element-data header that ends before `h`, starting no more than
/// [`EXPORT_PARAMETER_WINDOW`] back, when that id fits a `u32` and is
/// declared.
pub open spec fn spec_entry_owner(buf: Seq<u8>, header: Seq<u8>, declared: Set<u32>, h: int) -> Option<
    u32,
> {
    let lo = window_start(h);
    if exists|s: int| last_header_within(buf, header, lo, h, s) {
        let s = choose|s: int| last_header_within(buf, header, lo, h, s);
        let at = s + header.len();
        if at + 8 <= buf.len() && le_u64(buf, at) <= 0xffff_ffff && declared.contains(
            le_u64(buf, at) as u32,
        ) {
            Some(le_u64(buf, at) as u32)
        } else {
            None
        }
    } else {
        None
    }
}

/// What the entry of `key` found at `h` gives: its owner and value.
pub open spec fn key_hit(buf: Seq<u8>, header: Seq<u8>, declared: Set<u32>, key: i64, h: int) -> Option<
    (u32, Seq<char>),
> {
    match spec_export_value(buf, h + 8, key) {
        Some(v) => match spec_entry_owner(buf, header, declared, h) {
            Some(o) => Some((o, v)),
            None => None,
        },
        None => None,
    }
}

fn entry_at(buf: &[u8], header: &[u8; 10], declared: &BTreeSet<u32>, key: i64, h: usize) -> (r: Option<(u32, Vec<char>)>)
    ensures
        match r {
            Some(p) => key_hit(buf@, header@, declared@, key, h as int) == Some((p.0, p.1@)),
            None => key_hit(buf@, header@, declared@, key, h as int) is None,
        },
{
    if h > buf.len() || buf.len() - h < 8 {
        assert(spec_export_value(buf@, h + 8, key) is None);
        return None;
    }
    let value = match export_parameter_value(buf, h + 8, key) {
        Some(v) => v,
        None => {
            return None;
        },
    };
    let lo: usize = if h >= EXPORT_PARAMETER_WINDOW {
        h - EXPORT_PARAMETER_WINDOW
    } else {
        0
    };
    assert(header@.len() == 10);
    let start = match rfind_within(buf, lo, h, header.as_slice()) {
        Some(s) => s,
        None => {
            assert forall|s: int| !last_header_within(buf@, header@, lo as int, h as int, s) by {}
            return None;
        },
    };
    assert(last_header_within(buf@, header@, lo as int, h as int, start as int));
    assert forall|s: int| last_header_within(buf@, header@, lo as int, h as int, s) implies s
        == start by {
        if s < start {
            assert(header_within(buf@, header@, lo as int, h as int, start as int));
        }
    }
    let id = match read_u64(buf, start + 10) {
        Some(id) => id,
        None => {
            return None;
        },
    };
    if id > 0xffff_ffff {
        return None;
    }
    let owner = id as u32;
    if !declared.contains(&owner) {
        return None;
    }
    assert(window_start(h as int) == lo);
    assert(le_u64(buf@, start + header@.len()) == id);
    Some((owner, value))
}

/// The eight little-endian bytes an entry of `key` starts with.
pub open spec fn key_needle(key: i64) -> Seq<u8> {
    spec_le_bytes(from_signed_spec(key) as u64)
}

/// The entries of `key` in `buf`, in the order `memmem::find_iter` reports
/// them.
pub open spec fn key_hits(buf: Seq<u8>, key: i64) -> Seq<int> {
    iter_hits_from(buf, key_needle(key), 0)
}

/// Whether one of `hits` gives element `o` the value `v`.
pub open spec fn gives(
    buf: Seq<u8>,
    header: Seq<u8>,
    declared: Set<u32>,
    key: i64,
    hits: Seq<int>,
    o: u32,
    v: Seq<char>,
) -> bool {
    exists|i: int|
        0 <= i < hits.len() && #[trigger] key_hit(buf, header, declared, key, hits[i]) == Some(
            (o, v),
        )
}

/// Whether one of `hits` gives element `o` some value.
pub open spec fn gives_some(
    buf: Seq<u8>,
    header: Seq<u8>,
    declared: Set<u32>,
    key: i64,
    hits: Seq<int>,
    o: u32,
) -> bool {
    exists|v: Seq<char>| #[trigger] gives(buf, header, declared, key, hits, o, v)
}

/// The value the entries of `key` settle on for element `o`: the one value
/// they give it, when they give it exactly one.
pub open spec fn settled(buf: Seq<u8>, header: Seq<u8>, declared: Set<u32>, key: i64, o: u32) -> Option<
    Seq<char>,
> {
    let hits = key_hits(buf, key);
    if gives_some(buf, header, declared, key, hits, o) && forall|v1: Seq<char>, v2: Seq<char>|
        #[trigger] gives(buf, header, declared, key, hits, o, v1) && #[trigger] gives(
            buf,
            header,
            declared,
            key,
            hits,
            o,
            v2,
        ) ==> v1 == v2 {
        Some(choose|v: Seq<char>| gives(buf, header, declared, key, hits, o, v))
    } else {
        None
    }
}

proof fn lemma_gives_push(
    buf: Seq<u8>,
    header: Seq<u8>,
    declared: Set<u32>,
    key: i64,
    hits: Seq<int>,
    h: int,
    o: u32,
    v: Seq<char>,
)
    ensures
        gives(buf, header, declared, key, hits.push(h), o, v) <==> (gives(
            buf,
            header,
            declared,
            key,
            hits,
            o,
            v,
        ) || key_hit(buf, header, declared, key, h) == Some((o, v))),
{
    let hp = hits.push(h);
    if gives(buf, header, declared, key, hp, o, v) {
        let i = choose|i: int|
            0 <= i < hp.len() && #[trigger] key_hit(buf, header, declared, key, hp[i]) == Some((o, v));
        if i < hits.len() {
            assert(hits[i] == hp[i]);
        }
    }
    if gives(buf, header, declared, key, hits, o, v) {
        let i = choose|i: int|
            0 <= i < hits.len() && #[trigger] key_hit(buf, header, declared, key, hits[i]) == Some((o, v));
        assert(hp[i] == hits[i]);
    }
    if key_hit(buf, header, declared, key, h) == Some((o, v)) {
        assert(hp[hits.len() as int] == h);
    }
}

/// Whether `found` records, for the entries in `hits`, each element given a
/// value: that value when all of them agree, `None` when two differ.
pub open spec fn records_settlement(
    buf: Seq<u8>,
    header: Seq<u8>,
    declared: Set<u32>,
    key: i64,
    hits: Seq<int>,
    found: Map<u32, Option<String>>,
) -> bool {
    &&& forall|o: u32| #[trigger]
        found.contains_key(o) <==> gives_some(buf, header, declared, key, hits, o)
    &&& forall|o: u32| #[trigger]
        found.contains_key(o) && found[o] is Some ==> gives(
            buf,
            header,
            declared,
            key,
            hits,
            o,
            found[o]->0@,
        ) && forall|v: Seq<char>| #[trigger]
            gives(buf, header, declared, key, hits, o, v) ==> v == found[o]->0@
    &&& forall|o: u32| #[trigger]
        found.contains_key(o) && found[o] is None ==> exists|v1: Seq<char>, v2: Seq<char>|
            v1 != v2 && #[trigger] gives(buf, header, declared, key, hits, o, v1) && #[trigger] gives(
                buf,
                header,
                declared,
                key,
                hits,
                o,
                v2,
            )
}

fn settle_key(buf: &[u8], header: &[u8; 10], declared: &BTreeSet<u32>, key: i64) -> (r: (
    BTreeMap<u32, Option<String>>,
    Vec<u32>,
))
    ensures
        records_settlement(buf@, header@, declared@, key, key_hits(buf@, key), r.0@),
        forall|o: u32| #[trigger] r.1@.contains(o) <==> r.0@.contains_key(o),
{
    let needle = u64_le_bytes(from_signed(key));
    let ghost n = needle@;
    assert(n == key_needle(key));
    let mut found: BTreeMap<u32, Option<String>> = BTreeMap::new();
    let mut owners: Vec<u32> = Vec::new();
    let ghost mut done: Seq<int> = Seq::empty();
    let mut cursor: usize = 0;
    let len = buf.len();
    assert(done + iter_hits_from(buf@, n, 0) =~= iter_hits_from(buf@, n, 0));
    while cursor <= len && len - cursor >= 8
        invariant
            len == buf@.len(),
            n == needle@,
            n == key_needle(key),
            n.len() == 8,
            iter_hits_from(buf@, n, 0) == done + iter_hits_from(buf@, n, cursor as int),
            records_settlement(buf@, header@, declared@, key, done, found@),
            forall|o: u32| #[trigger] owners@.contains(o) <==> found@.contains_key(o),
        ensures
            iter_hits_from(buf@, n, cursor as int) == Seq::<int>::empty(),
        decreases len + 1 - cursor,
    {
        let hit = match find_from(buf, cursor, needle.as_slice()) {
            Some(h) => h,
            None => {
                proof {
                    lemma_iter_hits_none(buf@, n, cursor as int);
                }
                break;
            },
        };
        proof {
            lemma_iter_hits_skip(buf@, n, cursor as int, hit as int);
            lemma_iter_hits_step(buf@, n, hit as int);
            assert(done + iter_hits_from(buf@, n, hit as int) =~= done.push(hit as int) + iter_hits_from(buf@, n, hit + 8));
        }
        let ghost before = found@;
        let ghost owners_before = owners@;
        let ghost h = hit as int;
        let entry = entry_at(buf, header, declared, key, hit);
        match entry {
            Some(p) => {
                let o = p.0;
                let text = string_of(&p.1);
                let held = found.get(&o);
                match held {
                    None => {
                        found.insert(o, Some(text));
                        owners.push(o);
                    },
                    Some(slot) => {
                        let differs = match slot {
                            Some(existing) => !(*existing == text),
                            None => true,
                        };
                        if differs {
                            found.insert(o, None);
                        }
                    },
                }
            },
            None => {},
        }
        proof {
            let done2 = done.push(h);
            assert forall|o: u32, v: Seq<char>|
                #[trigger] gives(buf@, header@, declared@, key, done2, o, v) <==> (gives(
                    buf@,
                    header@,
                    declared@,
                    key,
                    done,
                    o,
                    v,
                ) || key_hit(buf@, header@, declared@, key, h) == Some((o, v))) by {
                lemma_gives_push(buf@, header@, declared@, key, done, h, o, v);
            }
            assert forall|o: u32| #[trigger] found@.contains_key(o) <==> gives_some(
                buf@,
                header@,
                declared@,
                key,
                done2,
                o,
            ) by {
                if gives_some(buf@, header@, declared@, key, done2, o) {
                    let v = choose|v: Seq<char>| #[trigger] gives(buf@, header@, declared@, key, done2, o, v);
                    if gives(buf@, header@, declared@, key, done, o, v) {
                        assert(gives_some(buf@, header@, declared@, key, done, o));
                    }
                }
                if before.contains_key(o) {
                    let v = choose|v: Seq<char>| #[trigger] gives(buf@, header@, declared@, key, done, o, v);
                    assert(gives(buf@, header@, declared@, key, done2, o, v));
                }
                if found@.contains_key(o) && !before.contains_key(o) {
                    let v = (entry->0).1@;
                    assert(gives(buf@, header@, declared@, key, done2, o, v));
                }
            }
            assert forall|o: u32| #[trigger] found@.contains_key(o) && found@[o] is Some implies gives(
                buf@,
                header@,
                declared@,
                key,
                done2,
                o,
                found@[o]->0@,
            ) && forall|v: Seq<char>| #[trigger]
                gives(buf@, header@, declared@, key, done2, o, v) ==> v == found@[o]->0@ by {
                if entry is Some && (entry->0).0 == o {
                    if before.contains_key(o) {
                        assert(found@[o] == before[o]);
                    }
                } else {
                    assert(found@[o] == before[o]);
                }
            }
            assert forall|o: u32| #[trigger] found@.contains_key(o) && found@[o] is None implies exists|
                v1: Seq<char>,
                v2: Seq<char>,
            |
                v1 != v2 && #[trigger] gives(buf@, header@, declared@, key, done2, o, v1)
                    && #[trigger] gives(buf@, header@, declared@, key, done2, o, v2) by {
                if entry is Some && (entry->0).0 == o && before.contains_key(o) && before[o] is Some {
                    let w = before[o]->0@;
                    let v = (entry->0).1@;
                    assert(gives(buf@, header@, declared@, key, done2, o, w));
                    assert(gives(buf@, header@, declared@, key, done2, o, v));
                } else {
                    assert(found@[o] == before[o]);
                    let (v1, v2) = choose|v1: Seq<char>, v2: Seq<char>|
                        v1 != v2 && #[trigger] gives(buf@, header@, declared@, key, done, o, v1)
                            && #[trigger] gives(buf@, header@, declared@, key, done, o, v2);
                    assert(gives(buf@, header@, declared@, key, done2, o, v1));
                    assert(gives(buf@, header@, declared@, key, done2, o, v2));
                }
            }
            assert forall|o: u32| #[trigger] owners@.contains(o) <==> found@.contains_key(o) by {
                if entry is Some && !before.contains_key((entry->0).0) {
                    crate::bytes::lemma_push_contains(owners_before, (entry->0).0, o);
                }
            }
            done = done2;
        }
        cursor = hit + 8;
    }
    assert(done + Seq::<int>::empty() =~= done);
    (found, owners)
}

/// Whether `key` is one of the four IFC export parameter keys.
pub open spec fn is_export_key(key: i64) -> bool {
    key == IFC_EXPORT_ELEMENT_AS || key == IFC_EXPORT_ELEMENT_TYPE_AS || key
        == IFC_EXPORT_PREDEFINEDTYPE || key == IFC_EXPORT_PREDEFINEDTYPE_TYPE
}

/// Parameters with nothing set.
pub open spec fn no_parameters() -> ExportParametersView {
    ExportParametersView {
        export_as: None,
        predefined_type: None,
        type_export_as: None,
        type_predefined_type: None,
    }
}

/// `p` with the slot of `key` set to `v`.
pub open spec fn with_slot(p: ExportParametersView, key: i64, v: Seq<char>) -> ExportParametersView {
    if key == IFC_EXPORT_ELEMENT_AS {
        ExportParametersView { export_as: Some(v), ..p }
    } else if key == IFC_EXPORT_PREDEFINEDTYPE {
        ExportParametersView { predefined_type: Some(v), ..p }
    } else if key == IFC_EXPORT_ELEMENT_TYPE_AS {
        ExportParametersView { type_export_as: Some(v), ..p }
    } else if key == IFC_EXPORT_PREDEFINEDTYPE_TYPE {
        ExportParametersView { type_predefined_type: Some(v), ..p }
    } else {
        p
    }
}

impl ExportParameters {
    fn set_slot(&mut self, key: i64, v: String)
        ensures
            final(self)@ == with_slot(old(self)@, key, v@),
    {
        if key == IFC_EXPORT_ELEMENT_AS {
            self.export_as = Some(v);
        } else if key == IFC_EXPORT_PREDEFINEDTYPE {
            self.predefined_type = Some(v);
        } else if key == IFC_EXPORT_ELEMENT_TYPE_AS {
            self.type_export_as = Some(v);
        } else if key == IFC_EXPORT_PREDEFINEDTYPE_TYPE {
            self.type_predefined_type = Some(v);
        }
    }
}

/// The parameters an element held before, or none.
pub open spec fn held_or_none(m: Map<u32, ExportParameters>, o: u32) -> ExportParametersView {
    if m.contains_key(o) {
        m[o]@
    } else {
        no_parameters()
    }
}

/// Whether `found` settles a value for `o`.
pub open spec fn settles(found: Map<u32, Option<String>>, o: u32) -> bool {
    found.contains_key(o) && found[o] is Some
}

fn merge_key(
    out: &mut BTreeMap<u32, ExportParameters>,
    found: &BTreeMap<u32, Option<String>>,
    owners: &Vec<u32>,
    key: i64,
)
    requires
        forall|o: u32| #[trigger] owners@.contains(o) <==> found@.contains_key(o),
    ensures
        forall|o: u32| #[trigger]
            final(out)@.contains_key(o) <==> (old(out)@.contains_key(o) || settles(found@, o)),
        forall|o: u32| #[trigger]
            final(out)@.contains_key(o) ==> final(out)@[o]@ == (if settles(found@, o) {
                with_slot(held_or_none(old(out)@, o), key, found@[o]->0@)
            } else {
                old(out)@[o]@
            }),
{
    let ghost start = out@;
    let mut i: usize = 0;
    while i < owners.len()
        invariant
            i <= owners@.len(),
            forall|o: u32| #[trigger] owners@.contains(o) <==> found@.contains_key(o),
            forall|o: u32| #[trigger]
                out@.contains_key(o) <==> (start.contains_key(o) || (owners@.take(i as int).contains(o)
                    && settles(found@, o))),
            forall|o: u32| #[trigger]
                out@.contains_key(o) ==> out@[o]@ == (if owners@.take(i as int).contains(o)
                    && settles(found@, o) {
                    with_slot(held_or_none(start, o), key, found@[o]->0@)
                } else {
                    start[o]@
                }),
        decreases owners@.len() - i,
    {
        let o = owners[i];
        let ghost before = out@;
        proof {
            assert(owners@.take(i + 1) =~= owners@.take(i as int).push(o));
        }
        match found.get(&o) {
            Some(slot) => match slot {
                Some(v) => {
                    let mut p = match out.remove(&o) {
                        Some(p) => p,
                        None => ExportParameters::default(),
                    };
                    p.set_slot(key, v.clone());
                    out.insert(o, p);
                },
                None => {},
            },
            None => {},
        }
        proof {
            assert forall|x: u32| #[trigger] out@.contains_key(x) <==> (start.contains_key(x) || (
            owners@.take(i + 1).contains(x) && settles(found@, x))) by {
                crate::bytes::lemma_push_contains(owners@.take(i as int), o, x);
            }
            assert forall|x: u32| #[trigger] out@.contains_key(x) implies out@[x]@ == (if owners@.take(
                i + 1,
            ).contains(x) && settles(found@, x) {
                with_slot(held_or_none(start, x), key, found@[x]->0@)
            } else {
                start[x]@
            }) by {
                crate::bytes::lemma_push_contains(owners@.take(i as int), o, x);
            }
        }
        i += 1;
    }
    assert(owners@.take(owners@.len() as int) =~= owners@);
}

proof fn lemma_settled(
    buf: Seq<u8>,
    header: Seq<u8>,
    declared: Set<u32>,
    key: i64,
    found: Map<u32, Option<String>>,
    o: u32,
)
    requires
        records_settlement(buf, header, declared, key, key_hits(buf, key), found),
    ensures
        settles(found, o) <==> settled(buf, header, declared, key, o) is Some,
        settles(found, o) ==> settled(buf, header, declared, key, o) == Some(found[o]->0@),
{
    let hits = key_hits(buf, key);
    if settles(found, o) {
        let w = found[o]->0@;
        assert(gives(buf, header, declared, key, hits, o, w));
        assert(gives_some(buf, header, declared, key, hits, o));
        let c = choose|v: Seq<char>| gives(buf, header, declared, key, hits, o, v);
        assert(c == w);
    } else if found.contains_key(o) {
        let (v1, v2) = choose|v1: Seq<char>, v2: Seq<char>|
            v1 != v2 && #[trigger] gives(buf, header, declared, key, hits, o, v1) && #[trigger] gives(
                buf,
                header,
                declared,
                key,
                hits,
                o,
                v2,
            );
        assert(gives(buf, header, declared, key, hits, o, v1));
    }
}

/// The parameters the entries of `buf` set for element `o`.
pub open spec fn settled_parameters(buf: Seq<u8>, header: Seq<u8>, declared: Set<u32>, o: u32) -> ExportParametersView {
    ExportParametersView {
        export_as: settled(buf, header, declared, IFC_EXPORT_ELEMENT_AS, o),
        predefined_type: settled(buf, header, declared, IFC_EXPORT_PREDEFINEDTYPE, o),
        type_export_as: settled(buf, header, declared, IFC_EXPORT_ELEMENT_TYPE_AS, o),
        type_predefined_type: settled(buf, header, declared, IFC_EXPORT_PREDEFINEDTYPE_TYPE, o),
    }
}

/// Whether the entries of `buf` set any export parameter for `o`.
pub open spec fn sets_any(buf: Seq<u8>, header: Seq<u8>, declared: Set<u32>, o: u32) -> bool {
    settled(buf, header, declared, IFC_EXPORT_ELEMENT_AS, o) is Some || settled(
        buf,
        header,
        declared,
        IFC_EXPORT_PREDEFINEDTYPE,
        o,
    ) is Some || settled(buf, header, declared, IFC_EXPORT_ELEMENT_TYPE_AS, o) is Some || settled(
        buf,
        header,
        declared,
        IFC_EXPORT_PREDEFINEDTYPE_TYPE,
        o,
    ) is Some
}

/// Every IFC export parameter in one inflated partition, by the ElementId
/// whose serialised data holds it. An entry is `i64 BuiltInParameter · u32
/// n · n UTF-16 units`, keyed by one of the four export keys; it belongs to
/// the element whose data header is the last one before it, no more than
/// [`EXPORT_PARAMETER_WINDOW`] back, and that element must be declared. A
/// key an element sets to two different values is dropped.
pub fn find_export_parameters(buf: &[u8], header: &[u8; 10], declared: &BTreeSet<u32>) -> (r:
    BTreeMap<u32, ExportParameters>)
    ensures
        forall|o: u32| #[trigger] r@.contains_key(o) <==> sets_any(buf@, header@, declared@, o),
        forall|o: u32| #[trigger]
            r@.contains_key(o) ==> r@[o]@ == settled_parameters(buf@, header@, declared@, o),
{
    export_parameters_listed(buf, header, declared).0
}

fn add_owners(owners: &mut Vec<u32>, seen: &mut BTreeSet<u32>, more: &Vec<u32>)
    requires
        old(owners)@.no_duplicates(),
        forall|o: u32| #[trigger] old(owners)@.contains(o) <==> old(seen)@.contains(o),
    ensures
        final(owners)@.no_duplicates(),
        forall|o: u32| #[trigger] final(owners)@.contains(o) <==> final(seen)@.contains(o),
        forall|o: u32| #[trigger]
            final(owners)@.contains(o) <==> (old(owners)@.contains(o) || more@.contains(o)),
{
    let ghost start = owners@;
    let mut i: usize = 0;
    while i < more.len()
        invariant
            i <= more@.len(),
            owners@.no_duplicates(),
            forall|o: u32| #[trigger] owners@.contains(o) <==> seen@.contains(o),
            forall|o: u32| #[trigger]
                owners@.contains(o) <==> (start.contains(o) || more@.take(i as int).contains(o)),
        decreases more@.len() - i,
    {
        let o = more[i];
        proof {
            assert(more@.take(i + 1) =~= more@.take(i as int).push(o));
        }
        if !seen.contains(&o) {
            let ghost before = owners@;
            owners.push(o);
            seen.insert(o);
            proof {
                assert forall|a: int, b: int| 0 <= a < b < owners@.len() implies owners@[a]
                    != owners@[b] by {
                    if b == owners@.len() - 1 {
                        assert(before.contains(before[a]));
                    }
                }
                assert forall|x: u32| #[trigger] owners@.contains(x) <==> (start.contains(x)
                    || more@.take(i + 1).contains(x)) by {
                    crate::bytes::lemma_push_contains(before, o, x);
                    crate::bytes::lemma_push_contains(more@.take(i as int), o, x);
                }
                assert forall|x: u32| #[trigger] owners@.contains(x) <==> seen@.contains(x) by {
                    crate::bytes::lemma_push_contains(before, o, x);
                }
            }
        } else {
            proof {
                assert forall|x: u32| #[trigger] owners@.contains(x) <==> (start.contains(x)
                    || more@.take(i + 1).contains(x)) by {
                    crate::bytes::lemma_push_contains(more@.take(i as int), o, x);
                }
            }
        }
        i += 1;
    }
    assert(more@.take(more@.len() as int) =~= more@);
}

/// [`find_export_parameters`], with every element it names listed once.
fn export_parameters_listed(buf: &[u8], header: &[u8; 10], declared: &BTreeSet<u32>) -> (r: (
    BTreeMap<u32, ExportParameters>,
    Vec<u32>,
))
    ensures
        forall|o: u32| #[trigger] r.0@.contains_key(o) <==> sets_any(buf@, header@, declared@, o),
        forall|o: u32| #[trigger]
            r.0@.contains_key(o) ==> r.0@[o]@ == settled_parameters(buf@, header@, declared@, o),
        r.1@.no_duplicates(),
        forall|o: u32| #[trigger] r.0@.contains_key(o) ==> r.1@.contains(o),
{
    let mut out: BTreeMap<u32, ExportParameters> = BTreeMap::new();
    let ghost m0 = out@;
    let (f1, o1) = settle_key(buf, header, declared, IFC_EXPORT_ELEMENT_AS);
    merge_key(&mut out, &f1, &o1, IFC_EXPORT_ELEMENT_AS);
    let (f2, o2) = settle_key(buf, header, declared, IFC_EXPORT_ELEMENT_TYPE_AS);
    merge_key(&mut out, &f2, &o2, IFC_EXPORT_ELEMENT_TYPE_AS);
    let (f3, o3) = settle_key(buf, header, declared, IFC_EXPORT_PREDEFINEDTYPE);
    merge_key(&mut out, &f3, &o3, IFC_EXPORT_PREDEFINEDTYPE);
    let (f4, o4) = settle_key(buf, header, declared, IFC_EXPORT_PREDEFINEDTYPE_TYPE);
    merge_key(&mut out, &f4, &o4, IFC_EXPORT_PREDEFINEDTYPE_TYPE);
    assert forall|o: u32| #[trigger] out@.contains_key(o) <==> sets_any(buf@, header@, declared@, o) && (
    out@.contains_key(o) ==> out@[o]@ == settled_parameters(buf@, header@, declared@, o)) by {
        lemma_settled(buf@, header@, declared@, IFC_EXPORT_ELEMENT_AS, f1@, o);
        lemma_settled(buf@, header@, declared@, IFC_EXPORT_ELEMENT_TYPE_AS, f2@, o);
        lemma_settled(buf@, header@, declared@, IFC_EXPORT_PREDEFINEDTYPE, f3@, o);
        lemma_settled(buf@, header@, declared@, IFC_EXPORT_PREDEFINEDTYPE_TYPE, f4@, o);
        assert(!m0.contains_key(o));
    }
    let mut owners: Vec<u32> = Vec::new();
    let mut seen: BTreeSet<u32> = BTreeSet::new();
    assert(owners@.no_duplicates());
    add_owners(&mut owners, &mut seen, &o1);
    add_owners(&mut owners, &mut seen, &o2);
    add_owners(&mut owners, &mut seen, &o3);
    add_owners(&mut owners, &mut seen, &o4);
    (out, owners)
}

/// The value the slot of `key` holds.
pub open spec fn slot_of(p: ExportParametersView, key: i64) -> Option<Seq<char>> {
    if key == IFC_EXPORT_ELEMENT_AS {
        p.export_as
    } else if key == IFC_EXPORT_PREDEFINEDTYPE {
        p.predefined_type
    } else if key == IFC_EXPORT_ELEMENT_TYPE_AS {
        p.type_export_as
    } else if key == IFC_EXPORT_PREDEFINEDTYPE_TYPE {
        p.type_predefined_type
    } else {
        None
    }
}

/// `p` with the slot of `key` emptied.
pub open spec fn cleared_slot(p: ExportParametersView, key: i64) -> ExportParametersView {
    if key == IFC_EXPORT_ELEMENT_AS {
        ExportParametersView { export_as: None, ..p }
    } else if key == IFC_EXPORT_PREDEFINEDTYPE {
        ExportParametersView { predefined_type: None, ..p }
    } else if key == IFC_EXPORT_ELEMENT_TYPE_AS {
        ExportParametersView { type_export_as: None, ..p }
    } else if key == IFC_EXPORT_PREDEFINEDTYPE_TYPE {
        ExportParametersView { type_predefined_type: None, ..p }
    } else {
        p
    }
}

impl ExportParameters {
    fn slot_value(&self, key: i64) -> (r: Option<String>)
        ensures
            opt_text(r) == slot_of(self@, key),
    {
        let slot = if key == IFC_EXPORT_ELEMENT_AS {
            &self.export_as
        } else if key == IFC_EXPORT_PREDEFINEDTYPE {
            &self.predefined_type
        } else if key == IFC_EXPORT_ELEMENT_TYPE_AS {
            &self.type_export_as
        } else if key == IFC_EXPORT_PREDEFINEDTYPE_TYPE {
            &self.type_predefined_type
        } else {
            return None;
        };
        match slot {
            Some(v) => Some(v.clone()),
            None => None,
        }
    }

    fn clear_slot(&mut self, key: i64)
        ensures
            final(self)@ == cleared_slot(old(self)@, key),
    {
        if key == IFC_EXPORT_ELEMENT_AS {
            self.export_as = None;
        } else if key == IFC_EXPORT_PREDEFINEDTYPE {
            self.predefined_type = None;
        } else if key == IFC_EXPORT_ELEMENT_TYPE_AS {
            self.type_export_as = None;
        } else if key == IFC_EXPORT_PREDEFINEDTYPE_TYPE {
            self.type_predefined_type = None;
        }
    }
}

/// Whether stream `s` of `parts` settles `v` under `key` for element `o`.
pub open spec fn stream_sets(
    parts: Seq<(Seq<char>, Seq<u8>)>,
    header: Seq<u8>,
    declared: Set<u32>,
    s: int,
    key: i64,
    o: u32,
    v: Seq<char>,
) -> bool {
    settled(parts[s].1, header, declared, key, o) == Some(v)
}

/// Whether some stream settles `v` under `key` for element `o`.
pub open spec fn some_stream_sets(
    parts: Seq<(Seq<char>, Seq<u8>)>,
    header: Seq<u8>,
    declared: Set<u32>,
    key: i64,
    o: u32,
    v: Seq<char>,
) -> bool {
    exists|s: int| 0 <= s < parts.len() && #[trigger] stream_sets(parts, header, declared, s, key, o, v)
}

/// The value the streams settle on under `key` for element `o`: the one
/// value they set, when they set exactly one.
pub open spec fn merged_slot(
    parts: Seq<(Seq<char>, Seq<u8>)>,
    header: Seq<u8>,
    declared: Set<u32>,
    key: i64,
    o: u32,
) -> Option<Seq<char>> {
    if (exists|v: Seq<char>| #[trigger] some_stream_sets(parts, header, declared, key, o, v))
        && forall|v1: Seq<char>, v2: Seq<char>|
        #[trigger] some_stream_sets(parts, header, declared, key, o, v1) && #[trigger] some_stream_sets(
            parts,
            header,
            declared,
            key,
            o,
            v2,
        ) ==> v1 == v2 {
        Some(choose|v: Seq<char>| some_stream_sets(parts, header, declared, key, o, v))
    } else {
        None
    }
}

/// The parameters the streams settle on for element `o`.
pub open spec fn merged_parameters(
    parts: Seq<(Seq<char>, Seq<u8>)>,
    header: Seq<u8>,
    declared: Set<u32>,
    o: u32,
) -> ExportParametersView {
    ExportParametersView {
        export_as: merged_slot(parts, header, declared, IFC_EXPORT_ELEMENT_AS, o),
        predefined_type: merged_slot(parts, header, declared, IFC_EXPORT_PREDEFINEDTYPE, o),
        type_export_as: merged_slot(parts, header, declared, IFC_EXPORT_ELEMENT_TYPE_AS, o),
        type_predefined_type: merged_slot(parts, header, declared, IFC_EXPORT_PREDEFINEDTYPE_TYPE, o),
    }
}

/// Whether some stream sets an export parameter for `o`.
pub open spec fn some_stream_names(
    parts: Seq<(Seq<char>, Seq<u8>)>,
    header: Seq<u8>,
    declared: Set<u32>,
    o: u32,
) -> bool {
    exists|s: int| 0 <= s < parts.len() && #[trigger] sets_any(parts[s].1, header, declared, o)
}

/// Whether `v` has been seen under `key` for `o`: set by a stream before
/// `i`, or by stream `i` for an element in `done`.
spec fn seen(
    parts: Seq<(Seq<char>, Seq<u8>)>,
    header: Seq<u8>,
    declared: Set<u32>,
    i: int,
    done: Seq<u32>,
    key: i64,
    o: u32,
    v: Seq<char>,
) -> bool {
    (exists|s: int| 0 <= s < i && #[trigger] stream_sets(parts, header, declared, s, key, o, v)) || (
    done.contains(o) && stream_sets(parts, header, declared, i, key, o, v))
}

/// Whether element `o` has been named: by a stream before `i`, or by
/// stream `i` for an element in `done`.
spec fn named(
    parts: Seq<(Seq<char>, Seq<u8>)>,
    header: Seq<u8>,
    declared: Set<u32>,
    i: int,
    done: Seq<u32>,
    o: u32,
) -> bool {
    (exists|s: int| 0 <= s < i && #[trigger] sets_any(parts[s].1, header, declared, o)) || (
    done.contains(o) && sets_any(parts[i].1, header, declared, o))
}

/// The merged map holds exactly the elements named so far.
spec fn ms_named(
    parts: Seq<(Seq<char>, Seq<u8>)>,
    header: Seq<u8>,
    declared: Set<u32>,
    i: int,
    done: Seq<u32>,
    merged: Map<u32, ExportParameters>,
) -> bool {
    forall|o: u32| #[trigger] merged.contains_key(o) <==> named(parts, header, declared, i, done, o)
}

/// Every value held has been seen.
spec fn ms_held_seen(
    parts: Seq<(Seq<char>, Seq<u8>)>,
    header: Seq<u8>,
    declared: Set<u32>,
    i: int,
    done: Seq<u32>,
    merged: Map<u32, ExportParameters>,
) -> bool {
    forall|o: u32, key: i64|
        is_export_key(key) && merged.contains_key(o) && #[trigger] slot_of(merged[o]@, key) is Some
            ==> seen(parts, header, declared, i, done, key, o, slot_of(merged[o]@, key)->0)
}

/// Every slot with a value seen holds one.
spec fn ms_seen_held(
    parts: Seq<(Seq<char>, Seq<u8>)>,
    header: Seq<u8>,
    declared: Set<u32>,
    i: int,
    done: Seq<u32>,
    merged: Map<u32, ExportParameters>,
) -> bool {
    forall|o: u32, key: i64, v: Seq<char>|
        is_export_key(key) && #[trigger] seen(parts, header, declared, i, done, key, o, v)
            ==> merged.contains_key(o) && slot_of(merged[o]@, key) is Some
}

/// The conflicts are the slots for which a value other than the held one
/// has been seen.
spec fn ms_conflicts(
    parts: Seq<(Seq<char>, Seq<u8>)>,
    header: Seq<u8>,
    declared: Set<u32>,
    i: int,
    done: Seq<u32>,
    merged: Map<u32, ExportParameters>,
    conflicting: Seq<(u32, i64)>,
) -> bool {
    forall|o: u32, key: i64|
        #[trigger] conflicting.contains((o, key)) <==> is_export_key(key) && merged.contains_key(o)
            && exists|v: Seq<char>|
            #[trigger] seen(parts, header, declared, i, done, key, o, v) && Some(v) != slot_of(
                merged[o]@,
                key,
            )
}

/// Whether the merged map and the conflict list account for what has been
/// seen.
spec fn merge_state(
    parts: Seq<(Seq<char>, Seq<u8>)>,
    header: Seq<u8>,
    declared: Set<u32>,
    i: int,
    done: Seq<u32>,
    merged: Map<u32, ExportParameters>,
    conflicting: Seq<(u32, i64)>,
) -> bool {
    &&& ms_named(parts, header, declared, i, done, merged)
    &&& ms_held_seen(parts, header, declared, i, done, merged)
    &&& ms_seen_held(parts, header, declared, i, done, merged)
    &&& ms_conflicts(parts, header, declared, i, done, merged, conflicting)
}

/// The slot of `key` an element held, or nothing when it held none.
spec fn held_slot(m: Map<u32, ExportParameters>, o: u32, key: i64) -> Option<Seq<char>> {
    if m.contains_key(o) {
        slot_of(m[o]@, key)
    } else {
        None
    }
}

fn absorb_key(
    held: &mut ExportParameters,
    incoming: &ExportParameters,
    key: i64,
    o: u32,
    conflicting: &mut Vec<(u32, i64)>,
)
    requires
        is_export_key(key),
    ensures
        forall|k: i64|
            #[trigger] slot_of(final(held)@, k) == if k == key && slot_of(old(held)@, k) is None {
                slot_of(incoming@, k)
            } else {
                slot_of(old(held)@, k)
            },
        forall|x: (u32, i64)|
            #[trigger] final(conflicting)@.contains(x) <==> (old(conflicting)@.contains(x) || (x
                == (o, key) && slot_of(old(held)@, key) is Some && slot_of(incoming@, key) is Some
                && slot_of(old(held)@, key) != slot_of(incoming@, key))),
{
    let ghost before = conflicting@;
    match incoming.slot_value(key) {
        None => {},
        Some(v) => match held.slot_value(key) {
            None => {
                held.set_slot(key, v);
            },
            Some(existing) => {
                if !(existing == v) {
                    conflicting.push((o, key));
                }
            },
        },
    }
    proof {
        assert forall|x: (u32, i64)| #[trigger] conflicting@.contains(x) <==> (before.contains(x) || (x
            == (o, key) && slot_of(old(held)@, key) is Some && slot_of(incoming@, key) is Some
            && slot_of(old(held)@, key) != slot_of(incoming@, key))) by {
            crate::bytes::lemma_push_contains(before, (o, key), x);
        }
    }
}

proof fn lemma_settled_slot(buf: Seq<u8>, header: Seq<u8>, declared: Set<u32>, o: u32, key: i64)
    requires
        is_export_key(key),
    ensures
        slot_of(settled_parameters(buf, header, declared, o), key) == settled(
            buf,
            header,
            declared,
            key,
            o,
        ),
        !sets_any(buf, header, declared, o) ==> settled(buf, header, declared, key, o) is None,
{
}

/// How the merged map changes when element `o` of stream `i` is absorbed.
spec fn absorbed_map(
    parts: Seq<(Seq<char>, Seq<u8>)>,
    header: Seq<u8>,
    declared: Set<u32>,
    i: int,
    o: u32,
    m: Map<u32, ExportParameters>,
    m2: Map<u32, ExportParameters>,
) -> bool {
    &&& forall|x: u32| x != o ==> (#[trigger] m2.contains_key(x) <==> m.contains_key(x))
    &&& forall|x: u32| x != o && #[trigger] m2.contains_key(x) ==> m2[x] == m[x]
    &&& m2.contains_key(o) <==> (m.contains_key(o) || sets_any(parts[i].1, header, declared, o))
    &&& m2.contains_key(o) ==> forall|k: i64|
        is_export_key(k) ==> #[trigger] slot_of(m2[o]@, k) == if held_slot(m, o, k) is Some {
            held_slot(m, o, k)
        } else {
            settled(parts[i].1, header, declared, k, o)
        }
}

/// How the conflict list changes when element `o` of stream `i` is absorbed.
spec fn absorbed_conflicts(
    parts: Seq<(Seq<char>, Seq<u8>)>,
    header: Seq<u8>,
    declared: Set<u32>,
    i: int,
    o: u32,
    m: Map<u32, ExportParameters>,
    c: Seq<(u32, i64)>,
    c2: Seq<(u32, i64)>,
) -> bool {
    forall|x: u32, k: i64|
        #[trigger] c2.contains((x, k)) <==> (c.contains((x, k)) || (x == o && is_export_key(k)
            && held_slot(m, o, k) is Some && settled(parts[i].1, header, declared, k, o) is Some
            && held_slot(m, o, k) != settled(parts[i].1, header, declared, k, o)))
}

proof fn lemma_seen_push(
    parts: Seq<(Seq<char>, Seq<u8>)>,
    header: Seq<u8>,
    declared: Set<u32>,
    i: int,
    done: Seq<u32>,
    o: u32,
)
    ensures
        forall|x: u32, k: i64, v: Seq<char>|
            #[trigger] seen(parts, header, declared, i, done.push(o), k, x, v) <==> (seen(
                parts,
                header,
                declared,
                i,
                done,
                k,
                x,
                v,
            ) || (x == o && stream_sets(parts, header, declared, i, k, o, v))),
        forall|x: u32|
            #[trigger] named(parts, header, declared, i, done.push(o), x) <==> (named(
                parts,
                header,
                declared,
                i,
                done,
                x,
            ) || (x == o && sets_any(parts[i].1, header, declared, o))),
{
    assert forall|x: u32| #[trigger] done.push(o).contains(x) <==> (done.contains(x) || x == o) by {
        crate::bytes::lemma_push_contains(done, o, x);
    }
}

proof fn lemma_absorb_named(
    parts: Seq<(Seq<char>, Seq<u8>)>,
    header: Seq<u8>,
    declared: Set<u32>,
    i: int,
    done: Seq<u32>,
    o: u32,
    m: Map<u32, ExportParameters>,
    m2: Map<u32, ExportParameters>,
)
    requires
        ms_named(parts, header, declared, i, done, m),
        absorbed_map(parts, header, declared, i, o, m, m2),
    ensures
        ms_named(parts, header, declared, i, done.push(o), m2),
{
    lemma_seen_push(parts, header, declared, i, done, o);
}

proof fn lemma_absorb_held_seen(
    parts: Seq<(Seq<char>, Seq<u8>)>,
    header: Seq<u8>,
    declared: Set<u32>,
    i: int,
    done: Seq<u32>,
    o: u32,
    m: Map<u32, ExportParameters>,
    m2: Map<u32, ExportParameters>,
)
    requires
        ms_held_seen(parts, header, declared, i, done, m),
        absorbed_map(parts, header, declared, i, o, m, m2),
    ensures
        ms_held_seen(parts, header, declared, i, done.push(o), m2),
{
    lemma_seen_push(parts, header, declared, i, done, o);
    assert forall|x: u32, k: i64|
        is_export_key(k) && m2.contains_key(x) && #[trigger] slot_of(m2[x]@, k) is Some implies seen(
        parts,
        header,
        declared,
        i,
        done.push(o),
        k,
        x,
        slot_of(m2[x]@, k)->0,
    ) by {
        if x == o {
            if held_slot(m, o, k) is Some {
                assert(seen(parts, header, declared, i, done, k, o, slot_of(m[o]@, k)->0));
            } else {
                assert(stream_sets(parts, header, declared, i, k, o, slot_of(m2[o]@, k)->0));
            }
        }
    }
}

proof fn lemma_absorb_seen_held(
    parts: Seq<(Seq<char>, Seq<u8>)>,
    header: Seq<u8>,
    declared: Set<u32>,
    i: int,
    done: Seq<u32>,
    o: u32,
    m: Map<u32, ExportParameters>,
    m2: Map<u32, ExportParameters>,
)
    requires
        ms_seen_held(parts, header, declared, i, done, m),
        absorbed_map(parts, header, declared, i, o, m, m2),
    ensures
        ms_seen_held(parts, header, declared, i, done.push(o), m2),
{
    lemma_seen_push(parts, header, declared, i, done, o);
    assert forall|x: u32, k: i64, v: Seq<char>|
        is_export_key(k) && #[trigger] seen(parts, header, declared, i, done.push(o), k, x, v) implies m2.contains_key(x)
        && slot_of(m2[x]@, k) is Some by {
        if x == o && !seen(parts, header, declared, i, done, k, x, v) {
            assert(stream_sets(parts, header, declared, i, k, o, v));
            lemma_settled_slot(parts[i].1, header, declared, o, k);
        }
    }
}

/// Whether some value other than the slot's is seen under `k` for `x`.
spec fn seen_other(
    parts: Seq<(Seq<char>, Seq<u8>)>,
    header: Seq<u8>,
    declared: Set<u32>,
    i: int,
    done: Seq<u32>,
    m: Map<u32, ExportParameters>,
    k: i64,
    x: u32,
) -> bool {
    exists|v: Seq<char>|
        #[trigger] seen(parts, header, declared, i, done, k, x, v) && Some(v) != slot_of(m[x]@, k)
}

proof fn lemma_conflict_own(
    parts: Seq<(Seq<char>, Seq<u8>)>,
    header: Seq<u8>,
    declared: Set<u32>,
    i: int,
    done: Seq<u32>,
    o: u32,
    m: Map<u32, ExportParameters>,
    c: Seq<(u32, i64)>,
    m2: Map<u32, ExportParameters>,
    c2: Seq<(u32, i64)>,
    k: i64,
)
    requires
        is_export_key(k),
        ms_seen_held(parts, header, declared, i, done, m),
        ms_conflicts(parts, header, declared, i, done, m, c),
        absorbed_map(parts, header, declared, i, o, m, m2),
        absorbed_conflicts(parts, header, declared, i, o, m, c, c2),
    ensures
        c2.contains((o, k)) <==> m2.contains_key(o) && seen_other(
            parts,
            header,
            declared,
            i,
            done.push(o),
            m2,
            k,
            o,
        ),
{
    lemma_seen_push(parts, header, declared, i, done, o);
    lemma_settled_slot(parts[i].1, header, declared, o, k);
    let d2 = done.push(o);
    let b = settled(parts[i].1, header, declared, k, o);
    assert(c2.contains((o, k)) <==> (c.contains((o, k)) || (held_slot(m, o, k) is Some && b is Some
        && held_slot(m, o, k) != b)));
    if held_slot(m, o, k) is Some {
        let a = held_slot(m, o, k)->0;
        assert(m2.contains_key(o));
        assert(slot_of(m2[o]@, k) == Some(a));
        if b is Some && b != Some(a) {
            assert(seen(parts, header, declared, i, d2, k, o, b->0));
        }
        if seen_other(parts, header, declared, i, d2, m2, k, o) {
            let v = choose|v: Seq<char>|
                #[trigger] seen(parts, header, declared, i, d2, k, o, v) && Some(v) != slot_of(m2[o]@, k);
            if seen(parts, header, declared, i, done, k, o, v) {
                assert(seen_other(parts, header, declared, i, done, m, k, o));
                assert(c.contains((o, k)));
            }
        }
        if c.contains((o, k)) {
            let v = choose|v: Seq<char>|
                #[trigger] seen(parts, header, declared, i, done, k, o, v) && Some(v) != slot_of(m[o]@, k);
            assert(seen(parts, header, declared, i, d2, k, o, v));
        }
    } else {
        if c.contains((o, k)) {
            let v = choose|v: Seq<char>|
                #[trigger] seen(parts, header, declared, i, done, k, o, v) && Some(v) != slot_of(m[o]@, k);
            assert(false);
        }
        if m2.contains_key(o) && seen_other(parts, header, declared, i, d2, m2, k, o) {
            let v = choose|v: Seq<char>|
                #[trigger] seen(parts, header, declared, i, d2, k, o, v) && Some(v) != slot_of(m2[o]@, k);
            if seen(parts, header, declared, i, done, k, o, v) {
                assert(m.contains_key(o) && slot_of(m[o]@, k) is Some);
            }
        }
    }
}

proof fn lemma_conflict_other(
    parts: Seq<(Seq<char>, Seq<u8>)>,
    header: Seq<u8>,
    declared: Set<u32>,
    i: int,
    done: Seq<u32>,
    o: u32,
    m: Map<u32, ExportParameters>,
    c: Seq<(u32, i64)>,
    m2: Map<u32, ExportParameters>,
    c2: Seq<(u32, i64)>,
    x: u32,
    k: i64,
)
    requires
        x != o,
        ms_conflicts(parts, header, declared, i, done, m, c),
        absorbed_map(parts, header, declared, i, o, m, m2),
        absorbed_conflicts(parts, header, declared, i, o, m, c, c2),
    ensures
        c2.contains((x, k)) <==> is_export_key(k) && m2.contains_key(x) && seen_other(
            parts,
            header,
            declared,
            i,
            done.push(o),
            m2,
            k,
            x,
        ),
{
    lemma_seen_push(parts, header, declared, i, done, o);
    let d2 = done.push(o);
    assert(c2.contains((x, k)) <==> c.contains((x, k)));
    if c.contains((x, k)) {
        let v = choose|v: Seq<char>|
            #[trigger] seen(parts, header, declared, i, done, k, x, v) && Some(v) != slot_of(m[x]@, k);
        assert(seen(parts, header, declared, i, d2, k, x, v));
    }
    if is_export_key(k) && m2.contains_key(x) && seen_other(parts, header, declared, i, d2, m2, k, x) {
        let v = choose|v: Seq<char>|
            #[trigger] seen(parts, header, declared, i, d2, k, x, v) && Some(v) != slot_of(m2[x]@, k);
        assert(seen(parts, header, declared, i, done, k, x, v));
        assert(seen_other(parts, header, declared, i, done, m, k, x));
    }
}

proof fn lemma_absorb_conflicts(
    parts: Seq<(Seq<char>, Seq<u8>)>,
    header: Seq<u8>,
    declared: Set<u32>,
    i: int,
    done: Seq<u32>,
    o: u32,
    m: Map<u32, ExportParameters>,
    c: Seq<(u32, i64)>,
    m2: Map<u32, ExportParameters>,
    c2: Seq<(u32, i64)>,
)
    requires
        ms_seen_held(parts, header, declared, i, done, m),
        ms_conflicts(parts, header, declared, i, done, m, c),
        absorbed_map(parts, header, declared, i, o, m, m2),
        absorbed_conflicts(parts, header, declared, i, o, m, c, c2),
    ensures
        ms_conflicts(parts, header, declared, i, done.push(o), m2, c2),
{
    let d2 = done.push(o);
    assert forall|x: u32, k: i64|
        #[trigger] c2.contains((x, k)) <==> is_export_key(k) && m2.contains_key(x) && exists|
            v: Seq<char>,
        |
            #[trigger] seen(parts, header, declared, i, d2, k, x, v) && Some(v) != slot_of(m2[x]@, k) by {
        if x == o {
            if is_export_key(k) {
                lemma_conflict_own(parts, header, declared, i, done, o, m, c, m2, c2, k);
            } else {
                assert(!c.contains((o, k)));
            }
        } else {
            lemma_conflict_other(parts, header, declared, i, done, o, m, c, m2, c2, x, k);
        }
    }
}

proof fn lemma_next_stream(
    parts: Seq<(Seq<char>, Seq<u8>)>,
    header: Seq<u8>,
    declared: Set<u32>,
    i: int,
    owners: Seq<u32>,
    m: Map<u32, ExportParameters>,
    c: Seq<(u32, i64)>,
)
    requires
        0 <= i < parts.len(),
        merge_state(parts, header, declared, i, owners, m, c),
        forall|o: u32| #[trigger] sets_any(parts[i].1, header, declared, o) ==> owners.contains(o),
    ensures
        merge_state(parts, header, declared, i + 1, Seq::empty(), m, c),
{
    let e = Seq::<u32>::empty();
    assert forall|o: u32, k: i64, v: Seq<char>|
        is_export_key(k) implies #[trigger] seen(parts, header, declared, i + 1, e, k, o, v) == seen(
        parts,
        header,
        declared,
        i,
        owners,
        k,
        o,
        v,
    ) by {
        if stream_sets(parts, header, declared, i, k, o, v) {
            lemma_settled_slot(parts[i].1, header, declared, o, k);
            assert(sets_any(parts[i].1, header, declared, o));
        }
        if seen(parts, header, declared, i, owners, k, o, v) {
            if !(exists|s: int| 0 <= s < i && #[trigger] stream_sets(parts, header, declared, s, k, o, v)) {
                assert(stream_sets(parts, header, declared, i, k, o, v));
            }
        }
    }
    assert forall|o: u32| #[trigger] named(parts, header, declared, i + 1, e, o) == named(
        parts,
        header,
        declared,
        i,
        owners,
        o,
    ) by {
        if named(parts, header, declared, i, owners, o) {
            if !(exists|s: int| 0 <= s < i && #[trigger] sets_any(parts[s].1, header, declared, o)) {
                assert(sets_any(parts[i].1, header, declared, o));
            }
        }
    }
    assert forall|o: u32, k: i64|
        #[trigger] c.contains((o, k)) <==> is_export_key(k) && m.contains_key(o) && exists|
            v: Seq<char>,
        |
            #[trigger] seen(parts, header, declared, i + 1, e, k, o, v) && Some(v) != slot_of(m[o]@, k) by {
        if c.contains((o, k)) {
            let v = choose|v: Seq<char>|
                #[trigger] seen(parts, header, declared, i, owners, k, o, v) && Some(v) != slot_of(m[o]@, k);
            assert(seen(parts, header, declared, i + 1, e, k, o, v));
        }
        if is_export_key(k) && m.contains_key(o) && exists|v: Seq<char>|
            #[trigger] seen(parts, header, declared, i + 1, e, k, o, v) && Some(v) != slot_of(m[o]@, k) {
            let v = choose|v: Seq<char>|
                #[trigger] seen(parts, header, declared, i + 1, e, k, o, v) && Some(v) != slot_of(m[o]@, k);
            assert(seen(parts, header, declared, i, owners, k, o, v));
        }
    }
}

proof fn lemma_view_by_slots(p: ExportParametersView, q: ExportParametersView)
    requires
        forall|k: i64| is_export_key(k) ==> #[trigger] slot_of(p, k) == slot_of(q, k),
    ensures
        p == q,
{
    assert(slot_of(p, IFC_EXPORT_ELEMENT_AS) == slot_of(q, IFC_EXPORT_ELEMENT_AS));
    assert(slot_of(p, IFC_EXPORT_PREDEFINEDTYPE) == slot_of(q, IFC_EXPORT_PREDEFINEDTYPE));
    assert(slot_of(p, IFC_EXPORT_ELEMENT_TYPE_AS) == slot_of(q, IFC_EXPORT_ELEMENT_TYPE_AS));
    assert(slot_of(p, IFC_EXPORT_PREDEFINEDTYPE_TYPE) == slot_of(q, IFC_EXPORT_PREDEFINEDTYPE_TYPE));
}

proof fn lemma_merged_slot(
    parts: Seq<(Seq<char>, Seq<u8>)>,
    header: Seq<u8>,
    declared: Set<u32>,
    m: Map<u32, ExportParameters>,
    c: Seq<(u32, i64)>,
    o: u32,
    k: i64,
)
    requires
        is_export_key(k),
        m.contains_key(o),
        merge_state(parts, header, declared, parts.len() as int, Seq::empty(), m, c),
    ensures
        merged_slot(parts, header, declared, k, o) == if c.contains((o, k)) {
            None
        } else {
            slot_of(m[o]@, k)
        },
{
    let n = parts.len() as int;
    let e = Seq::<u32>::empty();
    assert forall|v: Seq<char>| #[trigger] some_stream_sets(parts, header, declared, k, o, v) == seen(
        parts,
        header,
        declared,
        n,
        e,
        k,
        o,
        v,
    ) by {}
    if slot_of(m[o]@, k) is Some {
        let w = slot_of(m[o]@, k)->0;
        assert(seen(parts, header, declared, n, e, k, o, w));
        assert(some_stream_sets(parts, header, declared, k, o, w));
        if c.contains((o, k)) {
            let v = choose|v: Seq<char>|
                #[trigger] seen(parts, header, declared, n, e, k, o, v) && Some(v) != slot_of(m[o]@, k);
            assert(some_stream_sets(parts, header, declared, k, o, v));
        } else {
            assert forall|v: Seq<char>| #[trigger] some_stream_sets(parts, header, declared, k, o, v) implies v
                == w by {
                assert(seen(parts, header, declared, n, e, k, o, v));
            }
            let ch = choose|v: Seq<char>| some_stream_sets(parts, header, declared, k, o, v);
            assert(ch == w);
        }
    } else {
        assert forall|v: Seq<char>| !#[trigger] some_stream_sets(parts, header, declared, k, o, v) by {
            if some_stream_sets(parts, header, declared, k, o, v) {
                assert(seen(parts, header, declared, n, e, k, o, v));
            }
        }
        if c.contains((o, k)) {
            let v = choose|v: Seq<char>|
                #[trigger] seen(parts, header, declared, n, e, k, o, v) && Some(v) != slot_of(m[o]@, k);
            assert(some_stream_sets(parts, header, declared, k, o, v));
        }
    }
}

proof fn lemma_cleared_slot(p: ExportParametersView, key: i64, kk: i64)
    requires
        is_export_key(kk),
    ensures
        slot_of(cleared_slot(p, key), kk) == if kk == key {
            None
        } else {
            slot_of(p, kk)
        },
{
}

fn absorb_owner(
    merged: &mut BTreeMap<u32, ExportParameters>,
    conflicting: &mut Vec<(u32, i64)>,
    found: &BTreeMap<u32, ExportParameters>,
    o: u32,
    Ghost(parts): Ghost<Seq<(Seq<char>, Seq<u8>)>>,
    Ghost(hv): Ghost<Seq<u8>>,
    Ghost(declared): Ghost<Set<u32>>,
    Ghost(i): Ghost<int>,
    Ghost(done): Ghost<Seq<u32>>,
)
    requires
        0 <= i < parts.len(),
        !done.contains(o),
        forall|x: u32| #[trigger] found@.contains_key(x) <==> sets_any(parts[i].1, hv, declared, x),
        forall|x: u32| #[trigger]
            found@.contains_key(x) ==> found@[x]@ == settled_parameters(parts[i].1, hv, declared, x),
        merge_state(parts, hv, declared, i, done, old(merged)@, old(conflicting)@),
    ensures
        merge_state(parts, hv, declared, i, done.push(o), final(merged)@, final(conflicting)@),
{
    let ghost m = merged@;
    let ghost c = conflicting@;
    match found.get(&o) {
        Some(incoming) => {
            let mut held = match merged.remove(&o) {
                Some(p) => p,
                None => ExportParameters::default(),
            };
            let ghost h0 = held@;
            absorb_key(&mut held, incoming, IFC_EXPORT_ELEMENT_AS, o, conflicting);
            absorb_key(&mut held, incoming, IFC_EXPORT_ELEMENT_TYPE_AS, o, conflicting);
            absorb_key(&mut held, incoming, IFC_EXPORT_PREDEFINEDTYPE, o, conflicting);
            absorb_key(&mut held, incoming, IFC_EXPORT_PREDEFINEDTYPE_TYPE, o, conflicting);
            merged.insert(o, held);
            proof {
                assert forall|k: i64| is_export_key(k) implies #[trigger] slot_of(h0, k) == held_slot(
                    m,
                    o,
                    k,
                ) && slot_of(incoming@, k) == settled(parts[i].1, hv, declared, k, o) by {
                    lemma_settled_slot(parts[i].1, hv, declared, o, k);
                }
                assert(absorbed_map(parts, hv, declared, i, o, m, merged@));
                assert(absorbed_conflicts(parts, hv, declared, i, o, m, c, conflicting@));
            }
        },
        None => {
            proof {
                assert forall|k: i64| is_export_key(k) implies #[trigger] settled(
                    parts[i].1,
                    hv,
                    declared,
                    k,
                    o,
                ) is None by {
                    lemma_settled_slot(parts[i].1, hv, declared, o, k);
                }
                assert(absorbed_map(parts, hv, declared, i, o, m, merged@));
                assert(absorbed_conflicts(parts, hv, declared, i, o, m, c, conflicting@));
            }
        },
    }
    proof {
        lemma_absorb_named(parts, hv, declared, i, done, o, m, merged@);
        lemma_absorb_held_seen(parts, hv, declared, i, done, o, m, merged@);
        lemma_absorb_seen_held(parts, hv, declared, i, done, o, m, merged@);
        lemma_absorb_conflicts(parts, hv, declared, i, done, o, m, c, merged@, conflicting@);
    }
}

fn absorb_stream(
    merged: &mut BTreeMap<u32, ExportParameters>,
    conflicting: &mut Vec<(u32, i64)>,
    bytes: &[u8],
    header: &[u8; 10],
    declared: &BTreeSet<u32>,
    Ghost(parts): Ghost<Seq<(Seq<char>, Seq<u8>)>>,
    Ghost(i): Ghost<int>,
)
    requires
        0 <= i < parts.len(),
        parts[i].1 == bytes@,
        merge_state(parts, header@, declared@, i, Seq::empty(), old(merged)@, old(conflicting)@),
    ensures
        merge_state(parts, header@, declared@, i + 1, Seq::empty(), final(merged)@, final(conflicting)@),
{
    let (found, owners) = export_parameters_listed(bytes, header, declared);
    assert(owners@.take(0) =~= Seq::<u32>::empty());
    let mut j: usize = 0;
    while j < owners.len()
        invariant
            0 <= i < parts.len(),
            j <= owners@.len(),
            parts[i].1 == bytes@,
            owners@.no_duplicates(),
            forall|o: u32| #[trigger] found@.contains_key(o) <==> sets_any(bytes@, header@, declared@, o),
            forall|o: u32| #[trigger]
                found@.contains_key(o) ==> found@[o]@ == settled_parameters(bytes@, header@, declared@, o),
            forall|o: u32| #[trigger] found@.contains_key(o) ==> owners@.contains(o),
            merge_state(parts, header@, declared@, i, owners@.take(j as int), merged@, conflicting@),
        decreases owners@.len() - j,
    {
        let o = owners[j];
        let ghost done = owners@.take(j as int);
        assert(!done.contains(o)) by {
            if done.contains(o) {
                let a = choose|a: int| 0 <= a < done.len() && done[a] == o;
                assert(owners@[a] == owners@[j as int]);
            }
        }
        assert(owners@.take(j + 1) =~= done.push(o));
        absorb_owner(
            merged,
            conflicting,
            &found,
            o,
            Ghost(parts),
            Ghost(header@),
            Ghost(declared@),
            Ghost(i),
            Ghost(done),
        );
        j += 1;
    }
    proof {
        assert(owners@.take(owners@.len() as int) =~= owners@);
        assert forall|o: u32| #[trigger] sets_any(parts[i].1, header@, declared@, o) implies owners@.contains(o) by {
            assert(found@.contains_key(o));
        }
        lemma_next_stream(parts, header@, declared@, i, owners@, merged@, conflicting@);
    }
}

/// [`find_export_parameters`] over every partition, for the release whose
/// element-data header is `header`: an element is kept when any stream
/// sets one of its parameters, and a key whose streams disagree is dropped.
/// Empty when the release has no known header.
pub fn scan_export_parameters(
    partitions: &[InflatedPartition],
    header: Option<[u8; 10]>,
    declared: &BTreeSet<u32>,
) -> (r: BTreeMap<u32, ExportParameters>)
    ensures
        header is None ==> r@.is_empty(),
        header matches Some(h) ==> forall|o: u32| #[trigger]
            r@.contains_key(o) <==> some_stream_names(partition_views(partitions@), h@, declared@, o),
        header matches Some(h) ==> forall|o: u32| #[trigger]
            r@.contains_key(o) ==> r@[o]@ == merged_parameters(
                partition_views(partitions@),
                h@,
                declared@,
                o,
            ),
{
    let hdr = match header {
        Some(h) => h,
        None => {
            let empty = BTreeMap::new();
            assert(empty@ =~= Map::<u32, ExportParameters>::empty());
            return empty;
        },
    };
    let ghost parts = partition_views(partitions@);
    let ghost hv = hdr@;
    let mut merged: BTreeMap<u32, ExportParameters> = BTreeMap::new();
    let mut conflicting: Vec<(u32, i64)> = Vec::new();
    let mut i: usize = 0;
    while i < partitions.len()
        invariant
            i <= partitions@.len(),
            parts == partition_views(partitions@),
            hv == hdr@,
            merge_state(parts, hv, declared@, i as int, Seq::empty(), merged@, conflicting@),
        decreases partitions@.len() - i,
    {
        let part = &partitions[i];
        assert(parts[i as int].1 == part.bytes@);
        absorb_stream(
            &mut merged,
            &mut conflicting,
            part.bytes.as_slice(),
            &hdr,
            declared,
            Ghost(parts),
            Ghost(i as int),
        );
        i += 1;
    }
    let ghost mb = merged@;
    let ghost cs = conflicting@;
    let mut k: usize = 0;
    while k < conflicting.len()
        invariant
            k <= conflicting@.len(),
            cs == conflicting@,
            forall|o: u32| #[trigger] merged@.contains_key(o) <==> mb.contains_key(o),
            forall|o: u32, key: i64|
                is_export_key(key) && merged@.contains_key(o) ==> #[trigger] slot_of(merged@[o]@, key)
                    == if cs.take(k as int).contains((o, key)) {
                    None
                } else {
                    slot_of(mb[o]@, key)
                },
        decreases conflicting@.len() - k,
    {
        let pair = conflicting[k];
        let o = pair.0;
        let key = pair.1;
        let ghost before = merged@;
        assert(cs.take(k + 1) =~= cs.take(k as int).push((o, key)));
        match merged.remove(&o) {
            Some(p) => {
                let mut p = p;
                p.clear_slot(key);
                merged.insert(o, p);
            },
            None => {},
        }
        proof {
            assert forall|x: u32, kk: i64|
                is_export_key(kk) && merged@.contains_key(x) implies #[trigger] slot_of(merged@[x]@, kk)
                == if cs.take(k + 1).contains((x, kk)) {
                None
            } else {
                slot_of(mb[x]@, kk)
            } by {
                crate::bytes::lemma_push_contains(cs.take(k as int), (o, key), (x, kk));
                if x == o {
                    lemma_cleared_slot(before[o]@, key, kk);
                }
            }
        }
        k += 1;
    }
    assert(cs.take(cs.len() as int) =~= cs);
    proof {
        let n = parts.len() as int;
        let e = Seq::<u32>::empty();
        assert forall|o: u32| #[trigger] merged@.contains_key(o) <==> some_stream_names(parts, hv, declared@, o) by {
            assert(named(parts, hv, declared@, n, e, o) == some_stream_names(parts, hv, declared@, o));
        }
        assert forall|o: u32| #[trigger] merged@.contains_key(o) implies merged@[o]@ == merged_parameters(
            parts,
            hv,
            declared@,
            o,
        ) by {
            assert forall|kk: i64| is_export_key(kk) implies #[trigger] slot_of(merged@[o]@, kk) == slot_of(
                merged_parameters(parts, hv, declared@, o),
                kk,
            ) by {
                lemma_merged_slot(parts, hv, declared@, mb, cs, o, kk);
            }
            lemma_view_by_slots(merged@[o]@, merged_parameters(parts, hv, declared@, o));
        }
    }
    merged
}

} // verus!
