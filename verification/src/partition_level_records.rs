//! `OST_Levels` record frames in Revit 2024 / 2025 partitions: the record
//! header of a Level element, found by its category and checked against the
//! release's record marker and the `Global/ElemTable` id set.

use vstd::prelude::*;
use vstd::string::*;
use std::collections::{BTreeMap, BTreeSet};
use crate::collapse::{collapse_values, id_values, is_collapse_of};
use crate::bytes::next_occurrence;
use crate::partition_compound_structure::indices;
use crate::partition_element_records::f64_bits_key;
use crate::partition_names::name_units;
use crate::text::{has_control, utf16_decode};
use crate::partitions::{partition_views, InflatedPartition};
use crate::bytes::{
    find_iter_all, iter_hits_from, positions, lemma_keep_some_push, find_from, hits_from, keep_some, le_u16, le_u32, le_u64, lemma_hits_none, lemma_hits_skip,
    lemma_hits_step, lemma_keep_some_step, matches_at, occurs_at, read_u16, read_u32, read_u64,
};
use crate::partition_element_records::{
    as_signed, carries_no_element_id, enclosing_record, partition_record_chain,
    spec_chain_from, spec_record_prologue_constant, from_signed, from_signed_spec,
    lemma_sorted_partitioned, spec_bbox_marker, spec_carries_no_element_id, spec_enclosing,
    spec_le_bytes, starts_sorted, to_signed, u64_le_bytes, PartitionRecordSpan, CATEGORY_OFFSET, CONTAINER_NONE,
    CONTAINER_OFFSET, PLACEMENT_KIND_INSTANCE, PLACEMENT_KIND_OFFSET,
};

verus! {

broadcast use vstd::std_specs::btree::group_btree_axioms;

/// Autodesk `BuiltInCategory.OST_Levels`.
pub const OST_LEVELS: i64 = -2_000_240;
/// Offset of the record marker from the record start.
pub const RECORD_MARKER_OFFSET: usize = 0x50;
/// Fixed marker that ends a Level record's prologue on Revit 2024.
pub const RECORD_MARKER: [u8; 6] = [0xff, 0xff, 0xff, 0xff, 0xab, 0x05];
/// Minimum bytes a Level record header occupies.
pub const RECORD_MIN_LEN: usize = RECORD_MARKER_OFFSET + 6 + 2;
/// Marker whose fixed distance to the elevation double is measured on
/// Revit 2024 files; its last two bytes are data.
pub const ELEVATION_MARKER: [u8; 8] = [0x05, 0x00, 0x00, 0x00, 0x48, 0x02, 0x00, 0x00];

/// The elevation marker per release.
pub open spec fn spec_elevation_marker(revit_version: u32) -> Option<Seq<u8>> {
    if revit_version == 2024 {
        Some(seq![0x05u8, 0x00, 0x00, 0x00, 0x48, 0x02])
    } else if revit_version == 2025 {
        Some(seq![0x05u8, 0x00, 0x00, 0x00, 0x5d, 0x02])
    } else {
        None
    }
}

/// The elevation marker per release: `05 00 00 00` and a release's `u16`.
pub fn elevation_marker(revit_version: u32) -> (r: Option<[u8; 6]>)
    ensures
        match r {
            Some(m) => spec_elevation_marker(revit_version) == Some(m@),
            None => spec_elevation_marker(revit_version) is None,
        },
{
    if revit_version == 2024 {
        let m: [u8; 6] = [0x05, 0x00, 0x00, 0x00, 0x48, 0x02];
        assert(m@ =~= seq![0x05u8, 0x00, 0x00, 0x00, 0x48, 0x02]);
        Some(m)
    } else if revit_version == 2025 {
        let m: [u8; 6] = [0x05, 0x00, 0x00, 0x00, 0x5d, 0x02];
        assert(m@ =~= seq![0x05u8, 0x00, 0x00, 0x00, 0x5d, 0x02]);
        Some(m)
    } else {
        None
    }
}

/// The Level record marker per release: the last six bytes of the
/// release's element-record bbox marker.
pub fn record_marker(revit_version: u32) -> (r: Option<[u8; 6]>)
    ensures
        match r {
            Some(m) => spec_bbox_marker(revit_version) is Some && m@ == spec_bbox_marker(
                revit_version,
            )->0.subrange(2, 8),
            None => spec_bbox_marker(revit_version) is None,
        },
{
    let marker = match crate::partition_element_records::bbox_marker(revit_version) {
        Some(m) => m,
        None => return None,
    };
    let out: [u8; 6] = [marker[2], marker[3], marker[4], marker[5], marker[6], marker[7]];
    assert(out@ =~= marker@.subrange(2, 8));
    Some(out)
}

/// Whether this release's Level framing is proven: 2024 and 2025.
pub fn supports_revit_version(revit_version: u32) -> (r: bool)
    ensures
        r == (revit_version == 2024 || revit_version == 2025),
{
    revit_version == 2024 || revit_version == 2025
}

/// A decoded `OST_Levels` record header.
#[derive(Debug, Clone, PartialEq, Eq)]
pub struct PartitionLevelRecord {
    /// Stream the record was found in.
    pub stream: String,
    /// Byte offset of the record in the inflated stream.
    pub offset: usize,
    /// The record's own Revit ElementId.
    pub element_id: u32,
    /// Unattributed flags word at `+0x08`.
    pub flags: u32,
    /// Raw container reference at `+0x32`.
    pub container: u64,
    /// Raw placement-kind word at `+0x42`.
    pub placement_kind: u32,
}

/// What a [`PartitionLevelRecord`] holds, as values.
pub struct LevelRecordView {
    pub stream: Seq<char>,
    pub offset: int,
    pub element_id: u32,
    pub flags: u32,
    pub container: u64,
    pub placement_kind: u32,
}

impl View for PartitionLevelRecord {
    type V = LevelRecordView;

    open spec fn view(&self) -> LevelRecordView {
        LevelRecordView {
            stream: self.stream@,
            offset: self.offset as int,
            element_id: self.element_id,
            flags: self.flags,
            container: self.container,
            placement_kind: self.placement_kind,
        }
    }
}

impl PartitionLevelRecord {
    /// True when `+0x32` is set: a member of a container element.
    pub fn is_container_member(&self) -> (r: bool)
        ensures
            r == (self.container != CONTAINER_NONE),
    {
        self.container != CONTAINER_NONE
    }

    /// True when `+0x42` marks a placed element instance.
    pub fn is_placed_instance(&self) -> (r: bool)
        ensures
            r == (self.placement_kind == PLACEMENT_KIND_INSTANCE),
    {
        self.placement_kind == PLACEMENT_KIND_INSTANCE
    }

    /// The instance rule applied to Levels: a standalone placed record is a
    /// Level element.
    pub fn is_level_element(&self) -> (r: bool)
        ensures
            r == (self.container == CONTAINER_NONE && self.placement_kind
                == PLACEMENT_KIND_INSTANCE),
    {
        !self.is_container_member() && self.is_placed_instance()
    }
}

/// The ElementId a Level frame at `offset` is attributed to: the `u64` at
/// `+0x00`, or, when that carries no id, the id of the `chain` record the
/// frame sits in, when it is in the `u32` range.
pub open spec fn spec_level_frame_id(
    buf: Seq<u8>,
    offset: int,
    chain: Seq<PartitionRecordSpan>,
) -> Option<u32> {
    let raw = le_u64(buf, offset) as u64;
    if spec_carries_no_element_id(raw) {
        match spec_enclosing(chain, offset) {
            Some(span) => if span.element_id <= 0xffff_ffff {
                Some(span.element_id as u32)
            } else {
                None
            },
            None => None,
        }
    } else {
        Some(raw as u32)
    }
}

/// The record a Level frame at `offset` decodes to, when every check
/// passes: room for the header, a non-zero declared id, the zero `u16` at
/// `+0x10`, `OST_Levels` at `+0x12` and `marker` at `+0x50`.
pub open spec fn spec_level_record(
    stream: Seq<char>,
    buf: Seq<u8>,
    offset: int,
    declared: Set<u32>,
    marker: Seq<u8>,
    chain: Seq<PartitionRecordSpan>,
) -> Option<LevelRecordView> {
    if offset < 0 || offset + RECORD_MIN_LEN > buf.len() {
        None
    } else {
        match spec_level_frame_id(buf, offset, chain) {
            None => None,
            Some(id) => {
                if id == 0 || !declared.contains(id) || le_u16(buf, offset + 0x10) != 0
                    || as_signed(le_u64(buf, offset + CATEGORY_OFFSET) as u64) != OST_LEVELS
                    || buf.subrange(offset + RECORD_MARKER_OFFSET, offset + RECORD_MARKER_OFFSET + 6)
                    != marker {
                    None
                } else {
                    Some(
                        LevelRecordView {
                            stream,
                            offset,
                            element_id: id,
                            flags: le_u32(buf, offset + 0x08) as u32,
                            container: le_u64(buf, offset + CONTAINER_OFFSET) as u64,
                            placement_kind: le_u32(buf, offset + PLACEMENT_KIND_OFFSET) as u32,
                        },
                    )
                }
            },
        }
    }
}

/// Decode one Level record at `offset` for a release's record `marker`. A
/// frame with no ElementId at `+0x00` takes the id of the `chain` record it
/// sits in.
pub fn decode_record_at_with(
    stream: &str,
    buf: &[u8],
    offset: usize,
    declared_ids: &BTreeSet<u32>,
    marker: &[u8; 6],
    chain: &[PartitionRecordSpan],
) -> (r: Option<PartitionLevelRecord>)
    requires
        starts_sorted(chain@),
    ensures
        match r {
            Some(rec) => spec_level_record(
                stream@,
                buf@,
                offset as int,
                declared_ids@,
                marker@,
                chain@,
            ) == Some(rec@),
            None => spec_level_record(
                stream@,
                buf@,
                offset as int,
                declared_ids@,
                marker@,
                chain@,
            ) is None,
        },
{
    if offset > buf.len() || buf.len() - offset < RECORD_MIN_LEN {
        return None;
    }
    let raw_id = read_u64(buf, offset).unwrap();
    let element_id: u32;
    if carries_no_element_id(raw_id) {
        proof {
            lemma_sorted_partitioned(chain@, offset as int);
        }
        match enclosing_record(chain, offset) {
            Some(span) => {
                if span.element_id > 0xffff_ffff {
                    return None;
                }
                element_id = span.element_id as u32;
            },
            None => return None,
        }
    } else {
        element_id = raw_id as u32;
    }
    if element_id == 0 || !declared_ids.contains(&element_id) {
        return None;
    }
    if read_u16(buf, offset + 0x10).unwrap() != 0 {
        return None;
    }
    if to_signed(read_u64(buf, offset + CATEGORY_OFFSET).unwrap()) != OST_LEVELS {
        return None;
    }
    if !matches_at(buf, offset + RECORD_MARKER_OFFSET, marker.as_slice()) {
        return None;
    }
    let flags = read_u32(buf, offset + 0x08).unwrap();
    let container = read_u64(buf, offset + CONTAINER_OFFSET).unwrap();
    let placement_kind = read_u32(buf, offset + PLACEMENT_KIND_OFFSET).unwrap();
    Some(
        PartitionLevelRecord {
            stream: String::from_str(stream),
            offset,
            element_id,
            flags,
            container,
            placement_kind,
        },
    )
}

/// [`decode_record_at_with`] for Revit 2024's marker and no record chain.
pub fn decode_record_at(
    stream: &str,
    buf: &[u8],
    offset: usize,
    declared_ids: &BTreeSet<u32>,
) -> (r: Option<PartitionLevelRecord>)
    ensures
        match r {
            Some(rec) => spec_level_record(
                stream@,
                buf@,
                offset as int,
                declared_ids@,
                RECORD_MARKER@,
                Seq::empty(),
            ) == Some(rec@),
            None => spec_level_record(
                stream@,
                buf@,
                offset as int,
                declared_ids@,
                RECORD_MARKER@,
                Seq::empty(),
            ) is None,
        },
{
    let marker = RECORD_MARKER;
    let chain: Vec<PartitionRecordSpan> = Vec::new();
    assert(chain@ =~= Seq::<PartitionRecordSpan>::empty());
    decode_record_at_with(stream, buf, offset, declared_ids, &marker, chain.as_slice())
}

/// The record a Level scan keeps at hit `h` of the category bytes.
pub open spec fn level_hit_fn(
    stream: Seq<char>,
    buf: Seq<u8>,
    declared: Set<u32>,
    marker: Seq<u8>,
    chain: Seq<PartitionRecordSpan>,
) -> spec_fn(int) -> Option<LevelRecordView> {
    |h: int|
        if h >= CATEGORY_OFFSET {
            spec_level_record(stream, buf, h - CATEGORY_OFFSET, declared, marker, chain)
        } else {
            None
        }
}

/// The eight bytes of `OST_Levels` as they are stored.
pub open spec fn level_needle() -> Seq<u8> {
    spec_le_bytes(from_signed_spec(OST_LEVELS) as u64)
}

/// The views of a list of Level records.
pub open spec fn level_views(v: Seq<PartitionLevelRecord>) -> Seq<LevelRecordView> {
    v.map_values(|r: PartitionLevelRecord| r@)
}

/// Every `OST_Levels` record in one inflated stream for a release's record
/// `marker`: each occurrence of the category's eight bytes, in order, taken
/// as the `+0x12` field of a frame and kept when that frame decodes.
pub fn find_level_records_with(
    stream: &str,
    buf: &[u8],
    declared_ids: &BTreeSet<u32>,
    marker: &[u8; 6],
    chain: &[PartitionRecordSpan],
) -> (r: Vec<PartitionLevelRecord>)
    requires
        starts_sorted(chain@),
    ensures
        level_views(r@) == keep_some(
            hits_from(buf@, level_needle(), 0),
            level_hit_fn(stream@, buf@, declared_ids@, marker@, chain@),
        ),
        level_views(r@) == level_records_from(stream@, buf@, declared_ids@, marker@, chain@, 0),
{
    let needle = u64_le_bytes(from_signed(OST_LEVELS));
    let ghost f = level_hit_fn(stream@, buf@, declared_ids@, marker@, chain@);
    let ghost n = needle@;
    let mut out: Vec<PartitionLevelRecord> = Vec::new();
    let mut cursor: usize = 0;
    let len = buf.len();
    while cursor <= len && len - cursor >= 8
        invariant
            len == buf@.len(),
            n == needle@,
            n.len() == 8,
            starts_sorted(chain@),
            f == level_hit_fn(stream@, buf@, declared_ids@, marker@, chain@),
            keep_some(hits_from(buf@, n, 0), f) == level_views(out@) + keep_some(
                hits_from(buf@, n, cursor as int),
                f,
            ),
        ensures
            hits_from(buf@, n, cursor as int) == Seq::<int>::empty(),
        decreases len + 1 - cursor,
    {
        let found = find_from(buf, cursor, needle.as_slice());
        let hit = match found {
            Some(h) => h,
            None => {
                proof {
                    lemma_hits_none(buf@, n, cursor as int);
                }
                break;
            },
        };
        proof {
            lemma_hits_skip(buf@, n, cursor as int, hit as int);
            lemma_hits_step(buf@, n, hit as int);
            lemma_keep_some_step(hits_from(buf@, n, hit as int), f);
        }
        let ghost before = out@;
        if hit >= CATEGORY_OFFSET {
            let decoded = decode_record_at_with(
                stream,
                buf,
                hit - CATEGORY_OFFSET,
                declared_ids,
                marker,
                chain,
            );
            match decoded {
                Some(record) => {
                    out.push(record);
                    proof {
                        assert(level_views(out@) =~= level_views(before).push(record@));
                        assert(level_views(out@) + keep_some(hits_from(buf@, n, hit + 1), f)
                            =~= level_views(before) + (seq![record@] + keep_some(
                            hits_from(buf@, n, hit + 1),
                            f,
                        )));
                    }
                },
                None => {},
            }
        }
        cursor = hit + 1;
    }
    proof {
        assert(level_views(out@) + Seq::<LevelRecordView>::empty() =~= level_views(out@));
        level_scan_decodes_every_offset(stream@, buf@, declared_ids@, marker@, chain@);
    }
    out
}

/// [`find_level_records_with`] for Revit 2024's marker and no record chain.
pub fn find_level_records(stream: &str, buf: &[u8], declared_ids: &BTreeSet<u32>) -> (r: Vec<
    PartitionLevelRecord,
>)
    ensures
        level_views(r@) == keep_some(
            hits_from(buf@, level_needle(), 0),
            level_hit_fn(stream@, buf@, declared_ids@, RECORD_MARKER@, Seq::empty()),
        ),
        level_views(r@) == level_records_from(stream@, buf@, declared_ids@, RECORD_MARKER@, Seq::empty(), 0),
{
    let marker = RECORD_MARKER;
    let chain: Vec<PartitionRecordSpan> = Vec::new();
    assert(chain@ =~= Seq::<PartitionRecordSpan>::empty());
    find_level_records_with(stream, buf, declared_ids, &marker, chain.as_slice())
}

/// The Level records that decode at the offsets of `buf` from `from` on,
/// in offset order: [`spec_level_record`] tried at every offset.
pub open spec fn level_records_from(
    stream: Seq<char>,
    buf: Seq<u8>,
    declared: Set<u32>,
    marker: Seq<u8>,
    chain: Seq<PartitionRecordSpan>,
    from: int,
) -> Seq<LevelRecordView>
    decreases buf.len() - from,
{
    if from < 0 || from >= buf.len() {
        Seq::empty()
    } else {
        match spec_level_record(stream, buf, from, declared, marker, chain) {
            Some(r) => seq![r] + level_records_from(stream, buf, declared, marker, chain, from + 1),
            None => level_records_from(stream, buf, declared, marker, chain, from + 1),
        }
    }
}

/// A frame whose category field holds `OST_Levels` carries the category's
/// eight bytes there.
proof fn lemma_levels_bytes(buf: Seq<u8>, p: int)
    requires
        0 <= p,
        p + 8 <= buf.len(),
        as_signed(le_u64(buf, p) as u64) == OST_LEVELS,
    ensures
        occurs_at(buf, level_needle(), p),
{
    let b0 = buf[p] as int;
    let b1 = buf[p + 1] as int;
    let b2 = buf[p + 2] as int;
    let b3 = buf[p + 3] as int;
    let b4 = buf[p + 4] as int;
    let b5 = buf[p + 5] as int;
    let b6 = buf[p + 6] as int;
    let b7 = buf[p + 7] as int;
    let lo = le_u32(buf, p);
    let hi = le_u32(buf, p + 4);
    assert(0 <= lo < 0x1_0000_0000 && 0 <= hi < 0x1_0000_0000);
    assert(le_u64(buf, p) == 0xffff_ffff_ffe1_7a90);
    assert(hi == 0xffff_ffff && lo == 0xffe1_7a90);
    assert(b0 == 0x90 && b1 == 0x7a && b2 == 0xe1 && b3 == 0xff);
    assert(b4 == 0xff && b5 == 0xff && b6 == 0xff && b7 == 0xff);
    assert(level_needle() =~= seq![0x90u8, 0x7a, 0xe1, 0xff, 0xff, 0xff, 0xff, 0xff]);
    assert(buf.subrange(p, p + 8) =~= level_needle());
}

/// From hit position `h` on, the scan keeps what decoding keeps from the
/// offset whose category field starts at `h`.
proof fn lemma_hits_are_offsets(
    stream: Seq<char>,
    buf: Seq<u8>,
    declared: Set<u32>,
    marker: Seq<u8>,
    chain: Seq<PartitionRecordSpan>,
    h: int,
)
    requires
        CATEGORY_OFFSET <= h,
    ensures
        keep_some(hits_from(buf, level_needle(), h), level_hit_fn(stream, buf, declared, marker, chain))
            == level_records_from(stream, buf, declared, marker, chain, h - CATEGORY_OFFSET),
    decreases buf.len() + CATEGORY_OFFSET - h,
{
    let n = level_needle();
    let f = level_hit_fn(stream, buf, declared, marker, chain);
    let o = h - CATEGORY_OFFSET;
    assert(n.len() == 8);
    if o >= buf.len() {
        assert(hits_from(buf, n, h) == Seq::<int>::empty());
    } else {
        lemma_hits_are_offsets(stream, buf, declared, marker, chain, h + 1);
        if occurs_at(buf, n, h) {
            lemma_hits_step(buf, n, h);
            lemma_keep_some_step(hits_from(buf, n, h), f);
        } else {
            assert(hits_from(buf, n, h) == hits_from(buf, n, h + 1));
            if spec_level_record(stream, buf, o, declared, marker, chain) is Some {
                lemma_levels_bytes(buf, h);
            }
        }
    }
}

/// Hits before the first possible category field keep nothing.
proof fn lemma_hits_before_frames(
    stream: Seq<char>,
    buf: Seq<u8>,
    declared: Set<u32>,
    marker: Seq<u8>,
    chain: Seq<PartitionRecordSpan>,
    h: int,
)
    requires
        0 <= h <= CATEGORY_OFFSET,
    ensures
        keep_some(hits_from(buf, level_needle(), h), level_hit_fn(stream, buf, declared, marker, chain))
            == keep_some(
            hits_from(buf, level_needle(), CATEGORY_OFFSET as int),
            level_hit_fn(stream, buf, declared, marker, chain),
        ),
    decreases CATEGORY_OFFSET - h,
{
    let n = level_needle();
    let f = level_hit_fn(stream, buf, declared, marker, chain);
    assert(n.len() == 8);
    if h < CATEGORY_OFFSET {
        lemma_hits_before_frames(stream, buf, declared, marker, chain, h + 1);
        if occurs_at(buf, n, h) {
            lemma_hits_step(buf, n, h);
            lemma_keep_some_step(hits_from(buf, n, h), f);
        } else {
            assert(hits_from(buf, n, h) == hits_from(buf, n, h + 1));
        }
    }
}

/// A Level scan finds what decoding at every offset finds: following the
/// occurrences of the category's eight bytes keeps exactly the records
/// that decode at some offset of the stream, each once, in offset order.
pub proof fn level_scan_decodes_every_offset(
    stream: Seq<char>,
    buf: Seq<u8>,
    declared: Set<u32>,
    marker: Seq<u8>,
    chain: Seq<PartitionRecordSpan>,
)
    ensures
        keep_some(hits_from(buf, level_needle(), 0), level_hit_fn(stream, buf, declared, marker, chain))
            == level_records_from(stream, buf, declared, marker, chain, 0),
{
    lemma_hits_before_frames(stream, buf, declared, marker, chain, 0);
    lemma_hits_are_offsets(stream, buf, declared, marker, chain, CATEGORY_OFFSET as int);
}

/// The Level records every stream holds, in stream order, for the
/// release whose element-record bbox marker is `bbox`: each stream read
/// against its own leading record chain.
pub open spec fn all_level_records(
    parts: Seq<(Seq<char>, Seq<u8>)>,
    declared: Set<u32>,
    bbox: Seq<u8>,
) -> Seq<LevelRecordView>
    decreases parts.len(),
{
    if parts.len() == 0 {
        Seq::empty()
    } else {
        let (stream, b) = parts.last();
        all_level_records(parts.drop_last(), declared, bbox) + keep_some(
            hits_from(b, level_needle(), 0),
            level_hit_fn(
                stream,
                b,
                declared,
                bbox.subrange(2, 8),
                spec_chain_from(b, 0, spec_record_prologue_constant(bbox)),
            ),
        )
    }
}

fn level_records(
    partitions: &[InflatedPartition],
    marker: &[u8; 6],
    bbox: &[u8; 8],
    declared_ids: &BTreeSet<u32>,
) -> (r: Vec<PartitionLevelRecord>)
    requires
        marker@ == bbox@.subrange(2, 8),
    ensures
        level_views(r@) == all_level_records(partition_views(partitions@), declared_ids@, bbox@),
{
    let ghost parts = partition_views(partitions@);
    let mut records: Vec<PartitionLevelRecord> = Vec::new();
    let mut i: usize = 0;
    while i < partitions.len()
        invariant
            i <= partitions@.len(),
            parts == partition_views(partitions@),
            marker@ == bbox@.subrange(2, 8),
            level_views(records@) == all_level_records(parts.take(i as int), declared_ids@, bbox@),
        decreases partitions@.len() - i,
    {
        let part = &partitions[i];
        let buf = part.bytes.as_slice();
        let chain = partition_record_chain(buf, bbox);
        let mut found = find_level_records_with(part.stream.as_str(), buf, declared_ids, marker, chain.as_slice());
        let ghost before = records@;
        let ghost got = found@;
        records.append(&mut found);
        assert(level_views(records@) =~= level_views(before) + level_views(got));
        proof {
            assert(parts.take(i + 1).drop_last() =~= parts.take(i as int));
            assert(parts.take(i + 1).last() == parts[i as int]);
            assert(parts[i as int] == (part.stream@, part.bytes@));
        }
        i += 1;
    }
    assert(parts.take(parts.len() as int) =~= parts);
    records
}

/// Whether a Level record is a Level element: standalone and placed.
pub open spec fn level_element(r: LevelRecordView) -> bool {
    r.container == CONTAINER_NONE && r.placement_kind == PLACEMENT_KIND_INSTANCE
}

/// The ElementIds of the Level elements among `records`.
pub open spec fn level_element_ids(records: Seq<LevelRecordView>) -> Set<u32> {
    Set::new(
        |id: u32|
            exists|k: int| 0 <= k < records.len() && level_element(#[trigger] records[k]) && records[k].element_id == id,
    )
}

/// The ElementIds of every Level element the partitions hold. Empty for a
/// release the layout is not measured on, or with nothing declared.
pub fn scan_partition_level_ids(
    partitions: &[InflatedPartition],
    revit_version: u32,
    declared_ids: &BTreeSet<u32>,
) -> (r: BTreeSet<u32>)
    ensures
        spec_bbox_marker(revit_version) is None || declared_ids@.is_empty() ==> r@.is_empty(),
        spec_bbox_marker(revit_version) is Some && !declared_ids@.is_empty() ==> r@ == level_element_ids(
            all_level_records(partition_views(partitions@), declared_ids@, spec_bbox_marker(revit_version)->0),
        ),
{
    let mut out: BTreeSet<u32> = BTreeSet::new();
    let (marker, bbox) = match (record_marker(revit_version), crate::partition_element_records::bbox_marker(revit_version)) {
        (Some(m), Some(b)) => (m, b),
        _ => {
            assert(out@ =~= Set::<u32>::empty());
            return out;
        },
    };
    if declared_ids.is_empty() {
        assert(out@ =~= Set::<u32>::empty());
        return out;
    }
    let records = level_records(partitions, &marker, &bbox, declared_ids);
    let ghost rv = level_views(records@);
    let mut k: usize = 0;
    while k < records.len()
        invariant
            k <= records@.len(),
            rv == level_views(records@),
            out@ == level_element_ids(rv.take(k as int)),
        decreases records@.len() - k,
    {
        let ghost before = out@;
        let record = &records[k];
        assert(rv[k as int] == record@);
        if record.is_level_element() {
            out.insert(record.element_id);
        }
        proof {
            assert forall|id: u32| out@.contains(id) <==> level_element_ids(rv.take(k + 1)).contains(id) by {
                if level_element_ids(rv.take(k + 1)).contains(id) {
                    let j = choose|j: int| 0 <= j < k + 1 && level_element(#[trigger] rv.take(k + 1)[j]) && rv.take(k + 1)[j].element_id == id;
                    if j < k {
                        assert(level_element(rv.take(k as int)[j]));
                        assert(before.contains(id));
                    }
                }
                if before.contains(id) {
                    let j = choose|j: int| 0 <= j < k && level_element(#[trigger] rv.take(k as int)[j]) && rv.take(k as int)[j].element_id == id;
                    assert(level_element(rv.take(k + 1)[j]));
                }
                if out@.contains(id) && !before.contains(id) {
                    assert(level_element(rv.take(k + 1)[k as int]));
                }
            }
            assert(out@ =~= level_element_ids(rv.take(k + 1)));
        }
        k += 1;
    }
    assert(rv.take(rv.len() as int) =~= rv);
    out
}

/// Bytes from a Level's name block's owner slot to its name.
pub const OWNER_OFFSET_BEFORE_NAME: usize = 0x47;
/// Bytes the name's `u32` length sits before the name.
pub const LENGTH_PREFIX_OFFSET_BEFORE_NAME: usize = 4;
/// Longest Level name, in UTF-16 code units.
pub const MAX_NAME_CHARS: usize = 128;

/// `01 00 00 00 · u64 id`.
pub open spec fn owner_needle(id: u32) -> Seq<u8> {
    seq![1u8, 0, 0, 0] + spec_le_bytes(id as u64)
}

/// Whether the name block whose needle starts at `hit` names an owner: a
/// name length of 1 to [`MAX_NAME_CHARS`], eight `ff` bytes after the
/// ElementId, then a non-zero `u64` below `u32::MAX`.
pub open spec fn owned_at(buf: Seq<u8>, hit: int) -> bool {
    let owner_at = hit + 4;
    let length_at = owner_at + OWNER_OFFSET_BEFORE_NAME - LENGTH_PREFIX_OFFSET_BEFORE_NAME;
    &&& length_at + 4 <= buf.len()
    &&& 1 <= le_u32(buf, length_at) <= MAX_NAME_CHARS
    &&& owner_at + 24 <= buf.len()
    &&& forall|k: int| owner_at + 8 <= k < owner_at + 16 ==> #[trigger] buf[k] == 0xff
    &&& le_u64(buf, owner_at + 16) != 0
    &&& le_u64(buf, owner_at + 16) < 0xffff_ffff
}

/// Whether some name block of `id`, as `memmem::find_iter` reports their
/// needles, names an owner.
pub open spec fn level_owned(buf: Seq<u8>, id: u32) -> bool {
    let hits = iter_hits_from(buf, owner_needle(id), 0);
    exists|k: int| 0 <= k < hits.len() && owned_at(buf, #[trigger] hits[k])
}

fn owned_hit(buf: &[u8], hit: usize) -> (r: bool)
    ensures
        r == owned_at(buf@, hit as int),
{
    let len = buf.len();
    if hit > len || len - hit < 4 + 24 || len - hit < 4 + OWNER_OFFSET_BEFORE_NAME {
        return false;
    }
    let owner_at = hit + 4;
    let chars = read_u32(buf, owner_at + OWNER_OFFSET_BEFORE_NAME - LENGTH_PREFIX_OFFSET_BEFORE_NAME).unwrap();
    if chars < 1 || chars as usize > MAX_NAME_CHARS {
        return false;
    }
    let stop = owner_at + 16;
    let mut k: usize = owner_at + 8;
    while k < stop
        invariant
            owner_at == hit + 4,
            stop == owner_at + 16,
            owner_at + 8 <= k <= stop,
            owner_at + 24 <= buf@.len(),
            1 <= chars <= MAX_NAME_CHARS,
            chars == le_u32(buf@, owner_at + OWNER_OFFSET_BEFORE_NAME - LENGTH_PREFIX_OFFSET_BEFORE_NAME),
            owner_at + OWNER_OFFSET_BEFORE_NAME <= buf@.len(),
            forall|j: int| owner_at + 8 <= j < k ==> #[trigger] buf@[j] == 0xff,
        decreases stop - k,
    {
        if buf[k] != 0xff {
            assert(buf@[k as int] != 0xff);
            return false;
        }
        k += 1;
    }
    let owner = read_u64(buf, owner_at + 16).unwrap();
    owner != 0 && owner < 0xffff_ffff
}

/// The Levels of `level_ids` whose name block names an owner: the
/// ElementId at the block's owner slot is followed by eight `0xff` bytes and
/// then another element's ElementId, where a project Level's block has an
/// unbroken sentinel run (RE-51).
pub fn owned_level_ids(buf: &[u8], level_ids: &BTreeSet<u32>) -> (r: BTreeSet<u32>)
    ensures
        forall|id: u32| #[trigger] r@.contains(id) <==> level_ids@.contains(id) && level_owned(buf@, id),
{
    let ids = crate::partition_names::set_elements(level_ids);
    let mut out: BTreeSet<u32> = BTreeSet::new();
    let mut i: usize = 0;
    while i < ids.len()
        invariant
            i <= ids@.len(),
            ids@.to_set() == level_ids@,
            forall|id: u32| #[trigger] out@.contains(id) <==> ids@.take(i as int).contains(id) && level_owned(buf@, id),
        decreases ids@.len() - i,
    {
        let id = ids[i];
        let bytes = u64_le_bytes(id as u64);
        let needle: [u8; 12] = [1, 0, 0, 0, bytes[0], bytes[1], bytes[2], bytes[3], bytes[4], bytes[5], bytes[6], bytes[7]];
        assert(needle@ =~= owner_needle(id));
        let hits = find_iter_all(buf, &needle);
        let ghost ps = positions(hits@);
        let mut found = false;
        let mut k: usize = 0;
        while k < hits.len()
            invariant
                k <= hits@.len(),
                ps == positions(hits@),
                ps == iter_hits_from(buf@, owner_needle(id), 0),
                found <==> exists|j: int| 0 <= j < k && owned_at(buf@, #[trigger] ps[j]),
            decreases hits@.len() - k,
        {
            if owned_hit(buf, hits[k]) {
                found = true;
            }
            assert(ps[k as int] == hits@[k as int]);
            k += 1;
        }
        let ghost before = out@;
        if found {
            out.insert(id);
        }
        proof {
            assert forall|x: u32| #[trigger] out@.contains(x) <==> ids@.take(i + 1).contains(x) && level_owned(buf@, x) by {
                assert(ids@.take(i + 1) =~= ids@.take(i as int).push(id));
                crate::bytes::lemma_push_contains(ids@.take(i as int), id, x);
            }
        }
        i += 1;
    }
    proof {
        assert(ids@.take(ids@.len() as int) =~= ids@);
        assert forall|id: u32| #[trigger] out@.contains(id) <==> level_ids@.contains(id) && level_owned(buf@, id) by {
            assert(ids@.to_set().contains(id) == ids@.contains(id));
        }
    }
    out
}

/// What the object prefix found at `at` says of a Level: an object
/// `01 00 00 00 · u64 id · u64 level` whose id is declared and not itself
/// a Level, and whose level is one of `level_ids`.
pub open spec fn level_object_at(b: Seq<u8>, declared: Set<u32>, level_ids: Set<u32>, at: int) -> Option<
    (u32, u32),
> {
    let id = le_u64(b, at + 4);
    let level = le_u64(b, at + 12);
    if at + 20 <= b.len() && id <= 0xffff_ffff && level <= 0xffff_ffff && declared.contains(id as u32)
        && !level_ids.contains(id as u32) && level_ids.contains(level as u32) {
        Some((id as u32, level as u32))
    } else {
        None
    }
}

/// [`level_object_at`] for a fixed buffer.
pub open spec fn level_object_fn(b: Seq<u8>, declared: Set<u32>, level_ids: Set<u32>) -> spec_fn(
    int,
) -> Option<(u32, u32)> {
    |at: int| level_object_at(b, declared, level_ids, at)
}

/// The `(object, level)` pairs every stream holds, in stream order.
pub open spec fn all_level_objects(
    parts: Seq<(Seq<char>, Seq<u8>)>,
    declared: Set<u32>,
    level_ids: Set<u32>,
) -> Seq<(u32, u32)>
    decreases parts.len(),
{
    if parts.len() == 0 {
        Seq::empty()
    } else {
        let b = parts.last().1;
        all_level_objects(parts.drop_last(), declared, level_ids) + keep_some(
            iter_hits_from(b, seq![1u8, 0, 0, 0], 0),
            level_object_fn(b, declared, level_ids),
        )
    }
}

fn find_level_objects(buf: &[u8], declared: &BTreeSet<u32>, level_ids: &BTreeSet<u32>) -> (r: Vec<
    (u32, u32),
>)
    ensures
        r@ == keep_some(
            iter_hits_from(buf@, seq![1u8, 0, 0, 0], 0),
            level_object_fn(buf@, declared@, level_ids@),
        ),
{
    let prefix: [u8; 4] = [1, 0, 0, 0];
    assert(prefix@ =~= seq![1u8, 0, 0, 0]);
    let hits = find_iter_all(buf, &prefix);
    let ghost ps = positions(hits@);
    let ghost f = level_object_fn(buf@, declared@, level_ids@);
    let mut out: Vec<(u32, u32)> = Vec::new();
    let mut k: usize = 0;
    assert(ps.take(0) =~= Seq::<int>::empty());
    while k < hits.len()
        invariant
            k <= hits@.len(),
            ps == positions(hits@),
            ps == iter_hits_from(buf@, seq![1u8, 0, 0, 0], 0),
            f == level_object_fn(buf@, declared@, level_ids@),
            out@ == keep_some(ps.take(k as int), f),
        decreases hits@.len() - k,
    {
        let at = hits[k];
        proof {
            assert(ps.take(k + 1) =~= ps.take(k as int).push(at as int));
            lemma_keep_some_push(ps.take(k as int), at as int, f);
        }
        let len = buf.len();
        if at <= len && len - at >= 20 {
            let id = read_u64(buf, at + 4).unwrap();
            let level = read_u64(buf, at + 12).unwrap();
            if id <= 0xffff_ffff && level <= 0xffff_ffff && declared.contains(&(id as u32))
                && !level_ids.contains(&(id as u32)) && level_ids.contains(&(level as u32)) {
                out.push((id as u32, level as u32));
            }
        }
        k += 1;
    }
    assert(ps.take(ps.len() as int) =~= ps);
    out
}

/// The Level each object of another element names, by the object's
/// ElementId, from every partition: an object `01 00 00 00 · u64 id · u64
/// level` with a declared id that is not a Level and a level in
/// `level_ids`. An object whose copies name different Levels is dropped.
pub fn scan_level_objects(
    partitions: &[InflatedPartition],
    declared: &BTreeSet<u32>,
    level_ids: &BTreeSet<u32>,
) -> (r: BTreeMap<u32, u32>)
    ensures
        is_collapse_of(r@, all_level_objects(partition_views(partitions@), declared@, level_ids@)),
{
    let ghost parts = partition_views(partitions@);
    let mut entries: Vec<(u32, u32)> = Vec::new();
    let mut i: usize = 0;
    while i < partitions.len()
        invariant
            i <= partitions@.len(),
            parts == partition_views(partitions@),
            entries@ == all_level_objects(parts.take(i as int), declared@, level_ids@),
        decreases partitions@.len() - i,
    {
        let part = &partitions[i];
        let mut found = find_level_objects(part.bytes.as_slice(), declared, level_ids);
        let ghost before = entries@;
        let ghost got = found@;
        entries.append(&mut found);
        proof {
            assert(parts.take(i + 1).drop_last() =~= parts.take(i as int));
            assert(parts.take(i + 1).last() == parts[i as int]);
            assert(parts[i as int] == (part.stream@, part.bytes@));
        }
        i += 1;
    }
    assert(parts.take(parts.len() as int) =~= parts);
    let r = collapse_values(&entries);
    assert(id_values(entries@) =~= entries@);
    r
}

proof fn lemma_level_records_declared(parts: Seq<(Seq<char>, Seq<u8>)>, declared: Set<u32>, bbox: Seq<u8>, k: int)
    requires
        0 <= k < all_level_records(parts, declared, bbox).len(),
    ensures
        declared.contains(all_level_records(parts, declared, bbox)[k].element_id),
    decreases parts.len(),
{
    if parts.len() > 0 {
        let (stream, b) = parts.last();
        let front = all_level_records(parts.drop_last(), declared, bbox);
        let hits = hits_from(b, level_needle(), 0);
        let f = level_hit_fn(
            stream,
            b,
            declared,
            bbox.subrange(2, 8),
            spec_chain_from(b, 0, spec_record_prologue_constant(bbox)),
        );
        let back = keep_some(hits, f);
        assert(all_level_records(parts, declared, bbox) == front + back);
        if k < front.len() {
            lemma_level_records_declared(parts.drop_last(), declared, bbox, k);
            assert(all_level_records(parts, declared, bbox)[k] == front[k]);
        } else {
            crate::bytes::lemma_keep_some_member(hits, f, k - front.len());
            let j = choose|j: int| 0 <= j < hits.len() && f(#[trigger] hits[j]) == Some(back[k - front.len()]);
            assert(all_level_records(parts, declared, bbox)[k] == back[k - front.len()]);
        }
    }
}

/// Every Level element the partitions yield is a declared element.
pub proof fn level_ids_are_declared(parts: Seq<(Seq<char>, Seq<u8>)>, declared: Set<u32>, bbox: Seq<u8>, id: u32)
    requires
        level_element_ids(all_level_records(parts, declared, bbox)).contains(id),
    ensures
        declared.contains(id),
{
    let records = all_level_records(parts, declared, bbox);
    let k = choose|k: int| 0 <= k < records.len() && level_element(#[trigger] records[k]) && records[k].element_id == id;
    lemma_level_records_declared(parts, declared, bbox, k);
}

/// Length of the `0xff` run between a name block's owner slot and its
/// name's length.
pub const OWNER_SENTINEL_RUN_LEN: usize = 56;
/// Bytes before the elevation that recur, with it, in its confirming copy.
pub const ELEVATION_CONFIRM_LEAD_IN: usize = 24;
/// Bytes from the elevation marker to the elevation double.
pub const ELEVATION_OFFSET_AFTER_MARKER: usize = 55;
/// Bytes from the first elevation copy to the confirming copy on Revit
/// 2024's Core Interior sample; the copy is found, not assumed.
pub const ELEVATION_CONFIRM_STRIDE: usize = 153;
/// How far past the name the elevation marker may sit, and past the
/// elevation its confirming copy.
pub const ELEVATION_MARKER_SEARCH_BYTES: usize = 2048;
/// The IEEE-754 word of the largest elevation magnitude accepted, 1e7 ft:
/// wider than any building, so a marker that landed in unrelated bytes
/// cannot become a storey.
pub const MAX_ELEVATION_BITS: u64 = 0x4163_12d0_0000_0000;

/// Whether an elevation word is finite with a magnitude of at most
/// [`MAX_ELEVATION_BITS`]' value.
pub open spec fn elevation_in_range(bits: u64) -> bool {
    bits % 0x8000_0000_0000_0000 <= MAX_ELEVATION_BITS
}

/// A name/elevation block found in one inflated stream, before any owner
/// filtering. The elevation is kept as its IEEE-754 word (feet).
#[derive(Debug, Clone, PartialEq, Eq)]
pub struct NameElevationBlock {
    /// ElementId the block belongs to.
    pub element_id: u32,
    /// The name, verbatim.
    pub name: String,
    /// The elevation agreed by both copies.
    pub elevation_bits: u64,
}

/// A block as values.
pub struct NameBlockView {
    pub element_id: u32,
    pub name: Seq<char>,
    pub elevation_bits: u64,
}

impl View for NameElevationBlock {
    type V = NameBlockView;

    open spec fn view(&self) -> NameBlockView {
        NameBlockView { element_id: self.element_id, name: self.name@, elevation_bits: self.elevation_bits }
    }
}

/// Whether `b[lo..hi]` holds `v` throughout.
pub open spec fn all_bytes(b: Seq<u8>, lo: int, hi: int, v: u8) -> bool {
    forall|i: int| lo <= i < hi ==> #[trigger] b[i] == v
}

/// Where the search for a block's elevation marker ends: 2048 bytes past
/// the name, or the buffer's end.
pub open spec fn search_end(b: Seq<u8>, from: int) -> int {
    if from + ELEVATION_MARKER_SEARCH_BYTES <= b.len() {
        from + ELEVATION_MARKER_SEARCH_BYTES
    } else {
        b.len() as int
    }
}

/// The block whose `0xff` run starts at `run_start`: an owner `u64` before
/// a run of exactly 56 `ff` and three zero bytes, the owner a declared
/// non-zero `u32`; a `u32` name length of 1 to [`MAX_NAME_CHARS`] and that
/// many UTF-16 units that decode with no control character; the release's
/// `marker` within 2048 bytes past the name, the elevation 55 bytes past
/// it in range, and a second copy of the elevation with the same 24 bytes
/// before it within 2048 bytes past the first.
pub open spec fn spec_name_block(b: Seq<u8>, run_start: int, declared: Set<u32>, marker: Seq<u8>) -> Option<
    NameBlockView,
> {
    let value = run_start + OWNER_OFFSET_BEFORE_NAME - 8;
    let owner = le_u64(b, run_start - 8);
    let chars = le_u32(b, value - LENGTH_PREFIX_OFFSET_BEFORE_NAME);
    let end = value + 2 * chars;
    let name = utf16_decode(name_units(b, value, chars));
    let window = b.subrange(end, search_end(b, end));
    let found = next_occurrence(window, marker, 0);
    let at = end + found->0 + ELEVATION_OFFSET_AFTER_MARKER;
    let bits = le_u64(b, at) as u64;
    let copy = b.subrange(at - ELEVATION_CONFIRM_LEAD_IN, at + 8);
    let after = b.subrange(at + 8, search_end(b, at + 8));
    if 8 <= run_start && value <= b.len() && all_bytes(b, run_start, run_start + OWNER_SENTINEL_RUN_LEN, 0xff)
        && all_bytes(b, run_start + OWNER_SENTINEL_RUN_LEN, value - LENGTH_PREFIX_OFFSET_BEFORE_NAME, 0)
        && owner != 0 && owner <= 0xffff_ffff && declared.contains(owner as u32) && 1 <= chars
        <= MAX_NAME_CHARS && end <= b.len() && name is Some && !has_control(name->0) && found is Some
        && at + 8 <= b.len() && elevation_in_range(bits) && next_occurrence(after, copy, 0) is Some {
        Some(NameBlockView { element_id: owner as u32, name: name->0, elevation_bits: bits })
    } else {
        None
    }
}

fn units_from(buf: &[u8], start: usize, n: usize) -> (r: Vec<u16>)
    requires
        start + 2 * n <= buf.len(),
    ensures
        r@ == name_units(buf@, start as int, n as int),
{
    let mut units: Vec<u16> = Vec::new();
    let mut k: usize = 0;
    while k < n
        invariant
            k <= n,
            start + 2 * n <= buf.len(),
            units@ == name_units(buf@, start as int, k as int),
        decreases n - k,
    {
        let unit = read_u16(buf, start + 2 * k).unwrap();
        units.push(unit);
        assert(units@ =~= name_units(buf@, start as int, k + 1));
        k += 1;
    }
    units
}

fn bytes_are(buf: &[u8], lo: usize, hi: usize, v: u8) -> (r: bool)
    requires
        lo <= hi <= buf@.len(),
    ensures
        r == all_bytes(buf@, lo as int, hi as int, v),
{
    let mut i: usize = lo;
    while i < hi
        invariant
            lo <= i <= hi <= buf@.len(),
            all_bytes(buf@, lo as int, i as int, v),
        decreases hi - i,
    {
        if buf[i] != v {
            assert(buf@[i as int] != v);
            return false;
        }
        i += 1;
    }
    true
}

fn search_end_of(buf: &[u8], from: usize) -> (r: usize)
    requires
        from <= buf@.len(),
    ensures
        r == search_end(buf@, from as int),
        from <= r <= buf@.len(),
{
    if buf.len() - from >= ELEVATION_MARKER_SEARCH_BYTES {
        from + ELEVATION_MARKER_SEARCH_BYTES
    } else {
        buf.len()
    }
}

/// [`spec_name_block`] at `run_start` for a release's elevation `marker`.
pub fn decode_name_block_at_with(
    buf: &[u8],
    run_start: usize,
    declared_ids: &BTreeSet<u32>,
    marker: &[u8],
) -> (r: Option<NameElevationBlock>)
    ensures
        match r {
            Some(block) => spec_name_block(buf@, run_start as int, declared_ids@, marker@) == Some(block@),
            None => spec_name_block(buf@, run_start as int, declared_ids@, marker@) is None,
        },
{
    let len = buf.len();
    if run_start < 8 || run_start > len || len - run_start < OWNER_OFFSET_BEFORE_NAME - 8 {
        return None;
    }
    let value = run_start + (OWNER_OFFSET_BEFORE_NAME - 8);
    if !bytes_are(buf, run_start, run_start + OWNER_SENTINEL_RUN_LEN, 0xff) || !bytes_are(
        buf,
        run_start + OWNER_SENTINEL_RUN_LEN,
        value - LENGTH_PREFIX_OFFSET_BEFORE_NAME,
        0,
    ) {
        return None;
    }
    let owner = read_u64(buf, run_start - 8).unwrap();
    if owner == 0 || owner > 0xffff_ffff || !declared_ids.contains(&(owner as u32)) {
        return None;
    }
    let chars = read_u32(buf, value - LENGTH_PREFIX_OFFSET_BEFORE_NAME).unwrap() as usize;
    if chars == 0 || chars > MAX_NAME_CHARS || len - value < 2 * chars {
        return None;
    }
    let end = value + 2 * chars;
    let units = units_from(buf, value, chars);
    let name = match crate::text::from_utf16(units.as_slice()) {
        Some(n) => n,
        None => {
            return None;
        },
    };
    let name_chars = crate::text::chars_of(name.as_str());
    if crate::text::any_control(&name_chars) {
        return None;
    }
    if marker.len() == 0 {
        assert(next_occurrence(buf@.subrange(end as int, search_end(buf@, end as int)), marker@, 0) is None);
        return None;
    }
    let wend = search_end_of(buf, end);
    let window = &buf[end..wend];
    let found = match crate::bytes::find_next(window, 0, marker) {
        Some(f) => f,
        None => {
            return None;
        },
    };
    proof {
        crate::bytes::lemma_next_occurrence_bounds(window@, marker@, 0);
    }
    if len - (end + found) < ELEVATION_OFFSET_AFTER_MARKER + 8 {
        return None;
    }
    let at = end + found + ELEVATION_OFFSET_AFTER_MARKER;
    let bits = read_u64(buf, at).unwrap();
    if bits % 0x8000_0000_0000_0000 > MAX_ELEVATION_BITS {
        return None;
    }
    let copy = &buf[at - ELEVATION_CONFIRM_LEAD_IN..at + 8];
    let aend = search_end_of(buf, at + 8);
    let after = &buf[at + 8..aend];
    if crate::bytes::find_next(after, 0, copy).is_none() {
        return None;
    }
    Some(NameElevationBlock { element_id: owner as u32, name, elevation_bits: bits })
}

/// [`decode_name_block_at_with`] with the marker measured on Revit 2024.
pub fn decode_name_block_at(buf: &[u8], run_start: usize, declared_ids: &BTreeSet<u32>) -> (r: Option<
    NameElevationBlock,
>)
    ensures
        match r {
            Some(block) => spec_name_block(buf@, run_start as int, declared_ids@, ELEVATION_MARKER@.take(6))
                == Some(block@),
            None => spec_name_block(buf@, run_start as int, declared_ids@, ELEVATION_MARKER@.take(6)) is None,
        },
{
    let marker = ELEVATION_MARKER;
    let six = &marker.as_slice()[0..6];
    assert(six@ =~= ELEVATION_MARKER@.take(6));
    decode_name_block_at_with(buf, run_start, declared_ids, six)
}

/// Whether `p` starts a run of `0xff`: its byte is `ff` and the byte
/// before it, if any, is not.
pub open spec fn run_starts_at(b: Seq<u8>, p: int) -> bool {
    0 <= p < b.len() && b[p] == 0xff && (p == 0 || b[p - 1] != 0xff)
}

/// The block decoded at `p`, when `p` starts a run of `0xff`.
pub open spec fn block_at_run(b: Seq<u8>, declared: Set<u32>, marker: Seq<u8>, p: int) -> Option<NameBlockView> {
    if run_starts_at(b, p) {
        spec_name_block(b, p, declared, marker)
    } else {
        None
    }
}

/// [`block_at_run`] for a fixed buffer.
pub open spec fn block_fn(b: Seq<u8>, declared: Set<u32>, marker: Seq<u8>) -> spec_fn(int) -> Option<NameBlockView> {
    |p: int| block_at_run(b, declared, marker, p)
}

/// Every name/elevation block of a buffer, in order: the block at the start
/// of each run of `0xff`, where one decodes.
pub open spec fn spec_name_blocks(b: Seq<u8>, declared: Set<u32>, marker: Seq<u8>) -> Seq<NameBlockView> {
    keep_some(indices(b.len()), block_fn(b, declared, marker))
}

/// Blocks as values.
pub open spec fn block_views(v: Seq<NameElevationBlock>) -> Seq<NameBlockView> {
    v.map_values(|b: NameElevationBlock| b@)
}

/// Every name/elevation block in one inflated stream, for a release's
/// elevation `marker`: each maximal run of `0xff` is tried where it starts,
/// since the owner slot before a block's run is an ElementId whose high
/// four bytes are zero.
pub fn find_name_blocks_with(buf: &[u8], declared_ids: &BTreeSet<u32>, marker: &[u8]) -> (r: Vec<
    NameElevationBlock,
>)
    ensures
        block_views(r@) == spec_name_blocks(buf@, declared_ids@, marker@),
{
    let ghost f = block_fn(buf@, declared_ids@, marker@);
    let mut out: Vec<NameElevationBlock> = Vec::new();
    let mut index: usize = 0;
    assert(indices(0) =~= Seq::<int>::empty());
    while index < buf.len()
        invariant
            index <= buf@.len(),
            f == block_fn(buf@, declared_ids@, marker@),
            block_views(out@) == keep_some(indices(index as nat), f),
        decreases buf@.len() - index,
    {
        proof {
            assert(indices((index + 1) as nat) =~= indices(index as nat).push(index as int));
            crate::bytes::lemma_keep_some_push(indices(index as nat), index as int, f);
        }
        let starts = buf[index] == 0xff && (index == 0 || buf[index - 1] != 0xff);
        if starts {
            match decode_name_block_at_with(buf, index, declared_ids, marker) {
                Some(block) => {
                    let ghost before = out@;
                    out.push(block);
                    assert(block_views(out@) =~= block_views(before).push(block@));
                },
                None => {},
            }
        }
        index += 1;
    }
    out
}

/// [`find_name_blocks_with`] with the marker measured on Revit 2024.
pub fn find_name_blocks(buf: &[u8], declared_ids: &BTreeSet<u32>) -> (r: Vec<NameElevationBlock>)
    ensures
        block_views(r@) == spec_name_blocks(buf@, declared_ids@, ELEVATION_MARKER@.take(6)),
{
    let marker = ELEVATION_MARKER;
    let six = &marker.as_slice()[0..6];
    assert(six@ =~= ELEVATION_MARKER@.take(6));
    find_name_blocks_with(buf, declared_ids, six)
}

/// One recovered Revit Level. The elevation is kept as its IEEE-754 word
/// (feet).
#[derive(Debug, Clone, PartialEq, Eq)]
pub struct PartitionLevel {
    /// The Level's ElementId.
    pub element_id: u32,
    /// The Level's display name, verbatim.
    pub name: String,
    /// The Level's elevation.
    pub elevation_bits: u64,
}

/// A Level as values.
pub struct LevelView {
    pub element_id: u32,
    pub name: Seq<char>,
    pub elevation_bits: u64,
}

impl View for PartitionLevel {
    type V = LevelView;

    open spec fn view(&self) -> LevelView {
        LevelView { element_id: self.element_id, name: self.name@, elevation_bits: self.elevation_bits }
    }
}

/// Levels as values.
pub open spec fn level_list_views(v: Seq<PartitionLevel>) -> Seq<LevelView> {
    v.map_values(|l: PartitionLevel| l@)
}

/// Whether an IEEE-754 word is a NaN.
pub open spec fn is_nan_bits(bits: u64) -> bool {
    bits % 0x8000_0000_0000_0000 > 0x7ff0_0000_0000_0000
}

/// The storey order: by elevation, then by ElementId.
pub open spec fn level_before(a: LevelView, b: LevelView) -> bool {
    f64_bits_key(a.elevation_bits) < f64_bits_key(b.elevation_bits) || (f64_bits_key(a.elevation_bits)
        == f64_bits_key(b.elevation_bits) && a.element_id < b.element_id)
}

/// Whether `id` is a Level of `ids` that some block names and on whose
/// name and elevation all its blocks agree.
#[verifier::opaque]
pub open spec fn level_kept(bs: Seq<NameBlockView>, ids: Set<u32>, id: u32) -> bool {
    &&& ids.contains(id)
    &&& exists|k: int| 0 <= k < bs.len() && #[trigger] bs[k].element_id == id
    &&& forall|k: int, l: int|
        0 <= k < bs.len() && 0 <= l < bs.len() && #[trigger] bs[k].element_id == id && #[trigger] bs[l].element_id
            == id ==> bs[k].name == bs[l].name && bs[k].elevation_bits == bs[l].elevation_bits
}

/// Whether `l` is what a block of `bs` says of its Level.
#[verifier::opaque]
pub open spec fn level_from_blocks(bs: Seq<NameBlockView>, l: LevelView) -> bool {
    exists|k: int|
        0 <= k < bs.len() && #[trigger] bs[k].element_id == l.element_id && bs[k].name == l.name
            && bs[k].elevation_bits == l.elevation_bits
}

fn level_record_ids(records: &[PartitionLevelRecord]) -> (r: BTreeSet<u32>)
    ensures
        r@ == level_element_ids(level_views(records@)),
{
    let ghost rv = level_views(records@);
    let mut out: BTreeSet<u32> = BTreeSet::new();
    let mut k: usize = 0;
    while k < records.len()
        invariant
            k <= records@.len(),
            rv == level_views(records@),
            forall|id: u32|
                #[trigger] out@.contains(id) <==> exists|q: int|
                    0 <= q < k && level_element(#[trigger] rv[q]) && rv[q].element_id == id,
        decreases records@.len() - k,
    {
        let r = &records[k];
        assert(rv[k as int] == r@);
        if r.is_level_element() {
            out.insert(r.element_id);
        }
        k += 1;
    }
    assert(out@ =~= level_element_ids(rv));
    out
}

fn first_of_id(blocks: &Vec<NameElevationBlock>, i: usize) -> (r: bool)
    requires
        i < blocks@.len(),
    ensures
        r == forall|k: int|
            0 <= k < i ==> #[trigger] block_views(blocks@)[k].element_id != block_views(blocks@)[i as int].element_id,
{
    let ghost bs = block_views(blocks@);
    let id = blocks[i].element_id;
    assert(bs[i as int].element_id == id);
    let mut k: usize = 0;
    while k < i
        invariant
            k <= i < blocks@.len(),
            bs == block_views(blocks@),
            id == bs[i as int].element_id,
            forall|q: int| 0 <= q < k ==> #[trigger] bs[q].element_id != id,
        decreases i - k,
    {
        assert(bs[k as int].element_id == blocks@[k as int].element_id);
        if blocks[k].element_id == id {
            return false;
        }
        k += 1;
    }
    true
}

fn blocks_agree(blocks: &Vec<NameElevationBlock>, i: usize) -> (r: bool)
    requires
        i < blocks@.len(),
    ensures
        r == forall|k: int|
            0 <= k < blocks@.len() && #[trigger] block_views(blocks@)[k].element_id == block_views(blocks@)[i as int].element_id
                ==> block_views(blocks@)[k].name == block_views(blocks@)[i as int].name && block_views(blocks@)[k].elevation_bits
                == block_views(blocks@)[i as int].elevation_bits,
{
    let ghost bs = block_views(blocks@);
    let b = &blocks[i];
    assert(bs[i as int] == b@);
    let mut k: usize = 0;
    while k < blocks.len()
        invariant
            k <= blocks@.len(),
            i < blocks@.len(),
            bs == block_views(blocks@),
            bs[i as int] == b@,
            forall|q: int|
                0 <= q < k && #[trigger] bs[q].element_id == b.element_id ==> bs[q].name == b.name@
                    && bs[q].elevation_bits == b.elevation_bits,
        decreases blocks@.len() - k,
    {
        let c = &blocks[k];
        assert(bs[k as int] == c@);
        if c.element_id == b.element_id && (c.name != b.name || c.elevation_bits != b.elevation_bits) {
            assert(bs[k as int].element_id == bs[i as int].element_id);
            assert(!(bs[k as int].name == bs[i as int].name && bs[k as int].elevation_bits == bs[i as int].elevation_bits));
            return false;
        }
        k += 1;
    }
    true
}

fn key_of(bits: u64) -> (r: i128)
    ensures
        r == f64_bits_key(bits),
{
    crate::partition_element_records::f64_key(bits)
}

/// Whether the Levels are in storey order, each strictly before the next.
pub open spec fn levels_sorted(v: Seq<LevelView>) -> bool {
    forall|i: int, j: int| 0 <= i < j < v.len() ==> level_before(#[trigger] v[i], #[trigger] v[j])
}

fn insert_level(out: &mut Vec<PartitionLevel>, level: PartitionLevel) -> (pos: usize)
    requires
        levels_sorted(level_list_views(old(out)@)),
        forall|p: int| 0 <= p < old(out)@.len() ==> #[trigger] old(out)@[p].element_id != level.element_id,
    ensures
        pos <= old(out)@.len(),
        level_list_views(final(out)@) == level_list_views(old(out)@).insert(pos as int, level@),
        levels_sorted(level_list_views(final(out)@)),
{
    let ghost before = level_list_views(out@);
    let key = key_of(level.elevation_bits);
    let mut pos: usize = 0;
    while pos < out.len() && (key_of(out[pos].elevation_bits) < key || (key_of(out[pos].elevation_bits) == key
        && out[pos].element_id < level.element_id))
        invariant
            pos <= out@.len(),
            before == level_list_views(out@),
            key == f64_bits_key(level.elevation_bits),
            forall|q: int| 0 <= q < pos ==> level_before(#[trigger] before[q], level@),
        decreases out@.len() - pos,
    {
        assert(before[pos as int] == out@[pos as int]@);
        pos += 1;
    }
    proof {
        if pos < before.len() {
            assert(before[pos as int] == out@[pos as int]@);
            assert(before[pos as int].element_id != level.element_id);
        }
        assert forall|q: int| pos <= q < before.len() implies level_before(level@, #[trigger] before[q]) by {
            assert(before[q] == out@[q]@);
            assert(out@[q].element_id != level.element_id);
            if q > pos {
                assert(level_before(before[pos as int], before[q]));
            }
        }
    }
    out.insert(pos, level);
    proof {
        let after = level_list_views(out@);
        assert(after =~= before.insert(pos as int, level@));
        assert forall|p: int, q: int| 0 <= p < q < after.len() implies level_before(
            #[trigger] after[p],
            #[trigger] after[q],
        ) by {
            if q < pos {
            } else if q == pos {
            } else if p < pos {
                assert(after[q] == before[q - 1]);
            } else if p == pos {
                assert(after[q] == before[q - 1]);
            } else {
                assert(after[p] == before[p - 1] && after[q] == before[q - 1]);
            }
        }
    }
    pos
}

proof fn lemma_level_inserted(
    bs: Seq<NameBlockView>,
    lid: Set<u32>,
    before: Seq<LevelView>,
    after: Seq<LevelView>,
    pos: int,
    x: LevelView,
    i: int,
)
    requires
        0 <= pos <= before.len(),
        0 <= i < bs.len(),
        after == before.insert(pos, x),
        bs[i].element_id == x.element_id,
        level_kept(bs, lid, x.element_id),
        level_from_blocks(bs, x),
        forall|p: int| #![trigger before[p]] 0 <= p < before.len() ==> level_kept(bs, lid, before[p].element_id) && level_from_blocks(
            bs,
            before[p],
        ),
        forall|p: int| #![trigger before[p]] 0 <= p < before.len() ==> named_before(bs, i, before[p].element_id),
        forall|k: int| 0 <= k < i && #[trigger] level_kept(bs, lid, bs[k].element_id) ==> holds_level(before, bs[k].element_id),
    ensures
        forall|p: int| #![trigger after[p]] 0 <= p < after.len() ==> level_kept(bs, lid, after[p].element_id) && level_from_blocks(
            bs,
            after[p],
        ),
        forall|p: int| #![trigger after[p]] 0 <= p < after.len() ==> named_before(bs, i + 1, after[p].element_id),
        forall|k: int| 0 <= k < i + 1 && #[trigger] level_kept(bs, lid, bs[k].element_id) ==> holds_level(after, bs[k].element_id),
{
    assert forall|p: int| #![trigger after[p]] 0 <= p < after.len() implies level_kept(bs, lid, after[p].element_id)
        && level_from_blocks(bs, after[p]) by {
        if p < pos {
            assert(after[p] == before[p]);
            assert(level_kept(bs, lid, before[p].element_id) && level_from_blocks(bs, before[p]));
        } else if p > pos {
            assert(after[p] == before[p - 1]);
            assert(level_kept(bs, lid, before[p - 1].element_id) && level_from_blocks(bs, before[p - 1]));
        } else {
            assert(after[p] == x);
        }
    }
    assert forall|p: int| #![trigger after[p]] 0 <= p < after.len() implies named_before(bs, i + 1, after[p].element_id) by {
        if p < pos {
            assert(after[p] == before[p]);
            assert(named_before(bs, i, before[p].element_id));
        } else if p > pos {
            assert(after[p] == before[p - 1]);
            assert(named_before(bs, i, before[p - 1].element_id));
        } else {
            assert(bs[i].element_id == after[p].element_id);
        }
    }
    assert forall|k: int| 0 <= k < i + 1 && #[trigger] level_kept(bs, lid, bs[k].element_id) implies holds_level(
        after,
        bs[k].element_id,
    ) by {
        if k == i {
            assert(after[pos].element_id == bs[k].element_id);
        } else {
            assert(holds_level(before, bs[k].element_id));
            let p = choose|p: int| 0 <= p < before.len() && before[p].element_id == bs[k].element_id;
            if p < pos {
                assert(after[p] == before[p]);
            } else {
                assert(after[p + 1] == before[p]);
            }
        }
    }
}

/// Whether one of the first `i` blocks names `id`.
pub open spec fn named_before(bs: Seq<NameBlockView>, i: int, id: u32) -> bool {
    exists|k: int| 0 <= k < i && bs[k].element_id == id
}

/// Whether one of the Levels is `id`'s.
pub open spec fn holds_level(lv: Seq<LevelView>, id: u32) -> bool {
    exists|p: int| 0 <= p < lv.len() && lv[p].element_id == id
}

/// What the join has established after the first `i` blocks: the Levels
/// so far are in storey order, each kept and read off a block among the
/// first `i`, and every kept Level named among them is there.
pub open spec fn join_state(bs: Seq<NameBlockView>, lid: Set<u32>, lv: Seq<LevelView>, i: int) -> bool {
    &&& levels_sorted(lv)
    &&& forall|p: int| #![trigger lv[p]] 0 <= p < lv.len() ==> level_kept(bs, lid, lv[p].element_id) && level_from_blocks(bs, lv[p])
    &&& forall|p: int| #![trigger lv[p]] 0 <= p < lv.len() ==> named_before(bs, i, lv[p].element_id)
    &&& forall|k: int| 0 <= k < i && #[trigger] level_kept(bs, lid, bs[k].element_id) ==> holds_level(lv, bs[k].element_id)
}

fn join_block(
    blocks: &Vec<NameElevationBlock>,
    i: usize,
    ids: &BTreeSet<u32>,
    lid: Ghost<Set<u32>>,
    out: &mut Vec<PartitionLevel>,
)
    requires
        i < blocks@.len(),
        ids@ == lid@,
        join_state(block_views(blocks@), lid@, level_list_views(old(out)@), i as int),
    ensures
        join_state(block_views(blocks@), lid@, level_list_views(final(out)@), i + 1),
{
    let ghost bs = block_views(blocks@);
    let ghost lv = level_list_views(out@);
    let b = &blocks[i];
    assert(bs[i as int].element_id == b.element_id);
    let first = first_of_id(blocks, i);
    let agree = blocks_agree(blocks, i);
    if ids.contains(&b.element_id) && first && agree {
        proof {
            reveal(level_kept);
            assert forall|k: int, l: int|
                0 <= k < bs.len() && 0 <= l < bs.len() && #[trigger] bs[k].element_id == b.element_id
                    && #[trigger] bs[l].element_id == b.element_id implies bs[k].name == bs[l].name
                    && bs[k].elevation_bits == bs[l].elevation_bits by {
                assert(bs[k].element_id == bs[i as int].element_id);
                assert(bs[l].element_id == bs[i as int].element_id);
            }
            assert(level_kept(bs, lid@, b.element_id));
            assert forall|p: int| 0 <= p < out@.len() implies #[trigger] out@[p].element_id != b.element_id by {
                assert(lv[p] == out@[p]@);
                assert(named_before(bs, i as int, lv[p].element_id));
            }
        }
        let level = PartitionLevel { element_id: b.element_id, name: b.name.clone(), elevation_bits: b.elevation_bits };
        assert(level_from_blocks(bs, level@)) by {
            reveal(level_from_blocks);
            assert(bs[i as int].element_id == level.element_id);
        }
        let ghost x = level@;
        let pos = insert_level(out, level);
        proof {
            lemma_level_inserted(bs, lid@, lv, level_list_views(out@), pos as int, x, i as int);
        }
    } else {
        proof {
            assert forall|k: int|
                0 <= k < i + 1 && #[trigger] level_kept(bs, lid@, bs[k].element_id) implies holds_level(lv, bs[k].element_id) by {
                if k == i {
                    if !first {
                        let q = choose|q: int| 0 <= q < i && #[trigger] bs[q].element_id == bs[i as int].element_id;
                        assert(level_kept(bs, lid@, bs[q].element_id));
                        assert(holds_level(lv, bs[q].element_id));
                    } else {
                        reveal(level_kept);
                        if !agree {
                            let q = choose|q: int|
                                0 <= q < bs.len() && #[trigger] bs[q].element_id == bs[i as int].element_id
                                    && !(bs[q].name == bs[i as int].name && bs[q].elevation_bits
                                    == bs[i as int].elevation_bits);
                            assert(bs[i as int].element_id == bs[i as int].element_id);
                        }
                    }
                }
            }
        }
    }
}

/// Whether `lv` is the join of the blocks `bs` onto the Level elements
/// `lid`: in storey order, each Level kept and read off one of its blocks,
/// and every kept Level there.
pub open spec fn is_join_of(lv: Seq<LevelView>, bs: Seq<NameBlockView>, lid: Set<u32>) -> bool {
    &&& levels_sorted(lv)
    &&& forall|i: int| #![trigger lv[i]] 0 <= i < lv.len() ==> level_kept(bs, lid, lv[i].element_id) && level_from_blocks(bs, lv[i])
    &&& forall|id: u32| level_kept(bs, lid, id) ==> holds_level(lv, id)
}

/// Join accepted blocks onto the Level elements among `records`: one Level
/// per Level element that some block names, all its blocks agreeing on name
/// and elevation (a Level whose blocks disagree is dropped, and blocks of
/// anything else are ignored), in the order of elevation, then ElementId.
pub fn levels_from_records_and_blocks(records: &[PartitionLevelRecord], blocks: Vec<NameElevationBlock>) -> (r: Vec<
    PartitionLevel,
>)
    requires
        forall|k: int| 0 <= k < blocks@.len() ==> !is_nan_bits(#[trigger] blocks@[k].elevation_bits),
    ensures
        is_join_of(level_list_views(r@), block_views(blocks@), level_element_ids(level_views(records@))),
{
    let ids = level_record_ids(records);
    let ghost bs = block_views(blocks@);
    let ghost lid = level_element_ids(level_views(records@));
    let mut out: Vec<PartitionLevel> = Vec::new();
    let mut i: usize = 0;
    assert(level_list_views(out@) =~= Seq::<LevelView>::empty());
    while i < blocks.len()
        invariant
            i <= blocks@.len(),
            bs == block_views(blocks@),
            ids@ == lid,
            join_state(bs, lid, level_list_views(out@), i as int),
        decreases blocks@.len() - i,
    {
        join_block(&blocks, i, &ids, Ghost(lid), &mut out);
        i += 1;
    }
    proof {
        let lv = level_list_views(out@);
        assert(join_state(bs, lid, lv, i as int));
        assert(levels_sorted(lv));
        assert forall|q: int| #![trigger lv[q]] 0 <= q < lv.len() implies level_kept(bs, lid, lv[q].element_id) && level_from_blocks(bs, lv[q]) by {}
        assert forall|id: u32| level_kept(bs, lid, id) implies holds_level(lv, id) by {
            reveal(level_kept);
            let k = choose|k: int| 0 <= k < bs.len() && #[trigger] bs[k].element_id == id;
            assert(level_kept(bs, lid, bs[k].element_id));
        }
    }
    out
}

/// How many of `records` are Level elements.
pub open spec fn level_element_count(records: Seq<LevelRecordView>) -> nat
    decreases records.len(),
{
    if records.len() == 0 {
        0
    } else {
        level_element_count(records.drop_last()) + if level_element(records.last()) {
            1nat
        } else {
            0nat
        }
    }
}

/// Whether a recovered Level list is usable as a storey set: at least two
/// Levels, one per Level element of `records`, no two at one elevation.
pub open spec fn spec_storey_set(records: Seq<LevelRecordView>, levels: Seq<LevelView>) -> bool {
    &&& levels.len() >= 2
    &&& levels.len() == level_element_count(records)
    &&& forall|i: int, j: int|
        0 <= i < j < levels.len() ==> #[trigger] levels[i].elevation_bits != #[trigger] levels[j].elevation_bits
}

/// Whether a recovered Level list is usable as a storey set (fail closed:
/// a partial recovery is not emitted as a smaller building).
pub fn recovered_levels_are_a_storey_set(records: &[PartitionLevelRecord], levels: &[PartitionLevel]) -> (r: bool)
    ensures
        r == spec_storey_set(level_views(records@), level_list_views(levels@)),
{
    let ghost rv = level_views(records@);
    let ghost lv = level_list_views(levels@);
    let mut count: usize = 0;
    let mut k: usize = 0;
    assert(rv.take(0) =~= Seq::<LevelRecordView>::empty());
    while k < records.len()
        invariant
            k <= records@.len(),
            rv == level_views(records@),
            count == level_element_count(rv.take(k as int)),
            count <= k,
        decreases records@.len() - k,
    {
        assert(rv.take(k + 1).drop_last() =~= rv.take(k as int));
        assert(rv[k as int] == records@[k as int]@);
        if records[k].is_level_element() {
            count += 1;
        }
        k += 1;
    }
    assert(rv.take(rv.len() as int) =~= rv);
    if levels.len() < 2 || levels.len() != count {
        return false;
    }
    let mut i: usize = 0;
    while i < levels.len()
        invariant
            i <= levels@.len(),
            lv == level_list_views(levels@),
            forall|a: int, b: int| 0 <= a < i && a < b < lv.len() ==> #[trigger] lv[a].elevation_bits != #[trigger] lv[b].elevation_bits,
        decreases levels@.len() - i,
    {
        let mut j: usize = i + 1;
        while j < levels.len()
            invariant
                i < j <= levels@.len(),
                lv == level_list_views(levels@),
                forall|a: int, b: int| 0 <= a < i && a < b < lv.len() ==> #[trigger] lv[a].elevation_bits != #[trigger] lv[b].elevation_bits,
                forall|b: int| i < b < j ==> lv[i as int].elevation_bits != #[trigger] lv[b].elevation_bits,
            decreases levels@.len() - j,
        {
            assert(lv[i as int] == levels@[i as int]@ && lv[j as int] == levels@[j as int]@);
            if levels[i].elevation_bits == levels[j].elevation_bits {
                assert(lv[i as int].elevation_bits == lv[j as int].elevation_bits);
                return false;
            }
            j += 1;
        }
        i += 1;
    }
    true
}

/// The join is one list: two lists that are both the join of the same
/// blocks onto the same Level elements are equal.
pub proof fn level_join_is_unique(a: Seq<LevelView>, b: Seq<LevelView>, bs: Seq<NameBlockView>, lid: Set<u32>)
    requires
        is_join_of(a, bs, lid),
        is_join_of(b, bs, lid),
    ensures
        a == b,
    decreases a.len() + b.len(),
{
    reveal(level_kept);
    reveal(level_from_blocks);
    // Each list holds exactly the kept Levels, one per id, each with the
    // value its blocks agree on.
    assert forall|i: int| 0 <= i < a.len() implies #[trigger] holds_level(b, a[i].element_id) by {
        assert(level_kept(bs, lid, a[i].element_id));
    }
    assert forall|i: int| 0 <= i < b.len() implies #[trigger] holds_level(a, b[i].element_id) by {
        assert(level_kept(bs, lid, b[i].element_id));
    }
    assert forall|i: int, j: int| 0 <= i < a.len() && 0 <= j < b.len() && a[i].element_id == b[j].element_id implies #[trigger] a[i] == #[trigger] b[j] by {
        assert(level_kept(bs, lid, a[i].element_id) && level_from_blocks(bs, a[i]));
        assert(level_from_blocks(bs, b[j]));
        let ka = choose|k: int| 0 <= k < bs.len() && #[trigger] bs[k].element_id == a[i].element_id && bs[k].name == a[i].name
            && bs[k].elevation_bits == a[i].elevation_bits;
        let kb = choose|k: int| 0 <= k < bs.len() && #[trigger] bs[k].element_id == b[j].element_id && bs[k].name == b[j].name
            && bs[k].elevation_bits == b[j].elevation_bits;
        assert(bs[ka].name == bs[kb].name && bs[ka].elevation_bits == bs[kb].elevation_bits);
    }
    if a.len() > 0 && b.len() > 0 {
        // The first of each is the least of the same set.
        assert(holds_level(b, a[0].element_id));
        let j = choose|p: int| 0 <= p < b.len() && b[p].element_id == a[0].element_id;
        assert(holds_level(a, b[0].element_id));
        let i = choose|p: int| 0 <= p < a.len() && a[p].element_id == b[0].element_id;
        assert(a[0] == b[j]);
        assert(b[0] == a[i]);
        if j > 0 {
            assert(level_before(b[0], b[j]));
            if i > 0 {
                assert(level_before(a[0], a[i]));
            }
            assert(false);
        }
        assert(a[0] == b[0]);
        let a1 = a.drop_first();
        let b1 = b.drop_first();
        assert(levels_sorted(a1));
        assert(levels_sorted(b1));
        assert forall|q: int| #![trigger a1[q]] 0 <= q < a1.len() implies level_kept(bs, lid, a1[q].element_id) && level_from_blocks(bs, a1[q]) by {
            assert(a1[q] == a[q + 1]);
            assert(level_kept(bs, lid, a[q + 1].element_id) && level_from_blocks(bs, a[q + 1]));
        }
        assert forall|q: int| #![trigger b1[q]] 0 <= q < b1.len() implies level_kept(bs, lid, b1[q].element_id) && level_from_blocks(bs, b1[q]) by {
            assert(b1[q] == b[q + 1]);
            assert(level_kept(bs, lid, b[q + 1].element_id) && level_from_blocks(bs, b[q + 1]));
        }
        // The remaining lists are joins over the blocks without the first id.
        let first = a[0].element_id;
        let lid1 = lid.remove(first);
        assert forall|q: int| #![trigger a1[q]] 0 <= q < a1.len() implies level_kept(bs, lid1, a1[q].element_id) && level_from_blocks(bs, a1[q]) by {
            assert(a1[q] == a[q + 1]);
            assert(level_before(a[0], a[q + 1]));
            assert(level_kept(bs, lid, a[q + 1].element_id));
        }
        assert forall|q: int| #![trigger b1[q]] 0 <= q < b1.len() implies level_kept(bs, lid1, b1[q].element_id) && level_from_blocks(bs, b1[q]) by {
            assert(b1[q] == b[q + 1]);
            assert(level_before(b[0], b[q + 1]));
            assert(level_kept(bs, lid, b[q + 1].element_id));
        }
        assert forall|id: u32| level_kept(bs, lid1, id) implies holds_level(a1, id) by {
            assert(level_kept(bs, lid, id));
            assert(holds_level(a, id));
            let p = choose|p: int| 0 <= p < a.len() && a[p].element_id == id;
            assert(p != 0);
            assert(a1[p - 1] == a[p]);
        }
        assert forall|id: u32| level_kept(bs, lid1, id) implies holds_level(b1, id) by {
            assert(level_kept(bs, lid, id));
            assert(holds_level(b, id));
            let p = choose|p: int| 0 <= p < b.len() && b[p].element_id == id;
            assert(p != 0);
            assert(b1[p - 1] == b[p]);
        }
        level_join_is_unique(a1, b1, bs, lid1);
        assert(a =~= b) by {
            assert forall|q: int| 0 <= q < a.len() implies a[q] == b[q] by {
                if q > 0 {
                    assert(a[q] == a1[q - 1]);
                    assert(b[q] == b1[q - 1]);
                }
            }
        }
    } else if a.len() > 0 {
        assert(level_kept(bs, lid, a[0].element_id));
        assert(holds_level(b, a[0].element_id));
    } else if b.len() > 0 {
        assert(level_kept(bs, lid, b[0].element_id));
        assert(holds_level(a, b[0].element_id));
    } else {
        assert(a =~= b);
    }
}

/// The name/elevation blocks of every stream, in stream order.
pub open spec fn all_name_blocks(parts: Seq<(Seq<char>, Seq<u8>)>, declared: Set<u32>, marker: Seq<u8>) -> Seq<
    NameBlockView,
>
    decreases parts.len(),
{
    if parts.len() == 0 {
        Seq::empty()
    } else {
        all_name_blocks(parts.drop_last(), declared, marker) + spec_name_blocks(parts.last().1, declared, marker)
    }
}

/// The Levels of `level_ids` whose name block, in some stream, names an
/// owner: Levels inside other elements.
pub open spec fn owned_levels(parts: Seq<(Seq<char>, Seq<u8>)>, level_ids: Set<u32>) -> Set<u32> {
    Set::new(|id: u32| level_ids.contains(id) && exists|i: int| 0 <= i < parts.len() && level_owned(#[trigger] parts[i].1, id))
}

/// The records whose ElementId is not in `owned`, in order.
pub open spec fn records_not_owned(records: Seq<LevelRecordView>, owned: Set<u32>) -> Seq<LevelRecordView>
    decreases records.len(),
{
    if records.len() == 0 {
        Seq::empty()
    } else {
        records_not_owned(records.drop_last(), owned) + if owned.contains(records.last().element_id) {
            Seq::empty()
        } else {
            seq![records.last()]
        }
    }
}

proof fn lemma_blocks_in_range(parts: Seq<(Seq<char>, Seq<u8>)>, declared: Set<u32>, marker: Seq<u8>)
    ensures
        forall|k: int|
            0 <= k < all_name_blocks(parts, declared, marker).len() ==> elevation_in_range(
                #[trigger] all_name_blocks(parts, declared, marker)[k].elevation_bits,
            ),
    decreases parts.len(),
{
    if parts.len() > 0 {
        lemma_blocks_in_range(parts.drop_last(), declared, marker);
        let front = all_name_blocks(parts.drop_last(), declared, marker);
        let b = parts.last().1;
        let back = spec_name_blocks(b, declared, marker);
        let all = all_name_blocks(parts, declared, marker);
        assert(all == front + back);
        assert forall|k: int| 0 <= k < all.len() implies elevation_in_range(#[trigger] all[k].elevation_bits) by {
            if k >= front.len() {
                let q = k - front.len();
                let hits = indices(b.len());
                let f = block_fn(b, declared, marker);
                crate::bytes::lemma_keep_some_member(hits, f, q);
                let j = choose|j: int| 0 <= j < hits.len() && f(#[trigger] hits[j]) == Some(keep_some(hits, f)[q]);
                assert(all[k] == back[q]);
            }
        }
    }
}

/// Every Revit Level of the partitions, in storey order, or none: the
/// Level records of every stream, less the Levels inside other elements,
/// joined with every stream's name/elevation blocks
/// ([`levels_from_records_and_blocks`]); the result stands only when it is
/// a storey set ([`recovered_levels_are_a_storey_set`]). Empty for a
/// release the layout is not measured on, or with nothing declared.
pub fn scan_partition_levels(
    partitions: &[InflatedPartition],
    revit_version: u32,
    declared_ids: &BTreeSet<u32>,
) -> (r: Vec<PartitionLevel>)
    ensures
        spec_bbox_marker(revit_version) is None || declared_ids@.is_empty() ==> r@.len() == 0,
        spec_bbox_marker(revit_version) is Some && !declared_ids@.is_empty() ==> {
            let parts = partition_views(partitions@);
            let recs = all_level_records(parts, declared_ids@, spec_bbox_marker(revit_version)->0);
            let kept = records_not_owned(recs, owned_levels(parts, level_element_ids(recs)));
            let bs = all_name_blocks(parts, declared_ids@, spec_elevation_marker(revit_version)->0);
            exists|l: Seq<LevelView>|
                is_join_of(l, bs, level_element_ids(kept)) && (if spec_storey_set(kept, l) {
                    level_list_views(r@) == l
                } else {
                    r@.len() == 0
                })
        },
{
    let mut out: Vec<PartitionLevel> = Vec::new();
    let (marker, bbox, emarker) = match (
        record_marker(revit_version),
        crate::partition_element_records::bbox_marker(revit_version),
        elevation_marker(revit_version),
    ) {
        (Some(m), Some(b), Some(e)) => (m, b, e),
        _ => {
            return out;
        },
    };
    if declared_ids.is_empty() {
        return out;
    }
    let ghost parts = partition_views(partitions@);
    let records = level_records(partitions, &marker, &bbox, declared_ids);
    let ghost recs = level_views(records@);
    let level_ids = level_record_ids(records.as_slice());
    let ghost lid0 = level_element_ids(recs);
    let mut blocks: Vec<NameElevationBlock> = Vec::new();
    let mut owned: BTreeSet<u32> = BTreeSet::new();
    let mut i: usize = 0;
    assert(owned@ =~= Set::<u32>::empty());
    while i < partitions.len()
        invariant
            i <= partitions@.len(),
            parts == partition_views(partitions@),
            level_ids@ == lid0,
            block_views(blocks@) == all_name_blocks(parts.take(i as int), declared_ids@, emarker@),
            forall|id: u32|
                #[trigger] owned@.contains(id) <==> lid0.contains(id) && exists|q: int|
                    0 <= q < i && level_owned(#[trigger] parts[q].1, id),
        decreases partitions@.len() - i,
    {
        let part = &partitions[i];
        let buf = part.bytes.as_slice();
        let mut found = find_name_blocks_with(buf, declared_ids, &emarker);
        let ghost before = blocks@;
        let ghost got = found@;
        blocks.append(&mut found);
        proof {
            assert(block_views(blocks@) =~= block_views(before) + block_views(got));
            assert(parts.take(i + 1).drop_last() =~= parts.take(i as int));
            assert(parts.take(i + 1).last() == parts[i as int]);
            assert(parts[i as int] == (part.stream@, part.bytes@));
        }
        let here = owned_level_ids(buf, &level_ids);
        let ids = crate::partition_names::set_elements(&here);
        let ghost was = owned@;
        let mut k: usize = 0;
        while k < ids.len()
            invariant
                k <= ids@.len(),
                ids@.to_set() == here@,
                forall|id: u32| #[trigger] here@.contains(id) <==> level_ids@.contains(id) && level_owned(buf@, id),
                forall|id: u32| #[trigger] owned@.contains(id) <==> was.contains(id) || ids@.take(k as int).contains(id),
            decreases ids@.len() - k,
        {
            let id = ids[k];
            owned.insert(id);
            proof {
                assert(ids@.take(k + 1) =~= ids@.take(k as int).push(id));
                assert forall|x: u32| #[trigger] owned@.contains(x) <==> was.contains(x) || ids@.take(k + 1).contains(x) by {
                    crate::bytes::lemma_push_contains(ids@.take(k as int), id, x);
                }
            }
            k += 1;
        }
        proof {
            assert(ids@.take(ids@.len() as int) =~= ids@);
            assert(buf@ == parts[i as int].1);
            assert forall|id: u32| #[trigger] owned@.contains(id) <==> lid0.contains(id) && exists|q: int|
                0 <= q < i + 1 && level_owned(#[trigger] parts[q].1, id) by {
                assert(ids@.to_set().contains(id) == ids@.contains(id));
                if lid0.contains(id) && level_owned(parts[i as int].1, id) {
                    assert(here@.contains(id));
                }
            }
        }
        i += 1;
    }
    assert(parts.take(parts.len() as int) =~= parts);
    assert(owned@ =~= owned_levels(parts, lid0));
    let mut kept: Vec<PartitionLevelRecord> = Vec::new();
    let mut rest = records;
    let n = rest.len();
    let mut j: usize = 0;
    assert(recs.take(0) =~= Seq::<LevelRecordView>::empty());
    assert(recs.skip(0) =~= recs);
    while j < n
        invariant
            j <= n,
            n == recs.len(),
            rest@.len() == n - j,
            level_views(rest@) == recs.skip(j as int),
            level_views(kept@) == records_not_owned(recs.take(j as int), owned@),
        decreases n - j,
    {
        let ghost old_rest = rest@;
        let x = rest.remove(0);
        proof {
            assert(level_views(old_rest)[0] == old_rest[0]@);
            assert(recs.skip(j as int)[0] == recs[j as int]);
            assert(x@ == recs[j as int]);
            assert(rest@ =~= old_rest.subrange(1, old_rest.len() as int));
            assert forall|q: int| 0 <= q < rest@.len() implies #[trigger] level_views(rest@)[q] == recs.skip(j + 1)[q] by {
                assert(rest@[q] == old_rest[q + 1]);
                assert(level_views(old_rest)[q + 1] == recs.skip(j as int)[q + 1]);
            }
            assert(level_views(rest@) =~= recs.skip(j + 1));
            assert(recs.take(j + 1).drop_last() =~= recs.take(j as int));
            assert(recs.take(j + 1).last() == recs[j as int]);
        }
        if !owned.contains(&x.element_id) {
            let ghost kb = kept@;
            kept.push(x);
            assert(level_views(kept@) =~= level_views(kb).push(x@));
        } else {
            assert(level_views(kept@) =~= level_views(kept@) + Seq::<LevelRecordView>::empty());
        }
        j += 1;
    }
    assert(recs.take(n as int) =~= recs);
    proof {
        lemma_blocks_in_range(parts, declared_ids@, emarker@);
        assert forall|k: int| 0 <= k < blocks@.len() implies !is_nan_bits(#[trigger] blocks@[k].elevation_bits) by {
            assert(block_views(blocks@)[k].elevation_bits == blocks@[k].elevation_bits);
            assert(elevation_in_range(block_views(blocks@)[k].elevation_bits));
        }
    }
    let ghost bs = block_views(blocks@);
    assert(bs == all_name_blocks(parts, declared_ids@, emarker@));
    let ghost kv = level_views(kept@);
    assert(kv == records_not_owned(recs, owned_levels(parts, lid0)));
    let levels = levels_from_records_and_blocks(kept.as_slice(), blocks);
    let ghost lvw = level_list_views(levels@);
    assert(is_join_of(lvw, bs, level_element_ids(kv)));
    assert(recs == all_level_records(parts, declared_ids@, spec_bbox_marker(revit_version)->0));
    assert(emarker@ == spec_elevation_marker(revit_version)->0);
    if !recovered_levels_are_a_storey_set(kept.as_slice(), levels.as_slice()) {
        assert(!spec_storey_set(kv, lvw));
        assert(is_join_of(lvw, bs, level_element_ids(kv)) && (if spec_storey_set(kv, lvw) {
            level_list_views(out@) == lvw
        } else {
            out@.len() == 0
        }));
        return out;
    }
    assert(is_join_of(lvw, bs, level_element_ids(kv)) && (if spec_storey_set(kv, lvw) {
        level_list_views(levels@) == lvw
    } else {
        levels@.len() == 0
    }));
    levels
}

} // verus!
