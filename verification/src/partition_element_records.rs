//! Element-record frames of Revit 2024 / 2025 partitions: the record's own
//! ElementId, its `BuiltInCategory`, container and placement words, the
//! bounding box (kept as raw IEEE-754 words), and the counted reference
//! lists that follow the box.

use vstd::prelude::*;
use vstd::string::*;
use std::collections::{BTreeMap, BTreeSet};
use crate::partitions::{partition_views, InflatedPartition};
use crate::bytes::{
    find_from, find_iter_all, iter_hits_from, lemma_keep_some_push, positions, hits_from, keep_some, le_u16, le_u32, le_u64, lemma_hits_none, lemma_hits_skip,
    lemma_hits_step, lemma_keep_some_step, matches_at, occurs_at, read_u16, read_u32, read_u64,
};

verus! {

broadcast use vstd::std_specs::btree::group_btree_axioms;

/// Autodesk `BuiltInCategory.OST_Columns`.
pub const OST_COLUMNS: i64 = -2_000_100;
/// Autodesk `BuiltInCategory.OST_Walls`.
pub const OST_WALLS: i64 = -2_000_011;
/// Autodesk `BuiltInCategory.OST_Doors`.
pub const OST_DOORS: i64 = -2_000_023;
/// Autodesk `BuiltInCategory.OST_Windows`.
pub const OST_WINDOWS: i64 = -2_000_014;
/// Autodesk `BuiltInCategory.OST_Floors`.
pub const OST_FLOORS: i64 = -2_000_032;
/// Autodesk `BuiltInCategory.OST_BuildingPad`.
pub const OST_BUILDING_PAD: i64 = -2_001_263;
/// Autodesk `BuiltInCategory.OST_Rooms`.
pub const OST_ROOMS: i64 = -2_000_160;
/// Autodesk `BuiltInCategory.OST_SketchLines`.
pub const OST_SKETCH_LINES: i64 = -2_000_045;
/// Autodesk `BuiltInCategory.OST_Furniture`.
pub const OST_FURNITURE: i64 = -2_000_080;
/// Autodesk `BuiltInCategory.OST_Casework`.
pub const OST_CASEWORK: i64 = -2_001_000;
/// Autodesk `BuiltInCategory.OST_PlumbingFixtures`.
pub const OST_PLUMBING_FIXTURES: i64 = -2_001_160;
/// Autodesk `BuiltInCategory.OST_SpecialityEquipment`.
pub const OST_SPECIALITY_EQUIPMENT: i64 = -2_001_350;
/// Autodesk `BuiltInCategory.OST_Ceilings`.
pub const OST_CEILINGS: i64 = -2_000_038;
/// Autodesk `BuiltInCategory.OST_CurtainWallMullions`.
pub const OST_CURTAIN_WALL_MULLIONS: i64 = -2_000_171;
/// Autodesk `BuiltInCategory.OST_CurtainWallPanels`.
pub const OST_CURTAIN_WALL_PANELS: i64 = -2_000_170;
/// Autodesk `BuiltInCategory.OST_StairsRailing`.
pub const OST_STAIRS_RAILING: i64 = -2_000_126;
/// Autodesk `BuiltInCategory.OST_Cornices`.
pub const OST_CORNICES: i64 = -2_000_181;
/// Autodesk `BuiltInCategory.OST_DuctCurves`.
pub const OST_DUCT_CURVES: i64 = -2_008_000;
/// Autodesk `BuiltInCategory.OST_DuctFitting`.
pub const OST_DUCT_FITTING: i64 = -2_008_010;
/// Autodesk `BuiltInCategory.OST_PipeCurves`.
pub const OST_PIPE_CURVES: i64 = -2_008_044;
/// Autodesk `BuiltInCategory.OST_PipeFitting`.
pub const OST_PIPE_FITTING: i64 = -2_008_049;
/// Autodesk `BuiltInCategory.OST_StructuralFraming`.
pub const OST_STRUCTURAL_FRAMING: i64 = -2_001_320;
/// Autodesk `BuiltInCategory.OST_StructuralColumns`.
pub const OST_STRUCTURAL_COLUMNS: i64 = -2_001_330;
/// Autodesk `BuiltInCategory.OST_StructuralFoundation`.
pub const OST_STRUCTURAL_FOUNDATION: i64 = -2_001_300;
/// Autodesk `BuiltInCategory.OST_GenericModel`.
pub const OST_GENERIC_MODEL: i64 = -2_000_151;
/// Autodesk `BuiltInCategory.OST_LightingFixtures`.
pub const OST_LIGHTING_FIXTURES: i64 = -2_001_120;
/// Autodesk `BuiltInCategory.OST_DuctTerminal`.
pub const OST_DUCT_TERMINAL: i64 = -2_008_013;
/// Autodesk `BuiltInCategory.OST_FoodServiceEquipment`.
pub const OST_FOOD_SERVICE_EQUIPMENT: i64 = -2_001_043;
/// Autodesk `BuiltInCategory.OST_Planting`.
pub const OST_PLANTING: i64 = -2_001_360;
/// Autodesk `BuiltInCategory.OST_Parking`.
pub const OST_PARKING: i64 = -2_001_180;
/// Autodesk `BuiltInCategory.OST_Entourage`.
pub const OST_ENTOURAGE: i64 = -2_001_370;
/// Autodesk `BuiltInCategory.OST_Hardscape`.
pub const OST_HARDSCAPE: i64 = -2_001_036;
/// Autodesk `BuiltInCategory.OST_VerticalCirculation`.
pub const OST_VERTICAL_CIRCULATION: i64 = -2_001_052;
/// Autodesk `BuiltInCategory.OST_Ramps`.
pub const OST_RAMPS: i64 = -2_000_180;
/// Autodesk `BuiltInCategory.OST_Stairs`.
pub const OST_STAIRS: i64 = -2_000_120;
/// Autodesk `BuiltInCategory.OST_StairsRuns`.
pub const OST_STAIRS_RUNS: i64 = -2_000_919;
/// Autodesk `BuiltInCategory.OST_StairsLandings`.
pub const OST_STAIRS_LANDINGS: i64 = -2_000_920;
/// Autodesk `BuiltInCategory.OST_StairsStringerCarriage`.
pub const OST_STAIRS_STRINGER_CARRIAGE: i64 = -2_000_123;
/// Autodesk `BuiltInCategory.OST_Roofs`.
pub const OST_ROOFS: i64 = -2_000_035;
/// Autodesk `BuiltInCategory.OST_EdgeSlab`.
pub const OST_EDGE_SLAB: i64 = -2_001_392;

/// The product categories read as element records, with the class each
/// exports as.
pub const PRODUCT_RECORD_CATEGORIES: [(i64, &'static str); 32] = [
    (OST_FURNITURE, "Furniture"),
    (OST_CASEWORK, "Casework"),
    (OST_PLUMBING_FIXTURES, "PlumbingFixture"),
    (OST_SPECIALITY_EQUIPMENT, "SpecialtyEquipment"),
    (OST_CEILINGS, "Ceiling"),
    (OST_CURTAIN_WALL_MULLIONS, "CurtainWallMullion"),
    (OST_CURTAIN_WALL_PANELS, "CurtainWallPanel"),
    (OST_STAIRS_RAILING, "Railing"),
    (OST_CORNICES, "WallSweep"),
    (OST_DUCT_CURVES, "Duct"),
    (OST_DUCT_FITTING, "DuctFitting"),
    (OST_PIPE_CURVES, "Pipe"),
    (OST_PIPE_FITTING, "PipeFitting"),
    (OST_STRUCTURAL_FRAMING, "StructuralFraming"),
    (OST_STRUCTURAL_COLUMNS, "StructuralColumn"),
    (OST_STRUCTURAL_FOUNDATION, "StructuralFoundation"),
    (OST_GENERIC_MODEL, "GenericModel"),
    (OST_LIGHTING_FIXTURES, "LightingFixture"),
    (OST_DUCT_TERMINAL, "DuctTerminal"),
    (OST_FOOD_SERVICE_EQUIPMENT, "FoodServiceEquipment"),
    (OST_PLANTING, "Planting"),
    (OST_PARKING, "Parking"),
    (OST_ENTOURAGE, "Entourage"),
    (OST_HARDSCAPE, "Hardscape"),
    (OST_VERTICAL_CIRCULATION, "VerticalCirculation"),
    (OST_RAMPS, "Ramp"),
    (OST_STAIRS, "Stair"),
    (OST_STAIRS_RUNS, "StairsRun"),
    (OST_STAIRS_LANDINGS, "StairsLanding"),
    (OST_STAIRS_STRINGER_CARRIAGE, "StairsStringer"),
    (OST_ROOFS, "Roof"),
    (OST_EDGE_SLAB, "SlabEdge"),
];

/// Every category whose frames are recovered or counted, with its class.
pub const RECOVERED_CATEGORIES: [(i64, &'static str); 39] = [
    (OST_WALLS, "Wall"),
    (OST_DOORS, "Door"),
    (OST_WINDOWS, "Window"),
    (OST_COLUMNS, "Column"),
    (OST_FLOORS, "Floor"),
    (OST_BUILDING_PAD, "BuildingPad"),
    (OST_ROOMS, "Room"),
    (OST_FURNITURE, "Furniture"),
    (OST_CASEWORK, "Casework"),
    (OST_PLUMBING_FIXTURES, "PlumbingFixture"),
    (OST_SPECIALITY_EQUIPMENT, "SpecialtyEquipment"),
    (OST_CEILINGS, "Ceiling"),
    (OST_CURTAIN_WALL_MULLIONS, "CurtainWallMullion"),
    (OST_CURTAIN_WALL_PANELS, "CurtainWallPanel"),
    (OST_STAIRS_RAILING, "Railing"),
    (OST_CORNICES, "WallSweep"),
    (OST_DUCT_CURVES, "Duct"),
    (OST_DUCT_FITTING, "DuctFitting"),
    (OST_PIPE_CURVES, "Pipe"),
    (OST_PIPE_FITTING, "PipeFitting"),
    (OST_STRUCTURAL_FRAMING, "StructuralFraming"),
    (OST_STRUCTURAL_COLUMNS, "StructuralColumn"),
    (OST_STRUCTURAL_FOUNDATION, "StructuralFoundation"),
    (OST_GENERIC_MODEL, "GenericModel"),
    (OST_LIGHTING_FIXTURES, "LightingFixture"),
    (OST_DUCT_TERMINAL, "DuctTerminal"),
    (OST_FOOD_SERVICE_EQUIPMENT, "FoodServiceEquipment"),
    (OST_PLANTING, "Planting"),
    (OST_PARKING, "Parking"),
    (OST_ENTOURAGE, "Entourage"),
    (OST_HARDSCAPE, "Hardscape"),
    (OST_VERTICAL_CIRCULATION, "VerticalCirculation"),
    (OST_RAMPS, "Ramp"),
    (OST_STAIRS, "Stair"),
    (OST_STAIRS_RUNS, "StairsRun"),
    (OST_STAIRS_LANDINGS, "StairsLanding"),
    (OST_STAIRS_STRINGER_CARRIAGE, "StairsStringer"),
    (OST_ROOFS, "Roof"),
    (OST_EDGE_SLAB, "SlabEdge"),
];

/// Lower bound of the Revit `BuiltInCategory` id band.
pub const BUILTIN_CATEGORY_MIN: i64 = -2_100_000;
/// Upper bound of the Revit `BuiltInCategory` id band.
pub const BUILTIN_CATEGORY_MAX: i64 = -1_990_000;

/// Offset of the `BuiltInCategory` id from the record start.
pub const CATEGORY_OFFSET: usize = 0x12;
/// Offset of the container ElementId reference from the record start.
pub const CONTAINER_OFFSET: usize = 0x32;
/// Sentinel value of the container reference meaning "no container".
pub const CONTAINER_NONE: u64 = 0xffff_ffff_ffff_ffff;
/// Offset of the design-option ElementId from the record start.
pub const DESIGN_OPTION_OFFSET: usize = 0x2a;
/// Offset of the placement-kind word from the record start.
pub const PLACEMENT_KIND_OFFSET: usize = 0x42;
/// Placement-kind value carried by a placed element instance.
pub const PLACEMENT_KIND_INSTANCE: u32 = 0xffff_ef7f;
/// Placement-kind value carried by a family/type symbol envelope.
pub const PLACEMENT_KIND_SYMBOL: u32 = 0xffff_8000;
/// Offset of the bounding-box marker from the record start.
pub const BBOX_MARKER_OFFSET: usize = 0x50;
/// Offset of the six bounding-box doubles from the record start.
pub const BBOX_OFFSET: usize = 0x58;
/// Minimum bytes a complete record header occupies.
pub const RECORD_MIN_LEN: usize = BBOX_OFFSET + 48;
/// Offset of the counted reference list, immediately after the box.
pub const REFERENCE_LIST_OFFSET: usize = RECORD_MIN_LEN;
/// Largest reference-list length the decoder will accept.
pub const REFERENCE_LIST_MAX_ENTRIES: usize = 1024;
/// Length of the header that opens every partition record.
pub const PARTITION_RECORD_HEADER_LEN: usize = 16;
/// Length of the trailer that closes every partition record.
pub const PARTITION_RECORD_TRAILER_LEN: usize = 16;

/// Marker that precedes the bounding box on Revit 2024 files.
pub const BBOX_MARKER: [u8; 8] = [0x46, 0x01, 0xff, 0xff, 0xff, 0xff, 0xab, 0x05];
/// The bbox marker of Revit 2025 files.
pub const BBOX_MARKER_2025: [u8; 8] = [0x59, 0x01, 0xff, 0xff, 0xff, 0xff, 0xd3, 0x05];

/// Releases whose marker is known.
pub open spec fn spec_bbox_marker(revit_version: u32) -> Option<Seq<u8>> {
    if revit_version == 2024 {
        Some(seq![0x46u8, 0x01, 0xff, 0xff, 0xff, 0xff, 0xab, 0x05])
    } else if revit_version == 2025 {
        Some(seq![0x59u8, 0x01, 0xff, 0xff, 0xff, 0xff, 0xd3, 0x05])
    } else {
        None
    }
}

/// The bbox marker of `revit_version`, or `None` where the record shape is
/// not proven.
pub fn bbox_marker(revit_version: u32) -> (r: Option<[u8; 8]>)
    ensures
        match r {
            Some(m) => spec_bbox_marker(revit_version) == Some(m@),
            None => spec_bbox_marker(revit_version) is None,
        },
{
    if revit_version == 2024 {
        let m = BBOX_MARKER;
        assert(m@ =~= seq![0x46u8, 0x01, 0xff, 0xff, 0xff, 0xff, 0xab, 0x05]);
        Some(m)
    } else if revit_version == 2025 {
        let m = BBOX_MARKER_2025;
        assert(m@ =~= seq![0x59u8, 0x01, 0xff, 0xff, 0xff, 0xff, 0xd3, 0x05]);
        Some(m)
    } else {
        None
    }
}

/// Whether this release's partition element-record shape is proven: 2024
/// and 2025.
pub fn supports_revit_version(revit_version: u32) -> (r: bool)
    ensures
        r == (revit_version == 2024 || revit_version == 2025),
{
    revit_version == 2024 || revit_version == 2025
}

/// The `u64` read as the two's-complement `i64` it stores.
pub open spec fn as_signed(v: u64) -> int {
    if v < 0x8000_0000_0000_0000 { v as int } else { v - 0x1_0000_0000_0000_0000 }
}

/// `v` reinterpreted as `i64`.
pub fn to_signed(v: u64) -> (r: i64)
    ensures
        r == as_signed(v),
{
    if v < 0x8000_0000_0000_0000 {
        v as i64
    } else {
        let below: u64 = 0xffff_ffff_ffff_ffff - v;
        -(below as i64) - 1
    }
}

/// Whether the IEEE-754 double with these bits is finite (its exponent is
/// not all ones).
pub open spec fn f64_bits_finite(bits: u64) -> bool {
    (bits / 0x10_0000_0000_0000) % 0x800 != 0x7ff
}

/// The order key of an IEEE-754 double: sign and magnitude as one integer,
/// with both zeros at 0. For two finite doubles, `a < b` exactly when
/// `f64_bits_key(a) < f64_bits_key(b)`.
pub open spec fn f64_bits_key(bits: u64) -> int {
    let magnitude = (bits % 0x8000_0000_0000_0000) as int;
    if bits >= 0x8000_0000_0000_0000 { -magnitude } else { magnitude }
}

pub(crate) fn f64_finite(bits: u64) -> (r: bool)
    ensures
        r == f64_bits_finite(bits),
{
    (bits / 0x10_0000_0000_0000) % 0x800 != 0x7ff
}

pub(crate) fn f64_key(bits: u64) -> (r: i128)
    ensures
        r == f64_bits_key(bits),
{
    let magnitude = (bits % 0x8000_0000_0000_0000) as i128;
    if bits >= 0x8000_0000_0000_0000 {
        -magnitude
    } else {
        magnitude
    }
}

/// Whether a frame's `+0x00` word holds no ElementId: `0`, `u32::MAX` (the
/// 32-bit form of the invalid id), or anything above it.
pub open spec fn spec_carries_no_element_id(raw: u64) -> bool {
    raw == 0 || raw >= 0xffff_ffff
}

/// Whether a frame's `+0x00` word holds no ElementId.
pub fn carries_no_element_id(raw: u64) -> (r: bool)
    ensures
        r == spec_carries_no_element_id(raw),
{
    raw == 0 || raw >= 0xffff_ffff
}

/// The counted reference list whose `u32` count sits at `at`.
pub open spec fn spec_reference_list(buf: Seq<u8>, at: int) -> Option<Seq<u64>> {
    if at < 0 || at + 4 > buf.len() {
        None
    } else {
        let count = le_u32(buf, at);
        if count == 0 || count > 1024 || at + 4 + 8 * count > buf.len() {
            None
        } else {
            Some(Seq::new(count as nat, |i: int| le_u64(buf, at + 4 + 8 * i) as u64))
        }
    }
}

/// The last slot of the second counted list, which follows the first.
pub open spec fn spec_owner_reference(buf: Seq<u8>, at: int) -> Option<u32> {
    match spec_reference_list(buf, at) {
        None => None,
        Some(first) => match spec_reference_list(buf, at + 4 + 8 * first.len()) {
            None => None,
            Some(second) => {
                let last = second.last();
                if last == 0 || last > 0xffff_ffff {
                    None
                } else {
                    Some(last as u32)
                }
            },
        },
    }
}

/// Index of the last slot equal to `v`, or `-1`.
pub open spec fn last_index_of(s: Seq<u64>, v: u64) -> int
    decreases s.len(),
{
    if s.len() == 0 {
        -1
    } else if s.last() == v {
        s.len() - 1
    } else {
        last_index_of(s.drop_last(), v)
    }
}

/// The slot before the last occurrence of `element_id`, when it is a
/// non-zero `u32`-range id.
pub open spec fn spec_slot_before(entries: Seq<u64>, element_id: u32) -> Option<u32> {
    let index = last_index_of(entries, element_id as u64);
    if index < 1 {
        None
    } else {
        let previous = entries[index - 1];
        if previous == 0 || previous > 0xffff_ffff {
            None
        } else {
            Some(previous as u32)
        }
    }
}

proof fn lemma_last_index_of_unique(s: Seq<u64>, v: u64, i: int)
    requires
        -1 <= i < s.len(),
        i >= 0 ==> s[i] == v,
        forall|j: int| i < j < s.len() ==> s[j] != v,
    ensures
        last_index_of(s, v) == i,
    decreases s.len(),
{
    if s.len() > 0 && s.last() != v {
        lemma_last_index_of_unique(s.drop_last(), v, i);
    }
}

/// Decode the counted reference list whose `u32` length prefix sits at
/// `at`: `None` when the count is zero, above
/// [`REFERENCE_LIST_MAX_ENTRIES`], or runs past the buffer; otherwise the
/// slots verbatim.
pub fn decode_reference_list(buf: &[u8], at: usize) -> (r: Option<Vec<u64>>)
    ensures
        match r {
            Some(v) => spec_reference_list(buf@, at as int) == Some(v@),
            None => spec_reference_list(buf@, at as int) is None,
        },
{
    let len = buf.len();
    let count = match read_u32(buf, at) {
        Some(c) => c as usize,
        None => return None,
    };
    if count == 0 || count > REFERENCE_LIST_MAX_ENTRIES {
        return None;
    }
    let start = at + 4;
    if len < start || (len - start) / 8 < count {
        assert(at + 4 + 8 * count > len) by (nonlinear_arith)
            requires len < start || (len - start) / 8 < count, start == at + 4;
        return None;
    }
    assert(start + 8 * count <= len) by (nonlinear_arith)
        requires (len - start) / 8 >= count, len >= start;
    let mut out: Vec<u64> = Vec::new();
    let mut index: usize = 0;
    while index < count
        invariant
            start + 8 * count <= len,
            len == buf@.len(),
            count <= 1024,
            start == at + 4,
            0 <= index <= count,
            out@.len() == index,
            forall|i: int| 0 <= i < index ==> out@[i] == le_u64(buf@, start + 8 * i) as u64,
        decreases count - index,
    {
        let slot = read_u64(buf, start + index * 8).unwrap();
        out.push(slot);
        index += 1;
    }
    assert(out@ =~= Seq::new(count as nat, |i: int| le_u64(buf@, at + 4 + 8 * i) as u64));
    Some(out)
}

/// The last slot of the second counted list that follows the list at
/// `at`, when both decode and that slot is a non-zero `u32`-range id.
pub fn decode_owner_reference(buf: &[u8], at: usize) -> (r: Option<u32>)
    ensures
        r == spec_owner_reference(buf@, at as int),
{
    let first = match decode_reference_list(buf, at) {
        Some(f) => f,
        None => return None,
    };
    let len = buf.len();
    assert(at + 4 + 8 * first@.len() <= len);
    let second_at = at + 4 + first.len() * 8;
    let second = match decode_reference_list(buf, second_at) {
        Some(s) => s,
        None => return None,
    };
    let last = second[second.len() - 1];
    if last == 0 || last > 0xffff_ffff {
        return None;
    }
    Some(last as u32)
}

/// The slot immediately before `element_id`'s last occurrence in
/// `entries`, when that slot is a non-zero `u32`-range ElementId.
pub fn slot_before(entries: &[u64], element_id: u32) -> (r: Option<u32>)
    ensures
        r == spec_slot_before(entries@, element_id),
{
    let target = element_id as u64;
    let mut i: usize = entries.len();
    while i > 0
        invariant
            target == element_id as u64,
            i <= entries@.len(),
            forall|j: int| i <= j < entries@.len() ==> entries@[j] != target,
        decreases i,
    {
        if entries[i - 1] == target {
            proof {
                lemma_last_index_of_unique(entries@, target, i - 1);
            }
            if i - 1 == 0 {
                return None;
            }
            let previous = entries[i - 2];
            if previous == 0 || previous > 0xffff_ffff {
                return None;
            }
            return Some(previous as u32);
        }
        i -= 1;
    }
    proof {
        lemma_last_index_of_unique(entries@, target, -1);
    }
    None
}

/// The design option at `+0x2a` of a frame: `None` for `0xff`×8 (the main
/// model) and for a value outside the `u32` range.
pub open spec fn spec_frame_design_option(buf: Seq<u8>, offset: int) -> Option<u32> {
    if offset + DESIGN_OPTION_OFFSET + 8 > buf.len() {
        None
    } else {
        let v = le_u64(buf, offset + DESIGN_OPTION_OFFSET);
        if v == 0xffff_ffff_ffff_ffff || v > 0xffff_ffff {
            None
        } else {
            Some(v as u32)
        }
    }
}

/// The design option at `+0x2a` of the frame at `offset`.
pub fn frame_design_option(buf: &[u8], offset: usize) -> (r: Option<u32>)
    ensures
        r == spec_frame_design_option(buf@, offset as int),
{
    if offset > buf.len() || buf.len() - offset < DESIGN_OPTION_OFFSET + 8 {
        return None;
    }
    match read_u64(buf, offset + DESIGN_OPTION_OFFSET) {
        Some(v) => {
            if v == 0xffff_ffff_ffff_ffff || v > 0xffff_ffff {
                None
            } else {
                Some(v as u32)
            }
        },
        None => None,
    }
}

/// A decoded partition element-record header. The bounding box is kept as
/// the six raw IEEE-754 words (`min x/y/z`, `max x/y/z`, feet).
#[derive(Debug, Clone)]
pub struct PartitionElementRecord {
    pub stream: String,
    pub offset: usize,
    pub element_id: u32,
    pub flags: u32,
    pub builtin_category: i64,
    pub container: u64,
    pub placement_kind: u32,
    pub bbox_bits: [u64; 6],
    pub preceding_reference: Option<u32>,
    pub owner_reference: Option<u32>,
    pub references: Vec<u64>,
    pub id_from_enclosing_record: bool,
    pub design_option: Option<u32>,
}

/// What a [`PartitionElementRecord`] holds, as values.
pub struct ElementRecordView {
    pub stream: Seq<char>,
    pub offset: int,
    pub element_id: u32,
    pub flags: u32,
    pub builtin_category: int,
    pub container: u64,
    pub placement_kind: u32,
    pub bbox_bits: Seq<u64>,
    pub preceding_reference: Option<u32>,
    pub owner_reference: Option<u32>,
    pub references: Seq<u64>,
    pub id_from_enclosing_record: bool,
    pub design_option: Option<u32>,
}

impl View for PartitionElementRecord {
    type V = ElementRecordView;

    open spec fn view(&self) -> ElementRecordView {
        ElementRecordView {
            stream: self.stream@,
            offset: self.offset as int,
            element_id: self.element_id,
            flags: self.flags,
            builtin_category: self.builtin_category as int,
            container: self.container,
            placement_kind: self.placement_kind,
            bbox_bits: self.bbox_bits@,
            preceding_reference: self.preceding_reference,
            owner_reference: self.owner_reference,
            references: self.references@,
            id_from_enclosing_record: self.id_from_enclosing_record,
            design_option: self.design_option,
        }
    }
}

/// The six bounding-box words of the frame at `offset`.
pub open spec fn spec_bbox_bits(buf: Seq<u8>, offset: int) -> Seq<u64> {
    Seq::new(6, |i: int| le_u64(buf, offset + BBOX_OFFSET + 8 * i) as u64)
}

/// Whether the frame at `offset` passes every check from `+0x10` on: the
/// zero `u16` at `+0x10`, a category in the `BuiltInCategory` band, the
/// release's bbox marker at `+0x50`, six finite box words and no axis
/// whose max lies below its min.
pub open spec fn frame_shape_ok(buf: Seq<u8>, offset: int, marker: Seq<u8>) -> bool {
    let bbox = spec_bbox_bits(buf, offset);
    &&& 0 <= offset
    &&& offset + RECORD_MIN_LEN <= buf.len()
    &&& le_u16(buf, offset + 0x10) == 0
    &&& BUILTIN_CATEGORY_MIN <= as_signed(le_u64(buf, offset + CATEGORY_OFFSET) as u64)
        <= BUILTIN_CATEGORY_MAX
    &&& buf.subrange(offset + BBOX_MARKER_OFFSET, offset + BBOX_MARKER_OFFSET + 8) == marker
    &&& forall|i: int| 0 <= i < 6 ==> f64_bits_finite(#[trigger] bbox[i])
    &&& f64_bits_key(bbox[0]) <= f64_bits_key(bbox[3])
    &&& f64_bits_key(bbox[1]) <= f64_bits_key(bbox[4])
    &&& f64_bits_key(bbox[2]) <= f64_bits_key(bbox[5])
}

/// The record the frame at `offset` decodes to as the record of
/// `element_id`, when [`frame_shape_ok`] holds.
pub open spec fn spec_frame_record(
    stream: Seq<char>,
    buf: Seq<u8>,
    offset: int,
    element_id: u32,
) -> ElementRecordView {
    let references = match spec_reference_list(buf, offset + REFERENCE_LIST_OFFSET) {
        Some(r) => r,
        None => Seq::empty(),
    };
    ElementRecordView {
        stream,
        offset,
        element_id,
        flags: le_u32(buf, offset + 0x08) as u32,
        builtin_category: as_signed(le_u64(buf, offset + CATEGORY_OFFSET) as u64),
        container: le_u64(buf, offset + CONTAINER_OFFSET) as u64,
        placement_kind: le_u32(buf, offset + PLACEMENT_KIND_OFFSET) as u32,
        bbox_bits: spec_bbox_bits(buf, offset),
        preceding_reference: spec_slot_before(references, element_id),
        owner_reference: spec_owner_reference(buf, offset + REFERENCE_LIST_OFFSET),
        references,
        id_from_enclosing_record: false,
        design_option: spec_frame_design_option(buf, offset),
    }
}

/// Decode the frame at `offset` as the record of `element_id`, which the
/// caller has already established. Everything from `+0x10` on is read and
/// validated.
pub fn decode_frame_as(
    stream: &str,
    buf: &[u8],
    offset: usize,
    element_id: u32,
    marker: &[u8; 8],
) -> (r: Option<PartitionElementRecord>)
    ensures
        r is Some <==> frame_shape_ok(buf@, offset as int, marker@),
        r matches Some(rec) ==> rec@ == spec_frame_record(stream@, buf@, offset as int, element_id),
{
    if offset > buf.len() || buf.len() - offset < RECORD_MIN_LEN {
        return None;
    }
    if read_u16(buf, offset + 0x10).unwrap() != 0 {
        return None;
    }
    let raw_category = read_u64(buf, offset + CATEGORY_OFFSET).unwrap();
    let builtin_category = to_signed(raw_category);
    if builtin_category < BUILTIN_CATEGORY_MIN || builtin_category > BUILTIN_CATEGORY_MAX {
        return None;
    }
    if !matches_at(buf, offset + BBOX_MARKER_OFFSET, marker.as_slice()) {
        return None;
    }
    let b0 = read_u64(buf, offset + BBOX_OFFSET).unwrap();
    let b1 = read_u64(buf, offset + BBOX_OFFSET + 8).unwrap();
    let b2 = read_u64(buf, offset + BBOX_OFFSET + 16).unwrap();
    let b3 = read_u64(buf, offset + BBOX_OFFSET + 24).unwrap();
    let b4 = read_u64(buf, offset + BBOX_OFFSET + 32).unwrap();
    let b5 = read_u64(buf, offset + BBOX_OFFSET + 40).unwrap();
    let bbox_bits: [u64; 6] = [b0, b1, b2, b3, b4, b5];
    assert(bbox_bits@ =~= spec_bbox_bits(buf@, offset as int));
    proof {
        let bbox = spec_bbox_bits(buf@, offset as int);
        assert(bbox[0] == b0 && bbox[1] == b1 && bbox[2] == b2);
        assert(bbox[3] == b3 && bbox[4] == b4 && bbox[5] == b5);
    }
    if !(f64_finite(b0) && f64_finite(b1) && f64_finite(b2) && f64_finite(b3) && f64_finite(b4)
        && f64_finite(b5)) {
        return None;
    }
    if f64_key(b3) < f64_key(b0) || f64_key(b4) < f64_key(b1) || f64_key(b5) < f64_key(b2) {
        return None;
    }
    let flags = read_u32(buf, offset + 0x08).unwrap();
    let container = read_u64(buf, offset + CONTAINER_OFFSET).unwrap();
    let placement_kind = read_u32(buf, offset + PLACEMENT_KIND_OFFSET).unwrap();
    let references = match decode_reference_list(buf, offset + REFERENCE_LIST_OFFSET) {
        Some(r) => r,
        None => Vec::new(),
    };
    let preceding_reference = slot_before(references.as_slice(), element_id);
    let owner_reference = decode_owner_reference(buf, offset + REFERENCE_LIST_OFFSET);
    let design_option = frame_design_option(buf, offset);
    let record = PartitionElementRecord {
        stream: String::from_str(stream),
        offset,
        element_id,
        flags,
        builtin_category,
        container,
        placement_kind,
        bbox_bits,
        preceding_reference,
        owner_reference,
        references,
        id_from_enclosing_record: false,
        design_option,
    };
    proof {
        let bbox = spec_bbox_bits(buf@, offset as int);
        assert(bbox[0] == b0 && bbox[1] == b1 && bbox[2] == b2);
        assert(bbox[3] == b3 && bbox[4] == b4 && bbox[5] == b5);
    }
    Some(record)
}

/// Whether `decode_at_with_marker` accepts the frame at `offset`: a
/// declared ElementId at `+0x00` and a frame shape that checks out.
pub open spec fn spec_record_ok(
    buf: Seq<u8>,
    offset: int,
    declared: Set<u32>,
    marker: Seq<u8>,
) -> bool {
    let raw = le_u64(buf, offset) as u64;
    &&& 0 <= offset
    &&& offset + RECORD_MIN_LEN <= buf.len()
    &&& !spec_carries_no_element_id(raw)
    &&& declared.contains(raw as u32)
    &&& frame_shape_ok(buf, offset, marker)
}

/// Decode one record at `offset` for the release whose bbox marker is
/// `marker`, fail-closed: the leading `u64` must be an ElementId declared
/// in `declared_ids`.
pub fn decode_at_with_marker(
    stream: &str,
    buf: &[u8],
    offset: usize,
    declared_ids: &BTreeSet<u32>,
    marker: &[u8; 8],
) -> (r: Option<PartitionElementRecord>)
    ensures
        r is Some <==> spec_record_ok(buf@, offset as int, declared_ids@, marker@),
        r matches Some(rec) ==> rec@ == spec_frame_record(
            stream@,
            buf@,
            offset as int,
            le_u64(buf@, offset as int) as u32,
        ),
{
    if offset > buf.len() || buf.len() - offset < RECORD_MIN_LEN {
        return None;
    }
    let raw_id = read_u64(buf, offset).unwrap();
    if carries_no_element_id(raw_id) {
        return None;
    }
    let element_id = raw_id as u32;
    if !declared_ids.contains(&element_id) {
        return None;
    }
    decode_frame_as(stream, buf, offset, element_id, marker)
}

/// [`decode_at_with_marker`] with the Revit 2024 marker.
pub fn decode_at(
    stream: &str,
    buf: &[u8],
    offset: usize,
    declared_ids: &BTreeSet<u32>,
) -> (r: Option<PartitionElementRecord>)
    ensures
        r is Some <==> spec_record_ok(buf@, offset as int, declared_ids@, BBOX_MARKER@),
        r matches Some(rec) ==> rec@ == spec_frame_record(
            stream@,
            buf@,
            offset as int,
            le_u64(buf@, offset as int) as u32,
        ),
{
    let marker = BBOX_MARKER;
    decode_at_with_marker(stream, buf, offset, declared_ids, &marker)
}

/// `v` as the `u64` whose two's-complement reading it is.
pub fn from_signed(v: i64) -> (r: u64)
    ensures
        as_signed(r) == v,
        r == from_signed_spec(v),
{
    if v >= 0 {
        v as u64
    } else {
        let below: u64 = (-(v + 1)) as u64;
        0xffff_ffff_ffff_ffff - below
    }
}

/// The eight little-endian bytes of `v`.
pub open spec fn spec_le_bytes(v: u64) -> Seq<u8> {
    seq![
        (v % 0x100) as u8,
        ((v / 0x100) % 0x100) as u8,
        ((v / 0x1_0000) % 0x100) as u8,
        ((v / 0x100_0000) % 0x100) as u8,
        ((v / 0x1_0000_0000) % 0x100) as u8,
        ((v / 0x100_0000_0000) % 0x100) as u8,
        ((v / 0x1_0000_0000_0000) % 0x100) as u8,
        ((v / 0x100_0000_0000_0000) % 0x100) as u8,
    ]
}

/// The eight little-endian bytes of `v`.
pub fn u64_le_bytes(v: u64) -> (r: [u8; 8])
    ensures
        r@ == spec_le_bytes(v),
{
    let b0 = (v % 0x100) as u8;
    let b1 = ((v / 0x100) % 0x100) as u8;
    let b2 = ((v / 0x1_0000) % 0x100) as u8;
    let b3 = ((v / 0x100_0000) % 0x100) as u8;
    let b4 = ((v / 0x1_0000_0000) % 0x100) as u8;
    let b5 = ((v / 0x100_0000_0000) % 0x100) as u8;
    let b6 = ((v / 0x1_0000_0000_0000) % 0x100) as u8;
    let b7 = ((v / 0x100_0000_0000_0000) % 0x100) as u8;
    let r = [b0, b1, b2, b3, b4, b5, b6, b7];
    assert(r@ =~= spec_le_bytes(v));
    r
}

/// The `u16` at `+0x0c` of every partition record header: the last `u16`
/// of the release's bbox marker minus 12, wrapping.
pub open spec fn spec_record_prologue_constant(marker: Seq<u8>) -> int {
    (le_u16(marker, 6) - 12 + 0x1_0000) % 0x1_0000
}

/// The `u16` at `+0x0c` of every partition record header for the release
/// whose bbox marker is `marker`.
pub fn record_prologue_constant(marker: &[u8; 8]) -> (r: u16)
    ensures
        r == spec_record_prologue_constant(marker@),
{
    let v: u16 = marker[6] as u16 + 256 * (marker[7] as u16);
    if v >= 12 {
        v - 12
    } else {
        (v as u32 + 0x1_0000 - 12) as u16
    }
}

/// One record of a partition's leading record chain.
#[derive(Debug, Clone, Copy, PartialEq, Eq, Structural)]
pub struct PartitionRecordSpan {
    /// Offset of the record header.
    pub start: usize,
    /// Offset one past the record body, where its trailer starts.
    pub end: usize,
    /// The `u64` the header opens with.
    pub element_id: u64,
}

/// The record starting at `at`, as `(element id, end)`: a header whose
/// `u32` size is at least [`PARTITION_RECORD_HEADER_LEN`] and whose `u16`
/// at `+0x0c` is `constant`, and a trailer at the end of the body whose
/// flag word is `0` or `0x0100_0000` and which repeats the size.
pub open spec fn spec_record_span_at(buf: Seq<u8>, at: int, constant: int) -> Option<(u64, int)> {
    if at < 0 || at + 14 > buf.len() {
        None
    } else {
        let size = le_u32(buf, at + 8);
        let end = at + size;
        if size < PARTITION_RECORD_HEADER_LEN || le_u16(buf, at + 0x0c) != constant {
            None
        } else if end + 16 > buf.len() {
            None
        } else {
            let flags = le_u32(buf, end + 8);
            let echo = le_u32(buf, end + 12);
            if (flags == 0 || flags == 0x0100_0000) && echo == size {
                Some((le_u64(buf, at) as u64, end))
            } else {
                None
            }
        }
    }
}

/// The chain of records from `at` on, each starting where the previous
/// one's trailer ends.
pub open spec fn spec_chain_from(buf: Seq<u8>, at: int, constant: int) -> Seq<PartitionRecordSpan>
    decreases buf.len() - at,
{
    match spec_record_span_at(buf, at, constant) {
        None => Seq::empty(),
        Some((id, end)) => {
            if end + 16 <= buf.len() && end + 16 > at {
                seq![PartitionRecordSpan { start: at as usize, end: end as usize, element_id: id }]
                    + spec_chain_from(buf, end + 16, constant)
            } else {
                Seq::empty()
            }
        },
    }
}

/// The leading chain of records in one inflated partition: from offset 0,
/// header to trailer, stopping at the first position that is not a record.
pub fn partition_record_chain(buf: &[u8], marker: &[u8; 8]) -> (r: Vec<PartitionRecordSpan>)
    ensures
        r@ == spec_chain_from(buf@, 0, spec_record_prologue_constant(marker@)),
        starts_sorted(r@),
{
    let constant = record_prologue_constant(marker);
    let ghost c = constant as int;
    let len = buf.len();
    let mut chain: Vec<PartitionRecordSpan> = Vec::new();
    let mut at: usize = 0;
    loop
        invariant
            len == buf@.len(),
            at <= len,
            c == constant,
            spec_chain_from(buf@, 0, c) == chain@ + spec_chain_from(buf@, at as int, c),
            starts_sorted(chain@),
            forall|i: int| 0 <= i < chain@.len() ==> #[trigger] chain@[i].start < at,
        ensures
            spec_chain_from(buf@, at as int, c) == Seq::<PartitionRecordSpan>::empty(),
        decreases len - at,
    {
        let ghost old_chain = chain@;
        if len - at < 14 {
            break;
        }
        let element_id = read_u64(buf, at).unwrap();
        let size = read_u32(buf, at + 8).unwrap() as usize;
        if size < PARTITION_RECORD_HEADER_LEN || read_u16(buf, at + 0x0c).unwrap() != constant {
            break;
        }
        if size > len - at || len - at - size < 16 {
            break;
        }
        let end = at + size;
        let flags = read_u32(buf, end + 8).unwrap();
        let echo = read_u32(buf, end + 12).unwrap();
        if !(flags == 0 || flags == 0x0100_0000) || echo as usize != size {
            break;
        }
        let span = PartitionRecordSpan { start: at, end, element_id };
        chain.push(span);
        proof {
            assert(spec_chain_from(buf@, at as int, c) == seq![span] + spec_chain_from(
                buf@,
                end + 16,
                c,
            ));
            assert(chain@ + spec_chain_from(buf@, end + 16, c) =~= old_chain + (seq![span]
                + spec_chain_from(buf@, end + 16, c)));
        }
        at = end + PARTITION_RECORD_TRAILER_LEN;
    }
    assert(chain@ + Seq::<PartitionRecordSpan>::empty() =~= chain@);
    chain
}

/// Whether `chain` is partitioned by "starts at or before `offset`", the
/// precondition of a binary search for `offset`.
pub open spec fn partitioned_at(chain: Seq<PartitionRecordSpan>, offset: int) -> bool {
    forall|i: int, j: int|
        0 <= i < j < chain.len() && #[trigger] chain[j].start <= offset ==> #[trigger] chain[i].start
            <= offset
}

/// Whether `k` is the last span of `chain` that starts at or before
/// `offset`.
pub open spec fn last_start_at_or_before(
    chain: Seq<PartitionRecordSpan>,
    offset: int,
    k: int,
) -> bool {
    &&& 0 <= k < chain.len()
    &&& chain[k].start <= offset
    &&& (k + 1 == chain.len() || chain[k + 1].start > offset)
}

/// Whether the spans' starts never decrease, as a partition's record chain
/// lays them out.
pub open spec fn starts_sorted(chain: Seq<PartitionRecordSpan>) -> bool {
    forall|i: int, j: int|
        0 <= i < j < chain.len() ==> #[trigger] chain[i].start <= #[trigger] chain[j].start
}

/// The span of `chain` whose body contains `offset`: the last one that
/// starts at or before `offset`, when `offset` lies before its end.
pub open spec fn spec_enclosing(chain: Seq<PartitionRecordSpan>, offset: int) -> Option<
    PartitionRecordSpan,
> {
    if exists|k: int| last_start_at_or_before(chain, offset, k) && offset < chain[k].end {
        Some(
            chain[choose|k: int| last_start_at_or_before(chain, offset, k) && offset < chain[k].end],
        )
    } else {
        None
    }
}

proof fn lemma_last_start_unique(chain: Seq<PartitionRecordSpan>, offset: int, a: int, b: int)
    requires
        partitioned_at(chain, offset),
        last_start_at_or_before(chain, offset, a),
        last_start_at_or_before(chain, offset, b),
    ensures
        a == b,
{
    if a < b {
        assert(chain[b].start <= offset);
        assert(chain[a + 1].start <= offset);
    } else if b < a {
        assert(chain[a].start <= offset);
        assert(chain[b + 1].start <= offset);
    }
}

/// Sorted starts are partitioned around every offset.
pub proof fn lemma_sorted_partitioned(chain: Seq<PartitionRecordSpan>, offset: int)
    requires
        starts_sorted(chain),
    ensures
        partitioned_at(chain, offset),
{
}

/// The record of `chain` whose body contains `offset`: the last one that
/// starts at or before it, when `offset` lies before its end.
pub fn enclosing_record(chain: &[PartitionRecordSpan], offset: usize) -> (r: Option<
    &PartitionRecordSpan,
>)
    requires
        partitioned_at(chain@, offset as int),
    ensures
        match r {
            Some(span) => spec_enclosing(chain@, offset as int) == Some(*span),
            None => spec_enclosing(chain@, offset as int) is None,
        },
{
    let mut i: usize = 0;
    while i < chain.len() && chain[i].start <= offset
        invariant
            i <= chain@.len(),
            forall|j: int| 0 <= j < i ==> chain@[j].start <= offset,
        decreases chain@.len() - i,
    {
        i += 1;
    }
    if i == 0 {
        proof {
            assert forall|k: int| last_start_at_or_before(chain@, offset as int, k) implies offset
                >= chain@[k].end by {
                assert(chain@[0].start > offset);
                assert(k == 0 || chain@[k].start > offset || chain@[0].start <= offset);
            }
        }
        return None;
    }
    let span = &chain[i - 1];
    proof {
        assert(last_start_at_or_before(chain@, offset as int, i - 1));
        assert forall|k: int| last_start_at_or_before(chain@, offset as int, k) implies k == i
            - 1 by {
            lemma_last_start_unique(chain@, offset as int, k, i - 1);
        }
    }
    if offset < span.end {
        proof {
            let k = choose|k: int|
                last_start_at_or_before(chain@, offset as int, k) && offset < chain@[k].end;
            assert(last_start_at_or_before(chain@, offset as int, i - 1) && offset < chain@[i
                - 1].end);
            lemma_last_start_unique(chain@, offset as int, k, i - 1);
        }
        Some(span)
    } else {
        None
    }
}

impl PartitionElementRecord {
    /// The container ElementId this record belongs to: `None` for
    /// [`CONTAINER_NONE`] and for a value outside the `u32` range.
    pub fn container_element_id(&self) -> (r: Option<u32>)
        ensures
            r == (if self.container == CONTAINER_NONE || self.container > 0xffff_ffff {
                None
            } else {
                Some(self.container as u32)
            }),
    {
        if self.container == CONTAINER_NONE || self.container > 0xffff_ffff {
            return None;
        }
        Some(self.container as u32)
    }

    /// True when `+0x32` is set: a member of a container element.
    pub fn is_container_member(&self) -> (r: bool)
        ensures
            r == (self.container != CONTAINER_NONE),
    {
        self.container != CONTAINER_NONE
    }

    /// True when `+0x42` marks a placed element instance.
    pub fn is_placed_instance(&self) -> (r: bool)
        ensures
            r == (self.placement_kind == PLACEMENT_KIND_INSTANCE),
    {
        self.placement_kind == PLACEMENT_KIND_INSTANCE
    }

    /// True when `+0x42` marks a family/type symbol envelope.
    pub fn is_type_symbol(&self) -> (r: bool)
        ensures
            r == (self.placement_kind == PLACEMENT_KIND_SYMBOL),
    {
        self.placement_kind == PLACEMENT_KIND_SYMBOL
    }

    /// The instance rule: no container reference and a placed instance.
    pub fn is_exported_instance(&self) -> (r: bool)
        ensures
            r == (self.container == CONTAINER_NONE && self.placement_kind
                == PLACEMENT_KIND_INSTANCE),
    {
        !self.is_container_member() && self.is_placed_instance()
    }

    /// The family/type symbol this instance is placed from: the last slot of
    /// [`Self::references`] before the first occurrence of the record's own
    /// ElementId that is a `u32`-range id in `symbols`.
    pub fn type_symbol_reference(&self, symbols: &BTreeSet<u32>) -> (r: Option<u32>)
        ensures
            r == spec_type_symbol_reference(self.references@, self.element_id, symbols@),
    {
        let own = self.element_id as u64;
        let mut index: usize = 0;
        while index < self.references.len() && self.references[index] != own
            invariant
                own == self.element_id as u64,
                index <= self.references@.len(),
                forall|j: int| 0 <= j < index ==> self.references@[j] != own,
            decreases self.references@.len() - index,
        {
            index += 1;
        }
        proof {
            lemma_first_index_of_unique(self.references@, own, index as int);
        }
        if index == self.references.len() {
            return None;
        }
        let mut k: usize = index;
        while k > 0
            invariant
                k <= index < self.references@.len(),
                own == self.element_id as u64,
                first_index_of(self.references@, own) == index,
                forall|j: int|
                    k <= j < index ==> !is_symbol_slot(#[trigger] self.references@[j], symbols@),
            decreases k,
        {
            let slot = self.references[k - 1];
            if slot <= 0xffff_ffff && symbols.contains(&(slot as u32)) {
                proof {
                    lemma_last_symbol_unique(self.references@, index as int, symbols@, k - 1);
                }
                return Some(slot as u32);
            }
            k -= 1;
        }
        proof {
            lemma_last_symbol_unique(self.references@, index as int, symbols@, -1);
        }
        None
    }
}

/// Whether a reference slot is a `u32`-range id in `symbols`.
pub open spec fn is_symbol_slot(slot: u64, symbols: Set<u32>) -> bool {
    slot <= 0xffff_ffff && symbols.contains(slot as u32)
}

/// Index of the first slot equal to `v`, or `-1`.
pub open spec fn first_index_of(s: Seq<u64>, v: u64) -> int
    decreases s.len(),
{
    if s.len() == 0 {
        -1
    } else if s[0] == v {
        0
    } else {
        let rest = first_index_of(s.drop_first(), v);
        if rest < 0 {
            -1
        } else {
            rest + 1
        }
    }
}

/// Index of the last slot before `end` that [`is_symbol_slot`], or `-1`.
pub open spec fn last_symbol_before(s: Seq<u64>, end: int, symbols: Set<u32>) -> int
    decreases end,
{
    if end <= 0 {
        -1
    } else if is_symbol_slot(s[end - 1], symbols) {
        end - 1
    } else {
        last_symbol_before(s, end - 1, symbols)
    }
}

/// The type symbol a record names before its own id.
pub open spec fn spec_type_symbol_reference(
    references: Seq<u64>,
    element_id: u32,
    symbols: Set<u32>,
) -> Option<u32> {
    let index = first_index_of(references, element_id as u64);
    if index < 0 {
        None
    } else {
        let k = last_symbol_before(references, index, symbols);
        if k < 0 {
            None
        } else {
            Some(references[k] as u32)
        }
    }
}

proof fn lemma_first_index_of_unique(s: Seq<u64>, v: u64, i: int)
    requires
        0 <= i <= s.len(),
        i < s.len() ==> s[i] == v,
        forall|j: int| 0 <= j < i ==> s[j] != v,
    ensures
        first_index_of(s, v) == (if i == s.len() { -1 } else { i }),
    decreases s.len(),
{
    if s.len() > 0 && s[0] != v {
        assert forall|j: int| 0 <= j < i - 1 implies s.drop_first()[j] != v by {
            assert(s.drop_first()[j] == s[j + 1]);
        }
        lemma_first_index_of_unique(s.drop_first(), v, i - 1);
    }
}

proof fn lemma_last_symbol_unique(s: Seq<u64>, end: int, symbols: Set<u32>, k: int)
    requires
        -1 <= k < end <= s.len(),
        k >= 0 ==> is_symbol_slot(s[k], symbols),
        forall|j: int| k < j < end ==> !is_symbol_slot(#[trigger] s[j], symbols),
    ensures
        last_symbol_before(s, end, symbols) == k,
    decreases end,
{
    if end > 0 && end - 1 != k {
        lemma_last_symbol_unique(s, end - 1, symbols, k);
    }
}

/// The record a category scan keeps at hit `h`: the frame `CATEGORY_OFFSET`
/// before the hit, when it decodes.
pub open spec fn category_hit_record(
    stream: Seq<char>,
    buf: Seq<u8>,
    declared: Set<u32>,
    marker: Seq<u8>,
    h: int,
) -> Option<ElementRecordView> {
    if h >= CATEGORY_OFFSET && spec_record_ok(buf, h - CATEGORY_OFFSET, declared, marker) {
        Some(
            spec_frame_record(
                stream,
                buf,
                h - CATEGORY_OFFSET,
                le_u64(buf, h - CATEGORY_OFFSET) as u32,
            ),
        )
    } else {
        None
    }
}

/// [`category_hit_record`] as a function of the hit.
pub open spec fn category_hit_fn(
    stream: Seq<char>,
    buf: Seq<u8>,
    declared: Set<u32>,
    marker: Seq<u8>,
) -> spec_fn(int) -> Option<ElementRecordView> {
    |h: int| category_hit_record(stream, buf, declared, marker, h)
}

/// The views of a list of records.
pub open spec fn record_views(v: Seq<PartitionElementRecord>) -> Seq<ElementRecordView> {
    v.map_values(|r: PartitionElementRecord| r@)
}

/// Every element record in `buf` carrying `builtin_category`, for the
/// release whose bbox marker is `marker`: each occurrence of the category's
/// eight bytes, in order, taken as the `+0x12` field of a frame and kept
/// when that frame decodes.
pub fn find_category_records_with_marker(
    stream: &str,
    buf: &[u8],
    builtin_category: i64,
    declared_ids: &BTreeSet<u32>,
    marker: &[u8; 8],
) -> (r: Vec<PartitionElementRecord>)
    ensures
        record_views(r@) == keep_some(
            hits_from(buf@, spec_le_bytes(from_signed_spec(builtin_category) as u64), 0),
            category_hit_fn(stream@, buf@, declared_ids@, marker@),
        ),
{
    let needle = u64_le_bytes(from_signed(builtin_category));
    let ghost f = category_hit_fn(stream@, buf@, declared_ids@, marker@);
    let ghost n = needle@;
    let mut out: Vec<PartitionElementRecord> = Vec::new();
    let mut cursor: usize = 0;
    let len = buf.len();
    while cursor <= len && len - cursor >= 8
        invariant
            len == buf@.len(),
            n == needle@,
            n.len() == 8,
            f == category_hit_fn(stream@, buf@, declared_ids@, marker@),
            keep_some(hits_from(buf@, n, 0), f) == record_views(out@) + keep_some(
                hits_from(buf@, n, cursor as int),
                f,
            ),
        ensures
            hits_from(buf@, n, cursor as int) == Seq::<int>::empty(),
        decreases len + 1 - cursor,
    {
        let found = find_from(buf, cursor, needle.as_slice());
        let hit = match found {
            Some(h) => h,
            None => {
                proof {
                    lemma_hits_none(buf@, n, cursor as int);
                }
                break;
            },
        };
        proof {
            lemma_hits_skip(buf@, n, cursor as int, hit as int);
            lemma_hits_step(buf@, n, hit as int);
            lemma_keep_some_step(hits_from(buf@, n, hit as int), f);
        }
        let ghost before = out@;
        if hit >= CATEGORY_OFFSET {
            let decoded = decode_at_with_marker(stream, buf, hit - CATEGORY_OFFSET, declared_ids, marker);
            match decoded {
                Some(record) => {
                    out.push(record);
                    proof {
                        assert(record_views(out@) =~= record_views(before).push(record@));
                        assert(record_views(out@) + keep_some(hits_from(buf@, n, hit + 1), f)
                            =~= record_views(before) + (seq![record@] + keep_some(
                            hits_from(buf@, n, hit + 1),
                            f,
                        )));
                    }
                },
                None => {},
            }
        }
        cursor = hit + 1;
    }
    proof {
        assert(record_views(out@) + Seq::<ElementRecordView>::empty() =~= record_views(out@));

    }
    out
}

/// `v`'s two's-complement bits as a `u64`.
pub open spec fn from_signed_spec(v: i64) -> int {
    if v >= 0 { v as int } else { v + 0x1_0000_0000_0000_0000 }
}

/// [`find_category_records_with_marker`] with the Revit 2024 marker.
pub fn find_category_records(
    stream: &str,
    buf: &[u8],
    builtin_category: i64,
    declared_ids: &BTreeSet<u32>,
) -> (r: Vec<PartitionElementRecord>)
    ensures
        record_views(r@) == keep_some(
            hits_from(buf@, spec_le_bytes(from_signed_spec(builtin_category) as u64), 0),
            category_hit_fn(stream@, buf@, declared_ids@, BBOX_MARKER@),
        ),
{
    let marker = BBOX_MARKER;
    find_category_records_with_marker(stream, buf, builtin_category, declared_ids, &marker)
}

/// Whether the frame at `offset` is an exported instance's: no container
/// (`u64::MAX` at `+0x32`) and the instance placement kind in the low half
/// of the `u64` at `+0x42`.
pub open spec fn spec_instance_frame(buf: Seq<u8>, offset: int) -> bool {
    &&& 0 <= offset
    &&& offset + CONTAINER_OFFSET + 8 <= buf.len()
    &&& le_u64(buf, offset + CONTAINER_OFFSET) == CONTAINER_NONE
    &&& offset + PLACEMENT_KIND_OFFSET + 8 <= buf.len()
    &&& le_u32(buf, offset + PLACEMENT_KIND_OFFSET) == PLACEMENT_KIND_INSTANCE
}

fn is_instance_frame(buf: &[u8], offset: usize) -> (r: bool)
    ensures
        r == spec_instance_frame(buf@, offset as int),
{
    if offset > buf.len() || buf.len() - offset < PLACEMENT_KIND_OFFSET + 8 {
        return false;
    }
    read_u64(buf, offset + CONTAINER_OFFSET).unwrap() == CONTAINER_NONE && read_u32(
        buf,
        offset + PLACEMENT_KIND_OFFSET,
    ).unwrap() == PLACEMENT_KIND_INSTANCE
}

/// Whether the frame at `offset` is a second-prologue instance: a category
/// in the `BuiltInCategory` band, no ElementId of its own at `+0x00`, and
/// an instance frame.
pub open spec fn spec_second_prologue_instance(buf: Seq<u8>, offset: int) -> bool {
    &&& 0 <= offset
    &&& offset + CATEGORY_OFFSET + 8 <= buf.len()
    &&& BUILTIN_CATEGORY_MIN <= as_signed(le_u64(buf, offset + CATEGORY_OFFSET) as u64)
        <= BUILTIN_CATEGORY_MAX
    &&& spec_carries_no_element_id(le_u64(buf, offset) as u64)
    &&& spec_instance_frame(buf, offset)
}

fn is_second_prologue_instance(buf: &[u8], offset: usize) -> (r: bool)
    ensures
        r == spec_second_prologue_instance(buf@, offset as int),
{
    if offset > buf.len() || buf.len() - offset < CATEGORY_OFFSET + 8 {
        return false;
    }
    let category = to_signed(read_u64(buf, offset + CATEGORY_OFFSET).unwrap());
    BUILTIN_CATEGORY_MIN <= category && category <= BUILTIN_CATEGORY_MAX && carries_no_element_id(
        read_u64(buf, offset).unwrap(),
    ) && is_instance_frame(buf, offset)
}

/// The ElementId the bbox marker found at `hit` gives its frame: the frame
/// [`BBOX_MARKER_OFFSET`] before it, when it is a second-prologue instance
/// inside a record of the partition's chain whose `u64` is a declared
/// ElementId.
pub open spec fn second_prologue_at(buf: Seq<u8>, marker: Seq<u8>, declared: Set<u32>, hit: int) -> Option<
    (int, u32),
> {
    let offset = hit - BBOX_MARKER_OFFSET;
    if offset >= 0 && spec_second_prologue_instance(buf, offset) {
        match spec_enclosing(spec_chain_from(buf, 0, spec_record_prologue_constant(marker)), offset) {
            Some(span) => if span.element_id <= 0xffff_ffff && declared.contains(span.element_id as u32) {
                Some((offset, span.element_id as u32))
            } else {
                None
            },
            None => None,
        }
    } else {
        None
    }
}

/// [`second_prologue_at`] for a fixed buffer.
pub open spec fn second_prologue_fn(buf: Seq<u8>, marker: Seq<u8>, declared: Set<u32>) -> spec_fn(
    int,
) -> Option<(int, u32)> {
    |hit: int| second_prologue_at(buf, marker, declared, hit)
}

/// The map a list of `(offset, id)` assignments makes, a later one for an
/// offset replacing an earlier.
pub open spec fn assignment_map(a: Seq<(int, u32)>) -> Map<int, u32>
    decreases a.len(),
{
    if a.len() == 0 {
        Map::empty()
    } else {
        assignment_map(a.drop_last()).insert(a.last().0, a.last().1)
    }
}

/// Whether `m` holds exactly the assignments of `a`.
pub open spec fn holds_assignments(m: Map<usize, u32>, a: Seq<(int, u32)>) -> bool {
    &&& forall|o: usize|
        #[trigger] m.contains_key(o) == assignment_map(a).contains_key(o as int) && (m.contains_key(o)
            ==> m[o] == assignment_map(a)[o as int])
    &&& forall|k: int| #[trigger] assignment_map(a).contains_key(k) ==> 0 <= k <= usize::MAX
}

/// The ElementIds the partition's record chain gives the frames that carry
/// none of their own (RE-35), by frame offset: each bbox marker of the
/// release, in the order `memmem::find_iter` reports them, whose frame
/// [`BBOX_MARKER_OFFSET`] before it is a second-prologue instance inside a
/// chain record with a declared ElementId.
pub fn assign_second_prologue_ids(
    buf: &[u8],
    marker: &[u8; 8],
    declared_ids: &BTreeSet<u32>,
) -> (r: BTreeMap<usize, u32>)
    ensures
        holds_assignments(
            r@,
            keep_some(iter_hits_from(buf@, marker@, 0), second_prologue_fn(buf@, marker@, declared_ids@)),
        ),
{
    let chain = partition_record_chain(buf, marker);
    let hits = find_iter_all(buf, marker.as_slice());
    let ghost ps = positions(hits@);
    let ghost f = second_prologue_fn(buf@, marker@, declared_ids@);
    let mut out: BTreeMap<usize, u32> = BTreeMap::new();
    let mut k: usize = 0;
    assert(ps.take(0) =~= Seq::<int>::empty());
    while k < hits.len()
        invariant
            k <= hits@.len(),
            ps == positions(hits@),
            ps == iter_hits_from(buf@, marker@, 0),
            chain@ == spec_chain_from(buf@, 0, spec_record_prologue_constant(marker@)),
            starts_sorted(chain@),
            f == second_prologue_fn(buf@, marker@, declared_ids@),
            holds_assignments(out@, keep_some(ps.take(k as int), f)),
        decreases hits@.len() - k,
    {
        let ghost before = keep_some(ps.take(k as int), f);
        let hit = hits[k];
        proof {
            assert(ps.take(k + 1) =~= ps.take(k as int).push(hit as int));
            lemma_keep_some_push(ps.take(k as int), hit as int, f);
        }
        if hit >= BBOX_MARKER_OFFSET {
            let offset = hit - BBOX_MARKER_OFFSET;
            if is_second_prologue_instance(buf, offset) {
                proof {
                    lemma_sorted_partitioned(chain@, offset as int);
                }
                match enclosing_record(chain.as_slice(), offset) {
                    Some(span) => {
                        if span.element_id <= 0xffff_ffff && declared_ids.contains(&(span.element_id as u32)) {
                            let id = span.element_id as u32;
                            out.insert(offset, id);
                            proof {
                                let a = keep_some(ps.take(k + 1), f);
                                assert(f(hit as int) == Some((offset as int, id)));
                                assert(a == before.push((offset as int, id)));
                                assert(a.drop_last() =~= before);
                                assert(assignment_map(a) == assignment_map(before).insert(offset as int, id));
                            }
                        } else {
                            assert(keep_some(ps.take(k + 1), f) =~= before);
                        }
                    },
                    None => {
                        assert(keep_some(ps.take(k + 1), f) =~= before);
                    },
                }
            } else {
                assert(keep_some(ps.take(k + 1), f) =~= before);
            }
        } else {
            assert(keep_some(ps.take(k + 1), f) =~= before);
        }
        k += 1;
    }
    assert(ps.take(ps.len() as int) =~= ps);
    out
}

/// The assignments of one buffer, as a map from frame offset.
pub open spec fn spec_assigned(buf: Seq<u8>, marker: Seq<u8>, declared: Set<u32>) -> Map<usize, u32> {
    let a = keep_some(iter_hits_from(buf, marker, 0), second_prologue_fn(buf, marker, declared));
    Map::new(|o: usize| assignment_map(a).contains_key(o as int), |o: usize| assignment_map(a)[o as int])
}

/// The second-prologue ElementIds of every partition that has some, by
/// stream name, in partition order.
pub struct SecondPrologueIds {
    pub streams: Vec<(String, BTreeMap<usize, u32>)>,
}

impl View for SecondPrologueIds {
    type V = Seq<(Seq<char>, Map<usize, u32>)>;

    open spec fn view(&self) -> Seq<(Seq<char>, Map<usize, u32>)> {
        stream_assignments(self.streams@)
    }
}

/// Stream names and assignments as values.
pub open spec fn stream_assignments(v: Seq<(String, BTreeMap<usize, u32>)>) -> Seq<(Seq<char>, Map<usize, u32>)> {
    v.map_values(|p: (String, BTreeMap<usize, u32>)| (p.0@, p.1@))
}

/// The streams that carry assignments, with them, in stream order.
pub open spec fn spec_second_prologue_ids(
    parts: Seq<(Seq<char>, Seq<u8>)>,
    marker: Seq<u8>,
    declared: Set<u32>,
) -> Seq<(Seq<char>, Map<usize, u32>)>
    decreases parts.len(),
{
    if parts.len() == 0 {
        Seq::empty()
    } else {
        let m = spec_assigned(parts.last().1, marker, declared);
        spec_second_prologue_ids(parts.drop_last(), marker, declared) + if m.dom().len() == 0 {
            Seq::empty()
        } else {
            seq![(parts.last().0, m)]
        }
    }
}

impl SecondPrologueIds {
    /// The assignments of the stream named `stream`, if it has any.
    pub fn get(&self, stream: &str) -> (r: Option<&BTreeMap<usize, u32>>)
        ensures
            r is None <==> forall|i: int| 0 <= i < self@.len() ==> #[trigger] self@[i].0 != stream@,
            r matches Some(m) ==> exists|i: int|
                0 <= i < self@.len() && #[trigger] self@[i].0 == stream@ && self@[i].1 == m@ && forall|j: int|
                    0 <= j < i ==> self@[j].0 != stream@,
    {
        let name = crate::text::chars_of(stream);
        let mut i: usize = 0;
        while i < self.streams.len()
            invariant
                i <= self.streams@.len(),
                name@ == stream@,
                forall|j: int| 0 <= j < i ==> #[trigger] self@[j].0 != stream@,
            decreases self.streams@.len() - i,
        {
            if crate::text::equals_str(&name, self.streams[i].0.as_str()) {
                assert(self@[i as int].0 == stream@);
                return Some(&self.streams[i].1);
            }
            i += 1;
        }
        None
    }
}

/// The second-prologue ElementIds of every partition (RE-35), by stream:
/// empty for a release the layout is not measured on, or with nothing
/// declared.
pub fn compute_second_prologue_ids(
    partitions: &[InflatedPartition],
    revit_version: u32,
    declared: &BTreeSet<u32>,
) -> (r: SecondPrologueIds)
    ensures
        spec_bbox_marker(revit_version) is None || declared@.is_empty() ==> r@.len() == 0,
        spec_bbox_marker(revit_version) is Some && !declared@.is_empty() ==> r@
            == spec_second_prologue_ids(
            partition_views(partitions@),
            spec_bbox_marker(revit_version)->0,
            declared@,
        ),
{
    let mut out: Vec<(String, BTreeMap<usize, u32>)> = Vec::new();
    let marker = match bbox_marker(revit_version) {
        Some(m) => m,
        None => {
            return SecondPrologueIds { streams: out };
        },
    };
    if declared.is_empty() {
        return SecondPrologueIds { streams: out };
    }
    let ghost parts = partition_views(partitions@);
    let mut i: usize = 0;
    while i < partitions.len()
        invariant
            i <= partitions@.len(),
            parts == partition_views(partitions@),
            stream_assignments(out@) == spec_second_prologue_ids(parts.take(i as int), marker@, declared@),
        decreases partitions@.len() - i,
    {
        let part = &partitions[i];
        let assigned = assign_second_prologue_ids(part.bytes.as_slice(), &marker, declared);
        let ghost before = out@;
        proof {
            assert(parts.take(i + 1).drop_last() =~= parts.take(i as int));
            assert(parts.take(i + 1).last() == parts[i as int]);
            assert(parts[i as int] == (part.stream@, part.bytes@));
            assert(assigned@ =~= spec_assigned(part.bytes@, marker@, declared@));
        }
        if !assigned.is_empty() {
            out.push((part.stream.clone(), assigned));
            assert(stream_assignments(out@) =~= stream_assignments(before).push(
                (part.stream@, spec_assigned(part.bytes@, marker@, declared@)),
            ));
        } else {
            assert(spec_assigned(part.bytes@, marker@, declared@).dom() =~= Set::<usize>::empty());
        }
        i += 1;
    }
    assert(parts.take(parts.len() as int) =~= parts);
    SecondPrologueIds { streams: out }
}

proof fn lemma_assignment_from(a: Seq<(int, u32)>, o: int)
    requires
        assignment_map(a).contains_key(o),
    ensures
        exists|k: int| 0 <= k < a.len() && #[trigger] a[k] == (o, assignment_map(a)[o]),
    decreases a.len(),
{
    if a.len() > 0 {
        if a.last().0 == o {
            assert(a[a.len() - 1] == (o, assignment_map(a)[o]));
        } else {
            lemma_assignment_from(a.drop_last(), o);
            let k = choose|k: int| 0 <= k < a.drop_last().len() && #[trigger] a.drop_last()[k] == (
                o,
                assignment_map(a.drop_last())[o],
            );
            assert(a[k] == (o, assignment_map(a)[o]));
        }
    }
}

/// Every ElementId the chain assigns belongs to a declared element, and the
/// frame it is assigned to is a second-prologue instance without an
/// ElementId of its own.
pub proof fn assigned_ids_are_declared(buf: Seq<u8>, marker: Seq<u8>, declared: Set<u32>, o: usize)
    requires
        spec_assigned(buf, marker, declared).contains_key(o),
    ensures
        declared.contains(spec_assigned(buf, marker, declared)[o]),
        spec_second_prologue_instance(buf, o as int),
{
    let hits = iter_hits_from(buf, marker, 0);
    let f = second_prologue_fn(buf, marker, declared);
    let a = keep_some(hits, f);
    lemma_assignment_from(a, o as int);
    let k = choose|k: int| 0 <= k < a.len() && #[trigger] a[k] == (o as int, assignment_map(a)[o as int]);
    crate::bytes::lemma_keep_some_member(hits, f, k);
    let j = choose|j: int| 0 <= j < hits.len() && f(#[trigger] hits[j]) == Some(a[k]);
    assert(second_prologue_at(buf, marker, declared, hits[j]) == Some(a[k]));
}

/// Whether the keys increase strictly.
pub open spec fn increasing_keys(ks: Seq<usize>) -> bool {
    forall|i: int, j: int| 0 <= i < j < ks.len() ==> ks[i] < ks[j]
}

/// The keys of a map in increasing order.
pub open spec fn sorted_keys(m: Map<usize, u32>) -> Seq<usize> {
    choose|ks: Seq<usize>| increasing_keys(ks) && ks.to_set() == m.dom()
}

proof fn lemma_increasing_unique(a: Seq<usize>, b: Seq<usize>)
    requires
        increasing_keys(a),
        increasing_keys(b),
        a.to_set() == b.to_set(),
    ensures
        a == b,
    decreases a.len(),
{
    if a.len() == 0 {
        if b.len() > 0 {
            assert(b.to_set().contains(b[0]));
            assert(a.to_set().contains(b[0]));
            assert(a.contains(b[0]));
        }
        assert(a =~= b);
    } else {
        assert(a.to_set().contains(a[0]));
        assert(b.to_set().contains(a[0]));
        let j = choose|j: int| 0 <= j < b.len() && b[j] == a[0];
        assert(b.to_set().contains(b[0]));
        let i = choose|i: int| 0 <= i < a.len() && a[i] == b[0];
        assert(a[0] == b[0]);
        assert forall|x: usize| a.drop_first().to_set().contains(x) == b.drop_first().to_set().contains(x) by {
            if a.drop_first().to_set().contains(x) {
                let p = choose|p: int| 0 <= p < a.drop_first().len() && a.drop_first()[p] == x;
                assert(a.to_set().contains(x));
                let q = choose|q: int| 0 <= q < b.len() && b[q] == x;
                assert(q != 0);
                assert(b.drop_first()[q - 1] == x);
            }
            if b.drop_first().to_set().contains(x) {
                let p = choose|p: int| 0 <= p < b.drop_first().len() && b.drop_first()[p] == x;
                assert(b.to_set().contains(x));
                let q = choose|q: int| 0 <= q < a.len() && a[q] == x;
                assert(q != 0);
                assert(a.drop_first()[q - 1] == x);
            }
        }
        assert(a.drop_first().to_set() =~= b.drop_first().to_set());
        lemma_increasing_unique(a.drop_first(), b.drop_first());
        assert(a.len() == b.len());
        assert forall|k: int| 0 <= k < a.len() implies a[k] == b[k] by {
            if k > 0 {
                assert(a[k] == a.drop_first()[k - 1]);
                assert(b[k] == b.drop_first()[k - 1]);
            }
        }
        assert(a =~= b);
    }
}

/// The keys of a list of entries.
pub open spec fn entry_keys(v: Seq<(usize, u32)>) -> Seq<usize> {
    v.map_values(|e: (usize, u32)| e.0)
}

/// The entries of a map, in increasing key order.
fn map_entries(m: &BTreeMap<usize, u32>) -> (r: Vec<(usize, u32)>)
    ensures
        entry_keys(r@) == sorted_keys(m@),
        forall|k: int| 0 <= k < r@.len() ==> m@.contains_key(#[trigger] r@[k].0) && m@[r@[k].0] == r@[k].1,
{
    broadcast use vstd::laws_cmp::group_laws_cmp;
    let iter = m.iter();
    let ghost all = vstd::std_specs::iter::IteratorSpec::remaining(&iter);
    let ghost keys = all.map_values(|kv: (&usize, &u32)| *kv.0);
    assert(all == vstd::std_specs::iter::IteratorSpec::remaining(&vstd::std_specs::btree::spec_btree_map_iter(m)));
    assert(vstd::std_specs::btree::increasing_seq(keys));
    assert forall|i: int, j: int| 0 <= i < j < keys.len() implies keys[i] < keys[j] by {
        assert(vstd::std_specs::cmp::OrdSpec::cmp_spec(&keys[i], &keys[j]) is Less);
    }
    assert(increasing_keys(keys));
    assert forall|i: int| 0 <= i < all.len() implies m@.contains_key(*#[trigger] all[i].0) && m@[*all[i].0]
        == *all[i].1 by {}
    assert forall|x: usize| keys.to_set().contains(x) == m@.dom().contains(x) by {
        if keys.to_set().contains(x) {
            let i = choose|i: int| 0 <= i < keys.len() && keys[i] == x;
            assert(m@.contains_key(*all[i].0));
        }
        if m@.dom().contains(x) {
            assert(all.contains((&x, &m@[x])));
            let i = choose|i: int| 0 <= i < all.len() && all[i] == (&x, &m@[x]);
            assert(keys[i] == x);
        }
    }
    assert(keys.to_set() =~= m@.dom());
    let mut out: Vec<(usize, u32)> = Vec::new();
    let ghost mut count: int = 0;
    for kv in it: iter
        invariant
            it.seq() == all,
            keys == all.map_values(|kv: (&usize, &u32)| *kv.0),
            count == it.index(),
            forall|i: int| 0 <= i < all.len() ==> m@.contains_key(*#[trigger] all[i].0) && m@[*all[i].0] == *all[i].1,
            entry_keys(out@) == keys.take(count),
            out@.len() == count,
            forall|k: int| 0 <= k < out@.len() ==> m@.contains_key(#[trigger] out@[k].0) && m@[out@[k].0] == out@[k].1,
    {
        let (k, v) = kv;
        proof {
            assert(it.seq()[count] == kv);
            assert(m@.contains_key(*all[count].0) && m@[*all[count].0] == *all[count].1);
        }
        let ghost before = out@;
        out.push((*k, *v));
        proof {
            assert(entry_keys(out@) =~= keys.take(count + 1));
            count = count + 1;
        }
    }
    proof {
        assert(keys.take(count) =~= keys);
        lemma_increasing_unique(keys, sorted_keys(m@));
    }
    out
}

/// `s` with `x` placed after every record, from the end, whose offset is
/// above `x`'s: after the last one whose offset is at most `x`'s when `s`
/// is sorted.
pub open spec fn insert_by_offset(s: Seq<ElementRecordView>, x: ElementRecordView) -> Seq<ElementRecordView>
    decreases s.len(),
{
    if s.len() == 0 || s.last().offset <= x.offset {
        s.push(x)
    } else {
        insert_by_offset(s.drop_last(), x).push(s.last())
    }
}

/// `s` sorted by offset, records with equal offsets keeping their order.
pub open spec fn sort_by_offset(s: Seq<ElementRecordView>) -> Seq<ElementRecordView>
    decreases s.len(),
{
    if s.len() == 0 {
        s
    } else {
        insert_by_offset(sort_by_offset(s.drop_last()), s.last())
    }
}

proof fn lemma_insert_at(s: Seq<ElementRecordView>, x: ElementRecordView, j: int)
    requires
        0 <= j <= s.len(),
        forall|k: int| j <= k < s.len() ==> #[trigger] s[k].offset > x.offset,
        j == 0 || s[j - 1].offset <= x.offset,
    ensures
        insert_by_offset(s, x) == s.insert(j, x),
    decreases s.len(),
{
    if j == s.len() {
        assert(s.insert(j, x) =~= s.push(x));
    } else {
        assert(s.last().offset > x.offset);
        lemma_insert_at(s.drop_last(), x, j);
        assert(s.drop_last().insert(j, x).push(s.last()) =~= s.insert(j, x));
    }
}

/// Records moved in order into a stable sort by offset.
fn sort_records_by_offset(records: Vec<PartitionElementRecord>) -> (r: Vec<PartitionElementRecord>)
    ensures
        record_views(r@) == sort_by_offset(record_views(records@)),
{
    let ghost input = record_views(records@);
    let mut out: Vec<PartitionElementRecord> = Vec::new();
    let mut rest = records;
    let mut i: usize = 0;
    let n = rest.len();
    assert(input.take(0) =~= Seq::<ElementRecordView>::empty());
    assert(input.skip(0) =~= input);
    while i < n
        invariant
            i <= n,
            n == input.len(),
            rest@.len() == n - i,
            record_views(rest@) == input.skip(i as int),
            record_views(out@) == sort_by_offset(input.take(i as int)),
        decreases n - i,
    {
        let ghost old_rest = rest@;
        let x = rest.remove(0);
        proof {
            assert(record_views(old_rest)[0] == old_rest[0]@);
            assert(input.skip(i as int)[0] == input[i as int]);
            assert(x@ == input[i as int]);
            assert(rest@ =~= old_rest.subrange(1, old_rest.len() as int));
            assert forall|q: int| 0 <= q < rest@.len() implies #[trigger] record_views(rest@)[q]
                == input.skip(i + 1)[q] by {
                assert(rest@[q] == old_rest[q + 1]);
                assert(record_views(old_rest)[q + 1] == input.skip(i as int)[q + 1]);
            }
            assert(record_views(rest@) =~= input.skip(i + 1));
        }
        let ghost s = record_views(out@);
        let mut j = out.len();
        while j > 0 && out[j - 1].offset > x.offset
            invariant
                j <= out@.len(),
                s == record_views(out@),
                forall|k: int| j <= k < s.len() ==> #[trigger] s[k].offset > x@.offset,
            decreases j,
        {
            j -= 1;
        }
        proof {
            lemma_insert_at(s, x@, j as int);
            assert(input.take(i + 1).drop_last() =~= input.take(i as int));
            assert(input.take(i + 1).last() == x@);
        }
        out.insert(j, x);
        assert(record_views(out@) =~= s.insert(j as int, x@));
        i += 1;
    }
    assert(input.take(n as int) =~= input);
    out
}

/// The record an assigned frame decodes to: the frame at `o`, when its
/// category is `category` and its shape checks out, as the record of the
/// ElementId its enclosing record gives it.
pub open spec fn assigned_record(
    stream: Seq<char>,
    buf: Seq<u8>,
    category: i64,
    marker: Seq<u8>,
    m: Map<usize, u32>,
    o: int,
) -> Option<ElementRecordView> {
    if 0 <= o && o + CATEGORY_OFFSET + 8 <= buf.len() && as_signed(
        le_u64(buf, o + CATEGORY_OFFSET) as u64,
    ) == category && frame_shape_ok(buf, o, marker) {
        let v = spec_frame_record(stream, buf, o, m[o as usize]);
        Some(ElementRecordView { id_from_enclosing_record: true, ..v })
    } else {
        None
    }
}

/// [`assigned_record`] as a function of the offset.
pub open spec fn assigned_record_fn(
    stream: Seq<char>,
    buf: Seq<u8>,
    category: i64,
    marker: Seq<u8>,
    m: Map<usize, u32>,
) -> spec_fn(int) -> Option<ElementRecordView> {
    |o: int| assigned_record(stream, buf, category, marker, m, o)
}

/// The offsets of a map's keys, increasing.
pub open spec fn key_offsets(m: Map<usize, u32>) -> Seq<int> {
    sorted_keys(m).map_values(|o: usize| o as int)
}

/// [`find_category_records_with_marker`] plus the frames `assigned` gives
/// an ElementId, marked as taking it from their enclosing record, in
/// offset order.
pub fn find_category_records_assigned(
    stream: &str,
    buf: &[u8],
    builtin_category: i64,
    declared_ids: &BTreeSet<u32>,
    marker: &[u8; 8],
    assigned: &BTreeMap<usize, u32>,
) -> (r: Vec<PartitionElementRecord>)
    ensures
        record_views(r@) == spec_category_records_assigned(
            stream@,
            buf@,
            builtin_category,
            declared_ids@,
            marker@,
            assigned@,
        ),
{
    let mut out = find_category_records_with_marker(stream, buf, builtin_category, declared_ids, marker);
    let ghost a = record_views(out@);
    let entries = map_entries(assigned);
    let ghost ks = key_offsets(assigned@);
    let ghost f = assigned_record_fn(stream@, buf@, builtin_category, marker@, assigned@);
    let mut k: usize = 0;
    assert(ks.take(0) =~= Seq::<int>::empty());
    while k < entries.len()
        invariant
            k <= entries@.len(),
            entry_keys(entries@) == sorted_keys(assigned@),
            forall|q: int| 0 <= q < entries@.len() ==> assigned@.contains_key(#[trigger] entries@[q].0)
                && assigned@[entries@[q].0] == entries@[q].1,
            ks == key_offsets(assigned@),
            ks.len() == entries@.len(),
            f == assigned_record_fn(stream@, buf@, builtin_category, marker@, assigned@),
            record_views(out@) == a + keep_some(ks.take(k as int), f),
        decreases entries@.len() - k,
    {
        let (offset, element_id) = entries[k];
        proof {
            assert(entry_keys(entries@)[k as int] == offset);
            assert(ks[k as int] == offset as int);
            assert(ks.take(k + 1) =~= ks.take(k as int).push(offset as int));
            crate::bytes::lemma_keep_some_push(ks.take(k as int), offset as int, f);
        }
        let ghost before = out@;
        if offset <= buf.len() && buf.len() - offset >= CATEGORY_OFFSET + 8 {
            let category = to_signed(read_u64(buf, offset + CATEGORY_OFFSET).unwrap());
            if category == builtin_category {
                match decode_frame_as(stream, buf, offset, element_id, marker) {
                    Some(record) => {
                        let mut record = record;
                        record.id_from_enclosing_record = true;
                        out.push(record);
                        proof {
                            assert(record_views(out@) =~= record_views(before).push(record@));
                            assert(f(offset as int) == Some(record@));
                        }
                    },
                    None => {},
                }
            }
        }
        k += 1;
    }
    assert(ks.take(ks.len() as int) =~= ks);
    proof {
        reveal(spec_category_records_assigned);
    }
    sort_records_by_offset(out)
}

/// What [`find_category_records_assigned`] gives for `category`.
#[verifier::opaque]
pub open spec fn spec_category_records_assigned(
    stream: Seq<char>,
    buf: Seq<u8>,
    category: i64,
    declared: Set<u32>,
    marker: Seq<u8>,
    m: Map<usize, u32>,
) -> Seq<ElementRecordView> {
    sort_by_offset(
        keep_some(
            hits_from(buf, spec_le_bytes(from_signed_spec(category) as u64), 0),
            category_hit_fn(stream, buf, declared, marker),
        ) + keep_some(key_offsets(m), assigned_record_fn(stream, buf, category, marker, m)),
    )
}

/// [`find_category_records_assigned`] for each of `builtin_categories`,
/// in order: entry `c` holds the records that scanning
/// `builtin_categories[c]` alone finds, both contracts stating them by
/// [`spec_category_records_assigned`].
pub fn find_categories_records_assigned(
    stream: &str,
    buf: &[u8],
    builtin_categories: &[i64],
    declared_ids: &BTreeSet<u32>,
    marker: &[u8; 8],
    assigned: &BTreeMap<usize, u32>,
) -> (r: Vec<Vec<PartitionElementRecord>>)
    ensures
        r@.len() == builtin_categories@.len(),
        forall|c: int|
            0 <= c < r@.len() ==> record_views(#[trigger] r@[c]@) == spec_category_records_assigned(
                stream@,
                buf@,
                builtin_categories@[c],
                declared_ids@,
                marker@,
                assigned@,
            ),
{
    let mut out: Vec<Vec<PartitionElementRecord>> = Vec::new();
    let mut c: usize = 0;
    while c < builtin_categories.len()
        invariant
            c <= builtin_categories@.len(),
            out@.len() == c,
            forall|q: int|
                0 <= q < c ==> record_views(#[trigger] out@[q]@) == spec_category_records_assigned(
                    stream@,
                    buf@,
                    builtin_categories@[q],
                    declared_ids@,
                    marker@,
                    assigned@,
                ),
        decreases builtin_categories@.len() - c,
    {
        let records = find_category_records_assigned(
            stream,
            buf,
            builtin_categories[c],
            declared_ids,
            marker,
            assigned,
        );
        out.push(records);
        c += 1;
    }
    out
}

/// The assignments kept for `stream`: those of the first entry named
/// `stream`, none when no entry is.
pub open spec fn assigned_for(ids: Seq<(Seq<char>, Map<usize, u32>)>, stream: Seq<char>) -> Map<usize, u32> {
    if exists|i: int| 0 <= i < ids.len() && #[trigger] ids[i].0 == stream && forall|j: int| 0 <= j < i ==> ids[j].0 != stream {
        ids[choose|i: int| 0 <= i < ids.len() && #[trigger] ids[i].0 == stream && forall|j: int| 0 <= j < i ==> ids[j].0 != stream].1
    } else {
        Map::empty()
    }
}

/// The records of one category from every stream, in stream order.
pub open spec fn category_records_in(
    parts: Seq<(Seq<char>, Seq<u8>)>,
    category: i64,
    declared: Set<u32>,
    marker: Seq<u8>,
    ids: Seq<(Seq<char>, Map<usize, u32>)>,
) -> Seq<ElementRecordView>
    decreases parts.len(),
{
    if parts.len() == 0 {
        Seq::empty()
    } else {
        category_records_in(parts.drop_last(), category, declared, marker, ids) + spec_category_records_assigned(
            parts.last().0,
            parts.last().1,
            category,
            declared,
            marker,
            assigned_for(ids, parts.last().0),
        )
    }
}

/// The records of every category, category by category.
pub open spec fn categories_records_in(
    parts: Seq<(Seq<char>, Seq<u8>)>,
    categories: Seq<i64>,
    declared: Set<u32>,
    marker: Seq<u8>,
    ids: Seq<(Seq<char>, Map<usize, u32>)>,
) -> Seq<ElementRecordView>
    decreases categories.len(),
{
    if categories.len() == 0 {
        Seq::empty()
    } else {
        categories_records_in(parts, categories.drop_last(), declared, marker, ids) + category_records_in(
            parts,
            categories.last(),
            declared,
            marker,
            ids,
        )
    }
}

fn assigned_of<'a>(ids: &'a SecondPrologueIds, stream: &str, none: &'a BTreeMap<usize, u32>) -> (r: &'a BTreeMap<
    usize,
    u32,
>)
    requires
        none@ == Map::<usize, u32>::empty(),
    ensures
        r@ == assigned_for(ids@, stream@),
{
    match ids.get(stream) {
        Some(m) => {
            proof {
                let i = choose|i: int|
                    0 <= i < ids@.len() && #[trigger] ids@[i].0 == stream@ && ids@[i].1 == m@ && forall|j: int|
                        0 <= j < i ==> ids@[j].0 != stream@;
                let c = choose|c: int|
                    0 <= c < ids@.len() && #[trigger] ids@[c].0 == stream@ && forall|j: int|
                        0 <= j < c ==> ids@[j].0 != stream@;
                if c < i {
                    assert(ids@[c].0 != stream@);
                } else if i < c {
                    assert(ids@[i].0 != stream@);
                }
            }
            m
        },
        None => none,
    }
}

/// Every element record of `builtin_categories` in every partition, category
/// by category and, within a category, stream by stream: each stream's
/// records found by category and the frames `assigned_all` gives an
/// ElementId, in offset order. Empty for a release the layout is not
/// measured on, or with nothing declared.
pub fn scan_category_records_multi(
    partitions: &[InflatedPartition],
    revit_version: u32,
    builtin_categories: &[i64],
    declared_ids: &BTreeSet<u32>,
    assigned_all: &SecondPrologueIds,
) -> (r: Vec<PartitionElementRecord>)
    ensures
        spec_bbox_marker(revit_version) is None || declared_ids@.is_empty() ==> r@.len() == 0,
        spec_bbox_marker(revit_version) is Some && !declared_ids@.is_empty() ==> record_views(r@)
            == categories_records_in(
            partition_views(partitions@),
            builtin_categories@,
            declared_ids@,
            spec_bbox_marker(revit_version)->0,
            assigned_all@,
        ),
{
    let mut out: Vec<PartitionElementRecord> = Vec::new();
    let marker = match bbox_marker(revit_version) {
        Some(m) => m,
        None => {
            return out;
        },
    };
    if declared_ids.is_empty() {
        return out;
    }
    let none: BTreeMap<usize, u32> = BTreeMap::new();
    assert(none@ =~= Map::<usize, u32>::empty());
    let ghost parts = partition_views(partitions@);
    let ghost cats = builtin_categories@;
    let mut c: usize = 0;
    assert(cats.take(0) =~= Seq::<i64>::empty());
    while c < builtin_categories.len()
        invariant
            c <= cats.len(),
            cats == builtin_categories@,
            parts == partition_views(partitions@),
            none@ == Map::<usize, u32>::empty(),
            record_views(out@) == categories_records_in(parts, cats.take(c as int), declared_ids@, marker@, assigned_all@),
        decreases cats.len() - c,
    {
        let category = builtin_categories[c];
        let ghost start = record_views(out@);
        let mut i: usize = 0;
        while i < partitions.len()
            invariant
                i <= partitions@.len(),
                parts == partition_views(partitions@),
                none@ == Map::<usize, u32>::empty(),
                record_views(out@) == start + category_records_in(parts.take(i as int), category, declared_ids@, marker@, assigned_all@),
            decreases partitions@.len() - i,
        {
            let part = &partitions[i];
            let assigned = assigned_of(assigned_all, part.stream.as_str(), &none);
            let mut found = find_category_records_assigned(
                part.stream.as_str(),
                part.bytes.as_slice(),
                category,
                declared_ids,
                &marker,
                assigned,
            );
            let ghost before = out@;
            let ghost got = found@;
            out.append(&mut found);
            proof {
                reveal(spec_category_records_assigned);
                assert(record_views(out@) =~= record_views(before) + record_views(got));
                assert(parts.take(i + 1).drop_last() =~= parts.take(i as int));
                assert(parts.take(i + 1).last() == parts[i as int]);
                assert(parts[i as int] == (part.stream@, part.bytes@));
            }
            i += 1;
        }
        proof {
            assert(parts.take(parts.len() as int) =~= parts);
            assert(cats.take(c + 1).drop_last() =~= cats.take(c as int));
            assert(cats.take(c + 1).last() == category);
        }
        c += 1;
    }
    assert(cats.take(cats.len() as int) =~= cats);
    out
}

proof fn lemma_single_category(
    parts: Seq<(Seq<char>, Seq<u8>)>,
    category: i64,
    declared: Set<u32>,
    marker: Seq<u8>,
    ids: Seq<(Seq<char>, Map<usize, u32>)>,
)
    ensures
        categories_records_in(parts, seq![category], declared, marker, ids) == category_records_in(
            parts,
            category,
            declared,
            marker,
            ids,
        ),
{
    let one = seq![category];
    assert(one.drop_last() =~= Seq::<i64>::empty());
    assert(one.last() == category);
    assert(one.len() == 1);
    assert(categories_records_in(parts, one.drop_last(), declared, marker, ids) == Seq::<ElementRecordView>::empty());
    let c = category_records_in(parts, category, declared, marker, ids);
    assert(categories_records_in(parts, one, declared, marker, ids) == categories_records_in(
        parts,
        one.drop_last(),
        declared,
        marker,
        ids,
    ) + c);
    assert(Seq::<ElementRecordView>::empty() + c =~= c);
}

/// [`scan_category_records_multi`] for one category.
pub fn scan_category_records(
    partitions: &[InflatedPartition],
    revit_version: u32,
    builtin_category: i64,
    declared_ids: &BTreeSet<u32>,
    assigned_all: &SecondPrologueIds,
) -> (r: Vec<PartitionElementRecord>)
    ensures
        spec_bbox_marker(revit_version) is None || declared_ids@.is_empty() ==> r@.len() == 0,
        spec_bbox_marker(revit_version) is Some && !declared_ids@.is_empty() ==> record_views(r@)
            == category_records_in(
            partition_views(partitions@),
            builtin_category,
            declared_ids@,
            spec_bbox_marker(revit_version)->0,
            assigned_all@,
        ),
{
    let categories = [builtin_category];
    let r = scan_category_records_multi(partitions, revit_version, &categories, declared_ids, assigned_all);
    proof {
        assert(categories@ =~= seq![builtin_category]);
        if spec_bbox_marker(revit_version) is Some {
            lemma_single_category(
                partition_views(partitions@),
                builtin_category,
                declared_ids@,
                spec_bbox_marker(revit_version)->0,
                assigned_all@,
            );
        }
    }
    r
}


/// How many times `c` occurs in `s`.
pub open spec fn occurrences(s: Seq<i64>, c: i64) -> nat
    decreases s.len(),
{
    if s.len() == 0 {
        0
    } else {
        occurrences(s.drop_last(), c) + if s.last() == c {
            1nat
        } else {
            0nat
        }
    }
}

/// Occurrences add up over a concatenation.
pub proof fn lemma_occurrences_concat(a: Seq<i64>, b: Seq<i64>, c: i64)
    ensures
        occurrences(a + b, c) == occurrences(a, c) + occurrences(b, c),
    decreases b.len(),
{
    if b.len() == 0 {
        assert(a + b =~= a);
    } else {
        assert((a + b).drop_last() =~= a + b.drop_last());
        lemma_occurrences_concat(a, b.drop_last(), c);
    }
}

/// A value occurs no more often than the sequence is long.
pub proof fn lemma_occurrences_bound(s: Seq<i64>, c: i64)
    ensures
        occurrences(s, c) <= s.len(),
    decreases s.len(),
{
    if s.len() > 0 {
        lemma_occurrences_bound(s.drop_last(), c);
    }
}

/// Whether `m` counts the values of `s`: a key for each value that occurs,
/// holding how often it does.
pub open spec fn counts_of(m: Map<i64, usize>, s: Seq<i64>) -> bool {
    forall|c: i64|
        #[trigger] m.contains_key(c) == (occurrences(s, c) > 0) && (m.contains_key(c) ==> m[c] == occurrences(
            s,
            c,
        ))
}

fn holds_code(codes: &[i64], c: i64) -> (r: bool)
    ensures
        r == codes@.contains(c),
{
    let mut i: usize = 0;
    while i < codes.len()
        invariant
            i <= codes@.len(),
            forall|j: int| 0 <= j < i ==> codes@[j] != c,
        decreases codes@.len() - i,
    {
        if codes[i] == c {
            assert(codes@[i as int] == c);
            return true;
        }
        i += 1;
    }
    false
}

/// The category the bbox marker found at `hit` counts its frame under, when
/// the frame goes unattributed: the frame [`BBOX_MARKER_OFFSET`] before it
/// is not in `assigned`, lies inside a record of the partition's chain,
/// has one of `categories`, no ElementId of its own at `+0x00`, is an
/// instance frame and is one of `volumed` (its bounding box has volume).
pub open spec fn unattributed_at(
    buf: Seq<u8>,
    marker: Seq<u8>,
    categories: Seq<i64>,
    assigned: Map<usize, u32>,
    volumed: Set<usize>,
    hit: int,
) -> Option<i64> {
    let offset = hit - BBOX_MARKER_OFFSET;
    let category = as_signed(le_u64(buf, offset + CATEGORY_OFFSET) as u64) as i64;
    if 0 <= offset <= usize::MAX && !assigned.contains_key(offset as usize) && spec_enclosing(
        spec_chain_from(buf, 0, spec_record_prologue_constant(marker)),
        offset,
    ) is Some && offset + CATEGORY_OFFSET + 8 <= buf.len() && categories.contains(category)
        && spec_carries_no_element_id(le_u64(buf, offset) as u64) && spec_instance_frame(buf, offset)
        && volumed.contains(offset as usize) {
        Some(category)
    } else {
        None
    }
}

/// [`unattributed_at`] for a fixed buffer.
pub open spec fn unattributed_fn(
    buf: Seq<u8>,
    marker: Seq<u8>,
    categories: Seq<i64>,
    assigned: Map<usize, u32>,
    volumed: Set<usize>,
) -> spec_fn(int) -> Option<i64> {
    |hit: int| unattributed_at(buf, marker, categories, assigned, volumed, hit)
}

/// The categories of a buffer's unattributed frames, one per frame, in the
/// order `memmem::find_iter` reports their markers.
pub open spec fn unattributed_in_buffer(
    buf: Seq<u8>,
    marker: Seq<u8>,
    categories: Seq<i64>,
    assigned: Map<usize, u32>,
    volumed: Set<usize>,
) -> Seq<i64> {
    keep_some(iter_hits_from(buf, marker, 0), unattributed_fn(buf, marker, categories, assigned, volumed))
}

/// Placed-instance frames in `buf`, per category, that carry `marker` at
/// `+0x50` and one of `categories` at `+0x12` but no ElementId at `+0x00`,
/// leaving out the frames at the offsets in `assigned`
/// ([`assign_second_prologue_ids`]) and those outside the partition's
/// leading record chain. `volumed` holds the frame offsets whose bounding
/// box has volume; a frame without is a 2D symbol, not a missing element.
pub fn count_unattributed_frames_excluding(
    buf: &[u8],
    categories: &[i64],
    marker: &[u8; 8],
    assigned: &BTreeMap<usize, u32>,
    volumed: &BTreeSet<usize>,
) -> (r: BTreeMap<i64, usize>)
    ensures
        counts_of(r@, unattributed_in_buffer(buf@, marker@, categories@, assigned@, volumed@)),
{
    let chain = partition_record_chain(buf, marker);
    let hits = find_iter_all(buf, marker.as_slice());
    let ghost ps = positions(hits@);
    let ghost f = unattributed_fn(buf@, marker@, categories@, assigned@, volumed@);
    let mut out: BTreeMap<i64, usize> = BTreeMap::new();
    let mut k: usize = 0;
    assert(ps.take(0) =~= Seq::<int>::empty());
    while k < hits.len()
        invariant
            k <= hits@.len(),
            ps == positions(hits@),
            ps == iter_hits_from(buf@, marker@, 0),
            chain@ == spec_chain_from(buf@, 0, spec_record_prologue_constant(marker@)),
            starts_sorted(chain@),
            f == unattributed_fn(buf@, marker@, categories@, assigned@, volumed@),
            counts_of(out@, keep_some(ps.take(k as int), f)),
            keep_some(ps.take(k as int), f).len() <= k,
        decreases hits@.len() - k,
    {
        let ghost before = keep_some(ps.take(k as int), f);
        let hit = hits[k];
        proof {
            assert(ps.take(k + 1) =~= ps.take(k as int).push(hit as int));
            lemma_keep_some_push(ps.take(k as int), hit as int, f);
        }
        let mut found: Option<i64> = None;
        if hit >= BBOX_MARKER_OFFSET {
            let offset = hit - BBOX_MARKER_OFFSET;
            proof {
                lemma_sorted_partitioned(chain@, offset as int);
            }
            if !assigned.contains_key(&offset) && enclosing_record(chain.as_slice(), offset).is_some() && buf.len()
                >= offset && buf.len() - offset >= CATEGORY_OFFSET + 8 {
                let category = to_signed(read_u64(buf, offset + CATEGORY_OFFSET).unwrap());
                if holds_code(categories, category) && carries_no_element_id(read_u64(buf, offset).unwrap())
                    && is_instance_frame(buf, offset) && volumed.contains(&offset) {
                    found = Some(category);
                }
            }
        }
        assert(f(hit as int) == found);
        match found {
            Some(category) => {
                let held: usize = match out.get(&category) {
                    Some(n) => *n,
                    None => 0,
                };
                proof {
                    lemma_occurrences_bound(before, category);
                }
                out.insert(category, held + 1);
                proof {
                    let a = keep_some(ps.take(k + 1), f);
                    assert(a == before.push(category));
                    assert(a.drop_last() =~= before);
                    assert forall|c: i64| #[trigger] out@.contains_key(c) == (occurrences(a, c) > 0) && (
                    out@.contains_key(c) ==> out@[c] == occurrences(a, c)) by {
                        assert(occurrences(a, c) == occurrences(before, c) + if c == category {
                            1nat
                        } else {
                            0nat
                        });
                    }
                }
            },
            None => {
                assert(keep_some(ps.take(k + 1), f) =~= before);
            },
        }
        k += 1;
    }
    assert(ps.take(ps.len() as int) =~= ps);
    out
}

/// [`count_unattributed_frames_excluding`] with no frame left out for an
/// assigned ElementId.
pub fn count_unattributed_frames_with_marker(
    buf: &[u8],
    categories: &[i64],
    marker: &[u8; 8],
    volumed: &BTreeSet<usize>,
) -> (r: BTreeMap<i64, usize>)
    ensures
        counts_of(r@, unattributed_in_buffer(buf@, marker@, categories@, Map::empty(), volumed@)),
{
    let none: BTreeMap<usize, u32> = BTreeMap::new();
    assert(none@ =~= Map::<usize, u32>::empty());
    count_unattributed_frames_excluding(buf, categories, marker, &none, volumed)
}

/// [`count_unattributed_frames_with_marker`] with the Revit 2024 marker.
pub fn count_unattributed_frames(buf: &[u8], categories: &[i64], volumed: &BTreeSet<usize>) -> (r: BTreeMap<
    i64,
    usize,
>)
    ensures
        counts_of(r@, unattributed_in_buffer(buf@, BBOX_MARKER@, categories@, Map::empty(), volumed@)),
{
    let marker = BBOX_MARKER;
    count_unattributed_frames_with_marker(buf, categories, &marker, volumed)
}

/// The recovered categories' codes.
pub open spec fn recovered_codes() -> Seq<i64> {
    RECOVERED_CATEGORIES@.map_values(|p: (i64, &'static str)| p.0)
}

/// The categories of every stream's unattributed frames, in stream order;
/// stream `i` leaves out the frames its assignments in `ids` name and
/// counts only the frames of `volumed[i]`.
pub open spec fn unattributed_in(
    parts: Seq<(Seq<char>, Seq<u8>)>,
    marker: Seq<u8>,
    categories: Seq<i64>,
    ids: Seq<(Seq<char>, Map<usize, u32>)>,
    volumed: Seq<Set<usize>>,
) -> Seq<i64>
    decreases parts.len(),
{
    if parts.len() == 0 {
        Seq::empty()
    } else {
        unattributed_in(parts.drop_last(), marker, categories, ids, volumed) + unattributed_in_buffer(
            parts.last().1,
            marker,
            categories,
            assigned_for(ids, parts.last().0),
            volumed[parts.len() - 1],
        )
    }
}

/// The bytes of all streams together.
pub open spec fn total_bytes(parts: Seq<(Seq<char>, Seq<u8>)>) -> nat
    decreases parts.len(),
{
    if parts.len() == 0 {
        0
    } else {
        total_bytes(parts.drop_last()) + parts.last().1.len()
    }
}

proof fn lemma_keep_some_len<V>(hits: Seq<int>, f: spec_fn(int) -> Option<V>)
    ensures
        keep_some(hits, f).len() <= hits.len(),
    decreases hits.len(),
{
    if hits.len() > 0 {
        lemma_keep_some_len(hits.drop_first(), f);
    }
}

proof fn lemma_iter_hits_len(hay: Seq<u8>, needle: Seq<u8>, from: int)
    requires
        0 <= from,
    ensures
        iter_hits_from(hay, needle, from).len() <= (if from < hay.len() { hay.len() - from } else { 0 }),
    decreases hay.len() - from,
{
    if !(from + needle.len() > hay.len() || needle.len() == 0) {
        if occurs_at(hay, needle, from) {
            lemma_iter_hits_len(hay, needle, from + needle.len());
        } else {
            lemma_iter_hits_len(hay, needle, from + 1);
        }
    }
}

/// No stream has more unattributed frames than bytes.
proof fn lemma_unattributed_bound(
    parts: Seq<(Seq<char>, Seq<u8>)>,
    marker: Seq<u8>,
    categories: Seq<i64>,
    ids: Seq<(Seq<char>, Map<usize, u32>)>,
    volumed: Seq<Set<usize>>,
)
    ensures
        unattributed_in(parts, marker, categories, ids, volumed).len() <= total_bytes(parts),
    decreases parts.len(),
{
    if parts.len() > 0 {
        lemma_unattributed_bound(parts.drop_last(), marker, categories, ids, volumed);
        let buf = parts.last().1;
        let assigned = assigned_for(ids, parts.last().0);
        let v = volumed[parts.len() - 1];
        lemma_iter_hits_len(buf, marker, 0);
        lemma_keep_some_len(iter_hits_from(buf, marker, 0), unattributed_fn(buf, marker, categories, assigned, v));
    }
}

proof fn lemma_unattributed_grows(
    parts: Seq<(Seq<char>, Seq<u8>)>,
    marker: Seq<u8>,
    categories: Seq<i64>,
    ids: Seq<(Seq<char>, Map<usize, u32>)>,
    volumed: Seq<Set<usize>>,
    i: int,
    j: int,
    c: i64,
)
    requires
        0 <= i <= j <= parts.len(),
    ensures
        occurrences(unattributed_in(parts.take(i), marker, categories, ids, volumed), c) <= occurrences(
            unattributed_in(parts.take(j), marker, categories, ids, volumed),
            c,
        ),
    decreases j - i,
{
    if i < j {
        lemma_unattributed_grows(parts, marker, categories, ids, volumed, i, j - 1, c);
        let p = parts.take(j);
        assert(p.drop_last() =~= parts.take(j - 1));
        lemma_occurrences_concat(
            unattributed_in(parts.take(j - 1), marker, categories, ids, volumed),
            unattributed_in_buffer(p.last().1, marker, categories, assigned_for(ids, p.last().0), volumed[j - 1]),
            c,
        );
    }
}

/// For each row of `rows` in order, its class and how often its category
/// occurs in `s`, when it does.
pub open spec fn class_totals(s: Seq<i64>, rows: Seq<(i64, &'static str)>) -> Seq<(Seq<char>, nat)>
    decreases rows.len(),
{
    if rows.len() == 0 {
        Seq::empty()
    } else {
        let n = occurrences(s, rows.last().0);
        class_totals(s, rows.drop_last()) + if n > 0 {
            seq![(rows.last().1@, n)]
        } else {
            Seq::empty()
        }
    }
}

/// Classes and counts as values.
pub open spec fn class_count_views(v: Seq<(String, usize)>) -> Seq<(Seq<char>, nat)> {
    v.map_values(|p: (String, usize)| (p.0@, p.1 as nat))
}

/// [`count_unattributed_frames_excluding`] over every partition for the
/// [`RECOVERED_CATEGORIES`], by class in the order of the table, a class
/// listed only when some frame counts for it. A frame the second-prologue
/// ids give an ElementId (`assigned_all`, by stream) is exported, not
/// missing; `volumed[i]` holds the frame offsets of partition `i` whose
/// bounding box has volume. Empty on a release whose record shape is not
/// proven. The streams, held in memory together, have at most `usize::MAX`
/// bytes, so no count overflows.
pub fn scan_unattributed_frames(
    partitions: &[InflatedPartition],
    revit_version: u32,
    assigned_all: &SecondPrologueIds,
    volumed: &Vec<BTreeSet<usize>>,
) -> (r: Vec<(String, usize)>)
    requires
        volumed@.len() == partitions@.len(),
        total_bytes(partition_views(partitions@)) <= usize::MAX,
    ensures
        spec_bbox_marker(revit_version) is None ==> r@.len() == 0,
        spec_bbox_marker(revit_version) matches Some(m) ==> class_count_views(r@) == class_totals(
            unattributed_in(
                partition_views(partitions@),
                m,
                recovered_codes(),
                assigned_all@,
                volumed@.map_values(|v: BTreeSet<usize>| v@),
            ),
            RECOVERED_CATEGORIES@,
        ),
{
    let mut out: Vec<(String, usize)> = Vec::new();
    let marker = match bbox_marker(revit_version) {
        Some(m) => m,
        None => {
            return out;
        },
    };
    let table = RECOVERED_CATEGORIES;
    let mut codes: Vec<i64> = Vec::new();
    let mut t: usize = 0;
    while t < table.len()
        invariant
            t <= table@.len(),
            table@ == RECOVERED_CATEGORIES@,
            codes@ == recovered_codes().take(t as int),
        decreases table@.len() - t,
    {
        codes.push(table[t].0);
        assert(codes@ =~= recovered_codes().take(t + 1));
        t += 1;
    }
    assert(recovered_codes().take(table@.len() as int) =~= recovered_codes());
    let none: BTreeMap<usize, u32> = BTreeMap::new();
    assert(none@ =~= Map::<usize, u32>::empty());
    let ghost parts = partition_views(partitions@);
    let ghost vs = volumed@.map_values(|v: BTreeSet<usize>| v@);
    let ghost all = unattributed_in(parts, marker@, codes@, assigned_all@, vs);
    proof {
        lemma_unattributed_bound(parts, marker@, codes@, assigned_all@, vs);
    }
    let mut totals: Vec<usize> = Vec::new();
    let mut t: usize = 0;
    while t < codes.len()
        invariant
            t <= codes@.len(),
            totals@.len() == t,
            forall|q: int| 0 <= q < t ==> #[trigger] totals@[q] == 0,
        decreases codes@.len() - t,
    {
        totals.push(0);
        t += 1;
    }
    assert(parts.take(0) =~= Seq::<(Seq<char>, Seq<u8>)>::empty());
    let mut i: usize = 0;
    while i < partitions.len()
        invariant
            i <= partitions@.len(),
            volumed@.len() == partitions@.len(),
            parts == partition_views(partitions@),
            vs == volumed@.map_values(|v: BTreeSet<usize>| v@),
            all == unattributed_in(parts, marker@, codes@, assigned_all@, vs),
            all.len() <= usize::MAX,
            none@ == Map::<usize, u32>::empty(),
            totals@.len() == codes@.len(),
            forall|q: int|
                0 <= q < codes@.len() ==> #[trigger] totals@[q] == occurrences(
                    unattributed_in(parts.take(i as int), marker@, codes@, assigned_all@, vs),
                    codes@[q],
                ),
        decreases partitions@.len() - i,
    {
        let part = &partitions[i];
        let assigned = assigned_of(assigned_all, part.stream.as_str(), &none);
        let counts = count_unattributed_frames_excluding(
            part.bytes.as_slice(),
            codes.as_slice(),
            &marker,
            assigned,
            &volumed[i],
        );
        let ghost prev = unattributed_in(parts.take(i as int), marker@, codes@, assigned_all@, vs);
        let ghost here = unattributed_in_buffer(part.bytes@, marker@, codes@, assigned@, volumed@[i as int]@);
        proof {
            assert(parts.take(i + 1).drop_last() =~= parts.take(i as int));
            assert(parts.take(i + 1).last() == parts[i as int]);
            assert(parts[i as int] == (part.stream@, part.bytes@));
            assert(vs[i as int] == volumed@[i as int]@);
            assert(unattributed_in(parts.take(i + 1), marker@, codes@, assigned_all@, vs) == prev + here);
            assert(parts.take(parts.len() as int) =~= parts);
        }
        let mut q: usize = 0;
        while q < codes.len()
            invariant
                q <= codes@.len(),
                totals@.len() == codes@.len(),
                all.len() <= usize::MAX,
                all == unattributed_in(parts, marker@, codes@, assigned_all@, vs),
                i < parts.len(),
                parts.take(parts.len() as int) == parts,
                unattributed_in(parts.take(i + 1), marker@, codes@, assigned_all@, vs) == prev + here,
                counts_of(counts@, here),
                forall|p: int| 0 <= p < q ==> #[trigger] totals@[p] == occurrences(prev + here, codes@[p]),
                forall|p: int| q <= p < codes@.len() ==> #[trigger] totals@[p] == occurrences(prev, codes@[p]),
            decreases codes@.len() - q,
        {
            let c = codes[q];
            let add: usize = match counts.get(&c) {
                Some(n) => *n,
                None => 0,
            };
            proof {
                lemma_occurrences_concat(prev, here, c);
                lemma_unattributed_grows(parts, marker@, codes@, assigned_all@, vs, i + 1, parts.len() as int, c);
                lemma_occurrences_bound(all, c);
            }
            let sum = totals[q] + add;
            totals.set(q, sum);
            q += 1;
        }
        i += 1;
    }
    assert(parts.take(parts.len() as int) =~= parts);
    let mut t: usize = 0;
    assert(table@.take(0) =~= Seq::<(i64, &'static str)>::empty());
    while t < table.len()
        invariant
            t <= table@.len(),
            table@ == RECOVERED_CATEGORIES@,
            codes@ == recovered_codes(),
            totals@.len() == codes@.len(),
            forall|q: int| 0 <= q < codes@.len() ==> #[trigger] totals@[q] == occurrences(all, codes@[q]),
            class_count_views(out@) == class_totals(all, table@.take(t as int)),
        decreases table@.len() - t,
    {
        let (code, class) = table[t];
        let n = totals[t];
        proof {
            assert(table@.take(t + 1).drop_last() =~= table@.take(t as int));
            assert(table@.take(t + 1).last() == (code, class));
            assert(codes@[t as int] == code);
        }
        if n > 0 {
            let name = class.to_string();
            let ghost before = out@;
            out.push((name, n));
            assert(class_count_views(out@) =~= class_count_views(before).push((class@, n as nat)));
        } else {
            assert(class_count_views(out@) =~= class_count_views(out@) + Seq::<(Seq<char>, nat)>::empty());
        }
        t += 1;
    }
    assert(table@.take(table@.len() as int) =~= table@);
    out
}

/// A value that occurs sits at some index.
proof fn lemma_occurs_somewhere(s: Seq<i64>, c: i64)
    requires
        occurrences(s, c) > 0,
    ensures
        exists|k: int| 0 <= k < s.len() && s[k] == c,
    decreases s.len(),
{
    if s.last() != c {
        lemma_occurs_somewhere(s.drop_last(), c);
        let k = choose|k: int| 0 <= k < s.drop_last().len() && s.drop_last()[k] == c;
        assert(s[k] == c);
    } else {
        assert(s[s.len() - 1] == c);
    }
}

/// Every category the unattributed counts hold is one that was asked for.
pub proof fn counted_frames_have_an_asked_category(
    buf: Seq<u8>,
    marker: Seq<u8>,
    categories: Seq<i64>,
    assigned: Map<usize, u32>,
    volumed: Set<usize>,
    c: i64,
)
    requires
        occurrences(unattributed_in_buffer(buf, marker, categories, assigned, volumed), c) > 0,
    ensures
        categories.contains(c),
{
    let hits = iter_hits_from(buf, marker, 0);
    let f = unattributed_fn(buf, marker, categories, assigned, volumed);
    let s = keep_some(hits, f);
    lemma_occurs_somewhere(s, c);
    let k = choose|k: int| 0 <= k < s.len() && s[k] == c;
    crate::bytes::lemma_keep_some_member(hits, f, k);
    let j = choose|j: int| 0 <= j < hits.len() && f(#[trigger] hits[j]) == Some(s[k]);
    assert(unattributed_at(buf, marker, categories, assigned, volumed, hits[j]) == Some(c));
}

proof fn lemma_fewer_kept(hits: Seq<int>, f: spec_fn(int) -> Option<i64>, g: spec_fn(int) -> Option<i64>, c: i64)
    requires
        forall|h: int| #[trigger] f(h) is Some ==> g(h) == f(h),
    ensures
        occurrences(keep_some(hits, f), c) <= occurrences(keep_some(hits, g), c),
    decreases hits.len(),
{
    if hits.len() > 0 {
        let rest = hits.drop_first();
        lemma_fewer_kept(rest, f, g, c);
        match f(hits[0]) {
            Some(v) => {
                lemma_occurrences_concat(seq![v], keep_some(rest, f), c);
                lemma_occurrences_concat(seq![v], keep_some(rest, g), c);
                assert(seq![v].drop_last() =~= Seq::<i64>::empty());
            },
            None => match g(hits[0]) {
                Some(w) => {
                    lemma_occurrences_concat(seq![w], keep_some(rest, g), c);
                    assert(seq![w].drop_last() =~= Seq::<i64>::empty());
                },
                None => {},
            },
        }
    }
}

/// Leaving out the frames the second-prologue ids attribute never raises
/// a category's count of unattributed frames.
pub proof fn leaving_out_assigned_frames_never_adds(
    buf: Seq<u8>,
    marker: Seq<u8>,
    categories: Seq<i64>,
    assigned: Map<usize, u32>,
    volumed: Set<usize>,
    c: i64,
)
    ensures
        occurrences(unattributed_in_buffer(buf, marker, categories, assigned, volumed), c) <= occurrences(
            unattributed_in_buffer(buf, marker, categories, Map::empty(), volumed),
            c,
        ),
{
    let f = unattributed_fn(buf, marker, categories, assigned, volumed);
    let g = unattributed_fn(buf, marker, categories, Map::empty(), volumed);
    assert forall|h: int| #[trigger] f(h) is Some implies g(h) == f(h) by {}
    lemma_fewer_kept(iter_hits_from(buf, marker, 0), f, g, c);
}

} // verus!
