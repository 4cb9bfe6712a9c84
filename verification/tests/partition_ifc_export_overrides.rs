use rvt_partitions::partition_ifc_export_overrides::{
    decode_at, find_export_parameters, find_overrides, overrides_by_element_id,
    scan_export_parameters, scan_ifc_export_overrides, supports_revit_version, ExportParameters,
    IfcExportOverride, EXPORT_PARAMETER_WINDOW, IFC_EXPORT_ELEMENT_AS, IFC_EXPORT_ELEMENT_TYPE_AS,
    IFC_EXPORT_PREDEFINEDTYPE, IFC_EXPORT_PREDEFINEDTYPE_TYPE, LENGTH_PREFIX_OFFSET_BEFORE_VALUE,
    MAX_VALUE_CHARS, OWNER_CONFIRM_OFFSET_BEFORE_VALUE, OWNER_OFFSET_BEFORE_VALUE,
};
use rvt_partitions::partitions::InflatedPartition;
use std::collections::BTreeSet;

/// A stand-in element-data header for the tests.
const HEADER: [u8; 10] = [0x3c, 0x00, 0x00, 0x00, 0x11, 0x22, 0x33, 0x44, 0x01, 0x00];
/// A header of another release.
const OTHER_HEADER: [u8; 10] = [0x3c, 0x00, 0x00, 0x00, 0x55, 0x66, 0x77, 0x88, 0x01, 0x00];

fn element_data(header: &[u8; 10], id: u32, entries: &[(i64, &str)]) -> Vec<u8> {
    let mut out = header.to_vec();
    out.extend_from_slice(&u64::from(id).to_le_bytes());
    out.extend_from_slice(&[0xff; 40]);
    out.extend_from_slice(&(entries.len() as u32).to_le_bytes());
    for (key, value) in entries {
        out.extend_from_slice(&key.to_le_bytes());
        let units: Vec<u16> = value.encode_utf16().collect();
        out.extend_from_slice(&(units.len() as u32).to_le_bytes());
        for unit in units {
            out.extend_from_slice(&unit.to_le_bytes());
        }
    }
    out
}

fn declared(ids: &[u32]) -> BTreeSet<u32> {
    ids.iter().copied().collect()
}

fn synth(value: &str, owner: u64, confirm: u64) -> (Vec<u8>, usize) {
    let start = OWNER_CONFIRM_OFFSET_BEFORE_VALUE;
    let units: Vec<u16> = value.encode_utf16().collect();
    let mut buf = vec![0xffu8; start + units.len() * 2 + 32];
    buf[start - OWNER_OFFSET_BEFORE_VALUE..start - OWNER_OFFSET_BEFORE_VALUE + 8]
        .copy_from_slice(&owner.to_le_bytes());
    buf[start - OWNER_CONFIRM_OFFSET_BEFORE_VALUE..start - OWNER_CONFIRM_OFFSET_BEFORE_VALUE + 8]
        .copy_from_slice(&confirm.to_le_bytes());
    buf[start - LENGTH_PREFIX_OFFSET_BEFORE_VALUE..start]
        .copy_from_slice(&(units.len() as u32).to_le_bytes());
    for (index, unit) in units.iter().enumerate() {
        let at = start + index * 2;
        buf[at..at + 2].copy_from_slice(&unit.to_le_bytes());
    }
    (buf, start)
}

#[test]
fn export_parameters_belong_to_the_element_whose_data_holds_them() {
    let mut buf = element_data(
        &HEADER,
        20912,
        &[(IFC_EXPORT_PREDEFINEDTYPE, "ROOF"), (IFC_EXPORT_ELEMENT_AS, "ifcSlab")],
    );
    buf.extend(element_data(&HEADER, 20953, &[(IFC_EXPORT_ELEMENT_AS, "IfcShadingDevice")]));
    let found = find_export_parameters(&buf, &HEADER, &BTreeSet::from([20912, 20953]));
    assert_eq!(found[&20912].export_as.as_deref(), Some("ifcSlab"));
    assert_eq!(found[&20912].predefined_type.as_deref(), Some("ROOF"));
    assert_eq!(found[&20953].export_as.as_deref(), Some("IfcShadingDevice"));
    assert_eq!(found[&20953].predefined_type, None);
    assert!(find_export_parameters(&buf, &OTHER_HEADER, &BTreeSet::from([20912])).is_empty());
    assert!(find_export_parameters(&buf, &HEADER, &BTreeSet::from([1])).is_empty());
}

#[test]
fn a_type_export_parameter_applies_as_the_entity_it_names() {
    let buf = element_data(
        &HEADER,
        402,
        &[
            (IFC_EXPORT_PREDEFINEDTYPE_TYPE, "CLADDING"),
            (IFC_EXPORT_ELEMENT_TYPE_AS, "IfcCoveringType"),
        ],
    );
    let found = find_export_parameters(&buf, &HEADER, &BTreeSet::from([402]));
    let wall_type = &found[&402];
    let instance = ExportParameters::default();
    assert_eq!(instance.effective_export_as(Some(wall_type)).as_deref(), Some("IfcCovering"));
    assert_eq!(instance.effective_predefined_type(Some(wall_type)).as_deref(), Some("CLADDING"));
    let own = ExportParameters {
        export_as: Some("IfcWall".into()),
        predefined_type: Some("SOLIDWALL".into()),
        ..ExportParameters::default()
    };
    assert_eq!(own.effective_export_as(Some(wall_type)).as_deref(), Some("IfcWall"));
    assert_eq!(own.effective_predefined_type(Some(wall_type)).as_deref(), Some("SOLIDWALL"));
    assert_eq!(instance.effective_export_as(None), None);
}

#[test]
fn export_parameters_reject_what_is_not_an_override() {
    let declared = BTreeSet::from([7]);
    let buf = element_data(
        &HEADER,
        7,
        &[(IFC_EXPORT_ELEMENT_TYPE_AS, "autodesk.parameter.group:materials-1.0.0")],
    );
    assert!(find_export_parameters(&buf, &HEADER, &declared).is_empty());
    let buf = element_data(&HEADER, 7, &[(IFC_EXPORT_ELEMENT_AS, "Slab")]);
    assert!(find_export_parameters(&buf, &HEADER, &declared).is_empty());
    let mut buf = element_data(&HEADER, 7, &[]);
    buf.extend(vec![0u8; EXPORT_PARAMETER_WINDOW]);
    buf.extend(element_data(&[0u8; 10], 0, &[(IFC_EXPORT_ELEMENT_AS, "IfcSlab")])[18..].to_vec());
    assert!(find_export_parameters(&buf, &HEADER, &declared).is_empty());
    let mut buf = element_data(&HEADER, 7, &[(IFC_EXPORT_ELEMENT_AS, "IfcSlab")]);
    buf.extend(element_data(&HEADER, 7, &[(IFC_EXPORT_ELEMENT_AS, "IfcRoof")]));
    assert!(find_export_parameters(&buf, &HEADER, &declared)
        .get(&7)
        .map_or(true, |p| p.export_as.is_none()));
}

#[test]
fn decodes_a_well_formed_override() {
    let (buf, at) = synth("IfcShadingDevice", 20953, 20953);
    let entry = decode_at("Partitions/46", &buf, at, &declared(&[20953])).expect("decodes");
    assert_eq!(entry.element_id, 20953);
    assert_eq!(entry.value, "IfcShadingDevice");
    assert_eq!(entry.offset, at);
}

#[test]
fn rejects_disagreeing_owner_slots() {
    let (buf, at) = synth("IfcShadingDevice", 20953, 64160);
    assert!(decode_at("Partitions/46", &buf, at, &declared(&[20953, 64160])).is_none());
}

#[test]
fn rejects_owner_absent_from_elem_table() {
    let (buf, at) = synth("IfcShadingDevice", 20953, 20953);
    assert!(decode_at("Partitions/46", &buf, at, &declared(&[9999])).is_none());
}

#[test]
fn rejects_sentinel_owner_slots() {
    let (buf, at) = synth("IfcShadingDevice", u64::MAX, u64::MAX);
    assert!(decode_at("Partitions/46", &buf, at, &declared(&[20953])).is_none());
}

#[test]
fn rejects_a_value_that_is_not_an_entity_name() {
    let (buf, at) = synth("Ifc Shading", 20953, 20953);
    assert!(decode_at("Partitions/46", &buf, at, &declared(&[20953])).is_none());
}

#[test]
fn rejects_a_length_prefix_that_does_not_match() {
    let (mut buf, at) = synth("IfcShadingDevice", 20953, 20953);
    buf[at - LENGTH_PREFIX_OFFSET_BEFORE_VALUE..at]
        .copy_from_slice(&(MAX_VALUE_CHARS as u32 + 1).to_le_bytes());
    assert!(decode_at("Partitions/46", &buf, at, &declared(&[20953])).is_none());
}

#[test]
fn scan_finds_the_entry_at_its_anchor() {
    let (buf, at) = synth("IfcShadingDevice", 20953, 20953);
    let found = find_overrides("Partitions/46", &buf, &declared(&[20953]));
    assert_eq!(found.len(), 1);
    assert_eq!(found[0].offset, at);
    assert_eq!(found[0].element_id, 20953);
}

#[test]
fn conflicting_values_for_one_id_are_dropped() {
    let entry = |value: &str| IfcExportOverride {
        stream: "Partitions/46".into(),
        offset: 0,
        element_id: 7,
        value: value.into(),
    };
    let map = overrides_by_element_id(vec![entry("IfcShadingDevice"), entry("IfcSlab")]);
    assert!(map.is_empty());
    let map = overrides_by_element_id(vec![entry("IfcShadingDevice"), entry("IfcShadingDevice")]);
    assert_eq!(map.get(&7).map(String::as_str), Some("IfcShadingDevice"));
}

#[test]
fn partition_ifc_export_overrides_unsupported_release_yields_nothing() {
    assert!(!supports_revit_version(2023));
    assert!(supports_revit_version(2024));
}

#[test]
fn the_scan_collapses_overrides_across_partitions() {
    let (buf, _) = synth("IfcShadingDevice", 20953, 20953);
    let parts = vec![
        InflatedPartition { stream: "Partitions/1".into(), bytes: buf.clone() },
        InflatedPartition { stream: "Partitions/2".into(), bytes: buf },
    ];
    let map = scan_ifc_export_overrides(&parts, 2024, &declared(&[20953]));
    assert_eq!(map.get(&20953).map(String::as_str), Some("IfcShadingDevice"));
    assert!(scan_ifc_export_overrides(&parts, 2023, &declared(&[20953])).is_empty());
    assert!(scan_ifc_export_overrides(&parts, 2024, &declared(&[])).is_empty());
}

#[test]
fn streams_that_disagree_lose_the_key_but_keep_the_element() {
    let a = element_data(
        &HEADER,
        7,
        &[(IFC_EXPORT_ELEMENT_AS, "IfcSlab"), (IFC_EXPORT_PREDEFINEDTYPE, "ROOF")],
    );
    let b = element_data(&HEADER, 7, &[(IFC_EXPORT_ELEMENT_AS, "IfcRoof")]);
    let parts = vec![
        InflatedPartition { stream: "Partitions/1".into(), bytes: a },
        InflatedPartition { stream: "Partitions/2".into(), bytes: b },
    ];
    let merged = scan_export_parameters(&parts, Some(HEADER), &declared(&[7]));
    assert_eq!(merged[&7].export_as, None);
    assert_eq!(merged[&7].predefined_type.as_deref(), Some("ROOF"));
    assert!(scan_export_parameters(&parts, None, &declared(&[7])).is_empty());
}

#[test]
fn a_type_entity_without_the_type_suffix_is_kept_whole() {
    let t = ExportParameters {
        type_export_as: Some("IfcWallTYPE".into()),
        ..ExportParameters::default()
    };
    let i = ExportParameters::default();
    assert_eq!(i.effective_export_as(Some(&t)).as_deref(), Some("IfcWall"));
    let t = ExportParameters {
        type_export_as: Some("IfcWall".into()),
        ..ExportParameters::default()
    };
    assert_eq!(i.effective_export_as(Some(&t)).as_deref(), Some("IfcWall"));
}
