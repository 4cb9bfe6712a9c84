use rvt_partitions::partition_design_options::{
    option_set_members, DesignOptionSet, DesignOptions, OPTION_LIST_OFFSET, OST_DESIGN_OPTIONS,
    OST_DESIGN_OPTION_SETS,
};
use rvt_partitions::partition_element_records::{
    PartitionElementRecord, SecondPrologueIds, BBOX_MARKER, BBOX_MARKER_OFFSET, BBOX_OFFSET,
    CATEGORY_OFFSET, CONTAINER_NONE, OST_FLOORS, OST_WALLS, PLACEMENT_KIND_INSTANCE, RECORD_MIN_LEN,
};
use rvt_partitions::partition_design_options::scan_non_primary_option_instances;
use std::collections::BTreeSet;

const SET: u32 = 2_059_966;
const OPTION_A: u32 = 2_059_967;
const OPTION_B: u32 = 2_059_970;

fn set_record(set_id: u32, options: &[u32]) -> Vec<u8> {
    let mut buf = vec![0xffu8; OPTION_LIST_OFFSET];
    buf[0..8].copy_from_slice(&u64::from(set_id).to_le_bytes());
    buf[CATEGORY_OFFSET..CATEGORY_OFFSET + 8]
        .copy_from_slice(&(OST_DESIGN_OPTION_SETS as u64).to_le_bytes());
    buf.extend_from_slice(&(options.len() as u32 + 1).to_le_bytes());
    buf.extend_from_slice(&u64::from(set_id).to_le_bytes());
    for option in options {
        buf.extend_from_slice(&u64::from(*option).to_le_bytes());
    }
    buf.extend_from_slice(&[0u8; 32]);
    buf
}

#[test]
fn an_option_set_record_lists_its_options_after_its_own_id() {
    let buf = set_record(SET, &[OPTION_A, OPTION_B]);
    assert_eq!(
        option_set_members(&buf, 0, buf.len(), u64::from(SET)),
        Some(vec![OPTION_A, OPTION_B])
    );
    assert_eq!(option_set_members(&buf, 0, buf.len(), 1), None);
    assert_eq!(option_set_members(&buf, 0, 0x60, u64::from(SET)), None);
    let mut option_record = buf.clone();
    option_record[CATEGORY_OFFSET..CATEGORY_OFFSET + 8]
        .copy_from_slice(&(OST_DESIGN_OPTIONS as u64).to_le_bytes());
    assert_eq!(option_set_members(&option_record, 0, option_record.len(), u64::from(SET)), None);
}

#[test]
fn a_set_list_with_a_repeated_option_is_no_set() {
    let buf = set_record(SET, &[OPTION_A, OPTION_A]);
    assert_eq!(option_set_members(&buf, 0, buf.len(), u64::from(SET)), None);
    let buf = set_record(SET, &[OPTION_A, SET]);
    assert_eq!(option_set_members(&buf, 0, buf.len(), u64::from(SET)), None);
    let buf = set_record(SET, &[]);
    assert_eq!(option_set_members(&buf, 0, buf.len(), u64::from(SET)), None);
}

fn record_in(option: Option<u32>) -> PartitionElementRecord {
    let bits = |v: f64| v.to_bits();
    PartitionElementRecord {
        stream: "Partitions/68".into(),
        offset: 0,
        element_id: 2_062_310,
        flags: 0,
        builtin_category: OST_FLOORS,
        container: CONTAINER_NONE,
        placement_kind: PLACEMENT_KIND_INSTANCE,
        bbox_bits: [bits(0.0), bits(0.0), bits(0.0), bits(1.0), bits(1.0), bits(1.0)],
        preceding_reference: None,
        owner_reference: None,
        references: Vec::new(),
        id_from_enclosing_record: true,
        design_option: option,
    }
}

#[test]
fn only_a_resolved_set_s_other_options_are_excluded() {
    let mut options = DesignOptions::default();
    options.sets.insert(
        SET,
        DesignOptionSet {
            set_id: SET,
            name: "Bleacher Seating".into(),
            options: vec![OPTION_A, OPTION_B],
            primary: OPTION_B,
        },
    );
    assert!(options.excludes(&record_in(Some(OPTION_A))));
    assert!(!options.excludes(&record_in(Some(OPTION_B))));
    assert!(!options.excludes(&record_in(None)));
    assert!(!options.excludes(&record_in(Some(1_500_727))));
    assert_eq!(options.non_primary_options(), BTreeSet::from([OPTION_A]));
    assert!(options.is_non_primary(OPTION_A));
    assert!(!options.is_non_primary(OPTION_B));
}

use rvt_partitions::partition_design_options::{compute_design_options, find_set_entries};
use rvt_partitions::partitions::InflatedPartition;

fn set_entry(options: &[u32], name: &str, primary: u32) -> Vec<u8> {
    let mut buf = vec![0xffu8; 56];
    buf.extend_from_slice(&[0, 0, 0]);
    buf.extend_from_slice(&(options.len() as u32).to_le_bytes());
    for option in options {
        buf.extend_from_slice(&u64::from(*option).to_le_bytes());
    }
    buf.extend_from_slice(&1u32.to_le_bytes());
    let units: Vec<u16> = name.encode_utf16().collect();
    buf.extend_from_slice(&(units.len() as u32).to_le_bytes());
    for unit in units {
        buf.extend_from_slice(&unit.to_le_bytes());
    }
    buf.extend_from_slice(&u64::from(primary).to_le_bytes());
    buf.extend_from_slice(&0xadu32.to_le_bytes());
    buf
}

#[test]
fn a_set_name_entry_gives_the_primary_option() {
    let mut buf = vec![0u8; 13];
    buf.extend(set_entry(&[OPTION_A, OPTION_B], "Bleacher Seating", OPTION_B));
    assert_eq!(
        find_set_entries(&buf, &[OPTION_A, OPTION_B]),
        vec![("Bleacher Seating".to_string(), OPTION_B)]
    );
    assert!(find_set_entries(&buf, &[OPTION_B, OPTION_A]).is_empty());
    assert!(find_set_entries(&buf, &[OPTION_A]).is_empty());
}

#[test]
fn a_primary_outside_the_set_or_a_control_character_is_not_an_entry() {
    let outside = set_entry(&[OPTION_A, OPTION_B], "Bleacher Seating", SET);
    assert!(find_set_entries(&outside, &[OPTION_A, OPTION_B]).is_empty());
    let control = set_entry(&[OPTION_A, OPTION_B], "Bleacher\u{1}", OPTION_B);
    assert!(find_set_entries(&control, &[OPTION_A, OPTION_B]).is_empty());
}

/// An option-set record framed as a Revit 2024 partition record.
fn chain_set_record(set_id: u32, options: &[u32]) -> Vec<u8> {
    let mut buf = vec![0xffu8; OPTION_LIST_OFFSET];
    buf[0..8].copy_from_slice(&u64::from(set_id).to_le_bytes());
    buf[12..14].copy_from_slice(&0x059fu16.to_le_bytes());
    buf[14..16].copy_from_slice(&[0, 0]);
    buf[CATEGORY_OFFSET..CATEGORY_OFFSET + 8]
        .copy_from_slice(&(OST_DESIGN_OPTION_SETS as u64).to_le_bytes());
    buf.extend_from_slice(&(options.len() as u32 + 1).to_le_bytes());
    buf.extend_from_slice(&u64::from(set_id).to_le_bytes());
    for option in options {
        buf.extend_from_slice(&u64::from(*option).to_le_bytes());
    }
    buf.extend_from_slice(&[0u8; 32]);
    let size = buf.len() as u32;
    buf[8..12].copy_from_slice(&size.to_le_bytes());
    buf.extend_from_slice(&[0u8; 8]);
    buf.extend_from_slice(&0u32.to_le_bytes());
    buf.extend_from_slice(&size.to_le_bytes());
    buf
}

#[test]
fn a_set_with_one_primary_is_resolved_and_a_disputed_one_is_not() {
    let mut bytes = chain_set_record(SET, &[OPTION_A, OPTION_B]);
    bytes.extend(vec![0u8; 24]);
    bytes.extend(set_entry(&[OPTION_A, OPTION_B], "Bleacher Seating", OPTION_B));
    let parts = vec![InflatedPartition { stream: "Partitions/68".into(), bytes: bytes.clone() }];
    let options = compute_design_options(&parts, 2024);
    let set = &options.sets[&SET];
    assert_eq!(set.primary, OPTION_B);
    assert_eq!(set.options, vec![OPTION_A, OPTION_B]);
    assert_eq!(set.name, "Bleacher Seating");
    assert!(options.unresolved_sets.is_empty());
    assert!(options.is_non_primary(OPTION_A));

    let mut disputed = bytes;
    disputed.extend(set_entry(&[OPTION_A, OPTION_B], "Bleacher Seating", OPTION_A));
    let parts = vec![InflatedPartition { stream: "Partitions/68".into(), bytes: disputed }];
    let options = compute_design_options(&parts, 2024);
    assert!(options.sets.is_empty());
    assert_eq!(options.unresolved_sets, BTreeSet::from([SET]));
    assert!(compute_design_options(&parts, 2023).unresolved_sets.is_empty());
}

fn option_frame(id: u32, category: i64, option: u32) -> Vec<u8> {
    let mut buf = vec![0xffu8; RECORD_MIN_LEN];
    buf[0..8].copy_from_slice(&u64::from(id).to_le_bytes());
    buf[8..12].copy_from_slice(&0x0141u32.to_le_bytes());
    buf[12..16].copy_from_slice(&0x059fu32.to_le_bytes());
    buf[16..18].copy_from_slice(&0u16.to_le_bytes());
    buf[CATEGORY_OFFSET..CATEGORY_OFFSET + 8].copy_from_slice(&(category as u64).to_le_bytes());
    buf[0x2a..0x32].copy_from_slice(&u64::from(option).to_le_bytes());
    buf[0x42..0x46].copy_from_slice(&PLACEMENT_KIND_INSTANCE.to_le_bytes());
    buf[BBOX_MARKER_OFFSET..BBOX_MARKER_OFFSET + 8].copy_from_slice(&BBOX_MARKER);
    for (index, value) in [0.0f64, 0.0, 0.0, 1.0, 1.0, 1.0].iter().enumerate() {
        let at = BBOX_OFFSET + index * 8;
        buf[at..at + 8].copy_from_slice(&value.to_le_bytes());
    }
    buf
}

fn bleacher_options() -> DesignOptions {
    let mut options = DesignOptions::default();
    options.sets.insert(
        SET,
        DesignOptionSet {
            set_id: SET,
            name: "Bleacher Seating".into(),
            options: vec![OPTION_A, OPTION_B],
            primary: OPTION_B,
        },
    );
    options
}

#[test]
fn left_out_instances_are_counted_once_by_class() {
    let mut bytes = option_frame(500, OST_FLOORS, OPTION_A);
    bytes.extend(option_frame(501, OST_FLOORS, OPTION_B));
    bytes.extend(option_frame(502, OST_WALLS, OPTION_A));
    bytes.extend(option_frame(500, OST_FLOORS, OPTION_A));
    let partitions = vec![InflatedPartition { stream: "Partitions/68".to_string(), bytes }];
    let declared: BTreeSet<u32> = [500, 501, 502].into_iter().collect();
    let assigned = SecondPrologueIds { streams: Vec::new() };
    let counts = scan_non_primary_option_instances(&partitions, 2024, &declared, &bleacher_options(), &assigned);
    assert_eq!(counts, vec![("Wall".to_string(), 1), ("Floor".to_string(), 1)]);
    let none = scan_non_primary_option_instances(&partitions, 2024, &declared, &DesignOptions::default(), &assigned);
    assert!(none.is_empty());
    assert!(scan_non_primary_option_instances(&partitions, 2023, &declared, &bleacher_options(), &assigned).is_empty());
}
