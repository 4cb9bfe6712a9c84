use rvt_partitions::partition_element_records::{
    bbox_marker, carries_no_element_id, decode_at, decode_at_with_marker,
    decode_owner_reference, decode_reference_list, enclosing_record, find_category_records,
    find_category_records_with_marker, partition_record_chain, record_prologue_constant,
    supports_revit_version, PartitionRecordSpan, BBOX_MARKER, BBOX_MARKER_2025,
    BBOX_MARKER_OFFSET, BBOX_OFFSET, CATEGORY_OFFSET, CONTAINER_NONE, CONTAINER_OFFSET,
    OST_COLUMNS, OST_DOORS, OST_FURNITURE, OST_SKETCH_LINES, OST_WALLS, PLACEMENT_KIND_INSTANCE,
    PLACEMENT_KIND_OFFSET, PLACEMENT_KIND_SYMBOL, RECORD_MIN_LEN, REFERENCE_LIST_MAX_ENTRIES,
    REFERENCE_LIST_OFFSET, assign_second_prologue_ids, compute_second_prologue_ids,
    OST_STAIRS_RUNS, PARTITION_RECORD_HEADER_LEN, find_category_records_assigned,
    find_categories_records_assigned, scan_category_records, scan_category_records_multi,
    BUILTIN_CATEGORY_MAX, BUILTIN_CATEGORY_MIN, PRODUCT_RECORD_CATEGORIES, RECOVERED_CATEGORIES,
    count_unattributed_frames, count_unattributed_frames_excluding,
    count_unattributed_frames_with_marker, scan_unattributed_frames, PartitionElementRecord,
    OST_SPECIALITY_EQUIPMENT,
};
use rvt_partitions::partition_design_options::{count_volumeless_instances, DesignOptions};
use std::collections::BTreeMap;
use rvt_partitions::partitions::InflatedPartition;
use std::collections::BTreeSet;

fn synth_record(element_id: u32, category: i64, bbox: [f64; 6]) -> Vec<u8> {
    let mut buf = vec![0xffu8; RECORD_MIN_LEN];
    buf[0..8].copy_from_slice(&u64::from(element_id).to_le_bytes());
    buf[8..12].copy_from_slice(&0x0141u32.to_le_bytes());
    buf[12..16].copy_from_slice(&0x059fu32.to_le_bytes());
    buf[16..18].copy_from_slice(&0u16.to_le_bytes());
    buf[CATEGORY_OFFSET..CATEGORY_OFFSET + 8].copy_from_slice(&(category as u64).to_le_bytes());
    buf[PLACEMENT_KIND_OFFSET..PLACEMENT_KIND_OFFSET + 4]
        .copy_from_slice(&PLACEMENT_KIND_INSTANCE.to_le_bytes());
    buf[BBOX_MARKER_OFFSET..BBOX_MARKER_OFFSET + 8].copy_from_slice(&BBOX_MARKER);
    for (index, value) in bbox.iter().enumerate() {
        let at = BBOX_OFFSET + index * 8;
        buf[at..at + 8].copy_from_slice(&value.to_le_bytes());
    }
    buf
}

fn declared(ids: &[u32]) -> BTreeSet<u32> {
    ids.iter().copied().collect()
}

fn with_reference_list(mut buf: Vec<u8>, entries: &[u64]) -> Vec<u8> {
    buf.truncate(REFERENCE_LIST_OFFSET);
    buf.extend_from_slice(&(entries.len() as u32).to_le_bytes());
    for entry in entries {
        buf.extend_from_slice(&entry.to_le_bytes());
    }
    buf
}

fn first_prologue(element_id: u32, category: i64) -> Vec<u8> {
    let bbox = [0.0, 0.0, 0.0, 1.0, 1.0, 1.0];
    with_reference_list(
        synth_record(element_id, category, bbox),
        &[3, u64::from(element_id)],
    )
}

fn second_prologue(category: i64, references: &[u64]) -> Vec<u8> {
    let bbox = [0.0, 0.0, 0.0, 1.0, 1.0, 1.0];
    let mut buf = with_reference_list(synth_record(1, category, bbox), references);
    buf[0..8].copy_from_slice(&0x0000_0001_ffff_ffff_u64.to_le_bytes());
    buf
}

fn trailer(record: &mut Vec<u8>, size: u32, flags: u32) {
    record.extend_from_slice(&0x0bcd_u64.to_le_bytes());
    record.extend_from_slice(&flags.to_le_bytes());
    record.extend_from_slice(&size.to_le_bytes());
}

fn as_record(mut frame: Vec<u8>) -> Vec<u8> {
    let size = frame.len() as u32;
    frame[8..12].copy_from_slice(&size.to_le_bytes());
    trailer(&mut frame, size, 0);
    frame
}

fn nested(element_id: u64, frame: &[u8]) -> Vec<u8> {
    let mut record = element_id.to_le_bytes().to_vec();
    let size = (16 + 6 + frame.len()) as u32;
    record.extend_from_slice(&size.to_le_bytes());
    record.extend_from_slice(&0x059fu16.to_le_bytes());
    record.extend_from_slice(&1u16.to_le_bytes());
    record.extend_from_slice(&[0u8; 6]);
    record.extend_from_slice(frame);
    trailer(&mut record, size, 0x0100_0000);
    record
}

#[test]
fn bbox_marker_is_chosen_per_release() {
    assert_eq!(bbox_marker(2024), Some(BBOX_MARKER));
    assert_eq!(bbox_marker(2025), Some(BBOX_MARKER_2025));
    for unproven in [2023, 2026, 2027] {
        assert_eq!(bbox_marker(unproven), None);
        assert!(!supports_revit_version(unproven));
    }
    assert_eq!(
        u16::from_le_bytes([BBOX_MARKER[6], BBOX_MARKER[7]]),
        1411 + 40
    );
    assert_eq!(
        u16::from_le_bytes([BBOX_MARKER_2025[6], BBOX_MARKER_2025[7]]),
        1451 + 40
    );

    let mut buf = synth_record(415_431, OST_WALLS, [0.0, 0.0, 0.0, 0.4, 26.2, 11.5]);
    buf[BBOX_MARKER_OFFSET..BBOX_MARKER_OFFSET + 8].copy_from_slice(&BBOX_MARKER_2025);
    let ids = declared(&[415_431]);
    let record = decode_at_with_marker("Partitions/68", &buf, 0, &ids, &BBOX_MARKER_2025)
        .expect("2025 record decodes with the 2025 marker");
    assert_eq!(record.element_id, 415_431);
    assert!(decode_at("Partitions/68", &buf, 0, &ids).is_none());
    assert_eq!(
        find_category_records_with_marker("Partitions/68", &buf, OST_WALLS, &ids, &BBOX_MARKER_2025)
            .len(),
        1
    );
}

#[test]
fn decodes_a_well_formed_column_record() {
    let bbox = [135.5, 79.0, 0.0, 137.5, 81.0, 30.333];
    let buf = synth_record(22805, OST_COLUMNS, bbox);
    let record = decode_at("Partitions/46", &buf, 0, &declared(&[22805])).expect("decodes");
    assert_eq!(record.element_id, 22805);
    assert_eq!(record.builtin_category, OST_COLUMNS);
    assert_eq!(record.flags, 0x0141);
    let feet: Vec<f64> = record.bbox_bits.iter().map(|b| f64::from_bits(*b)).collect();
    assert!((feet[3] - feet[0] - 2.0).abs() < 1e-9);
    assert!((feet[4] - feet[1] - 2.0).abs() < 1e-9);
    assert!(!is_family_local(&record));
}

#[test]
fn rejects_ids_absent_from_elem_table() {
    let buf = synth_record(22805, OST_COLUMNS, [0.0, 0.0, 0.0, 1.0, 1.0, 1.0]);
    assert!(decode_at("Partitions/46", &buf, 0, &declared(&[9999])).is_none());
}

#[test]
fn rejects_missing_bbox_marker() {
    let mut buf = synth_record(22805, OST_COLUMNS, [0.0, 0.0, 0.0, 1.0, 1.0, 1.0]);
    buf[BBOX_MARKER_OFFSET] = 0x00;
    assert!(decode_at("Partitions/46", &buf, 0, &declared(&[22805])).is_none());
}

#[test]
fn rejects_inverted_bounding_box() {
    let buf = synth_record(22805, OST_COLUMNS, [10.0, 0.0, 0.0, 1.0, 1.0, 1.0]);
    assert!(decode_at("Partitions/46", &buf, 0, &declared(&[22805])).is_none());
}

#[test]
fn a_box_with_a_negative_min_and_signed_zeros_decodes() {
    let buf = synth_record(22805, OST_COLUMNS, [-3.5, 0.0, -0.0, -1.0, -0.0, 0.0]);
    assert!(decode_at("Partitions/46", &buf, 0, &declared(&[22805])).is_some());
    let nan = synth_record(22805, OST_COLUMNS, [0.0, 0.0, 0.0, f64::NAN, 1.0, 1.0]);
    assert!(decode_at("Partitions/46", &nan, 0, &declared(&[22805])).is_none());
    let infinite = synth_record(22805, OST_COLUMNS, [0.0, 0.0, 0.0, f64::INFINITY, 1.0, 1.0]);
    assert!(decode_at("Partitions/46", &infinite, 0, &declared(&[22805])).is_none());
}

#[test]
fn placed_standalone_record_is_an_exported_instance() {
    let buf = synth_record(22805, OST_COLUMNS, [135.5, 79.0, 0.0, 137.5, 81.0, 30.3]);
    let record = decode_at("Partitions/46", &buf, 0, &declared(&[22805])).expect("decodes");
    assert_eq!(record.container, CONTAINER_NONE);
    assert_eq!(record.placement_kind, PLACEMENT_KIND_INSTANCE);
    assert!(record.container_element_id().is_none());
    assert!(!record.is_container_member());
    assert!(record.is_placed_instance());
    assert!(!record.is_type_symbol());
    assert!(record.is_exported_instance());
}

#[test]
fn container_member_is_not_an_exported_instance() {
    let mut buf = synth_record(16347, OST_COLUMNS, [23.0, 109.0, 76.0, 25.0, 111.0, 91.0]);
    buf[CONTAINER_OFFSET..CONTAINER_OFFSET + 8].copy_from_slice(&16_229u64.to_le_bytes());
    let record = decode_at("Partitions/46", &buf, 0, &declared(&[16347])).expect("decodes");
    assert_eq!(record.container_element_id(), Some(16_229));
    assert!(record.is_container_member());
    assert!(record.is_placed_instance());
    assert!(!record.is_exported_instance());
}

#[test]
fn type_symbol_is_not_an_exported_instance() {
    let mut buf = synth_record(17331, OST_DOORS, [-1.749, -0.332, 0.0, 1.749, 3.251, 8.249]);
    buf[PLACEMENT_KIND_OFFSET..PLACEMENT_KIND_OFFSET + 4]
        .copy_from_slice(&PLACEMENT_KIND_SYMBOL.to_le_bytes());
    let record = decode_at("Partitions/46", &buf, 0, &declared(&[17331])).expect("decodes");
    assert!(!is_family_local(&record), "proxy misses this symbol");
    assert!(record.is_type_symbol());
    assert!(!record.is_placed_instance());
    assert!(!record.is_exported_instance());
}

#[test]
fn out_of_range_container_reference_is_not_an_element_id() {
    let mut buf = synth_record(22805, OST_COLUMNS, [1.0, 2.0, 0.0, 3.0, 4.0, 5.0]);
    buf[CONTAINER_OFFSET..CONTAINER_OFFSET + 8]
        .copy_from_slice(&0x0001_0000_0000u64.to_le_bytes());
    let record = decode_at("Partitions/46", &buf, 0, &declared(&[22805])).expect("decodes");
    assert!(record.is_container_member());
    assert_eq!(record.container_element_id(), None);
    assert!(!record.is_exported_instance());
}

#[test]
fn scan_finds_records_at_any_offset() {
    let bbox = [1.0, 2.0, 3.0, 3.0, 4.0, 13.0];
    let mut buf = vec![0u8; 37];
    buf.extend(synth_record(4242, OST_COLUMNS, bbox));
    buf.extend(vec![0u8; 11]);
    let found = find_category_records("Partitions/46", &buf, OST_COLUMNS, &declared(&[4242]));
    assert_eq!(found.len(), 1);
    assert_eq!(found[0].element_id, 4242);
    assert_eq!(found[0].offset, 37);
}

#[test]
fn partition_element_records_unsupported_release_yields_nothing() {
    assert!(!supports_revit_version(2023));
    assert!(supports_revit_version(2024));
}

#[test]
fn reference_list_decodes_its_counted_slots() {
    let buf = with_reference_list(
        synth_record(25947, OST_DOORS, [1.0, 2.0, 0.0, 3.0, 4.0, 8.0]),
        &[3, 20274, 23756, 24301, 25488, 25947],
    );
    let entries = decode_reference_list(&buf, REFERENCE_LIST_OFFSET).expect("decodes");
    assert_eq!(entries, vec![3, 20274, 23756, 24301, 25488, 25947]);
}

#[test]
fn reference_list_rejects_a_length_that_runs_past_the_buffer() {
    let mut buf = with_reference_list(
        synth_record(25947, OST_DOORS, [1.0, 2.0, 0.0, 3.0, 4.0, 8.0]),
        &[3, 25488, 25947],
    );
    buf[REFERENCE_LIST_OFFSET..REFERENCE_LIST_OFFSET + 4].copy_from_slice(&64u32.to_le_bytes());
    assert!(decode_reference_list(&buf, REFERENCE_LIST_OFFSET).is_none());
}

#[test]
fn reference_list_rejects_an_unbounded_length() {
    let mut buf = with_reference_list(
        synth_record(25947, OST_DOORS, [1.0, 2.0, 0.0, 3.0, 4.0, 8.0]),
        &[3, 25488, 25947],
    );
    buf[REFERENCE_LIST_OFFSET..REFERENCE_LIST_OFFSET + 4]
        .copy_from_slice(&(REFERENCE_LIST_MAX_ENTRIES as u32 + 1).to_le_bytes());
    assert!(decode_reference_list(&buf, REFERENCE_LIST_OFFSET).is_none());
}

#[test]
fn preceding_reference_is_the_slot_before_the_records_own_id() {
    let buf = with_reference_list(
        synth_record(25947, OST_DOORS, [1.0, 2.0, 0.0, 3.0, 4.0, 8.0]),
        &[3, 20274, 23756, 24301, 25488, 25947],
    );
    let record = decode_at("Partitions/46", &buf, 0, &declared(&[25947])).expect("decodes");
    assert_eq!(record.preceding_reference, Some(25_488));
}

#[test]
fn preceding_reference_ignores_slots_after_the_records_own_id() {
    let buf = with_reference_list(
        synth_record(20810, OST_DOORS, [1.0, 2.0, 0.0, 3.0, 4.0, 8.0]),
        &[3, 17333, 20308, 20798, 20810, 132_750],
    );
    let record = decode_at("Partitions/59", &buf, 0, &declared(&[20810])).expect("decodes");
    assert_eq!(record.preceding_reference, Some(20_798));
}

#[test]
fn preceding_reference_is_absent_without_a_self_slot() {
    let buf = with_reference_list(
        synth_record(22805, OST_COLUMNS, [1.0, 2.0, 0.0, 3.0, 4.0, 8.0]),
        &[3, 1435, 17337],
    );
    let record = decode_at("Partitions/46", &buf, 0, &declared(&[22805])).expect("decodes");
    assert_eq!(record.preceding_reference, None);
}

#[test]
fn preceding_reference_is_absent_when_the_record_leads_its_list() {
    let buf = with_reference_list(
        synth_record(22805, OST_COLUMNS, [1.0, 2.0, 0.0, 3.0, 4.0, 8.0]),
        &[22805, 1435],
    );
    let record = decode_at("Partitions/46", &buf, 0, &declared(&[22805])).expect("decodes");
    assert_eq!(record.preceding_reference, None);
}

#[test]
fn preceding_reference_rejects_a_slot_outside_the_element_id_range() {
    let buf = with_reference_list(
        synth_record(22805, OST_COLUMNS, [1.0, 2.0, 0.0, 3.0, 4.0, 8.0]),
        &[3, u64::from(u32::MAX) + 1, 22805],
    );
    let record = decode_at("Partitions/46", &buf, 0, &declared(&[22805])).expect("decodes");
    assert_eq!(record.preceding_reference, None);
}

#[test]
fn owner_reference_is_the_last_slot_of_the_second_list() {
    let mut buf = with_reference_list(
        synth_record(20310, OST_SKETCH_LINES, [20.0, 25.0, 46.0, 20.0, 114.0, 46.0]),
        &[20309, 20310, 20312, 20313, 20315],
    );
    buf.extend_from_slice(&2u32.to_le_bytes());
    buf.extend_from_slice(&20_308u64.to_le_bytes());
    buf.extend_from_slice(&20_311u64.to_le_bytes());
    let record = decode_at("Partitions/46", &buf, 0, &declared(&[20310])).expect("decodes");
    assert_eq!(record.builtin_category, OST_SKETCH_LINES);
    assert_eq!(record.owner_reference, Some(20_311));
    assert_eq!(decode_owner_reference(&buf, REFERENCE_LIST_OFFSET), Some(20_311));
}

#[test]
fn owner_reference_is_absent_without_a_second_list() {
    let buf = with_reference_list(
        synth_record(20310, OST_SKETCH_LINES, [20.0, 25.0, 46.0, 20.0, 114.0, 46.0]),
        &[20309, 20310],
    );
    let record = decode_at("Partitions/46", &buf, 0, &declared(&[20310])).expect("decodes");
    assert_eq!(record.owner_reference, None);
}

#[test]
fn owner_reference_rejects_a_slot_outside_the_element_id_range() {
    let mut buf = with_reference_list(
        synth_record(20310, OST_SKETCH_LINES, [20.0, 25.0, 46.0, 20.0, 114.0, 46.0]),
        &[20309, 20310],
    );
    buf.extend_from_slice(&1u32.to_le_bytes());
    buf.extend_from_slice(&(u64::from(u32::MAX) + 1).to_le_bytes());
    let record = decode_at("Partitions/46", &buf, 0, &declared(&[20310])).expect("decodes");
    assert_eq!(record.owner_reference, None);
}

#[test]
fn reference_list_is_kept_verbatim_on_the_record() {
    let buf = with_reference_list(
        synth_record(25947, OST_DOORS, [1.0, 2.0, 0.0, 3.0, 4.0, 8.0]),
        &[3, 20274, 23756, 24301, 25488, 25947],
    );
    let record = decode_at("Partitions/46", &buf, 0, &declared(&[25947])).expect("decodes");
    assert_eq!(record.references, vec![3, 20274, 23756, 24301, 25488, 25947]);
}

#[test]
fn a_record_without_a_reference_list_still_decodes() {
    let buf = synth_record(22805, OST_COLUMNS, [1.0, 2.0, 0.0, 3.0, 4.0, 8.0]);
    let record = decode_at("Partitions/46", &buf, 0, &declared(&[22805])).expect("decodes");
    assert_eq!(record.preceding_reference, None);
    assert_eq!(record.owner_reference, None);
    assert!(record.references.is_empty());
}

#[test]
fn a_product_category_record_decodes_like_any_other() {
    let buf = synth_record(738550, OST_FURNITURE, [1.0, 2.0, 0.0, 3.0, 4.0, 2.5]);
    let record = decode_at("Partitions/12", &buf, 0, &declared(&[738550])).expect("decodes");
    assert_eq!(record.builtin_category, OST_FURNITURE);
    assert_eq!(record.element_id, 738550);
}

#[test]
fn type_symbol_reference_is_the_symbol_slot_before_the_records_own_id() {
    let buf = with_reference_list(
        synth_record(20375, OST_COLUMNS, [23.0, 109.0, 76.0, 25.0, 111.0, 90.0]),
        &[3, 4258, 4546, 5755, 20307, 20308, 20375, 20843, 75407],
    );
    let record = decode_at("Partitions/46", &buf, 0, &declared(&[20375])).expect("decodes");
    let symbols: BTreeSet<u32> = [5755u32, 75407].into_iter().collect();
    assert_eq!(record.type_symbol_reference(&symbols), Some(5755));
}

#[test]
fn type_symbol_reference_is_absent_without_a_symbol_slot() {
    let buf = with_reference_list(
        synth_record(20375, OST_COLUMNS, [23.0, 109.0, 76.0, 25.0, 111.0, 90.0]),
        &[3, 4258, 20375, 75407],
    );
    let record = decode_at("Partitions/46", &buf, 0, &declared(&[20375])).expect("decodes");
    let symbols: BTreeSet<u32> = [5755u32, 75407].into_iter().collect();
    assert_eq!(record.type_symbol_reference(&symbols), None);
}

#[test]
fn type_symbol_reference_is_absent_without_a_self_slot() {
    let buf = with_reference_list(
        synth_record(20375, OST_COLUMNS, [23.0, 109.0, 76.0, 25.0, 111.0, 90.0]),
        &[3, 5755, 20307],
    );
    let record = decode_at("Partitions/46", &buf, 0, &declared(&[20375])).expect("decodes");
    let symbols: BTreeSet<u32> = [5755u32].into_iter().collect();
    assert_eq!(record.type_symbol_reference(&symbols), None);
}

#[test]
fn the_prologue_constant_sits_twelve_below_the_marker_constant() {
    assert_eq!(record_prologue_constant(&BBOX_MARKER), 0x059f);
    assert_eq!(record_prologue_constant(&BBOX_MARKER_2025), 0x05c7);
}

#[test]
fn the_leading_record_chain_stops_at_the_first_non_record() {
    let first = as_record(first_prologue(100, OST_WALLS));
    let second = nested(150, &second_prologue(OST_WALLS, &[3, 90]));
    let chained = [first.clone(), second.clone()].concat();
    let family = nested(160, &second_prologue(OST_WALLS, &[3, 90]));
    let buf = [chained.clone(), vec![0x42; 40], family].concat();
    let chain = partition_record_chain(&buf, &BBOX_MARKER);
    let ids: Vec<(usize, u64)> = chain.iter().map(|r| (r.start, r.element_id)).collect();
    assert_eq!(ids, vec![(0, 100), (first.len(), 150)]);
    assert_eq!(chain[1].end, chained.len() - 16);

    let mut broken = first.clone();
    let echo = broken.len() - 4;
    broken[echo..].copy_from_slice(&7u32.to_le_bytes());
    assert!(partition_record_chain(&broken, &BBOX_MARKER).is_empty());
    let mut flagged = first;
    let flags = flagged.len() - 8;
    flagged[flags..flags + 4].copy_from_slice(&2u32.to_le_bytes());
    assert!(partition_record_chain(&flagged, &BBOX_MARKER).is_empty());
    assert!(partition_record_chain(&chained, &BBOX_MARKER_2025).is_empty());
}

#[test]
fn enclosing_record_is_the_span_holding_the_offset() {
    let chain = vec![
        PartitionRecordSpan { start: 0, end: 100, element_id: 7 },
        PartitionRecordSpan { start: 116, end: 200, element_id: 8 },
    ];
    assert_eq!(enclosing_record(&chain, 50).map(|s| s.element_id), Some(7));
    assert_eq!(enclosing_record(&chain, 150).map(|s| s.element_id), Some(8));
    assert!(enclosing_record(&chain, 105).is_none());
    assert!(enclosing_record(&chain, 200).is_none());
}

#[test]
fn a_frame_with_the_invalid_id_carries_no_element_id() {
    assert!(carries_no_element_id(0));
    assert!(carries_no_element_id(u64::from(u32::MAX)));
    assert!(carries_no_element_id(0x0000_0001_ffff_ffff));
    assert!(!carries_no_element_id(1_644_693));
}

fn nested_frame_at(start: usize) -> usize {
    start + PARTITION_RECORD_HEADER_LEN + 6
}

#[test]
fn a_second_prologue_frame_takes_its_enclosing_record_id() {
    let declared = declared(&[100, 150, 160, 49480]);
    let first = as_record(first_prologue(100, OST_WALLS));
    let door = nested(150, &second_prologue(OST_DOORS, &[3, 49480, 150, 160]));
    let undeclared = nested(170, &second_prologue(OST_DOORS, &[3, 150]));
    let chained = [first.clone(), door.clone(), undeclared].concat();
    let family = nested(160, &second_prologue(OST_DOORS, &[3, 160]));
    let buf = [chained, vec![0x42; 40], family].concat();
    let assigned = assign_second_prologue_ids(&buf, &BBOX_MARKER, &declared);
    assert_eq!(
        assigned.into_iter().collect::<Vec<_>>(),
        vec![(nested_frame_at(first.len()), 150)]
    );
}

#[test]
fn a_frame_with_the_invalid_id_takes_its_enclosing_record_id() {
    assert!(carries_no_element_id(0));
    assert!(carries_no_element_id(u64::from(u32::MAX)));
    assert!(carries_no_element_id(0x0000_0001_ffff_ffff));
    assert!(!carries_no_element_id(1_644_693));
    let declared = declared(&[100, 1_644_693]);
    let mut run = second_prologue(OST_STAIRS_RUNS, &[3, 1_644_692, 1_644_693]);
    run[0..8].copy_from_slice(&u64::from(u32::MAX).to_le_bytes());
    let first = as_record(first_prologue(100, OST_STAIRS_RUNS));
    let buf = [first.clone(), nested(1_644_693, &run)].concat();
    let assigned = assign_second_prologue_ids(&buf, &BBOX_MARKER, &declared);
    assert_eq!(
        assigned.into_iter().collect::<Vec<_>>(),
        vec![(nested_frame_at(first.len()), 1_644_693)]
    );
}

#[test]
fn a_second_prologue_frame_that_is_not_a_placed_instance_gets_no_id() {
    let declared = declared(&[100, 150]);
    let mut symbol = second_prologue(OST_DOORS, &[3, 150]);
    symbol[PLACEMENT_KIND_OFFSET..PLACEMENT_KIND_OFFSET + 4]
        .copy_from_slice(&PLACEMENT_KIND_SYMBOL.to_le_bytes());
    let buf = [
        as_record(first_prologue(100, OST_DOORS)),
        nested(150, &symbol),
    ]
    .concat();
    assert!(assign_second_prologue_ids(&buf, &BBOX_MARKER, &declared).is_empty());
}

#[test]
fn second_prologue_ids_are_kept_per_stream() {
    let declared = declared(&[100, 150]);
    let first = as_record(first_prologue(100, OST_WALLS));
    let with_frame = [first.clone(), nested(150, &second_prologue(OST_WALLS, &[3, 90]))].concat();
    let partitions = vec![
        InflatedPartition { stream: "Partitions/1".to_string(), bytes: first.clone() },
        InflatedPartition { stream: "Partitions/2".to_string(), bytes: with_frame },
    ];
    let ids = compute_second_prologue_ids(&partitions, 2024, &declared);
    assert_eq!(ids.streams.len(), 1);
    assert!(ids.get("Partitions/1").is_none());
    let assigned = ids.get("Partitions/2").expect("assigned");
    assert_eq!(assigned.get(&nested_frame_at(first.len())), Some(&150));
    assert!(compute_second_prologue_ids(&partitions, 2023, &declared).streams.is_empty());
    assert!(compute_second_prologue_ids(&partitions, 2024, &BTreeSet::new()).streams.is_empty());
}

#[test]
fn assigned_frames_join_their_category_in_offset_order() {
    let declared = declared(&[100, 150, 200]);
    let buf = [
        as_record(first_prologue(100, OST_WALLS)),
        nested(150, &second_prologue(OST_WALLS, &[3, 90])),
        as_record(first_prologue(200, OST_WALLS)),
    ]
    .concat();
    let assigned = assign_second_prologue_ids(&buf, &BBOX_MARKER, &declared);
    let records = find_category_records_assigned(
        "Partitions/68",
        &buf,
        OST_WALLS,
        &declared,
        &BBOX_MARKER,
        &assigned,
    );
    let ids: Vec<(u32, bool)> = records
        .iter()
        .map(|r| (r.element_id, r.id_from_enclosing_record))
        .collect();
    assert_eq!(ids, vec![(100, false), (150, true), (200, false)]);
    let doors = find_category_records_assigned("Partitions/68", &buf, OST_DOORS, &declared, &BBOX_MARKER, &assigned);
    assert!(doors.is_empty());
    let both = find_categories_records_assigned(
        "Partitions/68",
        &buf,
        &[OST_DOORS, OST_WALLS],
        &declared,
        &BBOX_MARKER,
        &assigned,
    );
    assert_eq!(both.len(), 2);
    assert!(both[0].is_empty());
    assert_eq!(both[1].len(), 3);
}

#[test]
fn category_scans_go_category_by_category() {
    let declared = declared(&[100, 150, 200]);
    let walls = [
        as_record(first_prologue(100, OST_WALLS)),
        nested(150, &second_prologue(OST_WALLS, &[3, 90])),
    ]
    .concat();
    let doors = as_record(first_prologue(200, OST_DOORS));
    let partitions = vec![
        InflatedPartition { stream: "Partitions/1".to_string(), bytes: walls },
        InflatedPartition { stream: "Partitions/2".to_string(), bytes: doors },
    ];
    let assigned = compute_second_prologue_ids(&partitions, 2024, &declared);
    let records = scan_category_records_multi(&partitions, 2024, &[OST_DOORS, OST_WALLS], &declared, &assigned);
    let ids: Vec<(u32, bool)> = records.iter().map(|r| (r.element_id, r.id_from_enclosing_record)).collect();
    assert_eq!(ids, vec![(200, false), (100, false), (150, true)]);
    assert_eq!(scan_category_records(&partitions, 2024, OST_WALLS, &declared, &assigned).len(), 2);
    assert!(scan_category_records_multi(&partitions, 2023, &[OST_WALLS], &declared, &assigned).is_empty());
}

#[test]
fn product_categories_are_distinct_and_recovered() {
    let mut seen = BTreeSet::new();
    for (category, class) in PRODUCT_RECORD_CATEGORIES {
        assert!(seen.insert(category), "{category} listed twice");
        assert!((BUILTIN_CATEGORY_MIN..=BUILTIN_CATEGORY_MAX).contains(&category));
        assert!(RECOVERED_CATEGORIES.contains(&(category, class)));
    }
    let distinct: BTreeSet<i64> = RECOVERED_CATEGORIES.iter().map(|(c, _)| *c).collect();
    assert_eq!(distinct.len(), RECOVERED_CATEGORIES.len());
}

/// The frame offsets whose bounding box is finite with volume on all
/// three axes.
fn volumed(buf: &[u8]) -> BTreeSet<usize> {
    let mut out = BTreeSet::new();
    for hit in 0..buf.len().saturating_sub(7) {
        if buf[hit..hit + 8] != BBOX_MARKER && buf[hit..hit + 8] != BBOX_MARKER_2025 {
            continue;
        }
        let Some(offset) = hit.checked_sub(BBOX_MARKER_OFFSET) else {
            continue;
        };
        let read = |i: usize| {
            let at = offset + BBOX_OFFSET + 8 * i;
            buf.get(at..at + 8).map(|s| f64::from_le_bytes(s.try_into().unwrap()))
        };
        let b: Vec<Option<f64>> = (0..6).map(read).collect();
        if b.iter().all(|v| v.is_some_and(f64::is_finite))
            && (0..3).all(|a| b[a + 3].unwrap() - b[a].unwrap() > 1e-6)
        {
            out.insert(offset);
        }
    }
    out
}

fn has_volume(r: &PartitionElementRecord) -> bool {
    let b = r.bbox_bits.map(f64::from_bits);
    (0..3).all(|a| {
        let e = b[a + 3] - b[a];
        e.is_finite() && e > 1e-6
    })
}

#[test]
fn unattributed_frames_are_counted_per_category() {
    let bbox = [0.0, 0.0, 0.0, 1.0, 18.9, 24.7];
    let attributed = synth_record(22805, OST_WALLS, bbox);
    let mut all_ff = synth_record(1, OST_WALLS, bbox);
    all_ff[0..8].fill(0xff);
    let mut high_word = synth_record(1, OST_DOORS, bbox);
    high_word[0..8].copy_from_slice(&0x0000_0006_ffff_ffff_u64.to_le_bytes());
    let mut outside = synth_record(1, OST_SKETCH_LINES, bbox);
    outside[0..8].fill(0xff);
    let mut contained = synth_record(1, OST_WALLS, bbox);
    contained[0..8].fill(0xff);
    contained[CONTAINER_OFFSET..CONTAINER_OFFSET + 8].copy_from_slice(&20274u64.to_le_bytes());
    let mut symbol = synth_record(1, OST_DOORS, bbox);
    symbol[0..8].fill(0xff);
    symbol[PLACEMENT_KIND_OFFSET..PLACEMENT_KIND_OFFSET + 4]
        .copy_from_slice(&PLACEMENT_KIND_SYMBOL.to_le_bytes());
    let first = as_record(attributed);
    let buf = [
        first.clone(),
        nested(9001, &all_ff),
        nested(9002, &high_word),
        nested(9003, &outside),
        nested(9004, &contained),
        nested(9005, &symbol),
    ]
    .concat();

    let counts = count_unattributed_frames(&buf, &[OST_WALLS, OST_DOORS], &volumed(&buf));
    assert_eq!(counts, BTreeMap::from([(OST_WALLS, 1), (OST_DOORS, 1)]));
    assert!(count_unattributed_frames(&first, &[OST_WALLS], &volumed(&first)).is_empty());
}

#[test]
fn an_assigned_frame_decodes_under_its_category_and_is_not_counted_missing() {
    let declared = declared(&[100, 150, 200]);
    let buf = [
        as_record(first_prologue(100, OST_WALLS)),
        nested(150, &second_prologue(OST_WALLS, &[3, 90])),
        as_record(first_prologue(200, OST_WALLS)),
    ]
    .concat();
    let assigned = assign_second_prologue_ids(&buf, &BBOX_MARKER, &declared);
    let records = find_category_records_assigned(
        "Partitions/68",
        &buf,
        OST_WALLS,
        &declared,
        &BBOX_MARKER,
        &assigned,
    );
    let ids: Vec<(u32, bool)> = records
        .iter()
        .map(|r| (r.element_id, r.id_from_enclosing_record))
        .collect();
    assert_eq!(ids, vec![(100, false), (150, true), (200, false)]);
    let v = volumed(&buf);
    assert!(count_unattributed_frames_excluding(&buf, &[OST_WALLS], &BBOX_MARKER, &assigned, &v)
        .is_empty());
    assert_eq!(
        count_unattributed_frames(&buf, &[OST_WALLS], &v),
        BTreeMap::from([(OST_WALLS, 1)])
    );
}

#[test]
fn frames_after_the_record_chain_are_not_counted_missing() {
    let chain = as_record(first_prologue(100, OST_WALLS));
    let family = nested(7, &second_prologue(OST_WALLS, &[3, 7]));
    let buf = [chain, vec![0x42; 40], family].concat();
    assert!(count_unattributed_frames(&buf, &[OST_WALLS], &volumed(&buf)).is_empty());
}

#[test]
fn a_placed_instance_without_volume_is_left_out_and_not_counted_missing() {
    let flat = [0.0, 0.0, 0.0, 5.0, 5.0, 0.0];
    let solid = [0.0, 0.0, 0.0, 5.0, 5.0, 3.0];
    let declared = declared(&[100, 200]);
    let buf = [
        synth_record(100, OST_SPECIALITY_EQUIPMENT, flat),
        synth_record(200, OST_SPECIALITY_EQUIPMENT, solid),
    ]
    .concat();
    let records =
        find_category_records("Partitions/68", &buf, OST_SPECIALITY_EQUIPMENT, &declared);
    let volumes: Vec<(u32, bool)> = records.iter().map(|r| (r.element_id, has_volume(r))).collect();
    assert_eq!(volumes, vec![(100, false), (200, true)]);

    let mut hidden_flat = synth_record(1, OST_SPECIALITY_EQUIPMENT, flat);
    hidden_flat[0..8].fill(0xff);
    let mut hidden_solid = synth_record(1, OST_SPECIALITY_EQUIPMENT, solid);
    hidden_solid[0..8].fill(0xff);
    let buf = [nested(300, &hidden_flat), nested(301, &hidden_solid)].concat();
    assert_eq!(
        count_unattributed_frames(&buf, &[OST_SPECIALITY_EQUIPMENT], &volumed(&buf)),
        BTreeMap::from([(OST_SPECIALITY_EQUIPMENT, 1)])
    );
}

#[test]
fn unattributed_counts_need_the_frame_volume_and_the_release_marker() {
    let bbox = [0.0, 0.0, 0.0, 1.0, 1.0, 1.0];
    let mut frame = synth_record(1, OST_WALLS, bbox);
    frame[0..8].fill(0xff);
    let buf = [as_record(first_prologue(100, OST_DOORS)), nested(9001, &frame)].concat();
    let v = volumed(&buf);
    assert_eq!(
        count_unattributed_frames_with_marker(&buf, &[OST_WALLS], &BBOX_MARKER, &v),
        BTreeMap::from([(OST_WALLS, 1)])
    );
    assert!(count_unattributed_frames(&buf, &[OST_WALLS], &BTreeSet::new()).is_empty());
    assert!(count_unattributed_frames_with_marker(&buf, &[OST_WALLS], &BBOX_MARKER_2025, &v)
        .is_empty());
}

#[test]
fn unattributed_frames_are_summed_by_class_over_partitions() {
    let bbox = [0.0, 0.0, 0.0, 1.0, 1.0, 1.0];
    let hidden = |category: i64| {
        let mut f = synth_record(1, category, bbox);
        f[0..8].fill(0xff);
        f
    };
    let a = [
        as_record(first_prologue(100, OST_DOORS)),
        nested(9001, &hidden(OST_WALLS)),
        nested(9002, &hidden(OST_DOORS)),
    ]
    .concat();
    let b = [as_record(first_prologue(200, OST_DOORS)), nested(9003, &hidden(OST_WALLS))].concat();
    let partitions = vec![
        InflatedPartition { stream: "Partitions/5".to_string(), bytes: a.clone() },
        InflatedPartition { stream: "Partitions/6".to_string(), bytes: b.clone() },
    ];
    let declared_ids = declared(&[100, 200]);
    let ids = compute_second_prologue_ids(&partitions, 2024, &declared_ids);
    let vols = vec![volumed(&a), volumed(&b)];
    let got = scan_unattributed_frames(&partitions, 2024, &ids, &vols);
    assert_eq!(got, vec![("Wall".to_string(), 2), ("Door".to_string(), 1)]);
    assert!(scan_unattributed_frames(&partitions, 2023, &ids, &vols).is_empty());
}

#[test]
fn volumeless_instances_count_once_and_only_without_a_volumed_frame() {
    let flat = [0.0, 0.0, 0.0, 5.0, 5.0, 0.0];
    let solid = [0.0, 0.0, 0.0, 5.0, 5.0, 3.0];
    let declared = declared(&[100, 200, 300]);
    let buf = [
        synth_record(100, OST_SPECIALITY_EQUIPMENT, flat),
        synth_record(200, OST_SPECIALITY_EQUIPMENT, flat),
        synth_record(200, OST_SPECIALITY_EQUIPMENT, solid),
        synth_record(300, OST_FURNITURE, flat),
        synth_record(100, OST_SPECIALITY_EQUIPMENT, flat),
    ]
    .concat();
    let mut records =
        find_category_records("Partitions/68", &buf, OST_SPECIALITY_EQUIPMENT, &declared);
    records.extend(find_category_records("Partitions/68", &buf, OST_FURNITURE, &declared));
    let volumes: Vec<bool> = records.iter().map(has_volume).collect();
    let options = DesignOptions::default();
    let got = count_volumeless_instances(&records, &volumes, &options);
    assert_eq!(got, vec![("Furniture".to_string(), 1), ("SpecialtyEquipment".to_string(), 1)]);
}

/// The family-local proxy: a box centred on the plan origin, read off the
/// decoded record's box words.
fn is_family_local(r: &PartitionElementRecord) -> bool {
    let b = r.bbox_bits.map(f64::from_bits);
    (b[0] + b[3]).abs() < 1e-6 && (b[1] + b[4]).abs() < 1e-6
}

#[test]
fn family_local_bbox_is_recognised() {
    let buf = synth_record(5755, OST_COLUMNS, [-1.0, -1.0, 0.0, 1.0, 1.0, 9.0]);
    let record = decode_at("Partitions/46", &buf, 0, &declared(&[5755])).expect("decodes");
    assert!(is_family_local(&record));
}
