use rvt_partitions::partition_element_records::{
    PartitionRecordSpan, CONTAINER_NONE, PLACEMENT_KIND_INSTANCE, PLACEMENT_KIND_SYMBOL,
};
use rvt_partitions::partition_level_records::{
    decode_record_at_with, owned_level_ids, scan_level_objects, scan_partition_level_ids,
    OWNER_OFFSET_BEFORE_NAME,
};
use rvt_partitions::partitions::InflatedPartition;
use rvt_partitions::partition_level_records::{
    decode_record_at, elevation_marker, find_level_records, record_marker,
    supports_revit_version, ELEVATION_MARKER, OST_LEVELS, RECORD_MARKER, RECORD_MARKER_OFFSET,
    RECORD_MIN_LEN,
};
use rvt_partitions::bytes::find_from;
use rvt_partitions::partition_level_records::{
    decode_name_block_at, decode_name_block_at_with, find_name_blocks, levels_from_records_and_blocks,
    recovered_levels_are_a_storey_set, scan_partition_levels, NameElevationBlock, PartitionLevel,
    ELEVATION_CONFIRM_STRIDE, ELEVATION_OFFSET_AFTER_MARKER, LENGTH_PREFIX_OFFSET_BEFORE_NAME,
    OWNER_SENTINEL_RUN_LEN,
};
use std::collections::BTreeSet;

fn declared(ids: &[u32]) -> BTreeSet<u32> {
    ids.iter().copied().collect()
}

fn synth_record(element_id: u32, container: u64, placement_kind: u32) -> Vec<u8> {
    let mut buf = vec![0xffu8; RECORD_MIN_LEN];
    buf[0..8].copy_from_slice(&u64::from(element_id).to_le_bytes());
    buf[8..12].copy_from_slice(&0x87u32.to_le_bytes());
    buf[12..16].copy_from_slice(&0x059fu32.to_le_bytes());
    buf[16..18].copy_from_slice(&0u16.to_le_bytes());
    buf[0x12..0x1a].copy_from_slice(&(OST_LEVELS as u64).to_le_bytes());
    buf[0x32..0x3a].copy_from_slice(&container.to_le_bytes());
    buf[0x42..0x46].copy_from_slice(&placement_kind.to_le_bytes());
    buf[RECORD_MARKER_OFFSET..RECORD_MARKER_OFFSET + RECORD_MARKER.len()]
        .copy_from_slice(&RECORD_MARKER);
    buf[RECORD_MARKER_OFFSET + RECORD_MARKER.len()..RECORD_MARKER_OFFSET + RECORD_MARKER.len() + 2]
        .copy_from_slice(&2u16.to_le_bytes());
    buf
}

#[test]
fn decodes_a_standalone_level_record() {
    let buf = synth_record(20268, CONTAINER_NONE, PLACEMENT_KIND_INSTANCE);
    let record = decode_record_at("Partitions/46", &buf, 0, &declared(&[20268])).expect("decodes");
    assert_eq!(record.element_id, 20268);
    assert_eq!(record.flags, 0x87);
    assert!(!record.is_container_member());
    assert!(record.is_placed_instance());
    assert!(record.is_level_element());
}

#[test]
fn a_container_member_or_symbol_is_not_a_level_element() {
    let member = synth_record(16230, 16_229, PLACEMENT_KIND_INSTANCE);
    let record =
        decode_record_at("Partitions/46", &member, 0, &declared(&[16230])).expect("decodes");
    assert!(record.is_container_member());
    assert!(!record.is_level_element());

    let symbol = synth_record(1673, CONTAINER_NONE, PLACEMENT_KIND_SYMBOL);
    let record =
        decode_record_at("Partitions/46", &symbol, 0, &declared(&[1673])).expect("decodes");
    assert!(!record.is_placed_instance());
    assert!(!record.is_level_element());
}

#[test]
fn a_record_without_the_level_marker_is_rejected() {
    let mut buf = synth_record(20268, CONTAINER_NONE, PLACEMENT_KIND_INSTANCE);
    buf[RECORD_MARKER_OFFSET] = 0x46;
    assert!(decode_record_at("Partitions/46", &buf, 0, &declared(&[20268])).is_none());
}

#[test]
fn a_record_whose_id_is_not_declared_is_rejected() {
    let buf = synth_record(20268, CONTAINER_NONE, PLACEMENT_KIND_INSTANCE);
    assert!(decode_record_at("Partitions/46", &buf, 0, &declared(&[9999])).is_none());
}

#[test]
fn scan_finds_a_record_at_any_offset() {
    let mut buf = vec![0u8; 23];
    buf.extend(synth_record(20268, CONTAINER_NONE, PLACEMENT_KIND_INSTANCE));
    let found = find_level_records("Partitions/46", &buf, &declared(&[20268]));
    assert_eq!(found.len(), 1);
    assert_eq!(found[0].offset, 23);
}

#[test]
fn scan_matches_decoding_at_every_offset() {
    let mut buf = vec![0u8; 5];
    buf.extend(synth_record(20268, CONTAINER_NONE, PLACEMENT_KIND_INSTANCE));
    buf.extend(vec![0u8; 3]);
    buf.extend(synth_record(20269, CONTAINER_NONE, PLACEMENT_KIND_INSTANCE));
    let ids = declared(&[20268, 20269]);
    let found = find_level_records("Partitions/46", &buf, &ids);
    let every: Vec<_> = (0..buf.len())
        .filter_map(|o| decode_record_at("Partitions/46", &buf, o, &ids))
        .collect();
    assert_eq!(found.len(), 2);
    let keys = |v: &Vec<_>| -> Vec<(usize, u32)> {
        v.iter().map(|r: &rvt_partitions::partition_level_records::PartitionLevelRecord| (r.offset, r.element_id)).collect()
    };
    assert_eq!(keys(&found), keys(&every));
    assert_eq!(keys(&found), vec![(5, 20268), (5 + synth_record(1, 0, 0).len() + 3, 20269)]);
}

#[test]
fn partition_level_records_unsupported_release_yields_nothing() {
    assert!(!supports_revit_version(2023));
    assert!(supports_revit_version(2024));
    assert!(supports_revit_version(2025));
    assert!(elevation_marker(2023).is_none() && record_marker(2023).is_none());
}

#[test]
fn markers_follow_the_release() {
    assert_eq!(record_marker(2024), Some(RECORD_MARKER));
    assert_eq!(record_marker(2025), Some([0xff, 0xff, 0xff, 0xff, 0xd3, 0x05]));
    assert_eq!(elevation_marker(2024).unwrap()[..], ELEVATION_MARKER[..6]);
    assert_eq!(elevation_marker(2025), Some([0x05, 0x00, 0x00, 0x00, 0x5d, 0x02]));
}

#[test]
fn a_level_whose_block_names_an_owner_is_owned() {
    let name: Vec<u16> = "Ref. Level".encode_utf16().collect();
    let mut buf = vec![0xffu8; 0x120];
    let id_at = 0x20;
    buf[id_at - 4..id_at].copy_from_slice(&1u32.to_le_bytes());
    buf[id_at..id_at + 8].copy_from_slice(&1_982_117u64.to_le_bytes());
    buf[id_at + 16..id_at + 24].copy_from_slice(&1_982_107u64.to_le_bytes());
    let value = id_at + OWNER_OFFSET_BEFORE_NAME;
    buf[value - 4..value].copy_from_slice(&(name.len() as u32).to_le_bytes());
    for (i, unit) in name.iter().enumerate() {
        buf[value + 2 * i..value + 2 * i + 2].copy_from_slice(&unit.to_le_bytes());
    }
    let levels = declared(&[1_982_117, 593_147]);
    assert_eq!(owned_level_ids(&buf, &levels), declared(&[1_982_117]));
    buf[id_at + 16..id_at + 24].fill(0xff);
    assert!(owned_level_ids(&buf, &levels).is_empty());
}

#[test]
fn a_second_prologue_level_takes_its_records_id() {
    let mut buf = vec![0u8; 0x40];
    let frame = synth_record(1, CONTAINER_NONE, PLACEMENT_KIND_INSTANCE);
    let at = buf.len();
    buf.extend(frame);
    buf[at..at + 8].copy_from_slice(&u64::MAX.to_le_bytes());
    let chain = [PartitionRecordSpan {
        start: 0,
        end: buf.len(),
        element_id: 828_874,
    }];
    let record = decode_record_at_with(
        "Partitions/1",
        &buf,
        at,
        &declared(&[828_874]),
        &RECORD_MARKER,
        &chain,
    )
    .expect("decodes");
    assert_eq!(record.element_id, 828_874);
    assert!(decode_record_at("Partitions/1", &buf, at, &declared(&[828_874])).is_none());
}

#[test]
fn level_ids_are_the_standalone_placed_records() {
    let mut bytes = vec![0u8; 5];
    bytes.extend(synth_record(20268, CONTAINER_NONE, PLACEMENT_KIND_INSTANCE));
    bytes.extend(synth_record(16230, 16_229, PLACEMENT_KIND_INSTANCE));
    let partitions = vec![InflatedPartition { stream: "Partitions/46".to_string(), bytes }];
    let ids = scan_partition_level_ids(&partitions, 2024, &declared(&[20268, 16230]));
    assert_eq!(ids, declared(&[20268]));
    assert!(scan_partition_level_ids(&partitions, 2023, &declared(&[20268])).is_empty());
    assert!(scan_partition_level_ids(&partitions, 2024, &BTreeSet::new()).is_empty());
}

fn level_object(id: u64, level: u64) -> Vec<u8> {
    let mut v = vec![1u8, 0, 0, 0];
    v.extend(id.to_le_bytes());
    v.extend(level.to_le_bytes());
    v
}

#[test]
fn level_objects_name_one_level_each() {
    let mut first = level_object(500, 20268);
    first.extend(level_object(501, 20268));
    first.extend(level_object(20269, 20268));
    let mut second = level_object(500, 20268);
    second.extend(level_object(501, 20269));
    second.extend(level_object(502, 77));
    let partitions = vec![
        InflatedPartition { stream: "Partitions/1".to_string(), bytes: first },
        InflatedPartition { stream: "Partitions/2".to_string(), bytes: second },
    ];
    let found = scan_level_objects(
        &partitions,
        &declared(&[500, 501, 502, 20269]),
        &declared(&[20268, 20269]),
    );
    assert_eq!(found.into_iter().collect::<Vec<_>>(), vec![(500, 20268)]);
}

fn synth_block(owner: u64, name: &str, elevation: f64, gap: usize) -> (Vec<u8>, usize) {
    let units: Vec<u16> = name.encode_utf16().collect();
    let run_start = 64usize;
    let value = run_start + OWNER_OFFSET_BEFORE_NAME - 8;
    let end = value + units.len() * 2;
    let marker = end + gap;
    let total = marker + ELEVATION_OFFSET_AFTER_MARKER + ELEVATION_CONFIRM_STRIDE + 8 + 16;
    let mut buf = vec![0u8; total];
    buf[run_start - 8..run_start].copy_from_slice(&owner.to_le_bytes());
    for byte in buf.iter_mut().skip(run_start).take(OWNER_SENTINEL_RUN_LEN) {
        *byte = 0xff;
    }
    buf[value - LENGTH_PREFIX_OFFSET_BEFORE_NAME..value]
        .copy_from_slice(&(units.len() as u32).to_le_bytes());
    for (index, unit) in units.iter().enumerate() {
        let at = value + index * 2;
        buf[at..at + 2].copy_from_slice(&unit.to_le_bytes());
    }
    buf[marker..marker + ELEVATION_MARKER.len()].copy_from_slice(&ELEVATION_MARKER);
    let first = marker + ELEVATION_OFFSET_AFTER_MARKER;
    buf[first..first + 8].copy_from_slice(&elevation.to_le_bytes());
    let second = first + ELEVATION_CONFIRM_STRIDE;
    buf[second..second + 8].copy_from_slice(&elevation.to_le_bytes());
    (buf, run_start)
}

fn feet(bits: u64) -> f64 {
    f64::from_bits(bits)
}

#[test]
fn decodes_a_well_formed_name_block() {
    let (buf, run) = synth_block(20273, "Basement 2", -40.0, 347);
    let block = decode_name_block_at(&buf, run, &declared(&[20273])).expect("decodes");
    assert_eq!(block.element_id, 20273);
    assert_eq!(block.name, "Basement 2");
    assert_eq!(feet(block.elevation_bits), -40.0);
}

#[test]
fn the_gap_between_the_name_and_the_marker_is_not_fixed() {
    let (buf, run) = synth_block(65128, "Level 13", 185.5, 363);
    let block = decode_name_block_at(&buf, run, &declared(&[65128])).expect("decodes");
    assert_eq!(feet(block.elevation_bits), 185.5);
}

#[test]
fn disagreeing_elevation_copies_are_rejected() {
    let (mut buf, run) = synth_block(20272, "Basement 1", -20.0, 347);
    let end = run + OWNER_OFFSET_BEFORE_NAME - 8 + 2 * "Basement 1".len();
    let marker = end + 347;
    let second = marker + ELEVATION_OFFSET_AFTER_MARKER + ELEVATION_CONFIRM_STRIDE;
    buf[second..second + 8].copy_from_slice(&0.0f64.to_le_bytes());
    assert!(decode_name_block_at(&buf, run, &declared(&[20272])).is_none());
}

#[test]
fn an_owner_absent_from_elem_table_is_rejected() {
    let (buf, run) = synth_block(20273, "Basement 2", -40.0, 347);
    assert!(decode_name_block_at(&buf, run, &declared(&[9999])).is_none());
}

#[test]
fn a_block_with_no_elevation_marker_is_rejected() {
    let (mut buf, run) = synth_block(20273, "Basement 2", -40.0, 347);
    let end = run + OWNER_OFFSET_BEFORE_NAME - 8 + 2 * "Basement 2".len();
    buf[end + 347] = 0x06;
    assert!(decode_name_block_at(&buf, run, &declared(&[20273])).is_none());
}

#[test]
fn the_scan_finds_a_block_and_the_join_keeps_only_level_owners() {
    let (buf, _) = synth_block(20273, "Basement 2", -40.0, 347);
    let blocks = find_name_blocks(&buf, &declared(&[20273]));
    assert_eq!(blocks.len(), 1);

    let records = vec![decode_record_at(
        "Partitions/46",
        &synth_record(20273, CONTAINER_NONE, PLACEMENT_KIND_INSTANCE),
        0,
        &declared(&[20273]),
    )
    .expect("decodes")];
    let levels = levels_from_records_and_blocks(&records, blocks.clone());
    assert_eq!(levels.len(), 1);
    assert_eq!(levels[0].name, "Basement 2");

    let members = vec![decode_record_at(
        "Partitions/46",
        &synth_record(20273, 21_920, PLACEMENT_KIND_INSTANCE),
        0,
        &declared(&[20273]),
    )
    .expect("decodes")];
    assert!(levels_from_records_and_blocks(&members, blocks).is_empty());
}

#[test]
fn a_level_naming_two_different_elevations_is_dropped() {
    let records = vec![decode_record_at(
        "Partitions/46",
        &synth_record(20273, CONTAINER_NONE, PLACEMENT_KIND_INSTANCE),
        0,
        &declared(&[20273]),
    )
    .expect("decodes")];
    let block = |elevation: f64| NameElevationBlock {
        element_id: 20273,
        name: "Basement 2".into(),
        elevation_bits: elevation.to_bits(),
    };
    assert!(levels_from_records_and_blocks(&records, vec![block(-40.0), block(-20.0)]).is_empty());
    assert_eq!(levels_from_records_and_blocks(&records, vec![block(-40.0), block(-40.0)]).len(), 1);
}

#[test]
fn a_partial_or_degenerate_recovery_is_not_a_storey_set() {
    let record = |id: u32| {
        decode_record_at(
            "Partitions/46",
            &synth_record(id, CONTAINER_NONE, PLACEMENT_KIND_INSTANCE),
            0,
            &declared(&[id]),
        )
        .expect("decodes")
    };
    let records = vec![record(20268), record(20272), record(20273)];
    let level = |id: u32, elevation: f64| PartitionLevel {
        element_id: id,
        name: format!("L{id}"),
        elevation_bits: elevation.to_bits(),
    };
    assert!(!recovered_levels_are_a_storey_set(&records, &[level(20268, 0.0), level(20272, -20.0)]));
    assert!(!recovered_levels_are_a_storey_set(
        &records,
        &[level(20268, 0.0), level(20272, 0.0), level(20273, -40.0)]
    ));
    assert!(recovered_levels_are_a_storey_set(
        &records,
        &[level(20268, 0.0), level(20272, -20.0), level(20273, -40.0)]
    ));
}

fn snowdon_block(owner: u64, name: &str, elevation: f64, lead_in: [u8; 24]) -> (Vec<u8>, usize) {
    let (mut buf, run_start) = synth_block(owner, name, elevation, 13);
    let value = run_start + OWNER_OFFSET_BEFORE_NAME - 8;
    let marker = value + name.encode_utf16().count() * 2 + 13;
    buf.resize(marker + 400, 0);
    buf[marker + 6..marker + 14].copy_from_slice(&(-90.00212f64).to_le_bytes());
    let first = marker + ELEVATION_OFFSET_AFTER_MARKER;
    buf[first - 24..first].copy_from_slice(&lead_in);
    let core_copy = first + ELEVATION_CONFIRM_STRIDE;
    buf[core_copy..core_copy + 8].fill(0);
    let copy = first + 161;
    buf[copy - 24..copy].copy_from_slice(&lead_in);
    buf[copy..copy + 8].copy_from_slice(&elevation.to_le_bytes());
    (buf, run_start)
}

#[test]
fn the_confirming_copy_is_found_by_its_lead_in() {
    let lead_in = [
        0x79, 0x51, 0xe6, 0xcc, 0x7f, 0x5c, 0x40, 0x01, 0, 0, 0, 0, 0, 0, 0, 0, 0x85, 0xc5, 0x2a,
        0x15, 0xa0, 0xf7, 0x41, 0x3d,
    ];
    let (buf, run_start) = snowdon_block(593147, "L3", 18.833333333333, lead_in);
    let marker = elevation_marker(2024).unwrap();
    let block = decode_name_block_at_with(&buf, run_start, &declared(&[593147]), &marker)
        .expect("decodes");
    assert_eq!(block.name, "L3");
    assert_eq!(feet(block.elevation_bits), 18.833333333333);
    assert!(find_from(&buf, 0, &ELEVATION_MARKER).is_none());
    assert_eq!(decode_name_block_at(&buf, run_start, &declared(&[593147])), Some(block));
}

#[test]
fn a_copy_behind_other_bytes_does_not_confirm() {
    let lead_in = [7u8; 24];
    let (mut buf, run_start) = snowdon_block(593147, "L3", 18.833333333333, lead_in);
    let value = run_start + OWNER_OFFSET_BEFORE_NAME - 8;
    let copy = value + 4 + 13 + ELEVATION_OFFSET_AFTER_MARKER + 161;
    buf[copy - 1] = 8;
    let marker = elevation_marker(2024).unwrap();
    assert!(decode_name_block_at_with(&buf, run_start, &declared(&[593147]), &marker).is_none());
}

#[test]
fn levels_come_out_in_storey_order() {
    let ids = [30u32, 10, 20];
    let records: Vec<_> = ids
        .iter()
        .map(|&id| {
            decode_record_at(
                "Partitions/46",
                &synth_record(id, CONTAINER_NONE, PLACEMENT_KIND_INSTANCE),
                0,
                &declared(&[id]),
            )
            .unwrap()
        })
        .collect();
    let block = |id: u32, e: f64| NameElevationBlock {
        element_id: id,
        name: format!("L{id}"),
        elevation_bits: e.to_bits(),
    };
    let levels = levels_from_records_and_blocks(
        &records,
        vec![block(30, 12.0), block(10, -0.0), block(20, 0.0), block(99, -5.0)],
    );
    let got: Vec<(u32, f64)> = levels.iter().map(|l| (l.element_id, feet(l.elevation_bits))).collect();
    assert_eq!(got, vec![(10, 0.0), (20, 0.0), (30, 12.0)]);
    assert!(recovered_levels_are_a_storey_set(&records, &levels));
}

#[test]
fn a_scan_keeps_a_storey_set_and_refuses_a_partial_one() {
    let mut bytes = Vec::new();
    for (id, name, e) in [(20268u64, "Level 1", 0.0), (20272, "Basement 1", -20.0)] {
        let (b, _) = synth_block(id, name, e, 40);
        bytes.extend(b);
    }
    bytes.extend(synth_record(20268, CONTAINER_NONE, PLACEMENT_KIND_INSTANCE));
    bytes.extend(vec![0u8; 8]);
    bytes.extend(synth_record(20272, CONTAINER_NONE, PLACEMENT_KIND_INSTANCE));
    let parts = vec![InflatedPartition { stream: "Partitions/46".to_string(), bytes: bytes.clone() }];
    let ids = declared(&[20268, 20272]);
    let levels = scan_partition_levels(&parts, 2024, &ids);
    let got: Vec<(u32, String)> = levels.iter().map(|l| (l.element_id, l.name.clone())).collect();
    assert_eq!(got, vec![(20272, "Basement 1".to_string()), (20268, "Level 1".to_string())]);
    assert!(scan_partition_levels(&parts, 2023, &ids).is_empty());
    let mut partial = bytes;
    partial.extend(vec![0u8; 8]);
    partial.extend(synth_record(20273, CONTAINER_NONE, PLACEMENT_KIND_INSTANCE));
    let parts = vec![InflatedPartition { stream: "Partitions/46".to_string(), bytes: partial }];
    assert!(scan_partition_levels(&parts, 2024, &declared(&[20268, 20272, 20273])).is_empty());
}
