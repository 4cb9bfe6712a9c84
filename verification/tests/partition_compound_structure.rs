use rvt_partitions::partition_compound_structure::{
    find_layers, layer_frame_tag, layers_at, scan_type_layers, scan_wall_join_partners,
    scan_wall_orientations, wall_join_lists, CompoundLayer, WallOrientation, WALL_FLIP_ANCHOR,
    WALL_JOIN_LIST_WORD,
};
use rvt_partitions::partitions::InflatedPartition;
use std::collections::BTreeSet;

const HEADER: [u8; 10] = [0x11, 0x22, 0x33, 0x44, 0x55, 0x66, 0x77, 0x88, 0x99, 0x10];

fn set(ids: &[u32]) -> BTreeSet<u32> {
    ids.iter().copied().collect()
}

fn join_list(tag: u32, ids: &[u64]) -> Vec<u8> {
    let mut v = WALL_JOIN_LIST_WORD.to_vec();
    v.extend(tag.to_le_bytes());
    v.extend(2u32.to_le_bytes());
    v.extend((ids.len() as u32).to_le_bytes());
    for id in ids {
        v.extend(0u32.to_le_bytes());
        v.extend(id.to_le_bytes());
        v.extend(0u32.to_le_bytes());
    }
    v
}

fn element(id: u64, data: &[u8]) -> Vec<u8> {
    let mut v = HEADER.to_vec();
    v.extend(id.to_le_bytes());
    v.extend(data);
    v
}

fn partition(bytes: Vec<u8>) -> InflatedPartition {
    InflatedPartition { stream: "Partitions/5".to_string(), bytes }
}

#[test]
fn join_lists_name_only_walls() {
    let mut data = vec![0xab, 0xcd, 0xef];
    data.extend(join_list(0x33, &[5, 6]));
    data.extend(join_list(0x34, &[5, 7]));
    let lists = wall_join_lists(&data, 12, &set(&[5, 6]));
    assert_eq!(lists, vec![(0x33, vec![5, 6])]);
}

#[test]
fn join_lists_on_2025_need_a_zero_word() {
    let mut data = WALL_JOIN_LIST_WORD.to_vec();
    data.extend(0x33u32.to_le_bytes());
    data.extend(2u32.to_le_bytes());
    data.extend(0u32.to_le_bytes());
    data.extend(1u32.to_le_bytes());
    data.extend(0u32.to_le_bytes());
    data.extend(5u64.to_le_bytes());
    data.extend(0u32.to_le_bytes());
    assert_eq!(wall_join_lists(&data, 16, &set(&[5])), vec![(0x33, vec![5])]);
    data[12] = 1;
    assert!(wall_join_lists(&data, 16, &set(&[5])).is_empty());
}

#[test]
fn partners_come_from_the_one_tag() {
    let mut bytes = element(100, &join_list(9, &[101]));
    bytes.extend(element(101, &join_list(9, &[100, 101])));
    let parts = vec![partition(bytes)];
    let partners = scan_wall_join_partners(&parts, Some(HEADER), 2024, &set(&[100, 101]), &set(&[100, 101]));
    assert_eq!(partners.len(), 2);
    assert_eq!(partners[&100], set(&[101]));
    assert_eq!(partners[&101], set(&[100]));
    assert!(scan_wall_join_partners(&parts, None, 2024, &set(&[100, 101]), &set(&[100, 101])).is_empty());
    assert!(scan_wall_join_partners(&parts, Some(HEADER), 2023, &set(&[100, 101]), &set(&[100, 101])).is_empty());
}

#[test]
fn two_tags_leave_no_partners() {
    let mut bytes = element(100, &join_list(9, &[101]));
    bytes.extend(element(101, &join_list(8, &[100])));
    let parts = vec![partition(bytes)];
    assert!(scan_wall_join_partners(&parts, Some(HEADER), 2024, &set(&[100, 101]), &set(&[100, 101])).is_empty());
}

fn orientation(line: u32, word: u32, flag: u32) -> Vec<u8> {
    let mut v = WALL_FLIP_ANCHOR.to_vec();
    v.extend(line.to_le_bytes());
    v.extend(word.to_le_bytes());
    v.extend(flag.to_le_bytes());
    v
}

#[test]
fn orientations_collapse_per_wall() {
    let mut first = element(100, &orientation(2, 1, 1));
    first.extend(element(101, &orientation(0, 0, 0)));
    first.extend(element(102, &orientation(1, 0, 0)));
    let mut second = element(100, &orientation(2, 1, 1));
    second.extend(element(101, &orientation(0, 0, 1)));
    let parts = vec![partition(first), partition(second)];
    let found = scan_wall_orientations(&parts, Some(HEADER), &set(&[100, 101]));
    assert_eq!(found.len(), 1);
    assert_eq!(found[&100], WallOrientation { location_line: 2, word: 1, flip: true });
    assert!(scan_wall_orientations(&parts, None, &set(&[100])).is_empty());
}

fn layer_record(width: f64, material: u64, deck: u64, function: u32) -> Vec<u8> {
    let mut v = width.to_bits().to_le_bytes().to_vec();
    v.extend(material.to_le_bytes());
    v.extend(deck.to_le_bytes());
    v.extend(function.to_le_bytes());
    v.extend([0u8; 9]);
    v
}

fn layer_list(records: &[Vec<u8>]) -> Vec<u8> {
    let mut v = (records.len() as u32).to_le_bytes().to_vec();
    for r in records {
        v.extend(r);
    }
    v
}

fn layer(width: f64, material: Option<u32>, function: u32) -> CompoundLayer {
    CompoundLayer { width_bits: width.to_bits(), material, function }
}

#[test]
fn layer_tags_are_per_release() {
    assert_eq!(layer_frame_tag(2024), Some([0xa6, 0x10]));
    assert_eq!(layer_frame_tag(2025), Some([0x0e, 0x11]));
    assert_eq!(layer_frame_tag(2023), None);
}

#[test]
fn layers_keep_widths_materials_and_functions() {
    let buf = layer_list(&[
        layer_record(0.5, 40, u64::MAX, 1),
        layer_record(0.0, u64::MAX, u64::MAX, 100),
        layer_record(0.0625, 41, 7, 4),
    ]);
    let got = layers_at(&buf, 0, &set(&[40, 41]), &set(&[7])).unwrap();
    assert_eq!(got, vec![layer(0.5, Some(40), 1), layer(0.0, None, 100), layer(0.0625, Some(41), 4)]);
}

#[test]
fn layers_refuse_what_a_type_cannot_have() {
    let materials = set(&[40]);
    let declared = set(&[7]);
    let ok = |r: Vec<u8>| layers_at(&layer_list(&[r]), 0, &materials, &declared).is_some();
    assert!(ok(layer_record(0.5, 40, u64::MAX, 1)));
    assert!(!ok(layer_record(10.0, 40, u64::MAX, 1)));
    assert!(!ok(layer_record(0.0005, 40, u64::MAX, 1)));
    assert!(!ok(layer_record(0.0, 40, u64::MAX, 1)));
    assert!(ok(layer_record(-0.0, 40, u64::MAX, 100)));
    assert!(!ok(layer_record(f64::NAN, 40, u64::MAX, 1)));
    assert!(!ok(layer_record(0.5, 41, u64::MAX, 1)));
    assert!(!ok(layer_record(0.5, 40, 8, 1)));
    assert!(!ok(layer_record(0.5, 40, u64::MAX, 6)));
    assert!(ok(layer_record(0.5, 40, u64::MAX, 200)));
    assert!(layers_at(&0u32.to_le_bytes(), 0, &materials, &declared).is_none());
    let mut short = layer_list(&[layer_record(0.5, 40, u64::MAX, 1)]);
    short.truncate(4 + 27);
    assert!(layers_at(&short, 0, &materials, &declared).is_none());
}

#[test]
fn layers_are_found_behind_the_tag_or_a_name() {
    let materials = set(&[40]);
    let declared = BTreeSet::new();
    let list = layer_list(&[layer_record(0.25, 40, u64::MAX, 1)]);
    let mut tagged = vec![0u8; 3];
    tagged.extend([0xff, 0xff, 0xff, 0xff, 0xa6, 0x10]);
    tagged.extend(&list);
    tagged.extend([0u8; 4]);
    assert_eq!(
        find_layers(&tagged, [0xa6, 0x10], &materials, &declared),
        Some(vec![layer(0.25, Some(40), 1)])
    );
    assert_eq!(find_layers(&tagged, [0x0e, 0x11], &materials, &declared), None);

    let mut named = vec![0u8; 2];
    named.extend(1u32.to_le_bytes());
    named.extend([b'-', 0]);
    named.extend(0u32.to_le_bytes());
    named.extend(&list);
    named.extend([0u8; 4]);
    assert_eq!(
        find_layers(&named, [0x0e, 0x11], &materials, &declared),
        Some(vec![layer(0.25, Some(40), 1)])
    );
    named[6] = 0x1f;
    assert_eq!(find_layers(&named, [0x0e, 0x11], &materials, &declared), None);
}

#[test]
fn type_layers_collapse_per_type() {
    let list = |w: f64, function: u32| {
        let mut d = vec![0u8; 3];
        d.extend([0xff, 0xff, 0xff, 0xff, 0xa6, 0x10]);
        d.extend(layer_list(&[layer_record(w, u64::MAX, u64::MAX, function)]));
        d.extend([0u8; 4]);
        d
    };
    let mut bytes = element(5, &list(0.5, 1));
    bytes.extend(element(6, &list(0.5, 1)));
    bytes.extend(element(6, &list(0.25, 1)));
    bytes.extend(element(7, &list(0.0, 100)));
    bytes.extend(element(9, &list(0.75, 1)));
    bytes.extend(element(5, &list(0.5, 1)));
    let mut other = element(7, &list(-0.0, 100));
    other.extend(element(8, &list(0.0, 1)));
    let parts = vec![partition(bytes), partition(other)];
    let types = set(&[5, 6, 7, 8]);
    let none = BTreeSet::new();
    let got = scan_type_layers(&parts, Some(HEADER), 2024, &types, &none, &none);
    assert_eq!(got.keys().copied().collect::<Vec<_>>(), vec![5, 7]);
    assert_eq!(got[&5].layers, vec![layer(0.5, None, 1)]);
    assert_eq!(got[&7].layers, vec![layer(0.0, None, 100)]);
    assert!(scan_type_layers(&parts, Some(HEADER), 2023, &types, &none, &none).is_empty());
    assert!(scan_type_layers(&parts, None, 2024, &types, &none, &none).is_empty());
}
