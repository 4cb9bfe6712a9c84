use rvt_partitions::partition_names::{
    named_ids_in, resolve_family, resolve_type, unique_entries, ElementNames, NameEntry,
};
use std::collections::{BTreeMap, BTreeSet};

const PANELS: i64 = -2_000_170;

#[test]
fn disagreeing_entries_for_one_id_are_dropped() {
    let a = NameEntry { element_id: 5, name: "A".into(), builtin_category: PANELS };
    let b = NameEntry { name: "B".into(), ..a.clone() };
    let c = NameEntry { element_id: 6, ..a.clone() };
    let unique = unique_entries(vec![a.clone(), a.clone(), b, c.clone()]);
    assert_eq!(unique.into_values().collect::<Vec<_>>(), vec![c]);
}

#[test]
fn type_and_family_resolve_only_when_unique() {
    let entry = |id, name: &str, category| {
        (id, NameEntry { element_id: id, name: name.into(), builtin_category: category })
    };
    let names = ElementNames {
        entries: BTreeMap::from([
            entry(100, "Single-Flush", -2_000_023),
            entry(101, "36\" x 84\"", -2_000_023),
            entry(102, "30\" x 84\"", -2_000_023),
            entry(103, "Bi-Fold", -2_000_023),
            entry(200, "Wall type", -2_000_011),
        ]),
        type_family_candidates: BTreeMap::from([
            (101, BTreeSet::from([100])),
            (102, BTreeSet::from([100, 103])),
        ]),
    };
    assert_eq!(resolve_type(&names, &[3, 101, 200, 500], -2_000_023, 500), Some(101));
    assert_eq!(resolve_type(&names, &[3, 101, 102, 500], -2_000_023, 500), None);
    assert_eq!(resolve_family(&names, 101), Some(100));
    assert_eq!(resolve_family(&names, 102), None);
}

#[test]
fn a_nesting_family_is_told_from_the_families_nested_in_it() {
    let mut names = ElementNames::default();
    let set = |ids: &[u32]| ids.iter().copied().collect::<BTreeSet<u32>>();
    names.type_family_candidates.insert(444_100, set(&[51_892, 755_868]));
    names.type_family_candidates.insert(755_868, set(&[51_892]));
    assert_eq!(resolve_family(&names, 444_100), Some(755_868));
    names.type_family_candidates.insert(21_944, set(&[21_943]));
    assert_eq!(resolve_family(&names, 21_944), Some(21_943));
    names.type_family_candidates.insert(1, set(&[10, 20]));
    names.type_family_candidates.insert(10, set(&[30]));
    assert_eq!(resolve_family(&names, 1), None);
    names.type_family_candidates.insert(2, set(&[40, 50]));
    names.type_family_candidates.insert(40, set(&[50]));
    names.type_family_candidates.insert(50, set(&[40]));
    assert_eq!(resolve_family(&names, 2), None);
}

#[test]
fn named_ids_are_found_at_any_offset_of_a_record_body() {
    let names = BTreeMap::from([(
        21943,
        NameEntry { element_id: 21943, name: "Empty System Panel".into(), builtin_category: PANELS },
    )]);
    let mut body = vec![0xffu8; 3];
    body.extend_from_slice(&21943u64.to_le_bytes());
    body.extend_from_slice(&21944u64.to_le_bytes());
    assert_eq!(named_ids_in(&body, &names, PANELS, 21944), BTreeSet::from([21943]));
}

#[test]
fn a_type_repeated_in_the_list_is_still_one_type() {
    let names = ElementNames {
        entries: BTreeMap::from([(
            101,
            NameEntry { element_id: 101, name: "T".into(), builtin_category: -2_000_023 },
        )]),
        type_family_candidates: BTreeMap::new(),
    };
    assert_eq!(resolve_type(&names, &[101, 101, 101], -2_000_023, 500), Some(101));
    assert_eq!(resolve_type(&names, &[101], -2_000_023, 101), None);
    assert_eq!(resolve_type(&names, &[101 + (1u64 << 32)], -2_000_023, 500), None);
    assert_eq!(resolve_family(&names, 7), None);
}

#[test]
fn a_family_with_no_candidates_is_none() {
    let mut names = ElementNames::default();
    names.type_family_candidates.insert(9, BTreeSet::new());
    assert_eq!(resolve_family(&names, 9), None);
}

use rvt_partitions::partition_names::{compute_element_names, find_name_entries};
use rvt_partitions::partitions::InflatedPartition;

fn entry_bytes(id: u32, name: &str, category: i64) -> Vec<u8> {
    let units: Vec<u16> = name.encode_utf16().collect();
    let mut out = u64::from(id).to_le_bytes().to_vec();
    out.extend_from_slice(&(units.len() as u32).to_le_bytes());
    for unit in units {
        out.extend_from_slice(&unit.to_le_bytes());
    }
    out.extend_from_slice(&(category as u64).to_le_bytes());
    out
}

#[test]
fn a_name_entry_decodes_between_filler() {
    let declared: BTreeSet<u32> = [21944, 21943].into_iter().collect();
    let buf = [
        vec![0xff; 20],
        entry_bytes(21944, "Empty", PANELS),
        vec![0u8; 7],
        entry_bytes(21943, "Empty System Panel", PANELS),
        vec![0xff; 9],
    ]
    .concat();
    let found = find_name_entries(&buf, &declared);
    let names: Vec<(u32, &str)> = found.iter().map(|e| (e.element_id, e.name.as_str())).collect();
    assert_eq!(names, vec![(21944, "Empty"), (21943, "Empty System Panel")]);
    assert!(found.iter().all(|e| e.builtin_category == PANELS));
}

#[test]
fn an_undeclared_id_or_a_category_outside_the_band_is_not_an_entry() {
    let declared: BTreeSet<u32> = [7].into_iter().collect();
    let buf = [entry_bytes(8, "Undeclared", PANELS), entry_bytes(7, "Not a category", -5)].concat();
    assert!(find_name_entries(&buf, &declared).is_empty());
}

#[test]
fn a_non_ascii_name_decodes_and_a_control_character_does_not() {
    let declared: BTreeSet<u32> = [1, 2].into_iter().collect();
    let buf = [
        entry_bytes(1, "Porta simples 0,90 × 2,10", -2_000_023),
        entry_bytes(2, "bad\u{7}name", -2_000_023),
    ]
    .concat();
    let found = find_name_entries(&buf, &declared);
    assert_eq!(found.len(), 1);
    assert_eq!(found[0].name, "Porta simples 0,90 × 2,10");
}

/// A partition record of `id` whose body holds `body`, for Revit 2024.
fn record(id: u64, body: &[u8]) -> Vec<u8> {
    let size = 16 + body.len();
    let mut out = id.to_le_bytes().to_vec();
    out.extend_from_slice(&(size as u32).to_le_bytes());
    out.extend_from_slice(&0x059fu16.to_le_bytes());
    out.extend_from_slice(&[0u8; 2]);
    out.extend_from_slice(body);
    out.extend_from_slice(&[0u8; 8]);
    out.extend_from_slice(&0u32.to_le_bytes());
    out.extend_from_slice(&(size as u32).to_le_bytes());
    out
}

#[test]
fn a_type_record_names_its_family_candidates() {
    let doors = -2_000_023;
    let mut body = vec![0u8; 4];
    body.extend_from_slice(&100u64.to_le_bytes());
    body.extend_from_slice(&200u64.to_le_bytes());
    let mut bytes = record(101, &body);
    bytes.extend(vec![0u8; 32]);
    bytes.extend(entry_bytes(100, "Single-Flush", doors));
    bytes.extend(vec![0u8; 3]);
    bytes.extend(entry_bytes(101, "36 x 84", doors));
    bytes.extend(vec![0u8; 3]);
    bytes.extend(entry_bytes(200, "Wall type", -2_000_011));
    let parts = vec![InflatedPartition { stream: "Partitions/1".into(), bytes }];
    let declared: BTreeSet<u32> = [100, 101, 200].into_iter().collect();
    let names = compute_element_names(&parts, 2024, &declared);
    assert_eq!(names.entries.len(), 3);
    assert_eq!(names.entries[&101].name, "36 x 84");
    assert_eq!(names.type_family_candidates.get(&101), Some(&BTreeSet::from([100])));
    assert_eq!(resolve_family(&names, 101), Some(100));
    let none = compute_element_names(&parts, 2023, &declared);
    assert!(none.entries.is_empty() && none.type_family_candidates.is_empty());
}
