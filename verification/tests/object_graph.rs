use rvt_partitions::object_graph::{
    extract_string_records, string_records_from_partitions, DocumentHistory, ObjectGraphError,
};

fn utf16le(s: &str) -> Vec<u8> {
    s.encode_utf16().flat_map(|c| c.to_le_bytes()).collect()
}

#[test]
fn parses_empty_input() {
    let res = DocumentHistory::from_decompressed(&[]);
    assert!(res.is_err(), "empty input should fail");
}

#[test]
fn parses_contrived_single_entry() {
    let version_str = "Revit 2024  20230308_1635(x64)";
    let utf16 = utf16le(version_str);

    let mut buf = Vec::new();
    buf.extend(std::iter::repeat_n(0u8, 64));
    buf.extend_from_slice(&7u32.to_le_bytes());
    buf.extend_from_slice(&(version_str.chars().count() as u32).to_le_bytes());
    buf.extend_from_slice(&utf16);
    buf.extend_from_slice(&[0u8, 0u8]);

    let history = DocumentHistory::from_decompressed(&buf).unwrap();
    assert_eq!(history.entries.len(), 1);
    assert!(
        history.entries[0].starts_with("Revit 2024"),
        "got: {:?}",
        history.entries[0]
    );
}

#[test]
fn parses_multiple_entries() {
    fn push_entry(buf: &mut Vec<u8>, version: &str) {
        let utf16 = utf16le(version);
        buf.extend_from_slice(&7u32.to_le_bytes());
        buf.extend_from_slice(&(version.chars().count() as u32).to_le_bytes());
        buf.extend_from_slice(&utf16);
        buf.extend_from_slice(&[0u8, 0u8]);
        buf.extend_from_slice(&[0xff, 0xff, 0xab, 0xcd]);
    }
    let mut buf = Vec::new();
    buf.extend(std::iter::repeat_n(0u8, 64));
    push_entry(&mut buf, "Revit 2018 (Build X)");
    push_entry(&mut buf, "Revit 2024 (Build Y)");

    let history = DocumentHistory::from_decompressed(&buf).unwrap();
    assert_eq!(history.entries.len(), 2);
    assert!(history.entries[0].starts_with("Revit 2018"));
    assert!(history.entries[1].starts_with("Revit 2024"));
}

#[test]
fn history_without_marker_is_refused() {
    let buf = utf16le("Autodesk 2024");
    assert_eq!(
        DocumentHistory::from_decompressed(&buf).unwrap_err(),
        ObjectGraphError::NoVersionMarker
    );
}

#[test]
fn history_offset_trim_and_dedupe() {
    let mut buf = vec![0u8; 20];
    buf.extend(utf16le("Revit 2020/ "));
    buf.extend([0, 0]);
    buf.extend(utf16le("Revit 2020"));
    buf.extend([0x01, 0x00]);
    buf.extend(utf16le("Revit 2021"));
    let history = DocumentHistory::from_decompressed(&buf).unwrap();
    assert_eq!(history.string_section_offset, 12);
    assert_eq!(history.entries, vec!["Revit 2020".to_string(), "Revit 2021".to_string()]);
}

#[test]
fn history_offset_saturates_near_start() {
    let buf = utf16le("Revit 2019");
    let history = DocumentHistory::from_decompressed(&buf).unwrap();
    assert_eq!(history.string_section_offset, 0);
    assert_eq!(history.entries, vec!["Revit 2019".to_string()]);
}

#[test]
fn history_run_stops_after_256_units() {
    let long = format!("Revit {}", "x".repeat(300));
    let buf = utf16le(&long);
    let history = DocumentHistory::from_decompressed(&buf).unwrap();
    assert_eq!(history.entries.len(), 1);
    assert_eq!(history.entries[0].chars().count(), 256);
}

#[test]
fn string_records_are_found_and_trimmed() {
    let mut buf = vec![0xffu8; 3];
    buf.extend(7u32.to_le_bytes());
    buf.extend(5u32.to_le_bytes());
    buf.extend(utf16le("A100\t"));
    buf.extend(1u32.to_le_bytes());
    buf.extend(7u32.to_le_bytes());
    buf.extend(utf16le("Level 1"));
    let records = extract_string_records(&buf);
    assert_eq!(records.len(), 2);
    assert_eq!(records[0].offset, 3);
    assert_eq!(records[0].tag, 7);
    assert_eq!(records[0].value, "A100");
    assert_eq!(records[1].offset, 21);
    assert_eq!(records[1].tag, 1);
    assert_eq!(records[1].value, "Level 1");
}

#[test]
fn string_records_reject_control_characters() {
    let mut buf = Vec::new();
    buf.extend(7u32.to_le_bytes());
    buf.extend(1u32.to_le_bytes());
    buf.extend([0x01, 0x00]);
    buf.extend([0u8; 4]);
    let records = extract_string_records(&buf);
    assert!(records.is_empty());
}

#[test]
fn string_records_from_joined_chunks() {
    let mut first = Vec::new();
    first.extend(2u32.to_le_bytes());
    first.extend(3u32.to_le_bytes());
    first.extend(utf16le("abc"));
    let mut second = Vec::new();
    second.extend(9u32.to_le_bytes());
    second.extend(2u32.to_le_bytes());
    second.extend(utf16le("de"));
    let records = string_records_from_partitions(&[first.clone(), second]);
    assert_eq!(records.len(), 2);
    assert_eq!(records[0].value, "abc");
    assert_eq!(records[1].offset, first.len() + 16);
    assert_eq!(records[1].tag, 9);
    assert_eq!(records[1].value, "de");
}
