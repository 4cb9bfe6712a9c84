use rvt_partitions::partition_materials::{
    material_name_end_tag, material_name_frame_tag, material_object_tag, name_at,
    scan_material_names, MATERIAL_TAG_OFFSET, NAME_PARAMETER, appearance_at,
    scan_material_appearances, MaterialAppearance,
};
use rvt_partitions::partitions::InflatedPartition;
use std::collections::BTreeSet;

fn counted(name: &str) -> Vec<u8> {
    let units: Vec<u16> = name.encode_utf16().collect();
    let mut v = (units.len() as u32).to_le_bytes().to_vec();
    for u in units {
        v.extend(u.to_le_bytes());
    }
    v
}

/// `01 00 00 00 · u64 id`, the class tag at its offset past the id, then
/// `field`.
fn material(id: u64, tag: [u8; 2], field: &[u8]) -> Vec<u8> {
    let mut v = vec![1u8, 0, 0, 0];
    v.extend(id.to_le_bytes());
    v.resize(4 + MATERIAL_TAG_OFFSET, 0);
    v.extend(tag);
    v.extend(field);
    v
}

fn own_field(name: &str) -> Vec<u8> {
    let mut f = vec![0u8; 8];
    f.extend(counted(name));
    f
}

#[test]
fn material_tags_per_release() {
    assert_eq!(material_object_tag(2024), Some([0x28, 0x0a]));
    assert_eq!(material_object_tag(2025), Some([0x6b, 0x0a]));
    assert_eq!(material_object_tag(2023), None);
    assert_eq!(material_name_frame_tag(2025), Some([0x5c, 0x01]));
    assert_eq!(material_name_end_tag(2024), Some([0x17, 0x0c]));
    assert_eq!(material_name_end_tag(2026), None);
}

#[test]
fn own_name_field_is_read_first() {
    let buf = material(7, [0x28, 0x0a], &own_field("Concrete"));
    assert_eq!(name_at(&buf, 4, 2024), Some("Concrete".to_string()));
}

#[test]
fn a_parameter_entry_is_not_an_own_name() {
    let mut field = vec![0u8; 8];
    field.extend(3u32.to_le_bytes());
    field.extend((-1_001_500i64).to_le_bytes());
    let buf = material(7, [0x28, 0x0a], &field);
    assert_eq!(name_at(&buf, 4, 2024), None);
}

#[test]
fn terminated_name_is_found_from_its_end() {
    let mut field = vec![5u8, 0, 0, 0, 9, 9];
    field.extend(counted("Oak"));
    field.extend([0xff, 0xff, 0xff, 0xff, 0x17, 0x0c]);
    let buf = material(7, [0x28, 0x0a], &field);
    assert_eq!(name_at(&buf, 4, 2024), Some("Oak".to_string()));
}

#[test]
fn framed_name_on_2025() {
    let mut field = vec![5u8, 0, 0, 0];
    field.extend([0xff, 0xff, 0xff, 0xff, 0x5c, 0x01]);
    field.extend(counted("Glass"));
    let buf = material(7, [0x6b, 0x0a], &field);
    assert_eq!(name_at(&buf, 4, 2025), Some("Glass".to_string()));
}

#[test]
fn name_parameter_entry_is_the_last_resort() {
    let mut field = vec![5u8, 0, 0, 0];
    field.extend(NAME_PARAMETER.to_le_bytes());
    field.extend([0, 0, 0, 0]);
    field.extend(counted("Steel"));
    let buf = material(7, [0x28, 0x0a], &field);
    assert_eq!(name_at(&buf, 4, 2023), Some("Steel".to_string()));
}

#[test]
fn control_characters_make_no_name() {
    let buf = material(7, [0x28, 0x0a], &own_field("a\u{1}b"));
    assert_eq!(name_at(&buf, 4, 2024), None);
    assert_eq!(name_at(&buf, buf.len() + 1, 2024), None);
}

#[test]
fn scan_drops_disagreeing_and_shared_names() {
    let tag = [0x28, 0x0a];
    let mut first = Vec::new();
    first.extend(material(10, tag, &own_field("Brick")));
    first.extend(material(12, tag, &own_field("Glass")));
    first.extend(material(13, tag, &own_field("Alpha")));
    first.extend(material(99, tag, &own_field("Undeclared")));
    let mut second = Vec::new();
    second.extend(material(11, tag, &own_field("Brick")));
    second.extend(material(12, tag, &own_field("Glass")));
    second.extend(material(13, tag, &own_field("Beta")));
    second.extend(material(14, [0x6b, 0x0a], &own_field("Wrong tag")));
    let partitions = vec![
        InflatedPartition { stream: "Partitions/1".to_string(), bytes: first },
        InflatedPartition { stream: "Partitions/2".to_string(), bytes: second },
    ];
    let declared: BTreeSet<u32> = [10, 11, 12, 13, 14].into_iter().collect();
    let names = scan_material_names(&partitions, 2024, &declared);
    assert_eq!(names.len(), 1);
    assert_eq!(names.get(&12).map(String::as_str), Some("Glass"));
    assert!(scan_material_names(&partitions, 2023, &declared).is_empty());
}

/// A shading frame whose colour starts 32 bytes in: eight `ff`, the
/// transparency and a second fraction, the COLORREFs with zero high bytes,
/// the colour and the shininess.
fn shading(rgb: [u8; 3], transparency: f32, second: f32, shininess: u32) -> Vec<u8> {
    let mut v = vec![0xffu8; 8];
    v.extend(transparency.to_bits().to_le_bytes());
    v.extend(second.to_bits().to_le_bytes());
    v.extend([0u8; 16]);
    v.extend([rgb[0], rgb[1], rgb[2], 0]);
    v.extend(shininess.to_le_bytes());
    v.extend([0u8; 8]);
    v
}

fn appearance(rgb: [u8; 3], transparency: f32, shininess: u32) -> MaterialAppearance {
    MaterialAppearance { rgb, transparency_bits: transparency.to_bits(), shininess }
}

#[test]
fn a_shading_frame_gives_colour_transparency_and_shininess() {
    let mut buf = vec![0u8; 48];
    buf.extend(shading([0x80, 0x40, 0x20], 0.75, 0.5, 64));
    let got = appearance_at(&buf, 0).expect("a frame");
    assert_eq!(got, appearance([0x80, 0x40, 0x20], 0.75, 64));
    assert_eq!(got.color_packed(), 0x0020_4080);
}

#[test]
fn implausible_fractions_and_set_high_bytes_are_not_frames() {
    let mut sub = vec![0u8; 48];
    sub.extend(shading([1, 2, 3], 1.0e-40, 0.5, 1));
    assert_eq!(appearance_at(&sub, 0), None);
    let mut big = vec![0u8; 48];
    big.extend(shading([1, 2, 3], 1.5, 0.5, 1));
    assert_eq!(appearance_at(&big, 0), None);
    let mut high = vec![0u8; 48];
    high.extend(shading([1, 2, 3], 0.0, 1.0, 1));
    high[48 + 32 + 3] = 7;
    assert_eq!(appearance_at(&high, 0), None);
    let mut ok = vec![0u8; 48];
    ok.extend(shading([1, 2, 3], -0.0, 1.0, 1));
    assert_eq!(appearance_at(&ok, 0), Some(appearance([1, 2, 3], -0.0, 1)));
}

#[test]
fn appearances_collapse_per_material() {
    let tag = material_object_tag(2024).unwrap();
    let with = |id: u64, rgb: [u8; 3], t: f32| {
        let mut v = material(id, tag, &[]);
        v.resize(80, 0);
        v.extend(shading(rgb, t, 0.5, 10));
        v
    };
    let mut bytes = with(5, [1, 1, 1], 0.0);
    bytes.extend(with(6, [2, 2, 2], 0.0));
    bytes.extend(with(6, [3, 3, 3], 0.0));
    bytes.extend(with(5, [1, 1, 1], -0.0));
    bytes.extend(with(7, [4, 4, 4], 0.0));
    let parts = vec![InflatedPartition { stream: "Partitions/5".to_string(), bytes }];
    let declared: BTreeSet<u32> = [5, 6].into_iter().collect();
    let got = scan_material_appearances(&parts, 2024, &declared);
    assert_eq!(got.keys().copied().collect::<Vec<_>>(), vec![5]);
    assert_eq!(got[&5].rgb, [1, 1, 1]);
    assert!(scan_material_appearances(&parts, 2023, &declared).is_empty());
}
