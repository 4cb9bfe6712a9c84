use rvt_partitions::partition_name_candidates::{
    building_storey_name_candidates, classify_name, classify_name_given, collect_name_candidates,
    is_building_storey_name, is_display_name, is_display_name_given, NameBucket,
};

#[test]
fn classifies_known_material_and_level_names() {
    assert_eq!(classify_name("Concrete"), Some(NameBucket::MaterialLike));
    assert_eq!(classify_name("Level 1"), Some(NameBucket::LevelLike));
    assert_eq!(classify_name("Lobby"), Some(NameBucket::SpaceLike));
}

#[test]
fn rejects_forge_and_asset_paths() {
    assert!(classify_name("autodesk.unit.unit:meters-1.0.0").is_none());
    assert!(classify_name("Mats/Hardwood/Generic.xml").is_none());
}

#[test]
fn building_storey_filter_keeps_level_and_roof() {
    assert!(is_building_storey_name("Level 1"));
    assert!(is_building_storey_name("Roof"));
    assert!(is_building_storey_name("Ground floor"));
    assert!(!is_building_storey_name("Level Head - Upgrade"));
    assert!(!is_building_storey_name("Level 3 - Wall Layouts 1"));
}

#[test]
fn display_names_need_a_letter_and_a_sane_length() {
    assert!(is_display_name("  Lobby  "));
    assert!(!is_display_name("A"));
    assert!(!is_display_name("12.5 / 3"));
    assert!(!is_display_name(&"x".repeat(81)));
    assert!(!is_display_name("http://example.com/a"));
    assert!(!is_display_name("OmniClass 23-13"));
    assert!(!is_display_name("0123456789abcdef0123456789abcdef"));
    assert!(is_display_name("Étage"));
}

#[test]
fn the_letter_test_can_be_supplied() {
    assert!(!is_display_name_given("Lobby", false));
    assert!(is_display_name_given("Lobby", true));
    assert_eq!(classify_name_given("Roof", true), Some(NameBucket::LevelLike));
    assert_eq!(classify_name_given("Roof", false), None);
}

#[test]
fn space_names_are_limited_in_length() {
    let long = format!("Office {}", "x".repeat(45));
    assert_eq!(classify_name(&long), None);
    assert_eq!(classify_name("Office 12"), Some(NameBucket::SpaceLike));
    assert_eq!(classify_name("Hardwood flooring"), Some(NameBucket::MaterialLike));
    assert_eq!(classify_name("Mats/Wood/Oak.xml"), None);
}

#[test]
fn candidates_are_unique_trimmed_and_ordered() {
    let got = collect_name_candidates(&[" Roof ", "Lobby", "Concrete", "Roof", "Brick", "xx"]);
    assert_eq!(
        got,
        vec![
            (NameBucket::MaterialLike, "Brick".to_string()),
            (NameBucket::MaterialLike, "Concrete".to_string()),
            (NameBucket::LevelLike, "Roof".to_string()),
            (NameBucket::SpaceLike, "Lobby".to_string()),
        ]
    );
}

#[test]
fn storey_candidates_are_sorted_level_names() {
    let got = building_storey_name_candidates(&[
        "Level 2",
        "Level 10",
        "Roof",
        "Level 2",
        "Level Head - Upgrade",
        "Concrete",
        "Level 1",
    ]);
    assert_eq!(got, vec!["Level 1", "Level 10", "Level 2", "Roof"]);
}

#[test]
fn level_followed_by_digits_only_is_a_storey() {
    assert!(is_building_storey_name(" LEVEL 12 "));
    assert!(!is_building_storey_name("Level "));
    assert!(!is_building_storey_name("Level 1a"));
    assert!(is_building_storey_name("Third Floor"));
    assert!(!is_building_storey_name(""));
}
