use rvt_partitions::partition_arc_walls::{
    element_id_partition_index, ArcWallTrailer, PartitionArcWall, PartitionArcWallRef,
};
use rvt_partitions::partition_beam_axes;
use rvt_partitions::partition_compound_structure::{
    layer_frame_tag, wall_join_count_offset, wall_orientation, WallOrientation, WALL_FLIP_ANCHOR,
};
use rvt_partitions::partition_materials::{
    material_name_end_tag, material_name_frame_tag, material_object_tag,
};

fn wall(partition: &str, offset: usize, id: Option<u32>) -> PartitionArcWall {
    PartitionArcWall {
        partition: partition.into(),
        offset,
        trailer: Some(ArcWallTrailer { element_id: id, type_id: Some(0x217a) }),
    }
}

#[test]
fn element_id_index_maps_validated_trailer_ids() {
    let w = wall("Partitions/5", 100, Some(0x1c79));
    assert_eq!(w.element_id(), Some(0x1c79));
    assert_eq!(w.type_id(), Some(0x217a));
    let index = element_id_partition_index(std::slice::from_ref(&w));
    assert_eq!(
        index.get(&0x1c79),
        Some(&PartitionArcWallRef { partition: "Partitions/5".into(), offset: 100 })
    );
}

#[test]
fn the_index_keeps_the_first_wall_of_an_id_and_skips_unvalidated_ones() {
    let walls = vec![
        wall("Partitions/5", 10, None),
        wall("Partitions/5", 20, Some(7)),
        wall("Partitions/6", 30, Some(7)),
        PartitionArcWall { partition: "Partitions/6".into(), offset: 40, trailer: None },
    ];
    let index = element_id_partition_index(&walls);
    assert_eq!(index.len(), 1);
    assert_eq!(index[&7], PartitionArcWallRef { partition: "Partitions/5".into(), offset: 20 });
    assert_eq!(walls[3].element_id(), None);
    assert_eq!(walls[3].type_id(), None);
}

#[test]
fn per_release_tags_and_offsets() {
    assert_eq!(layer_frame_tag(2024), Some([0xa6, 0x10]));
    assert_eq!(layer_frame_tag(2025), Some([0x0e, 0x11]));
    assert_eq!(layer_frame_tag(2023), None);
    assert_eq!(wall_join_count_offset(2024), Some(12));
    assert_eq!(wall_join_count_offset(2025), Some(16));
    assert_eq!(wall_join_count_offset(2026), None);
    assert_eq!(material_object_tag(2024), Some([0x28, 0x0a]));
    assert_eq!(material_object_tag(2025), Some([0x6b, 0x0a]));
    assert_eq!(material_object_tag(2022), None);
    assert_eq!(material_name_frame_tag(2024), Some([0x49, 0x01]));
    assert_eq!(material_name_frame_tag(2025), Some([0x5c, 0x01]));
    assert_eq!(material_name_end_tag(2024), Some([0x17, 0x0c]));
    assert_eq!(material_name_end_tag(2025), Some([0x6b, 0x0c]));
    assert_eq!(material_name_end_tag(2023), None);
    assert!(partition_beam_axes::supports_revit_version(2024));
    assert!(!partition_beam_axes::supports_revit_version(2025));
}

fn orientation_bytes(line: u32, word: u32, flag: u32) -> Vec<u8> {
    let mut data = vec![0u8; 5];
    data.extend_from_slice(&WALL_FLIP_ANCHOR);
    data.extend_from_slice(&line.to_le_bytes());
    data.extend_from_slice(&word.to_le_bytes());
    data.extend_from_slice(&flag.to_le_bytes());
    data
}

#[test]
fn a_wall_orientation_follows_the_first_anchor() {
    assert_eq!(
        wall_orientation(&orientation_bytes(2, 1, 1)),
        Some(WallOrientation { location_line: 2, word: 1, flip: true })
    );
    assert_eq!(
        wall_orientation(&orientation_bytes(0, 0, 0)),
        Some(WallOrientation { location_line: 0, word: 0, flip: false })
    );
    assert_eq!(wall_orientation(&orientation_bytes(6, 1, 1)), None);
    assert_eq!(wall_orientation(&orientation_bytes(2, 3, 1)), None);
    assert_eq!(wall_orientation(&orientation_bytes(2, 1, 2)), None);
    assert_eq!(wall_orientation(&[0u8; 40]), None);
    let mut short = orientation_bytes(2, 1, 1);
    short.truncate(short.len() - 1);
    assert_eq!(wall_orientation(&short), None);
}
