//! Verified decoders for what inflated Revit `Partitions/*` streams hold:
//! element and Level records, names, materials, design options, IFC export
//! parameters, host types' layers and walls' joins, and the counts of what
//! an export leaves out; the object graph's string records and document
//! history; and the PartAtom document of a family, read and written.

pub mod bytes;
pub mod collapse;
pub mod native_saved_scene;
pub mod native_scene;
pub mod native_texture;
pub mod object_graph;
pub mod parse_mode;
pub mod part_atom;
pub mod partition_arc_walls;
pub mod partition_beam_axes;
pub mod partition_compound_structure;
pub mod partition_design_options;
pub mod partition_element_records;
pub mod partition_id_objects;
pub mod partition_ifc_export_overrides;
pub mod partition_level_records;
pub mod partition_materials;
pub mod partition_name_candidates;
pub mod partition_names;
pub mod partitions;
pub mod text;
