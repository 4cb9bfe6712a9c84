use rvt_partitions::native_saved_scene::saved_element_status;

#[test]
fn status_taints_unbounded_faces_but_not_intentional_exclusions() {
    // Two visibility exclusions, three non-surface branches, one rejected
    // filter and one empty trim face leave nothing that taints the status.
    let diagnostics: Vec<String> = Vec::new();
    let mut unbounded_faces = 0usize;
    assert_eq!(saved_element_status(diagnostics.len(), unbounded_faces), "decoded_saved_graphics");
    unbounded_faces = 1;
    assert_eq!(saved_element_status(diagnostics.len(), unbounded_faces), "partial_saved_graphics");
    unbounded_faces = 0;
    let diagnostics = vec![String::from("unsupported face")];
    assert_eq!(saved_element_status(diagnostics.len(), unbounded_faces), "partial_saved_graphics");
}
